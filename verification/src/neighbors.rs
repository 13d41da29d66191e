//! The neighbor rule: which points are reachable in one step from a given
//! point, under the adjacency policy chosen at construction. Both policies
//! produce a deterministic order and exclude blocked and out-of-bounds cells.

use vstd::prelude::*;
use crate::app::{Adjacency, App};
use crate::grid::Grid;
use crate::point::Point;

verus! {

/// The asymmetric four-directional rule: `(x, y+1)` and `(x+1, y)` are
/// always candidates; `(x-1, y)` only when `x > 0` and `(x, y-1)` only when
/// `y > 0`. Traversable candidates are kept in this fixed order, so search
/// tie-breaking is reproducible.
#[verifier::opaque]
pub open spec fn four_neighbors(g: Grid, p: Point) -> Seq<Point> {
    let c0 = Point { x: p.x, y: (p.y + 1) as usize };
    let c1 = Point { x: (p.x + 1) as usize, y: p.y };
    let c2 = Point { x: (p.x - 1) as usize, y: p.y };
    let c3 = Point { x: p.x, y: (p.y - 1) as usize };
    (if g.pathable(c0) {
        seq![c0]
    } else {
        Seq::empty()
    }) + (if g.pathable(c1) {
        seq![c1]
    } else {
        Seq::empty()
    }) + (if p.x > 0 && g.pathable(c2) {
        seq![c2]
    } else {
        Seq::empty()
    }) + (if p.y > 0 && g.pathable(c3) {
        seq![c3]
    } else {
        Seq::empty()
    })
}

/// One conditional step of the eight-directional rule: the candidate at
/// offset `(dx, dy)` from `p`, when it exists and is traversable.
#[verifier::opaque]
pub open spec fn eight_step(g: Grid, p: Point, dx: int, dy: int) -> Seq<Point> {
    if p.x + dx >= 0 && p.y + dy >= 0 && g.pathable(
        Point { x: (p.x + dx) as usize, y: (p.y + dy) as usize },
    ) {
        seq![Point { x: (p.x + dx) as usize, y: (p.y + dy) as usize }]
    } else {
        Seq::empty()
    }
}

/// The eight-directional rule: all eight compass neighbors within bounds that
/// are not blocked, in row-major offset order.
#[verifier::opaque]
pub open spec fn eight_neighbors(g: Grid, p: Point) -> Seq<Point> {
    eight_step(g, p, -1, -1) + eight_step(g, p, -1, 0) + eight_step(g, p, -1, 1) + eight_step(
        g,
        p,
        0,
        -1,
    ) + eight_step(g, p, 0, 1) + eight_step(g, p, 1, -1) + eight_step(g, p, 1, 0) + eight_step(
        g,
        p,
        1,
        1,
    )
}

/// The neighbors of `p` under the given policy.
pub open spec fn neighbors_spec(g: Grid, adj: Adjacency, p: Point) -> Seq<Point> {
    match adj {
        Adjacency::FourDirectional => four_neighbors(g, p),
        Adjacency::EightDirectional => eight_neighbors(g, p),
    }
}

/// Every neighbor produced by either policy is in bounds and traversable.
pub proof fn lemma_neighbors_pathable(g: Grid, adj: Adjacency, p: Point)
    ensures
        forall|i: int|
            0 <= i < neighbors_spec(g, adj, p).len() ==> g.pathable(
                #[trigger] neighbors_spec(g, adj, p)[i],
            ),
{
    reveal(four_neighbors);
    reveal(eight_neighbors);
    reveal(eight_step);
}

/// Grids with the same structure agree on the neighbors of every point: the
/// rule reads bounds and blockedness alone, never the presentation flags.
pub proof fn lemma_neighbors_structure(a: Grid, b: Grid, adj: Adjacency, p: Point)
    requires
        crate::grid::same_structure(a, b),
    ensures
        neighbors_spec(a, adj, p) == neighbors_spec(b, adj, p),
{
    reveal(four_neighbors);
    reveal(eight_neighbors);
    reveal(eight_step);
    assert forall|q: Point| true implies a.pathable(q) == b.pathable(q) by {
        if q.x < a.side && q.y < a.side {
            assert(crate::grid::same_cell_structure(
                a.cell(q.x as int, q.y as int),
                b.cell(q.x as int, q.y as int),
            ));
        }
    }
    match adj {
        Adjacency::FourDirectional => {
            assert(four_neighbors(a, p) == four_neighbors(b, p));
        },
        Adjacency::EightDirectional => {
            assert(eight_neighbors(a, p) == eight_neighbors(b, p));
        },
    }
}

impl App {
    /// `p` lies within the grid and its cell can be traversed.
    pub fn is_pathable_point(&self, p: Point) -> (r: bool)
        requires
            self.grid.inv(),
        ensures
            r == self.grid.pathable(p),
    {
        if p.x >= self.grid.side || p.y >= self.grid.side {
            return false;
        }
        !self.grid.is_blocked(p)
    }

    /// The asymmetric four-directional neighbors of `current`, in the fixed
    /// candidate order.
    pub fn get_neighbors(&self, current: Point) -> (r: Vec<Point>)
        requires
            self.grid.inv(),
            self.grid.contains_point(current),
        ensures
            r@ == four_neighbors(self.grid, current),
    {
        let mut neighbors: Vec<Point> = Vec::new();
        let c0 = Point { x: current.x, y: current.y + 1 };
        if self.is_pathable_point(c0) {
            neighbors.push(c0);
        }
        let c1 = Point { x: current.x + 1, y: current.y };
        if self.is_pathable_point(c1) {
            neighbors.push(c1);
        }
        if current.x > 0 {
            let c2 = Point { x: current.x - 1, y: current.y };
            if self.is_pathable_point(c2) {
                neighbors.push(c2);
            }
        }
        if current.y > 0 {
            let c3 = Point { x: current.x, y: current.y - 1 };
            if self.is_pathable_point(c3) {
                neighbors.push(c3);
            }
        }
        proof {
            reveal(four_neighbors);
            assert(neighbors@ =~= four_neighbors(self.grid, current));
        }
        neighbors
    }

    /// The eight-directional neighbors of `current`, in row-major offset
    /// order.
    /// The first four candidates of the eight-directional rule: the three
    /// neighbors of the previous row and the left neighbor.
    fn diagonal_upper(&self, current: Point) -> (r: Vec<Point>)
        requires
            self.grid.inv(),
            self.grid.contains_point(current),
        ensures
            r@ == eight_step(self.grid, current, -1, -1) + eight_step(self.grid, current, -1, 0)
                + eight_step(self.grid, current, -1, 1) + eight_step(self.grid, current, 0, -1),
    {
        proof {
            reveal(eight_step);
        }
        let ghost gg = self.grid;
        let ghost s0 = eight_step(gg, current, -1, -1);
        let ghost s1 = eight_step(gg, current, -1, 0);
        let ghost s2 = eight_step(gg, current, -1, 1);
        let ghost s3 = eight_step(gg, current, 0, -1);
        let mut neighbors: Vec<Point> = Vec::new();
        let ghost p0 = neighbors@;
        if current.x > 0 && current.y > 0 {
            let c = Point { x: current.x - 1, y: current.y - 1 };
            if self.is_pathable_point(c) {
                neighbors.push(c);
            }
        }
        proof {
            assert(neighbors@ =~= p0 + s0);
        }
        let ghost p1 = neighbors@;
        if current.x > 0 {
            let c = Point { x: current.x - 1, y: current.y };
            if self.is_pathable_point(c) {
                neighbors.push(c);
            }
        }
        proof {
            assert(neighbors@ =~= p1 + s1);
        }
        let ghost p2 = neighbors@;
        if current.x > 0 {
            let c = Point { x: current.x - 1, y: current.y + 1 };
            if self.is_pathable_point(c) {
                neighbors.push(c);
            }
        }
        proof {
            assert(neighbors@ =~= p2 + s2);
        }
        let ghost p3 = neighbors@;
        if current.y > 0 {
            let c = Point { x: current.x, y: current.y - 1 };
            if self.is_pathable_point(c) {
                neighbors.push(c);
            }
        }
        proof {
            assert(neighbors@ =~= p3 + s3);
            assert(p0 + s0 =~= s0);
        }
        neighbors
    }

    /// The eight-directional neighbors of `current`, in row-major offset
    /// order.
    pub fn get_diagonal_neighbors(&self, current: Point) -> (r: Vec<Point>)
        requires
            self.grid.inv(),
            self.grid.contains_point(current),
        ensures
            r@ == eight_neighbors(self.grid, current),
    {
        proof {
            reveal(eight_step);
            reveal(eight_neighbors);
        }
        let ghost gg = self.grid;
        let ghost s4 = eight_step(gg, current, 0, 1);
        let ghost s5 = eight_step(gg, current, 1, -1);
        let ghost s6 = eight_step(gg, current, 1, 0);
        let ghost s7 = eight_step(gg, current, 1, 1);
        let mut neighbors: Vec<Point> = self.diagonal_upper(current);
        let ghost p4 = neighbors@;
        let c = Point { x: current.x, y: current.y + 1 };
        if self.is_pathable_point(c) {
            neighbors.push(c);
        }
        proof {
            assert(neighbors@ =~= p4 + s4);
        }
        let ghost p5 = neighbors@;
        if current.y > 0 {
            let c = Point { x: current.x + 1, y: current.y - 1 };
            if self.is_pathable_point(c) {
                neighbors.push(c);
            }
        }
        proof {
            assert(neighbors@ =~= p5 + s5);
        }
        let ghost p6 = neighbors@;
        let c = Point { x: current.x + 1, y: current.y };
        if self.is_pathable_point(c) {
            neighbors.push(c);
        }
        proof {
            assert(neighbors@ =~= p6 + s6);
        }
        let ghost p7 = neighbors@;
        let c = Point { x: current.x + 1, y: current.y + 1 };
        if self.is_pathable_point(c) {
            neighbors.push(c);
        }
        proof {
            assert(neighbors@ =~= p7 + s7);
            assert(neighbors@ == eight_neighbors(self.grid, current));
        }
        neighbors
    }

    /// The neighbors of `current` under this application's policy.
    pub fn neighbors_of(&self, current: Point) -> (r: Vec<Point>)
        requires
            self.grid.inv(),
            self.grid.contains_point(current),
        ensures
            r@ == neighbors_spec(self.grid, self.adjacency, current),
    {
        match self.adjacency {
            Adjacency::FourDirectional => self.get_neighbors(current),
            Adjacency::EightDirectional => self.get_diagonal_neighbors(current),
        }
    }
}

} // verus!
