//! The pathfinding application state: grid, designated endpoints, and the
//! overlay bookkeeping that keeps the flagged cells equal to the cells of the
//! most recent successful path.

use vstd::prelude::*;
use crate::grid::{Block, Grid, cell_flag, same_structure};
use crate::point::Point;

verus! {

/// The adjacency policy, selected once at construction. `FourDirectional` is
/// a deliberately asymmetric rule: down and right are always candidates, up
/// only when `x > 0` and left only when `y > 0`. `EightDirectional` admits
/// all eight compass neighbors.
#[derive(PartialEq, Eq, Structural, Clone, Copy, Debug)]
pub enum Adjacency {
    FourDirectional,
    EightDirectional,
}

/// Search and overlay state over one grid. `path` is the most recent
/// successful path, ordered from end to start; its cells are exactly the
/// cells whose `on_path` flag is set.
pub struct App {
    pub grid: Grid,
    pub path: Vec<Point>,
    pub start: Option<Point>,
    pub end: Option<Point>,
    pub adjacency: Adjacency,
}

impl App {
    /// Well-formedness: the grid is square, every recorded path point is an
    /// in-bounds traversable cell, and a cell carries the `on_path` flag
    /// exactly when it lies on the recorded path.
    pub open spec fn inv(self) -> bool {
        &&& self.grid.inv()
        &&& forall|k: int|
            0 <= k < self.path@.len() ==> self.grid.pathable(#[trigger] self.path@[k])
        &&& forall|x: int, y: int|
            0 <= x < self.grid.side && 0 <= y < self.grid.side ==> cell_flag(
                #[trigger] self.grid.cell(x, y),
            ) == self.path@.contains(Point { x: x as usize, y: y as usize })
    }

    /// The search and overlay operations never change the grid's shape, the
    /// blocked/weighted structure, the designated endpoints, or the policy.
    pub open spec fn preserves(pre: App, post: App) -> bool {
        &&& same_structure(pre.grid, post.grid)
        &&& post.start == pre.start
        &&& post.end == pre.end
        &&& post.adjacency == pre.adjacency
    }

    /// Builds the application state around a freshly loaded grid: no path, no
    /// designated endpoints, and every presentation flag cleared.
    pub fn new(grid: Grid, adjacency: Adjacency) -> (r: App)
        requires
            grid.inv(),
        ensures
            r.inv(),
            same_structure(grid, r.grid),
            r.path@.len() == 0,
            r.start is None,
            r.end is None,
            r.adjacency == adjacency,
    {
        let ghost g0 = grid;
        let mut g = grid;
        let n = g.cells.len();
        let mut i: usize = 0;
        while i < n
            invariant
                g.side == g0.side,
                g.cells@.len() == g0.cells@.len(),
                n == g.cells@.len(),
                i <= n,
                forall|j: int|
                    0 <= j < i ==> crate::grid::same_cell_structure(
                        g0.cells@[j],
                        #[trigger] g.cells@[j],
                    ) && !cell_flag(g.cells@[j]),
                forall|j: int| i <= j < n ==> #[trigger] g.cells@[j] == g0.cells@[j],
            decreases n - i,
        {
            match g.cells[i] {
                Block::Weighted { weight, .. } => {
                    g.cells.set(i, Block::Weighted { weight, on_path: false });
                },
                Block::Blocked => {},
            }
            i = i + 1;
        }
        proof {
            assert forall|x: int, y: int|
                0 <= x < g.side && 0 <= y < g.side implies !cell_flag(#[trigger] g.cell(x, y))
                && crate::grid::same_cell_structure(g0.cell(x, y), g.cell(x, y)) by {
                crate::grid::lemma_flat_index(x, y, g.side as int);
            }
        }
        App { grid: g, path: Vec::new(), start: None, end: None, adjacency }
    }

    /// Retracts the current overlay: clears the `on_path` flag of every cell
    /// on the recorded path and empties the path. Afterwards no cell is
    /// flagged.
    pub fn clear_path(&mut self)
        requires
            old(self).inv(),
        ensures
            final(self).inv(),
            App::preserves(*old(self), *final(self)),
            final(self).path@.len() == 0,
            forall|x: int, y: int|
                0 <= x < final(self).grid.side && 0 <= y < final(self).grid.side ==> !cell_flag(
                    #[trigger] final(self).grid.cell(x, y),
                ),
    {
        let ghost pre = *self;
        let m = self.path.len();
        let mut k: usize = 0;
        while k < m
            invariant
                self.grid.inv(),
                same_structure(pre.grid, self.grid),
                self.path == pre.path,
                self.start == pre.start,
                self.end == pre.end,
                self.adjacency == pre.adjacency,
                m == self.path@.len(),
                k <= m,
                forall|j: int| 0 <= j < m ==> pre.grid.pathable(#[trigger] self.path@[j]),
                forall|x: int, y: int|
                    0 <= x < self.grid.side && 0 <= y < self.grid.side ==> cell_flag(
                        #[trigger] self.grid.cell(x, y),
                    ) == (pre.path@.contains(Point { x: x as usize, y: y as usize })
                        && !pre.path@.take(k as int).contains(
                        Point { x: x as usize, y: y as usize },
                    )),
            decreases m - k,
        {
            let p = self.path[k];
            proof {
                assert(pre.grid.pathable(p));
                assert(self.grid.pathable(p));
            }
            self.grid.set_on_path(p, false);
            proof {
                assert(pre.path@.take(k + 1 as int) =~= pre.path@.take(k as int).push(
                    pre.path@[k as int],
                ));
                assert forall|x: int, y: int|
                    0 <= x < self.grid.side && 0 <= y < self.grid.side implies cell_flag(
                    #[trigger] self.grid.cell(x, y),
                ) == (pre.path@.contains(Point { x: x as usize, y: y as usize })
                    && !pre.path@.take(k + 1 as int).contains(
                    Point { x: x as usize, y: y as usize },
                )) by {
                    let q = Point { x: x as usize, y: y as usize };
                    if q == p {
                        assert(pre.path@.take(k + 1 as int).contains(q)) by {
                            assert(pre.path@.take(k + 1 as int)[k as int] == q);
                        }
                    }
                }
            }
            k = k + 1;
        }
        proof {
            assert(pre.path@.take(m as int) =~= pre.path@);
        }
        self.path.clear();
    }

    /// Applies the overlay for the recorded path: sets the `on_path` flag of
    /// every cell on it. Expects a clean slate, as `clear_path` leaves it.
    pub fn enter_path(&mut self)
        requires
            old(self).grid.inv(),
            forall|k: int|
                0 <= k < old(self).path@.len() ==> old(self).grid.pathable(
                    #[trigger] old(self).path@[k],
                ),
            forall|x: int, y: int|
                0 <= x < old(self).grid.side && 0 <= y < old(self).grid.side ==> !cell_flag(
                    #[trigger] old(self).grid.cell(x, y),
                ),
        ensures
            final(self).inv(),
            App::preserves(*old(self), *final(self)),
            final(self).path == old(self).path,
    {
        let ghost pre = *self;
        let m = self.path.len();
        let mut k: usize = 0;
        while k < m
            invariant
                self.grid.inv(),
                same_structure(pre.grid, self.grid),
                self.path == pre.path,
                self.start == pre.start,
                self.end == pre.end,
                self.adjacency == pre.adjacency,
                m == self.path@.len(),
                k <= m,
                forall|j: int| 0 <= j < m ==> pre.grid.pathable(#[trigger] self.path@[j]),
                forall|x: int, y: int|
                    0 <= x < self.grid.side && 0 <= y < self.grid.side ==> cell_flag(
                        #[trigger] self.grid.cell(x, y),
                    ) == pre.path@.take(k as int).contains(Point { x: x as usize, y: y as usize }),
            decreases m - k,
        {
            let p = self.path[k];
            proof {
                assert(pre.grid.pathable(p));
                assert(self.grid.pathable(p));
            }
            self.grid.set_on_path(p, true);
            proof {
                assert(pre.path@.take(k + 1 as int) =~= pre.path@.take(k as int).push(
                    pre.path@[k as int],
                ));
                assert forall|x: int, y: int|
                    0 <= x < self.grid.side && 0 <= y < self.grid.side implies cell_flag(
                    #[trigger] self.grid.cell(x, y),
                ) == pre.path@.take(k + 1 as int).contains(
                    Point { x: x as usize, y: y as usize },
                ) by {
                    let q = Point { x: x as usize, y: y as usize };
                    if q == p {
                        assert(pre.path@.take(k + 1 as int).contains(q)) by {
                            assert(pre.path@.take(k + 1 as int)[k as int] == q);
                        }
                    }
                }
            }
            k = k + 1;
        }
        proof {
            assert(pre.path@.take(m as int) =~= pre.path@);
        }
    }
}

} // verus!
