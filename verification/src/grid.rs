//! The grid model: cell state and bounds-checked queries and mutations.

use vstd::prelude::*;
use crate::point::Point;

verus! {

/// One grid position: impassable, or weighted with a presentation flag that
/// marks the cell as lying on the currently displayed path. The flag carries
/// no algorithmic meaning and never affects search results.
#[derive(PartialEq, Eq, Structural, Clone, Copy, Debug)]
pub enum Block {
    Blocked,
    Weighted { weight: usize, on_path: bool },
}

/// How a grid operation or a search can fail. `OutOfBounds` reports a
/// coordinate at or beyond the side length; `Unreachable` reports that no
/// path exists between the current start and end, or that either is unset.
#[derive(PartialEq, Eq, Structural, Clone, Copy, Debug)]
pub enum PathError {
    OutOfBounds,
    Unreachable,
}

/// A square matrix of cells with side length `side`, stored row-major:
/// the cell at `(x, y)` sits at flat index `x * side + y`.
pub struct Grid {
    pub side: usize,
    pub cells: Vec<Block>,
}

/// True of the `Blocked` variant alone.
pub open spec fn cell_blocked(b: Block) -> bool {
    match b {
        Block::Blocked => true,
        Block::Weighted { .. } => false,
    }
}

/// Traversal cost of entering a cell: its weight, or 0 for a blocked cell.
pub open spec fn cell_weight(b: Block) -> usize {
    match b {
        Block::Blocked => 0,
        Block::Weighted { weight, .. } => weight,
    }
}

/// The presentation flag of a cell; a blocked cell carries none.
pub open spec fn cell_flag(b: Block) -> bool {
    match b {
        Block::Blocked => false,
        Block::Weighted { on_path, .. } => on_path,
    }
}

/// Two cells agree on everything but the presentation flag.
pub open spec fn same_cell_structure(a: Block, b: Block) -> bool {
    match (a, b) {
        (Block::Blocked, Block::Blocked) => true,
        (
            Block::Weighted { weight: wa, on_path: _ },
            Block::Weighted { weight: wb, on_path: _ },
        ) => wa == wb,
        _ => false,
    }
}

impl Grid {
    /// Well-formedness: the flat cell store covers the whole square.
    pub open spec fn inv(self) -> bool {
        self.cells@.len() == self.side * self.side
    }

    /// The cell at row `x`, column `y` (spec-level, unchecked).
    pub open spec fn cell(self, x: int, y: int) -> Block {
        self.cells@[x * self.side + y]
    }

    /// `p` lies within the square.
    pub open spec fn contains_point(self, p: Point) -> bool {
        p.x < self.side && p.y < self.side
    }

    /// The cell at `p` (spec-level, unchecked).
    pub open spec fn cell_at_spec(self, p: Point) -> Block {
        self.cell(p.x as int, p.y as int)
    }

    /// `p` is in bounds and its cell can be traversed.
    pub open spec fn pathable(self, p: Point) -> bool {
        self.contains_point(p) && !cell_blocked(self.cell_at_spec(p))
    }
}

/// The flat index of an in-bounds coordinate pair stays within the cell store.
pub proof fn lemma_flat_index(x: int, y: int, side: int)
    requires
        0 <= x < side,
        0 <= y < side,
    ensures
        0 <= x * side + y < side * side,
{
    assert(x * side + y < side * side) by (nonlinear_arith)
        requires
            0 <= x < side,
            0 <= y < side,
    ;
    assert(0 <= x * side) by (nonlinear_arith)
        requires
            0 <= x,
            0 < side,
    ;
}

impl Grid {
    /// The cell at `p`, or `OutOfBounds` when either coordinate reaches the
    /// side length.
    pub fn cell_at(&self, p: Point) -> (r: Result<Block, PathError>)
        requires
            self.inv(),
        ensures
            self.contains_point(p) ==> r == Ok::<Block, PathError>(self.cell_at_spec(p)),
            !self.contains_point(p) ==> r == Err::<Block, PathError>(PathError::OutOfBounds),
    {
        if p.x >= self.side || p.y >= self.side {
            Err(PathError::OutOfBounds)
        } else {
            let n = self.cells.len();
            proof {
                lemma_flat_index(p.x as int, p.y as int, self.side as int);
            }
            Ok(self.cells[p.x * self.side + p.y])
        }
    }

    /// True iff the cell at `p` is the `Blocked` variant.
    pub fn is_blocked(&self, p: Point) -> (r: bool)
        requires
            self.inv(),
            self.contains_point(p),
        ensures
            r == cell_blocked(self.cell_at_spec(p)),
    {
        let n = self.cells.len();
        proof {
            lemma_flat_index(p.x as int, p.y as int, self.side as int);
        }
        match self.cells[p.x * self.side + p.y] {
            Block::Blocked => true,
            Block::Weighted { .. } => false,
        }
    }

    /// The weight of the cell at `p`; a blocked cell reports 0 (the neighbor
    /// rule filters blocked cells before any weight lookup).
    pub fn get_weight(&self, p: Point) -> (r: usize)
        requires
            self.inv(),
            self.contains_point(p),
        ensures
            r == cell_weight(self.cell_at_spec(p)),
    {
        let n = self.cells.len();
        proof {
            lemma_flat_index(p.x as int, p.y as int, self.side as int);
        }
        match self.cells[p.x * self.side + p.y] {
            Block::Weighted { weight, .. } => weight,
            Block::Blocked => 0,
        }
    }

    /// Sets only the presentation flag of a weighted cell; a blocked or
    /// out-of-bounds coordinate leaves the grid unchanged.
    pub fn set_on_path(&mut self, p: Point, flag: bool)
        requires
            old(self).inv(),
        ensures
            final(self).inv(),
            final(self).side == old(self).side,
            final(self).cells@.len() == old(self).cells@.len(),
            forall|x: int, y: int|
                0 <= x < final(self).side && 0 <= y < final(self).side
                    && !(x == p.x as int && y == p.y as int)
                    ==> final(self).cell(x, y) == old(self).cell(x, y),
            old(self).contains_point(p) && !cell_blocked(old(self).cell_at_spec(p)) ==> {
                &&& final(self).cell_at_spec(p) == (Block::Weighted {
                    weight: cell_weight(old(self).cell_at_spec(p)),
                    on_path: flag,
                })
                &&& final(self).contains_point(p)
            },
            !(old(self).contains_point(p) && !cell_blocked(old(self).cell_at_spec(p)))
                ==> final(self).cells@ == old(self).cells@,
    {
        if p.x >= self.side || p.y >= self.side {
            return ;
        }
        let n = self.cells.len();
        proof {
            lemma_flat_index(p.x as int, p.y as int, self.side as int);
        }
        let i = p.x * self.side + p.y;
        match self.cells[i] {
            Block::Weighted { weight, .. } => {
                self.cells.set(i, Block::Weighted { weight, on_path: flag });
                proof {
                    let side = self.side as int;
                    assert forall|x: int, y: int|
                        0 <= x < side && 0 <= y < side && !(x == p.x as int && y == p.y as int)
                        implies self.cell(x, y) == old(self).cell(x, y) by {
                        lemma_flat_index(x, y, side);
                        assert(x * side + y != p.x as int * side + p.y as int)
                            by (nonlinear_arith)
                            requires
                                0 <= x < side,
                                0 <= y < side,
                                0 <= (p.x as int) < side,
                                0 <= (p.y as int) < side,
                                !(x == p.x as int && y == p.y as int),
                        ;
                    }
                }
            },
            Block::Blocked => {},
        }
    }
}

/// Two grids have the same shape and agree on every cell up to the
/// presentation flag. Searches depend only on this structure, never on the
/// flags, so overlay updates preserve it.
pub open spec fn same_structure(a: Grid, b: Grid) -> bool {
    &&& a.side == b.side
    &&& a.cells@.len() == b.cells@.len()
    &&& forall|x: int, y: int|
        0 <= x < a.side && 0 <= y < a.side ==> same_cell_structure(
            #[trigger] a.cell(x, y),
            b.cell(x, y),
        )
}

impl Grid {
    /// Assembles a grid from a sequence of rows, as the map loader supplies
    /// them. Returns `None` unless every row's length equals the number of
    /// rows, since the grid must be square.
    pub fn from_rows(rows: Vec<Vec<Block>>) -> (r: Option<Grid>)
        ensures
            match r {
                Some(g) => {
                    &&& g.inv()
                    &&& g.side == rows@.len()
                    &&& forall|x: int, y: int|
                        0 <= x < g.side && 0 <= y < g.side ==> g.cell(x, y) == rows@[x]@[y]
                },
                None => !(forall|x: int|
                    0 <= x < rows@.len() ==> (#[trigger] rows@[x]@.len()) == rows@.len()),
            },
    {
        let n = rows.len();
        let mut x: usize = 0;
        while x < n
            invariant
                n == rows@.len(),
                x <= n,
                forall|i: int| 0 <= i < x ==> (#[trigger] rows@[i]@.len()) == n,
            decreases n - x,
        {
            if rows[x].len() != n {
                return None;
            }
            x = x + 1;
        }
        let mut cells: Vec<Block> = Vec::new();
        let mut x: usize = 0;
        while x < n
            invariant
                n == rows@.len(),
                x <= n,
                forall|i: int| 0 <= i < n ==> (#[trigger] rows@[i]@.len()) == n,
                cells@.len() == x * n,
                forall|i: int, j: int|
                    0 <= i < x && 0 <= j < n ==> cells@[i * n + j] == rows@[i]@[j],
            decreases n - x,
        {
            let mut y: usize = 0;
            while y < n
                invariant
                    n == rows@.len(),
                    x < n,
                    y <= n,
                    forall|i: int| 0 <= i < n ==> (#[trigger] rows@[i]@.len()) == n,
                    cells@.len() == x * n + y,
                    forall|i: int, j: int|
                        0 <= i < x && 0 <= j < n ==> cells@[i * n + j] == rows@[i]@[j],
                    forall|j: int| 0 <= j < y ==> cells@[x * n + j] == rows@[x as int]@[j],
                decreases n - y,
            {
                proof {
                    lemma_flat_index(x as int, y as int, n as int);
                    assert forall|i: int, j: int|
                        0 <= i < x && 0 <= j < n
                        implies #[trigger] (i * n + j) < x * n + y by {
                        assert(i * n + j < x * n) by (nonlinear_arith)
                            requires
                                0 <= i < x,
                                0 <= j < n,
                        ;
                    }
                }
                let c = rows[x][y];
                cells.push(c);
                y = y + 1;
            }
            proof {
                assert(x * n + n == (x + 1) * n) by (nonlinear_arith);
            }
            x = x + 1;
        }
        proof {
            assert forall|x: int, y: int| 0 <= x < n && 0 <= y < n implies 0 <= #[trigger] (x * n
                + y) < n * n by {
                lemma_flat_index(x, y, n as int);
            }
        }
        Some(Grid { side: n, cells })
    }
}

} // verus!
