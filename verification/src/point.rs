//! Grid coordinates and cost-carrying queue entries.

use vstd::prelude::*;

verus! {

/// An ordered pair of non-negative coordinates into the grid. `x` selects the
/// row, `y` the column; equality is structural.
#[derive(PartialEq, Eq, Structural, Clone, Copy, Debug)]
pub struct Point {
    pub x: usize,
    pub y: usize,
}

impl From<(usize, usize)> for Point {
    fn from(f: (usize, usize)) -> (r: Point)
        ensures
            r == (Point { x: f.0, y: f.1 }),
    {
        Point { x: f.0, y: f.1 }
    }
}

impl vstd::std_specs::convert::FromSpecImpl<(usize, usize)> for Point {
    open spec fn obeys_from_spec() -> bool {
        true
    }

    open spec fn from_spec(f: (usize, usize)) -> Point {
        Point { x: f.0, y: f.1 }
    }
}

/// A point paired with the cumulative cost at which it was enqueued by the
/// Dijkstra search.
#[derive(PartialEq, Eq, Structural, Clone, Copy, Debug)]
pub struct WeightedPoint {
    pub point: Point,
    pub weight: usize,
}

impl From<(Point, usize)> for WeightedPoint {
    fn from(f: (Point, usize)) -> (r: WeightedPoint)
        ensures
            r == (WeightedPoint { point: f.0, weight: f.1 }),
    {
        WeightedPoint { point: f.0, weight: f.1 }
    }
}

impl vstd::std_specs::convert::FromSpecImpl<(Point, usize)> for WeightedPoint {
    open spec fn obeys_from_spec() -> bool {
        true
    }

    open spec fn from_spec(f: (Point, usize)) -> WeightedPoint {
        WeightedPoint { point: f.0, weight: f.1 }
    }
}

} // verus!
