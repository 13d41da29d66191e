//! Shortest-path search over a square grid of weighted and blocked cells.
//!
//! The grid holds one cell per coordinate pair: either `Blocked` (impassable)
//! or `Weighted` with a traversal cost and a presentation flag that marks the
//! cell as lying on the most recently computed path. Two searches are
//! provided, an unweighted breadth-first search and a weighted Dijkstra
//! search, each over a configurable adjacency policy. A successful search
//! overlays its path on the grid; the previous overlay is always retracted
//! first, so the flagged cells are exactly the cells of the most recent
//! successful path.

pub mod app;
pub mod grid;
pub mod neighbors;
pub mod parse;
pub mod point;
pub mod search;
