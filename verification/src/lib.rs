//! Anytime local-search placement of axis-aligned rectangles on a bounded
//! integer grid.
//!
//! Each rectangle must keep a fixed target point strictly inside its
//! half-open box and should approach a requested area; the optimizer runs
//! simulated annealing over local edits, using a hierarchical bucket index
//! to answer collision queries without an all-pairs scan.

pub mod geom;
pub mod grid;
pub mod qtree;
pub mod score;
pub mod fixed;
pub mod rng;
pub mod input;
pub mod anneal;
