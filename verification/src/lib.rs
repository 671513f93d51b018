//! A snake simulation on an N-dimensional lattice graph.
//!
//! The world is a `size`-per-axis lattice in 2 or 4 dimensions whose cells are
//! connected at Manhattan distance one.  A configurable number of cells are
//! overridden into portals (a single teleport target), a configurable number
//! hold food.  The snake is an ordered sequence of cell indices, tail first and
//! head last; a bounded breadth-first search ranks candidate moves by their
//! distance to the nearest food.

pub mod board;
pub mod eval;
pub mod game;
mod random;
