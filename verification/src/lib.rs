//! A perfect rectangular maze: a grid of cells whose open passages form a
//! spanning tree, carved by randomized depth-first search and solved by
//! breadth-first search.
//!
//! The grid model lives in [`grid`], the two algorithm passes in
//! [`engine`]; [`count`] and [`path`] hold the specification vocabulary
//! (passage counts, reachability) their contracts are stated in, and
//! [`laws`] the proofs tying the passes together.

pub mod count;
pub mod engine;
pub mod grid;
pub mod laws;
pub mod path;
pub mod rng;

pub use grid::{
    BottomBoundary, Cell, Direction, Maze, MazeError, RightBoundary, VisitStatus,
};
