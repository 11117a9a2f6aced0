//! Stick-path (ladder) puzzles: an ASCII diagram of vertical lanes joined by
//! horizontal rungs is parsed and strictly validated into a rectangular
//! character grid, and each top label is traced down the ladder to the bottom
//! label it reaches.

pub mod grid;
pub mod laws;
pub mod trace;

pub use grid::Graph;
pub use grid::ParseError;
pub use trace::solve_puzzle;
