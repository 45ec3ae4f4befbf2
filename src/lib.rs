//! An N×N sliding-tile puzzle: the grid, its moves, and the check for a solve.
pub mod clock;
pub mod grid;
pub mod puzzle;
pub mod random;
pub mod text;

pub use puzzle::Puzzle;
