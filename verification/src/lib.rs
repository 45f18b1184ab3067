//! Solver for the Digits number puzzle: given a pool of six numbers and a
//! target, find a sequence of binary arithmetic operations that combines pool
//! members pairwise until the target appears in the pool.

pub mod ops;
pub mod pool;
pub mod replay;
pub mod solver;
pub mod state;

pub use ops::Operations;
pub use ops::PuzzleEquation;
pub use state::Puzzle;
