//! Verified Sudoku core: a 9x9 grid type, a validity checker, a randomized
//! backtracking solver, a probabilistic uniqueness check, and a puzzle
//! generator that carves cells out of a solved grid.

pub mod generator;
pub mod grid;
mod randomness;
pub mod solver;
pub mod uniqueness;
pub mod validity;

pub use generator::generate_puzzle;
pub use grid::Grid;
pub use solver::solve;
pub use uniqueness::has_unique_solution;
pub use validity::is_valid;
