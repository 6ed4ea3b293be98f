//! A 9x9 sudoku engine: constraint propagation over candidate sets and a
//! backtracking search with an explicit guess history, verified against a
//! mathematical model of the board.

pub mod errors;
pub mod models;
pub mod parse;
pub mod progress;
pub mod propagation;
pub mod render;
pub mod search;
pub mod server;
pub mod solutions;
pub mod solver;
pub mod utils;

pub use crate::models::Sudoku;
pub use crate::solver::SudokuSolver;
