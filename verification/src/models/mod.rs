pub mod digit_set;
pub mod guess;
pub mod sudoku;
pub mod value;

pub use crate::models::digit_set::DigitSet;
pub use crate::models::guess::Guess;
pub use crate::models::sudoku::Sudoku;
pub use crate::models::value::SudokuCell;
