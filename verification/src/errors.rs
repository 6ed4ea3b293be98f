use vstd::prelude::*;

verus! {

/// The board admits no completion that the engine can find: propagation met a
/// cell without candidates, or the search ran out of guesses or of iterations.
#[derive(Debug)]
pub struct UnsolvableSudokuError;

/// Why a sequence of digits is no sudoku.
#[derive(Debug, Clone, Copy, PartialEq, Eq, Structural)]
pub enum SudokuCreationError {
    /// The sequence does not hold exactly 81 digits.
    InvalidLength,
    /// A row, a column or a block holds the same non-zero digit twice.
    InvalidValues,
}

/// Every unsolved cell's next guess was already tried.
#[derive(Debug)]
pub struct NoMoreGuessesError;

} // verus!
