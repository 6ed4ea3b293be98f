//! The solver behind a request: digits in, the solved digits or an error out.

use vstd::prelude::*;

use crate::models::digit_set::all_digits;
use crate::models::sudoku::{
    group_cell, group_is_complete, group_values, initial_board, is_solved_board,
    lemma_cell_in_its_row, Sudoku,
};
use crate::models::value::{Board, CellView};
use crate::search::{fresh_state, search};
use crate::solver::{SudokuSolver, MAX_ITERATIONS};
use crate::utils::has_repeated_digit;

verus! {

/// A request: the digits of a puzzle, 0 for a blank.
pub struct SudokuInput {
    pub values: Vec<i8>,
}

/// An answer: the digits of the solved board, or none and the error mark.
pub struct SudokuOutput {
    pub values: Option<Vec<i8>>,
    pub error: bool,
}

/// The digits of a request as the board takes them.
pub open spec fn request_digits(values: Seq<i8>) -> Seq<u8> {
    values.map_values(|value: i8| value as u8)
}

/// The digits of a board, 0 for an open cell.
pub open spec fn board_digits(board: Board) -> Seq<i8> {
    board.map_values(
        |cell: CellView|
            match cell.value {
                Some(value) => value as i8,
                None => 0i8,
            },
    )
}

/// Every cell of a solved board holds a digit between 1 and 9.
pub proof fn lemma_solved_digits(board: Board, i: int)
    requires
        is_solved_board(board),
        0 <= i < 81,
    ensures
        board[i].value is Some,
        1 <= board[i].value->0 <= 9,
{
    lemma_cell_in_its_row(board, i);
    assert(group_is_complete(board, i / 9));
    let cell = group_cell(board, i / 9, i % 9);
    assert(cell.value is Some);
    assert(group_values(board, i / 9).contains(cell.value->0));
    assert(all_digits().contains(cell.value->0));
}

/// Answers a request: opens the board, solves it with a solver of its own,
/// and hands out the digits of the solved board.
///
/// The answer is the error mark, without digits, when the digits do not open
/// a board or the board is not solved.
pub fn solve(input: SudokuInput) -> (output: SudokuOutput)
    requires
        forall|i: int| 0 <= i < input.values@.len() ==> #[trigger] input.values@[i] >= 0,
    ensures
        ({
            let digits = request_digits(input.values@);
            if digits.len() == 81 && !has_repeated_digit(digits) {
                match search(fresh_state(initial_board(digits)), MAX_ITERATIONS as nat) {
                    Some(end) => !output.error && output.values is Some && output.values->0@
                        == board_digits(end.board),
                    None => output.error && output.values is None,
                }
            } else {
                output.error && output.values is None
            }
        }),
        output.values matches Some(digits) ==> {
            &&& digits@.len() == 81
            &&& forall|i: int| 0 <= i < 81 ==> 1 <= #[trigger] digits@[i] <= 9
            &&& forall|i: int|
                0 <= i < 81 && input.values@[i] != 0 ==> #[trigger] digits@[i] == input.values@[i]
        },
{
    let mut values: Vec<u8> = Vec::new();
    let mut i: usize = 0;
    while i < input.values.len()
        invariant
            i <= input.values@.len(),
            forall|j: int| 0 <= j < input.values@.len() ==> #[trigger] input.values@[j] >= 0,
            values@.len() == i,
            forall|j: int| 0 <= j < i ==> #[trigger] values@[j] == input.values@[j] as u8,
        decreases input.values.len() - i,
    {
        let value = input.values[i];
        values.push(value as u8);
        i += 1;
    }
    assert(values@ =~= request_digits(input.values@));
    let mut sudoku = match Sudoku::new(values) {
        Ok(sudoku) => sudoku,
        Err(_) => {
            return SudokuOutput { values: None, error: true };
        },
    };
    let ghost opened = sudoku@;
    let mut solver = SudokuSolver::new();
    match solver.solve_in_place(&mut sudoku) {
        Ok(()) => {
            proof {
                assert forall|i: int| 0 <= i < 81 implies 1 <= #[trigger] board_digits(
                    sudoku@,
                )[i] <= 9 && (input.values@[i] != 0 ==> board_digits(sudoku@)[i]
                    == input.values@[i]) by {
                    lemma_solved_digits(sudoku@, i);
                    assert(opened[i] == CellView::initial(
                        request_digits(input.values@)[i],
                    ));
                    if input.values@[i] != 0 {
                        assert(sudoku@[i] == opened[i]);
                    }
                }
            }
            let mut values: Vec<i8> = Vec::new();
            let mut index: usize = 0;
            while index < 81
                invariant
                    index <= 81,
                    sudoku@.len() == 81,
                    is_solved_board(sudoku@),
                    values@.len() == index,
                    forall|j: int|
                        0 <= j < index ==> #[trigger] values@[j] == board_digits(sudoku@)[j],
                decreases 81 - index,
            {
                proof {
                    lemma_solved_digits(sudoku@, index as int);
                }
                let cell = sudoku.cells[index];
                assert(cell@ == sudoku@[index as int]);
                values.push(
                    match cell.value {
                        Some(value) => value as i8,
                        None => 0,
                    },
                );
                index += 1;
            }
            assert(values@ =~= board_digits(sudoku@));
            SudokuOutput { values: Some(values), error: false }
        },
        Err(_) => SudokuOutput { values: None, error: true },
    }
}

} // verus!
