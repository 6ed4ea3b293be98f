use vstd::prelude::*;

use crate::errors::{SudokuCreationError, UnsolvableSudokuError};
use crate::models::digit_set::{all_digits, lemma_nine_digits_are_all, DigitSet};
use crate::models::value::{cells_view, copy_cells, Board, CellView, SudokuCell};
use crate::parse::{parse_digits, parsed_digits};
use crate::propagation::{
    board_is_usable, checked, checked_upto, filter_fails, filtered, has_void_cell,
    keeps_digits, partly_filtered, propagate,
};
use crate::search::{fresh_state, search};
use crate::solutions::fits;
use crate::solver::{SudokuSolver, MAX_ITERATIONS};
use crate::utils::{assert_values, group_index, has_repeated_digit, GroupIndexes};

verus! {

/// The board has 81 cells, and each holds a digit or a non-empty set of candidates.
pub open spec fn board_well_formed(board: Board) -> bool {
    &&& board.len() == 81
    &&& forall|i: int| 0 <= i < 81 ==> (#[trigger] board[i]).well_formed()
}

/// The board that a sequence of digits opens: a cell for each digit.
pub open spec fn initial_board(values: Seq<u8>) -> Board {
    Seq::new(values.len(), |i: int| CellView::initial(values[i]))
}

/// The `k`-th cell of group `group`.
pub open spec fn group_cell(board: Board, group: int, k: int) -> CellView {
    board[group_index(group, k)]
}

/// The digits that the cells of a group hold as their values.
pub open spec fn group_values(board: Board, group: int) -> Set<u8> {
    Set::new(
        |d: u8|
            exists|k: int| 0 <= k < 9 && #[trigger] group_cell(board, group, k).value == Some(d),
    )
}

/// No cell of the group is blank.
pub open spec fn group_is_filled(board: Board, group: int) -> bool {
    forall|k: int| 0 <= k < 9 ==> (#[trigger] group_cell(board, group, k)).value is Some
}

/// The group holds all nine digits and no blank.
pub open spec fn group_is_complete(board: Board, group: int) -> bool {
    group_is_filled(board, group) && group_values(board, group) == all_digits()
}

/// Every row, column and block holds all nine digits and no blank.
pub open spec fn is_solved_board(board: Board) -> bool {
    forall|group: int| 0 <= group < 27 ==> #[trigger] group_is_complete(board, group)
}

/// Each cell lies in the row whose number is its index divided by nine.
pub proof fn lemma_cell_in_its_row(board: Board, i: int)
    requires
        0 <= i < 81,
    ensures
        0 <= i / 9 < 9,
        0 <= i % 9 < 9,
        group_cell(board, i / 9, i % 9) == board[i],
{
}

/// A board with a blank cell is not solved.
pub proof fn lemma_blank_is_unsolved(board: Board, i: int)
    requires
        0 <= i < 81,
        board[i].value is None,
    ensures
        !is_solved_board(board),
{
    lemma_cell_in_its_row(board, i);
    assert(!group_is_complete(board, i / 9));
}

/// A 9x9 sudoku board: 81 cells, row by row.
#[derive(Debug)]
pub struct Sudoku {
    pub cells: Vec<SudokuCell>,
}

impl View for Sudoku {
    type V = Board;

    open spec fn view(&self) -> Board {
        cells_view(self.cells@)
    }
}

impl Clone for Sudoku {
    fn clone(&self) -> (copy: Sudoku)
        ensures
            copy@ == self@,
    {
        Sudoku { cells: copy_cells(&self.cells) }
    }
}

impl Sudoku {
    /// The board has 81 cells, and each holds a digit or a non-empty set of candidates.
    pub open spec fn well_formed(&self) -> bool {
        board_well_formed(self@)
    }

    /// Opens a board from 81 digits, 0 for a blank.
    ///
    /// Any other length is refused as `InvalidLength`, and a non-zero digit
    /// that stands twice in a row, a column or a block as `InvalidValues`.
    pub fn new(values: Vec<u8>) -> (created: Result<Sudoku, SudokuCreationError>)
        ensures
            values@.len() != 81 ==> created == Err::<Sudoku, SudokuCreationError>(
                SudokuCreationError::InvalidLength,
            ),
            values@.len() == 81 && has_repeated_digit(values@) ==> created == Err::<
                Sudoku,
                SudokuCreationError,
            >(SudokuCreationError::InvalidValues),
            values@.len() == 81 && !has_repeated_digit(values@) ==> created is Ok,
            created matches Ok(sudoku) ==> sudoku@ == initial_board(values@)
                && sudoku.well_formed(),
    {
        match assert_values(values.clone()) {
            Ok(()) => {},
            Err(err) => {
                return Err(err);
            },
        }
        let mut cells: Vec<SudokuCell> = Vec::new();
        let mut i: usize = 0;
        while i < values.len()
            invariant
                i <= values@.len(),
                cells@.len() == i,
                forall|j: int|
                    0 <= j < i ==> (#[trigger] cells@[j])@ == CellView::initial(values@[j]),
            decreases values.len() - i,
        {
            cells.push(SudokuCell::new(values[i]));
            i += 1;
        }
        let sudoku = Sudoku { cells };
        proof {
            assert(sudoku@ =~= initial_board(values@));
            crate::models::digit_set::lemma_all_digits();
            assert forall|j: int| 0 <= j < 81 implies (#[trigger] sudoku@[j]).well_formed() by {
                assert(sudoku@[j] == CellView::initial(values@[j]));
            }
        }
        Ok(sudoku)
    }

    /// Whether every row, column and block holds all nine digits.
    ///
    /// A board with a blank cell is never solved.
    pub fn is_solved(&self) -> (solved: bool)
        requires
            self@.len() == 81,
        ensures
            solved == is_solved_board(self@),
            (exists|i: int| 0 <= i < 81 && (#[trigger] self@[i]).value is None) ==> !solved,
    {
        let mut groups = GroupIndexes::new();
        let mut group: usize = 0;
        while group < 27
            invariant
                group <= 27,
                groups@ == group,
                self@.len() == 81,
                forall|g: int| 0 <= g < group ==> #[trigger] group_is_complete(self@, g),
            decreases 27 - group,
        {
            let indexes = groups.next().unwrap();
            let mut seen = DigitSet::new();
            let mut k: usize = 0;
            while k < 9
                invariant
                    k <= 9,
                    group < 27,
                    self@.len() == 81,
                    indexes@.len() == 9,
                    forall|j: int| 0 <= j < 9 ==> indexes@[j] == group_index(group as int, j),
                    forall|j: int| 0 <= j < 9 ==> indexes@[j] < 81,
                    forall|j: int|
                        0 <= j < k ==> (#[trigger] group_cell(self@, group as int, j)).value
                            is Some,
                    forall|d: u8|
                        seen@.contains(d) <==> exists|j: int|
                            0 <= j < k && #[trigger] group_cell(self@, group as int, j).value
                                == Some(d),
                decreases 9 - k,
            {
                let index = indexes[k];
                assert(self@[index as int] == group_cell(self@, group as int, k as int));
                if let Some(value) = self.cells[index].value {
                    if 1 <= value && value <= 9 {
                        seen.insert(value);
                    } else {
                        proof {
                            assert(group_values(self@, group as int).contains(value));
                            assert(!all_digits().contains(value));
                            assert(!group_is_complete(self@, group as int));
                        }
                        return false;
                    }
                } else {
                    assert(!group_is_complete(self@, group as int));
                    return false;
                }
                k += 1;
            }
            proof {
                seen.lemma_view_is_digits();
                lemma_nine_digits_are_all(seen@);
                assert(seen@ =~= group_values(self@, group as int));
            }
            if seen.len() != 9 {
                assert(!group_is_complete(self@, group as int));
                return false;
            }
            assert(group_is_complete(self@, group as int));
            group += 1;
        }
        proof {
            if exists|i: int| 0 <= i < 81 && (#[trigger] self@[i]).value is None {
                let i = choose|i: int| 0 <= i < 81 && (#[trigger] self@[i]).value is None;
                lemma_blank_is_unsolved(self@, i);
            }
        }
        true
    }

    /// Opens a board from a line of text: 81 fields between commas, each a
    /// digit with blanks around it at most, and a blank for whatever else.
    ///
    /// The text has to hold 81 fields, and no digit twice in a row, a column
    /// or a block.
    pub fn from(s: &str) -> (sudoku: Sudoku)
        requires
            parsed_digits(s@).len() == 81,
            !has_repeated_digit(parsed_digits(s@)),
        ensures
            sudoku@ == initial_board(parsed_digits(s@)),
            sudoku.well_formed(),
    {
        Sudoku::new(parse_digits(s)).unwrap()
    }

    /// The filter of the solver, on this board.
    pub fn filter(&mut self) -> (done: Result<bool, UnsolvableSudokuError>)
        requires
            board_is_usable(old(self)@),
        ensures
            done is Err <==> filter_fails(old(self)@),
            done matches Ok(modified) ==> final(self)@ == filtered(old(self)@) && modified == (
            final(self)@ != old(self)@),
            done is Err ==> partly_filtered(old(self)@, final(self)@),
            board_well_formed(old(self)@) ==> board_well_formed(final(self)@),
    {
        SudokuSolver::filter(self)
    }

    /// The check of the solver, on this board.
    pub fn check(&mut self) -> (done: Result<bool, UnsolvableSudokuError>)
        requires
            old(self)@.len() == 81,
        ensures
            done is Err <==> exists|i: int| 0 <= i < 81 && (#[trigger] old(self)@[i]).is_void(),
            done matches Ok(modified) ==> final(self)@ == checked(old(self)@) && modified == (
            final(self)@ != old(self)@),
            done is Err ==> exists|g: int|
                0 <= g < 27 && #[trigger] has_void_cell(old(self)@, g) && final(self)@
                    == checked_upto(old(self)@, g),
            board_well_formed(old(self)@) ==> board_well_formed(final(self)@),
    {
        SudokuSolver::check(self)
    }

    /// Solves the board as far as the rules go without a guess.
    pub fn try_solve(&mut self) -> (done: Result<(), UnsolvableSudokuError>)
        requires
            old(self).well_formed(),
        ensures
            done is Err <==> propagate(old(self)@) is None,
            done is Ok ==> propagate(old(self)@) == Some(final(self)@),
            final(self).well_formed(),
            keeps_digits(old(self)@, final(self)@),
            forall|solution: Board| #[trigger]
                fits(old(self)@, solution) ==> done is Ok && fits(final(self)@, solution),
    {
        SudokuSolver::try_solve(self)
    }

    /// Solves the board in place, with a solver of its own.
    ///
    /// The solved board keeps the digits that the board had.
    pub fn solve(&mut self) -> (done: Result<(), UnsolvableSudokuError>)
        requires
            old(self).well_formed(),
        ensures
            done is Ok <==> search(fresh_state(old(self)@), MAX_ITERATIONS as nat) is Some,
            done is Ok ==> {
                &&& final(self)@ == search(fresh_state(old(self)@), MAX_ITERATIONS as nat)->0.board
                &&& is_solved_board(final(self)@)
                &&& keeps_digits(old(self)@, final(self)@)
            },
            final(self).well_formed(),
    {
        let mut solver = SudokuSolver::new();
        solver.solve_in_place(self)
    }
}

} // verus!
