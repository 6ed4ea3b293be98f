use vstd::prelude::*;

use crate::models::digit_set::{least_digit, DigitSet};
use crate::models::sudoku::board_well_formed;
use crate::models::value::{cells_view, copy_cells, same_cells, Board, CellView, SudokuCell};

verus! {

/// What a guess is to the contracts.
pub struct GuessView {
    pub index: int,
    pub value: u8,
    pub other_possibilities: Set<u8>,
    pub state: Board,
}

impl GuessView {
    /// The guess names a cell of a well-formed board.
    pub open spec fn well_formed(self) -> bool {
        0 <= self.index < 81 && board_well_formed(self.state)
    }

    /// The board that the guess leads to: the board before it, with the
    /// guessed digit written into the guessed cell.
    pub open spec fn applied(self) -> Board {
        self.state.update(
            self.index,
            CellView { value: Some(self.value), possibilities: None, is_original_value: false },
        )
    }

    /// The guess to try when this one has failed: on the same cell of the same
    /// board, the least of the digits not yet tried. There is none when all
    /// were tried.
    pub open spec fn sibling(self) -> Option<GuessView> {
        if self.other_possibilities.len() == 0 {
            None
        } else {
            let next = least_digit(self.other_possibilities);
            Some(
                GuessView {
                    value: next,
                    other_possibilities: self.other_possibilities.remove(next),
                    ..self
                },
            )
        }
    }
}

/// A branching decision of the search: the cell, the digit written into it, the
/// digits of that cell still untried, and the board as it was before.
#[derive(Debug, PartialEq, Eq, Hash)]
pub struct Guess {
    pub index: usize,
    pub value: u8,
    pub other_possibilities: DigitSet,
    pub state: Vec<SudokuCell>,
}

impl View for Guess {
    type V = GuessView;

    open spec fn view(&self) -> GuessView {
        GuessView {
            index: self.index as int,
            value: self.value,
            other_possibilities: self.other_possibilities@,
            state: cells_view(self.state@),
        }
    }
}

impl Clone for Guess {
    fn clone(&self) -> (copy: Guess)
        ensures
            copy@ == self@,
    {
        Guess {
            index: self.index,
            value: self.value,
            other_possibilities: self.other_possibilities,
            state: copy_cells(&self.state),
        }
    }
}

impl Guess {
    /// The guess to try when this one has failed, if a digit is left to try.
    pub fn other_guess(&self) -> (next: Option<Guess>)
        ensures
            match next {
                Some(guess) => self@.sibling() == Some(guess@),
                None => self@.sibling() is None,
            },
    {
        match self.other_possibilities.first() {
            Some(digit) => {
                let mut new_possibilities = self.other_possibilities;
                new_possibilities.remove(digit);
                Some(
                    Guess {
                        index: self.index,
                        value: digit,
                        other_possibilities: new_possibilities,
                        state: copy_cells(&self.state),
                    },
                )
            },
            None => None,
        }
    }

    /// Whether both guesses name the same cell, digit, untried digits and board.
    pub fn same_as(&self, other: &Guess) -> (same: bool)
        ensures
            same == (self@ == other@),
    {
        self.index == other.index && self.value == other.value
            && self.other_possibilities.same_as(&other.other_possibilities) && same_cells(
            &self.state,
            &other.state,
        )
    }
}

/// The board that a well-formed guess leads to is well-formed.
pub proof fn lemma_applied_well_formed(guess: GuessView)
    requires
        guess.well_formed(),
    ensures
        board_well_formed(guess.applied()),
{
    assert forall|i: int| 0 <= i < 81 implies (#[trigger] guess.applied()[i]).well_formed() by {
        if i != guess.index {
            assert(guess.state[i].well_formed());
        }
    }
}

} // verus!
