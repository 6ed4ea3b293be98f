use vstd::prelude::*;

use crate::models::digit_set::{all_digits, DigitSet};

verus! {

/// What a cell is to the contracts: its digit, if it has one, and else the set
/// of digits that it may still take.
pub struct CellView {
    pub value: Option<u8>,
    pub possibilities: Option<Set<u8>>,
    pub is_original_value: bool,
}

impl CellView {
    /// A cell holds either a digit or a non-empty set of candidate digits,
    /// never both and never neither.
    pub open spec fn well_formed(self) -> bool {
        match (self.value, self.possibilities) {
            (Some(_), None) => true,
            (None, Some(candidates)) => {
                &&& candidates.finite()
                &&& candidates.len() > 0
                &&& candidates.subset_of(all_digits())
            },
            _ => false,
        }
    }

    /// The cell has no digit and no candidates either.
    pub open spec fn is_void(self) -> bool {
        self.value is None && self.possibilities is None
    }

    /// The cell that a given digit of a puzzle makes; 0 stands for a blank.
    pub open spec fn initial(digit: u8) -> CellView {
        if digit > 0 {
            CellView { value: Some(digit), possibilities: None, is_original_value: true }
        } else {
            CellView { value: None, possibilities: Some(all_digits()), is_original_value: false }
        }
    }

    /// The cell once `digit` is written into it.
    pub open spec fn with_value(self, digit: u8) -> CellView {
        CellView { value: Some(digit), possibilities: None, ..self }
    }

    /// The cell with its candidates replaced.
    pub open spec fn with_candidates(self, candidates: Set<u8>) -> CellView {
        CellView { possibilities: Some(candidates), ..self }
    }
}

/// One of the 81 cells of a board.
///
/// A cell has either a value or a set of possibilities.
#[derive(Debug, Clone, Copy, PartialEq, Eq, Hash)]
pub struct SudokuCell {
    pub value: Option<u8>,
    pub possibilities: Option<DigitSet>,
    pub is_original_value: bool,
}

impl View for SudokuCell {
    type V = CellView;

    open spec fn view(&self) -> CellView {
        CellView {
            value: self.value,
            possibilities: match self.possibilities {
                Some(candidates) => Some(candidates@),
                None => None,
            },
            is_original_value: self.is_original_value,
        }
    }
}

impl SudokuCell {
    /// The cell for a digit of the puzzle: a given digit is its value, and a
    /// zero leaves it open with all nine candidates.
    pub fn new(val: u8) -> (cell: SudokuCell)
        ensures
            cell@ == CellView::initial(val),
    {
        let value = if val > 0 {
            Some(val)
        } else {
            None
        };
        let possibilities = if val > 0 {
            None
        } else {
            Some(DigitSet::full())
        };
        let is_original_value = val > 0;
        SudokuCell { value, possibilities, is_original_value }
    }

    /// Writes a digit into a cell that has none yet, and drops its candidates.
    pub fn set_value(&mut self, value: u8)
        requires
            old(self).value is None,
        ensures
            final(self)@ == old(self)@.with_value(value),
    {
        self.value = Some(value);
        self.possibilities = None;
    }

    /// Whether both cells hold the same digit, the same candidates and the same mark.
    pub fn same_as(&self, other: &SudokuCell) -> (same: bool)
        ensures
            same == (self@ == other@),
    {
        let same_value = match (self.value, other.value) {
            (Some(a), Some(b)) => a == b,
            (None, None) => true,
            _ => false,
        };
        let same_candidates = match (self.possibilities, other.possibilities) {
            (Some(a), Some(b)) => a.same_as(&b),
            (None, None) => true,
            _ => false,
        };
        same_value && same_candidates && self.is_original_value == other.is_original_value
    }
}

/// A board as the contracts see it: its cells, row by row.
pub type Board = Seq<CellView>;

/// The cells of a vector as the contracts see them.
pub open spec fn cells_view(cells: Seq<SudokuCell>) -> Board {
    cells.map_values(|cell: SudokuCell| cell@)
}

/// Copies the cells of a board.
pub fn copy_cells(cells: &Vec<SudokuCell>) -> (copy: Vec<SudokuCell>)
    ensures
        cells_view(copy@) == cells_view(cells@),
        copy@.len() == cells@.len(),
{
    let mut copy: Vec<SudokuCell> = Vec::new();
    let mut i: usize = 0;
    while i < cells.len()
        invariant
            i <= cells@.len(),
            copy@.len() == i,
            forall|j: int| 0 <= j < i ==> (#[trigger] copy@[j])@ == cells@[j]@,
        decreases cells.len() - i,
    {
        copy.push(cells[i]);
        i += 1;
    }
    assert(cells_view(copy@) =~= cells_view(cells@));
    copy
}

/// Whether two boards hold the same cells.
pub fn same_cells(left: &Vec<SudokuCell>, right: &Vec<SudokuCell>) -> (same: bool)
    ensures
        same == (cells_view(left@) == cells_view(right@)),
{
    if left.len() != right.len() {
        assert(cells_view(left@).len() != cells_view(right@).len());
        return false;
    }
    let mut i: usize = 0;
    while i < left.len()
        invariant
            i <= left@.len(),
            left@.len() == right@.len(),
            forall|j: int| 0 <= j < i ==> (#[trigger] left@[j])@ == right@[j]@,
        decreases left.len() - i,
    {
        if !left[i].same_as(&right[i]) {
            assert(cells_view(left@)[i as int] != cells_view(right@)[i as int]);
            return false;
        }
        i += 1;
    }
    assert(cells_view(left@) =~= cells_view(right@));
    true
}

} // verus!
