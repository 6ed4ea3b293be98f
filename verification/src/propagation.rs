//! What the propagation rules do to a board, stated over the board's view:
//! the filter, the check, the clean, a pass of the three, and the board on
//! which the passes come to rest.

use vstd::prelude::*;
use vstd::set_lib::lemma_len_subset;

use crate::models::sudoku::{board_well_formed, group_cell, group_values};
use crate::models::value::{Board, CellView};
use crate::utils::group_index;

verus! {

/// Cell `i` is one of the nine cells of group `group`.
pub open spec fn in_group(group: int, i: int) -> bool {
    exists|k: int| 0 <= k < 9 && #[trigger] group_index(group, k) == i
}

/// The cells of a group are nine different cells.
pub proof fn lemma_group_cells_differ(group: int, j: int, k: int)
    requires
        0 <= group < 27,
        0 <= j < 9,
        0 <= k < 9,
        group_index(group, j) == group_index(group, k),
    ensures
        j == k,
{
}

/// The board has 81 cells, and none of them lacks both a digit and candidates.
pub open spec fn board_is_usable(board: Board) -> bool {
    &&& board.len() == 81
    &&& forall|i: int| 0 <= i < 81 ==> !(#[trigger] board[i]).is_void()
}

/// The digits that cell `i` sees as values in those of its groups that are
/// numbered below `upto`.
pub open spec fn seen_values(board: Board, i: int, upto: int) -> Set<u8> {
    Set::new(
        |d: u8|
            exists|g: int|
                0 <= g < upto && #[trigger] in_group(g, i) && group_values(board, g).contains(d),
    )
}

/// Cell `i` after the filter went over the groups numbered below `upto`: an
/// open cell has lost the candidates that it sees as values there.
pub open spec fn filtered_cell(board: Board, i: int, upto: int) -> CellView {
    let cell = board[i];
    if cell.value is None && cell.possibilities is Some {
        cell.with_candidates(cell.possibilities->0.difference(seen_values(board, i, upto)))
    } else {
        cell
    }
}

/// The board after the filter: every open cell has lost the candidates that
/// stand as values in its row, its column or its block.
pub open spec fn filtered(board: Board) -> Board {
    Seq::new(81, |i: int| filtered_cell(board, i, 27))
}

/// The filter would leave some open cell without a candidate.
pub open spec fn filter_fails(board: Board) -> bool {
    exists|i: int|
        0 <= i < 81 && board[i].value is None && (#[trigger] filtered_cell(
            board,
            i,
            27,
        )).possibilities == Some(Set::<u8>::empty())
}

/// Each cell of `after` is the cell of `before` with, at most, fewer candidates,
/// though never fewer than the filter leaves.
pub open spec fn partly_filtered(before: Board, after: Board) -> bool {
    &&& after.len() == before.len()
    &&& forall|i: int|
        0 <= i < before.len() ==> {
            let old_cell = #[trigger] before[i];
            let new_cell = after[i];
            &&& new_cell.value == old_cell.value
            &&& new_cell.is_original_value == old_cell.is_original_value
            &&& new_cell.possibilities is Some <==> old_cell.possibilities is Some
            &&& new_cell.possibilities matches Some(kept) ==> {
                &&& kept.subset_of(old_cell.possibilities->0)
                &&& filtered_cell(before, i, 27).possibilities->0.subset_of(kept)
            }
        }
}

/// The cell is open and `d` is one of its candidates.
pub open spec fn admits(cell: CellView, d: u8) -> bool {
    cell.value is None && cell.possibilities is Some && cell.possibilities->0.contains(d)
}

/// How many of the first `upto` cells of a group admit `d`.
pub open spec fn count_admitting(board: Board, group: int, d: u8, upto: int) -> nat
    decreases upto,
{
    if upto <= 0 {
        0
    } else {
        count_admitting(board, group, d, upto - 1) + if admits(
            group_cell(board, group, upto - 1),
            d,
        ) {
            1nat
        } else {
            0nat
        }
    }
}

/// Cell `i` lies in the group and admits `d`, and it is the only cell of the
/// group that does.
pub open spec fn is_forced(board: Board, group: int, i: int, d: u8) -> bool {
    in_group(group, i) && admits(board[i], d) && count_admitting(board, group, d, 9) == 1
}

/// The largest digit up to `upto` that group `group` forces on cell `i`.
pub open spec fn largest_forced(board: Board, group: int, i: int, upto: int) -> Option<u8>
    decreases upto,
{
    if upto <= 0 {
        None
    } else if is_forced(board, group, i, upto as u8) {
        Some(upto as u8)
    } else {
        largest_forced(board, group, i, upto - 1)
    }
}

/// The digit that group `group` forces on cell `i`: the one that the cell alone
/// admits in the group, and the largest one where there are several.
pub open spec fn forced_digit(board: Board, group: int, i: int) -> Option<u8> {
    largest_forced(board, group, i, 9)
}

/// A forced digit is a digit, the cell admits it, and no other cell of the group does.
pub proof fn lemma_largest_forced(board: Board, group: int, i: int, upto: int)
    requires
        upto <= 9,
    ensures
        largest_forced(board, group, i, upto) matches Some(d) ==> 1 <= d <= upto && is_forced(
            board,
            group,
            i,
            d,
        ),
        largest_forced(board, group, i, upto) is None ==> forall|d: u8|
            1 <= d <= upto ==> !is_forced(board, group, i, d),
    decreases upto,
{
    if upto > 0 {
        lemma_largest_forced(board, group, i, upto - 1);
    }
}

/// Cell `i` after the check of group `group`: where the group forces a digit on
/// it, that digit is its only candidate left.
pub open spec fn checked_cell(board: Board, group: int, i: int) -> CellView {
    match forced_digit(board, group, i) {
        Some(d) => board[i].with_candidates(Set::<u8>::empty().insert(d)),
        None => board[i],
    }
}

/// The board after the check of one group.
pub open spec fn checked_group(board: Board, group: int) -> Board {
    Seq::new(81, |i: int| checked_cell(board, group, i))
}

/// The board after the check went over the groups numbered below `upto`, one
/// after the other: each group is counted as the groups before it left the board.
pub open spec fn checked_upto(board: Board, upto: int) -> Board
    decreases upto,
{
    if upto <= 0 {
        board
    } else {
        checked_group(checked_upto(board, upto - 1), upto - 1)
    }
}

/// The board after the check of all 27 groups.
pub open spec fn checked(board: Board) -> Board {
    checked_upto(board, 27)
}

/// The group holds a cell without a digit and without candidates.
pub open spec fn has_void_cell(board: Board, group: int) -> bool {
    exists|k: int| 0 <= k < 9 && (#[trigger] group_cell(board, group, k)).is_void()
}

/// An open cell that is the only one of its candidates' cells: it becomes a
/// cell with that digit as its value.
pub open spec fn cleaned_cell(cell: CellView) -> CellView {
    if cell.value is None && cell.possibilities is Some && cell.possibilities->0.finite()
        && cell.possibilities->0.len() == 1 {
        cell.with_value(cell.possibilities->0.choose())
    } else {
        cell
    }
}

/// The board after the clean: every open cell with a single candidate has
/// taken it as its value.
pub open spec fn cleaned(board: Board) -> Board {
    Seq::new(board.len(), |i: int| cleaned_cell(board[i]))
}

/// One pass of the rules: the filter, the check, the clean. There is no
/// board after it where the filter fails.
pub open spec fn pass(board: Board) -> Option<Board> {
    if filter_fails(board) {
        None
    } else {
        Some(cleaned(checked(filtered(board))))
    }
}

/// What a cell weighs: nothing once it has a digit, and else one more than the
/// number of its candidates.
pub open spec fn cell_weight(cell: CellView) -> nat {
    if cell.value is None && cell.possibilities is Some {
        1 + cell.possibilities->0.len()
    } else {
        0
    }
}

/// The weight of the first `upto` cells.
pub open spec fn weight_upto(board: Board, upto: int) -> nat
    decreases upto,
{
    if upto <= 0 {
        0
    } else {
        weight_upto(board, upto - 1) + cell_weight(board[upto - 1])
    }
}

/// The weight of a board: it bounds the number of passes that change it.
pub open spec fn weight(board: Board) -> nat {
    weight_upto(board, board.len() as int)
}

/// Each cell of `after` is the cell of `before` or a lighter one.
pub open spec fn shrinks_to(before: Board, after: Board) -> bool {
    &&& after.len() == before.len()
    &&& forall|i: int|
        0 <= i < before.len() ==> #[trigger] after[i] == before[i] || cell_weight(after[i])
            < cell_weight(before[i])
}

/// The cells that have a digit in `before` are the same in `after`.
pub open spec fn keeps_digits(before: Board, after: Board) -> bool {
    &&& after.len() == before.len()
    &&& forall|i: int|
        0 <= i < before.len() && before[i].value is Some ==> #[trigger] after[i] == before[i]
}

/// The board on which the rules come to rest: pass after pass until one
/// changes nothing. There is none where a pass fails on the way.
pub open spec fn propagate(board: Board) -> Option<Board>
    decreases weight(board),
    when board_well_formed(board)
    via propagate_terminates
{
    match pass(board) {
        None => None,
        Some(next) => if next == board {
            Some(board)
        } else {
            propagate(next)
        },
    }
}

#[via_fn]
proof fn propagate_terminates(board: Board) {
    if pass(board) is Some {
        lemma_pass_shrinks(board);
        lemma_lighter(board, pass(board)->0);
    }
}

/// A proper subset of a finite set has fewer members.
pub proof fn lemma_proper_subset(small: Set<u8>, big: Set<u8>)
    requires
        big.finite(),
        small.subset_of(big),
        small != big,
    ensures
        small.finite(),
        small.len() < big.len(),
{
    lemma_len_subset(small, big);
    if forall|d: u8| big.contains(d) ==> small.contains(d) {
        assert(small =~= big);
    }
    let d = choose|d: u8| big.contains(d) && !small.contains(d);
    assert(small.subset_of(big.remove(d)));
    lemma_len_subset(small, big.remove(d));
}

/// An open cell whose candidates are cut down is the same cell or a lighter one.
pub proof fn lemma_fewer_candidates(cell: CellView, kept: Set<u8>)
    requires
        cell.well_formed(),
        cell.value is None,
        kept.subset_of(cell.possibilities->0),
    ensures
        cell.with_candidates(kept) == cell || cell_weight(cell.with_candidates(kept))
            < cell_weight(cell),
        kept.finite(),
        kept.len() > 0 ==> cell.with_candidates(kept).well_formed(),
{
    let all = cell.possibilities->0;
    lemma_len_subset(kept, all);
    if kept != all {
        lemma_proper_subset(kept, all);
    } else {
        assert(cell.with_candidates(kept) == cell);
    }
}

/// Where every cell is the same or lighter, the board is no heavier, and it is
/// lighter unless it is the same board.
pub proof fn lemma_lighter(before: Board, after: Board)
    requires
        shrinks_to(before, after),
    ensures
        weight(after) <= weight(before),
        after != before ==> weight(after) < weight(before),
{
    lemma_lighter_upto(before, after, before.len() as int);
    if after != before {
        if forall|i: int| 0 <= i < before.len() ==> after[i] == before[i] {
            assert(after =~= before);
        }
    }
}

proof fn lemma_lighter_upto(before: Board, after: Board, upto: int)
    requires
        shrinks_to(before, after),
        0 <= upto <= before.len(),
    ensures
        weight_upto(after, upto) <= weight_upto(before, upto),
        (exists|i: int| 0 <= i < upto && after[i] != before[i]) ==> weight_upto(after, upto)
            < weight_upto(before, upto),
    decreases upto,
{
    if upto > 0 {
        lemma_lighter_upto(before, after, upto - 1);
        assert(after[upto - 1] == before[upto - 1] || cell_weight(after[upto - 1]) < cell_weight(
            before[upto - 1],
        ));
        if exists|i: int| 0 <= i < upto && after[i] != before[i] {
            let i = choose|i: int| 0 <= i < upto && after[i] != before[i];
            if i < upto - 1 {
                assert(exists|i: int| 0 <= i < upto - 1 && after[i] != before[i]);
            }
        }
    }
}

/// Shrinking twice is shrinking, and keeping the digits twice is keeping them.
pub proof fn lemma_shrinks_twice(first: Board, second: Board, third: Board)
    requires
        shrinks_to(first, second),
        shrinks_to(second, third),
        keeps_digits(first, second),
        keeps_digits(second, third),
    ensures
        shrinks_to(first, third),
        keeps_digits(first, third),
{
    assert forall|i: int| 0 <= i < first.len() implies #[trigger] third[i] == first[i]
        || cell_weight(third[i]) < cell_weight(first[i]) by {
        assert(second[i] == first[i] || cell_weight(second[i]) < cell_weight(first[i]));
        assert(third[i] == second[i] || cell_weight(third[i]) < cell_weight(second[i]));
    }
    assert forall|i: int| 0 <= i < first.len() && first[i].value is Some implies #[trigger] third[i]
        == first[i] by {
        assert(second[i] == first[i]);
        assert(third[i] == second[i]);
    }
}

/// The filter, where it does not fail, keeps a well-formed board well-formed,
/// keeps its digits, and makes no cell heavier.
pub proof fn lemma_filter_shrinks(board: Board)
    requires
        board_well_formed(board),
        !filter_fails(board),
    ensures
        board_well_formed(filtered(board)),
        shrinks_to(board, filtered(board)),
        keeps_digits(board, filtered(board)),
{
    let after = filtered(board);
    assert forall|i: int| 0 <= i < 81 implies (#[trigger] after[i]).well_formed() && (after[i]
        == board[i] || cell_weight(after[i]) < cell_weight(board[i])) && (board[i].value is Some
        ==> after[i] == board[i]) by {
        let cell = board[i];
        assert(cell.well_formed());
        if cell.value is None {
            let kept = cell.possibilities->0.difference(seen_values(board, i, 27));
            lemma_fewer_candidates(cell, kept);
            assert(filtered_cell(board, i, 27).possibilities != Some(Set::<u8>::empty()));
            if kept.len() == 0 {
                assert(kept =~= Set::<u8>::empty());
            }
        }
    }
}

/// The check of one group keeps a well-formed board well-formed, keeps its
/// digits, and makes no cell heavier.
pub proof fn lemma_check_group_shrinks(board: Board, group: int)
    requires
        board_well_formed(board),
        0 <= group < 27,
    ensures
        board_well_formed(checked_group(board, group)),
        shrinks_to(board, checked_group(board, group)),
        keeps_digits(board, checked_group(board, group)),
{
    let after = checked_group(board, group);
    assert forall|i: int| 0 <= i < 81 implies (#[trigger] after[i]).well_formed() && (after[i]
        == board[i] || cell_weight(after[i]) < cell_weight(board[i])) && (board[i].value is Some
        ==> after[i] == board[i]) by {
        let cell = board[i];
        assert(cell.well_formed());
        lemma_largest_forced(board, group, i, 9);
        if in_group(group, i) && forced_digit(board, group, i) is Some {
            let d = forced_digit(board, group, i)->0;
            assert(is_forced(board, group, i, d));
            let kept = Set::<u8>::empty().insert(d);
            lemma_fewer_candidates(cell, kept);
        }
    }
}

/// The check of the groups below `upto` keeps a well-formed board well-formed,
/// keeps its digits, and makes no cell heavier.
pub proof fn lemma_check_shrinks(board: Board, upto: int)
    requires
        board_well_formed(board),
        0 <= upto <= 27,
    ensures
        board_well_formed(checked_upto(board, upto)),
        shrinks_to(board, checked_upto(board, upto)),
        keeps_digits(board, checked_upto(board, upto)),
    decreases upto,
{
    if upto > 0 {
        lemma_check_shrinks(board, upto - 1);
        let before = checked_upto(board, upto - 1);
        lemma_check_group_shrinks(before, upto - 1);
        lemma_shrinks_twice(board, before, checked_group(before, upto - 1));
    }
}

/// The clean keeps a well-formed board well-formed, keeps its digits, and
/// makes no cell heavier.
pub proof fn lemma_clean_shrinks(board: Board)
    requires
        board_well_formed(board),
    ensures
        board_well_formed(cleaned(board)),
        shrinks_to(board, cleaned(board)),
        keeps_digits(board, cleaned(board)),
{
    let after = cleaned(board);
    assert forall|i: int| 0 <= i < 81 implies (#[trigger] after[i]).well_formed() && (after[i]
        == board[i] || cell_weight(after[i]) < cell_weight(board[i])) && (board[i].value is Some
        ==> after[i] == board[i]) by {
        assert(board[i].well_formed());
    }
}

/// A pass keeps a well-formed board well-formed, keeps its digits, and makes
/// no cell heavier: the board it leaves is the same one or a lighter one.
pub proof fn lemma_pass_shrinks(board: Board)
    requires
        board_well_formed(board),
        pass(board) is Some,
    ensures
        board_well_formed(pass(board)->0),
        shrinks_to(board, pass(board)->0),
        keeps_digits(board, pass(board)->0),
{
    let first = filtered(board);
    let second = checked(first);
    let third = cleaned(second);
    lemma_filter_shrinks(board);
    lemma_check_shrinks(first, 27);
    lemma_clean_shrinks(second);
    lemma_shrinks_twice(board, first, second);
    lemma_shrinks_twice(board, second, third);
}

/// The board on which the rules come to rest is well-formed, keeps the digits
/// of the board they started on, has no heavier cell, and is at rest: a pass
/// leaves it as it is, and so does another propagation.
pub proof fn lemma_propagate_rests(board: Board)
    requires
        board_well_formed(board),
        propagate(board) is Some,
    ensures
        board_well_formed(propagate(board)->0),
        shrinks_to(board, propagate(board)->0),
        keeps_digits(board, propagate(board)->0),
        pass(propagate(board)->0) == Some(propagate(board)->0),
        propagate(propagate(board)->0) == propagate(board),
    decreases weight(board),
{
    let next = pass(board)->0;
    lemma_pass_shrinks(board);
    if next != board {
        lemma_lighter(board, next);
        lemma_propagate_rests(next);
        lemma_shrinks_twice(board, next, propagate(next)->0);
    }
}

/// A pass changes the board exactly when the filter, the check or the clean
/// changes the board that it finds.
pub proof fn lemma_pass_changes(board: Board)
    requires
        board_well_formed(board),
        !filter_fails(board),
    ensures
        pass(board)->0 != board <==> (filtered(board) != board || checked(filtered(board))
            != filtered(board) || cleaned(checked(filtered(board))) != checked(filtered(board))),
{
    let first = filtered(board);
    let second = checked(first);
    let third = cleaned(second);
    lemma_filter_shrinks(board);
    lemma_check_shrinks(first, 27);
    lemma_clean_shrinks(second);
    lemma_lighter(board, first);
    lemma_lighter(first, second);
    lemma_lighter(second, third);
}

/// The check leaves a board without an open cell as it is.
proof fn lemma_check_leaves_filled(board: Board, upto: int)
    requires
        board.len() == 81,
        forall|i: int| 0 <= i < 81 ==> (#[trigger] board[i]).value is Some,
        0 <= upto <= 27,
    ensures
        checked_upto(board, upto) == board,
    decreases upto,
{
    if upto > 0 {
        lemma_check_leaves_filled(board, upto - 1);
        let group = upto - 1;
        assert forall|i: int| 0 <= i < 81 implies checked_cell(board, group, i) == board[i] by {
            lemma_largest_forced(board, group, i, 9);
            assert(board[i].value is Some);
        }
        assert(checked_group(board, group) =~= board);
    }
}

/// A board without an open cell is at rest: a pass leaves it as it is.
pub proof fn lemma_filled_board_rests(board: Board)
    requires
        board.len() == 81,
        forall|i: int| 0 <= i < 81 ==> (#[trigger] board[i]).value is Some,
    ensures
        pass(board) == Some(board),
{
    assert(filtered(board) =~= board);
    lemma_check_leaves_filled(board, 27);
    assert(cleaned(board) =~= board);
}

} // verus!
