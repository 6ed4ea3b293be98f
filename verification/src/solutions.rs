//! The rules drop no solution: a solved board that fits a board still fits
//! the board that a pass of the rules leaves, and the board on which the
//! rules come to rest.

use vstd::prelude::*;

use crate::models::digit_set::{all_digits, lemma_all_digits};
use crate::models::sudoku::{
    board_well_formed, group_cell, group_is_complete, group_values, is_solved_board,
    lemma_cell_in_its_row,
};
use crate::models::value::Board;
use crate::propagation::{
    admits, checked, checked_group, checked_upto, cleaned, count_admitting, filter_fails,
    filtered, filtered_cell, forced_digit, in_group, is_forced, lemma_check_shrinks,
    lemma_filter_shrinks, lemma_largest_forced, lemma_lighter, lemma_pass_shrinks, pass,
    propagate, seen_values, weight,
};
use crate::utils::{group_index, lemma_group_index_on_board};

verus! {

/// The solved board `solution` fits `board`: it has the digits of the board,
/// and in every open cell of the board one of that cell's candidates.
pub open spec fn fits(board: Board, solution: Board) -> bool {
    &&& solution.len() == 81
    &&& is_solved_board(solution)
    &&& forall|i: int|
        0 <= i < 81 ==> match (#[trigger] board[i]).value {
            Some(digit) => solution[i].value == Some(digit),
            None => admits(board[i], solution[i].value->0),
        }
}

/// No open cell has a candidate that stands as a value in one of its groups:
/// the board is as the filter leaves it.
pub open spec fn is_filtered(board: Board) -> bool {
    forall|group: int, j: int, k: int|
        0 <= group < 27 && 0 <= j < 9 && 0 <= k < 9 && (#[trigger] group_cell(
            board,
            group,
            k,
        )).value is Some ==> !admits(
            #[trigger] group_cell(board, group, j),
            group_cell(board, group, k).value->0,
        )
}

/// The digits of the cells of a group, in the order of the cells.
spec fn group_digits(solution: Board, group: int) -> Seq<u8> {
    Seq::new(9, |k: int| group_cell(solution, group, k).value->0)
}

/// A group of a solved board holds no digit twice, and it holds every digit.
pub proof fn lemma_solved_group(solution: Board, group: int)
    requires
        is_solved_board(solution),
        0 <= group < 27,
    ensures
        forall|j: int, k: int|
            0 <= j < 9 && 0 <= k < 9 && (#[trigger] group_cell(solution, group, j)).value == (
            #[trigger] group_cell(solution, group, k)).value ==> j == k,
        forall|k: int| 0 <= k < 9 ==> (#[trigger] group_cell(solution, group, k)).value is Some,
        group_values(solution, group) == all_digits(),
{
    assert(group_is_complete(solution, group));
    let digits = group_digits(solution, group);
    assert forall|k: int| 0 <= k < 9 implies (#[trigger] group_cell(solution, group, k)).value
        is Some by {}
    assert(digits.to_set() =~= group_values(solution, group)) by {
        assert forall|d: u8| digits.to_set().contains(d) <==> group_values(
            solution,
            group,
        ).contains(d) by {
            if digits.to_set().contains(d) {
                let k = choose|k: int| 0 <= k < 9 && digits[k] == d;
                assert(group_cell(solution, group, k).value == Some(d));
            }
            if group_values(solution, group).contains(d) {
                let k = choose|k: int|
                    0 <= k < 9 && #[trigger] group_cell(solution, group, k).value == Some(d);
                assert(digits[k] == d);
            }
        }
    }
    lemma_all_digits();
    digits.lemma_no_dup_set_cardinality();
    assert forall|j: int, k: int|
        0 <= j < 9 && 0 <= k < 9 && (#[trigger] group_cell(solution, group, j)).value == (
        #[trigger] group_cell(solution, group, k)).value implies j == k by {
        if j != k {
            assert(digits[j] != digits[k]);
        }
    }
}

/// Where two cells among the first `upto` of a group admit a digit, more than
/// one cell is counted for it; where one does, at least one is.
pub proof fn lemma_count_two(board: Board, group: int, d: u8, j: int, k: int, upto: int)
    requires
        0 <= j < upto,
        0 <= k < upto,
        admits(group_cell(board, group, j), d),
        admits(group_cell(board, group, k), d),
    ensures
        count_admitting(board, group, d, upto) >= 1,
        j != k ==> count_admitting(board, group, d, upto) >= 2,
    decreases upto,
{
    if j < upto - 1 && k < upto - 1 {
        lemma_count_two(board, group, d, j, k, upto - 1);
    } else if j < upto - 1 {
        lemma_count_two(board, group, d, j, j, upto - 1);
    } else if k < upto - 1 {
        lemma_count_two(board, group, d, k, k, upto - 1);
    }
}

/// The filter drops no solution: it does not fail on a board that a solved
/// board fits, and the solved board fits the board that it leaves, which is
/// filtered.
pub proof fn lemma_filter_keeps_solutions(board: Board, solution: Board)
    requires
        board_well_formed(board),
        fits(board, solution),
    ensures
        !filter_fails(board),
        fits(filtered(board), solution),
        is_filtered(filtered(board)),
{
    let after = filtered(board);
    assert forall|i: int| 0 <= i < 81 && board[i].value is None implies !seen_values(
        board,
        i,
        27,
    ).contains(#[trigger] solution[i].value->0) by {
        let d = solution[i].value->0;
        if seen_values(board, i, 27).contains(d) {
            let g = choose|g: int|
                0 <= g < 27 && #[trigger] in_group(g, i) && group_values(board, g).contains(d);
            let j = choose|j: int| 0 <= j < 9 && #[trigger] group_index(g, j) == i;
            let k = choose|k: int|
                0 <= k < 9 && #[trigger] group_cell(board, g, k).value == Some(d);
            lemma_group_index_on_board(g, k);
            lemma_solved_group(solution, g);
            assert(board[group_index(g, k)].value == Some(d));
            assert(group_cell(solution, g, k).value == Some(d));
            assert(admits(board[i], d));
            assert(group_cell(solution, g, j).value == Some(d));
            assert(j == k);
        }
    }
    assert forall|i: int| 0 <= i < 81 implies match (#[trigger] after[i]).value {
        Some(digit) => solution[i].value == Some(digit),
        None => admits(after[i], solution[i].value->0),
    } by {
        assert(board[i].well_formed());
        if board[i].value is None {
            assert(admits(board[i], solution[i].value->0));
            assert(!seen_values(board, i, 27).contains(solution[i].value->0));
        }
    }
    assert(!filter_fails(board)) by {
        if filter_fails(board) {
            let i = choose|i: int|
                0 <= i < 81 && board[i].value is None && (#[trigger] filtered_cell(
                    board,
                    i,
                    27,
                )).possibilities == Some(Set::<u8>::empty());
            assert(admits(after[i], solution[i].value->0));
        }
    }
    assert forall|group: int, j: int, k: int|
        0 <= group < 27 && 0 <= j < 9 && 0 <= k < 9 && (#[trigger] group_cell(
            after,
            group,
            k,
        )).value is Some implies !admits(
        #[trigger] group_cell(after, group, j),
        group_cell(after, group, k).value->0,
    ) by {
        let i = group_index(group, j);
        let d = group_cell(after, group, k).value->0;
        lemma_group_index_on_board(group, j);
        lemma_group_index_on_board(group, k);
        assert(board[i].well_formed());
        if admits(after[i], d) {
            assert(in_group(group, i));
            assert(group_cell(board, group, k).value == Some(d));
            assert(group_values(board, group).contains(d));
            assert(seen_values(board, i, 27).contains(d));
        }
    }
}

/// The check of a group drops no solution of a filtered board, and leaves the
/// board filtered.
pub proof fn lemma_check_group_keeps_solutions(board: Board, solution: Board, group: int)
    requires
        board_well_formed(board),
        fits(board, solution),
        is_filtered(board),
        0 <= group < 27,
    ensures
        fits(checked_group(board, group), solution),
        is_filtered(checked_group(board, group)),
{
    let after = checked_group(board, group);
    lemma_solved_group(solution, group);
    assert forall|i: int| 0 <= i < 81 implies (#[trigger] after[i]).value == board[i].value && (
    forall|d: u8| admits(after[i], d) ==> admits(board[i], d)) && (board[i].value is None
        ==> admits(after[i], solution[i].value->0)) by {
        lemma_largest_forced(board, group, i, 9);
        assert(board[i].well_formed());
        if board[i].value is None {
            assert(admits(board[i], solution[i].value->0));
        }
        if forced_digit(board, group, i) is Some {
            let d = forced_digit(board, group, i)->0;
            assert(is_forced(board, group, i, d));
            let j = choose|j: int| 0 <= j < 9 && #[trigger] group_index(group, j) == i;
            // Where the solution has the digit in this group, the board is open
            // and admits it: that is this cell.
            assert(all_digits().contains(d));
            assert(group_values(solution, group).contains(d));
            let k = choose|k: int|
                0 <= k < 9 && #[trigger] group_cell(solution, group, k).value == Some(d);
            lemma_group_index_on_board(group, k);
            let there = group_index(group, k);
            assert(group_cell(board, group, j) == board[i]);
            if board[there].value is Some {
                assert(board[there].value == Some(d));
                assert(group_cell(board, group, k).value is Some);
                assert(!admits(group_cell(board, group, j), d));
            }
            assert(admits(board[there], d));
            lemma_count_two(board, group, d, j, k, 9);
            assert(j == k);
            assert(solution[i].value == Some(d));
        }
    }
    assert forall|g: int, j: int, k: int|
        0 <= g < 27 && 0 <= j < 9 && 0 <= k < 9 && (#[trigger] group_cell(after, g, k)).value
            is Some implies !admits(
        #[trigger] group_cell(after, g, j),
        group_cell(after, g, k).value->0,
    ) by {
        lemma_group_index_on_board(g, j);
        lemma_group_index_on_board(g, k);
        let d = group_cell(after, g, k).value->0;
        assert(group_cell(board, g, k).value == Some(d));
        assert(!admits(group_cell(board, g, j), d));
    }
}

/// The check drops no solution of a filtered board.
pub proof fn lemma_check_keeps_solutions(board: Board, solution: Board, upto: int)
    requires
        board_well_formed(board),
        fits(board, solution),
        is_filtered(board),
        0 <= upto <= 27,
    ensures
        fits(checked_upto(board, upto), solution),
        is_filtered(checked_upto(board, upto)),
        board_well_formed(checked_upto(board, upto)),
    decreases upto,
{
    lemma_check_shrinks(board, upto);
    if upto > 0 {
        lemma_check_keeps_solutions(board, solution, upto - 1);
        lemma_check_group_keeps_solutions(checked_upto(board, upto - 1), solution, upto - 1);
    }
}

/// The clean drops no solution.
pub proof fn lemma_clean_keeps_solutions(board: Board, solution: Board)
    requires
        board_well_formed(board),
        fits(board, solution),
    ensures
        fits(cleaned(board), solution),
{
    let after = cleaned(board);
    assert forall|i: int| 0 <= i < 81 implies match (#[trigger] after[i]).value {
        Some(digit) => solution[i].value == Some(digit),
        None => admits(after[i], solution[i].value->0),
    } by {
        assert(board[i].well_formed());
        lemma_cell_in_its_row(solution, i);
        assert(group_is_complete(solution, i / 9));
        assert(group_cell(solution, i / 9, i % 9).value is Some);
        if board[i].value is None {
            let candidates = board[i].possibilities->0;
            let d = solution[i].value->0;
            assert(admits(board[i], d));
            if candidates.len() == 1 {
                let chosen = candidates.choose();
                if chosen != d {
                    let rest = candidates.remove(chosen);
                    assert(rest.len() == 0);
                    assert(rest.contains(d));
                }
            }
        }
    }
}

/// A pass of the rules drops no solution: it does not fail on a board that a
/// solved board fits, and the solved board fits the board that it leaves.
pub proof fn lemma_pass_keeps_solutions(board: Board, solution: Board)
    requires
        board_well_formed(board),
        fits(board, solution),
    ensures
        pass(board) is Some,
        fits(pass(board)->0, solution),
{
    lemma_filter_keeps_solutions(board, solution);
    lemma_filter_shrinks(board);
    lemma_check_keeps_solutions(filtered(board), solution, 27);
    lemma_clean_keeps_solutions(checked(filtered(board)), solution);
}

/// The rules drop no solution: on a board that a solved board fits they come
/// to rest without failing, and the solved board fits the board on which
/// they rest.
pub proof fn lemma_propagate_keeps_solutions(board: Board, solution: Board)
    requires
        board_well_formed(board),
        fits(board, solution),
    ensures
        propagate(board) is Some,
        fits(propagate(board)->0, solution),
    decreases weight(board),
{
    lemma_pass_keeps_solutions(board, solution);
    let next = pass(board)->0;
    lemma_pass_shrinks(board);
    if next != board {
        lemma_lighter(board, next);
        lemma_propagate_keeps_solutions(next, solution);
    }
}

} // verus!
