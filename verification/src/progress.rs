//! How far a rule has come on a board: what the loops of the filter and of
//! the check keep from cell to cell and from group to group, and why.

use vstd::prelude::*;

use crate::models::sudoku::{
    board_well_formed, group_cell, group_values, lemma_cell_in_its_row,
};
use crate::models::value::{Board, CellView};
use crate::propagation::{
    admits, checked_cell, checked_group, checked_upto, filter_fails, filtered, filtered_cell,
    forced_digit, has_void_cell, in_group, lemma_check_group_shrinks, lemma_fewer_candidates,
    lemma_group_cells_differ, lemma_largest_forced, partly_filtered, seen_values,
};
use crate::utils::{group_index, lemma_group_index_on_board};

verus! {

/// How far the filter has come in group `group`: cell `i`, after the filter
/// went over the groups below `group` and over the first `k` cells of `group`.
pub open spec fn filter_progress(board: Board, i: int, group: int, k: int) -> CellView {
    if exists|j: int| 0 <= j < k && #[trigger] group_index(group, j) == i {
        filtered_cell(board, i, group + 1)
    } else {
        filtered_cell(board, i, group)
    }
}

/// The filter has passed cell `i` when it has come to cell `k` of group
/// `group`: the cell lies in a group below `group`, or among the first `k`
/// cells of `group`.
pub open spec fn filter_passed(i: int, group: int, k: int) -> bool {
    ||| exists|g: int| 0 <= g < group && #[trigger] in_group(g, i)
    ||| exists|j: int| 0 <= j < k && #[trigger] group_index(group, j) == i
}

/// `board` is what the filter has made of `start` when it has come to cell
/// `k` of group `group`, and it has left no open cell on its way empty.
pub open spec fn filter_reached(start: Board, board: Board, group: int, k: int) -> bool {
    &&& start.len() == 81
    &&& board.len() == 81
    &&& forall|i: int| 0 <= i < 81 ==> #[trigger] board[i] == filter_progress(start, i, group, k)
    &&& forall|i: int|
        0 <= i < 81 && start[i].value is None && filter_passed(i, group, k) ==> (
        #[trigger] board[i]).possibilities != Some(Set::<u8>::empty())
}

/// What a cell sees in the groups up to and with `group` is what it saw below
/// `group`, and the values of `group` if it lies there.
pub proof fn lemma_seen_values_step(board: Board, i: int, group: int)
    requires
        0 <= group,
    ensures
        seen_values(board, i, group + 1) == if in_group(group, i) {
            seen_values(board, i, group).union(group_values(board, group))
        } else {
            seen_values(board, i, group)
        },
{
    let next = seen_values(board, i, group + 1);
    let prev = seen_values(board, i, group);
    let expected = if in_group(group, i) {
        prev.union(group_values(board, group))
    } else {
        prev
    };
    assert forall|d: u8| next.contains(d) <==> expected.contains(d) by {
        if next.contains(d) {
            let g = choose|g: int|
                0 <= g < group + 1 && #[trigger] in_group(g, i) && group_values(board, g).contains(
                    d,
                );
            if g < group {
                assert(prev.contains(d));
            }
        }
        if prev.contains(d) {
            let g = choose|g: int|
                0 <= g < group && #[trigger] in_group(g, i) && group_values(board, g).contains(d);
            assert(0 <= g < group + 1 && in_group(g, i) && group_values(board, g).contains(d));
        }
        if in_group(group, i) && group_values(board, group).contains(d) {
            assert(0 <= group < group + 1 && in_group(group, i) && group_values(
                board,
                group,
            ).contains(d));
        }
    }
    assert(next =~= expected);
}

/// A cell sees no less in more groups.
pub proof fn lemma_seen_values_grow(board: Board, i: int, fewer: int, more: int)
    requires
        fewer <= more,
    ensures
        seen_values(board, i, fewer).subset_of(seen_values(board, i, more)),
{
    assert forall|d: u8| seen_values(board, i, fewer).contains(d) implies seen_values(
        board,
        i,
        more,
    ).contains(d) by {
        let g = choose|g: int|
            0 <= g < fewer && #[trigger] in_group(g, i) && group_values(board, g).contains(d);
        assert(0 <= g < more && in_group(g, i) && group_values(board, g).contains(d));
    }
}

/// Before its first group the filter has made nothing of the board.
pub proof fn lemma_filter_starts(start: Board)
    requires
        start.len() == 81,
    ensures
        filter_reached(start, start, 0, 0),
{
    assert forall|i: int| 0 <= i < 81 implies #[trigger] start[i] == filter_progress(
        start,
        i,
        0,
        0,
    ) by {
        if start[i].possibilities is Some {
            assert(start[i].possibilities->0.difference(seen_values(start, i, 0))
                =~= start[i].possibilities->0);
        }
    }
}

/// The filter changes no digit: the groups hold the values that they held.
pub proof fn lemma_filter_keeps_values(start: Board, board: Board, group: int, k: int, g: int)
    requires
        filter_reached(start, board, group, k),
        0 <= g < 27,
    ensures
        group_values(board, g) == group_values(start, g),
{
    assert forall|j: int| 0 <= j < 9 implies group_cell(board, g, j).value == group_cell(
        start,
        g,
        j,
    ).value by {
        lemma_group_index_on_board(g, j);
        assert(board[group_index(g, j)] == filter_progress(start, group_index(g, j), group, k));
    }
    assert(group_values(board, g) =~= group_values(start, g));
}

/// What the filter finds in cell `k` of group `group`, and what it makes of it.
pub proof fn lemma_filter_at(start: Board, board: Board, group: int, k: int)
    requires
        filter_reached(start, board, group, k),
        0 <= group < 27,
        0 <= k < 9,
    ensures
        ({
            let i = group_index(group, k);
            let cell = board[i];
            &&& cell == filtered_cell(start, i, group)
            &&& cell.value == start[i].value
            &&& cell.possibilities is Some <==> start[i].possibilities is Some
            &&& cell.value is None && cell.possibilities is Some ==> filtered_cell(
                start,
                i,
                group + 1,
            ) == cell.with_candidates(
                cell.possibilities->0.difference(group_values(start, group)),
            )
            &&& !(cell.value is None && cell.possibilities is Some) ==> filtered_cell(
                start,
                i,
                group + 1,
            ) == cell
        }),
{
    let i = group_index(group, k);
    lemma_group_index_on_board(group, k);
    assert(board[i] == filter_progress(start, i, group, k));
    if exists|j: int| 0 <= j < k && #[trigger] group_index(group, j) == i {
        let j = choose|j: int| 0 <= j < k && #[trigger] group_index(group, j) == i;
        lemma_group_cells_differ(group, j, k);
    }
    assert(in_group(group, i));
    lemma_seen_values_step(start, i, group);
    let cell = board[i];
    if cell.value is None && cell.possibilities is Some {
        let all = start[i].possibilities->0;
        assert(all.difference(seen_values(start, i, group + 1)) =~= all.difference(
            seen_values(start, i, group),
        ).difference(group_values(start, group)));
    }
}

/// The filter goes on from cell `k` of group `group` to the next cell, having
/// made of the cell what it makes of it in this group, which is not empty.
/// The board differs from the first board if it did before or does so now.
pub proof fn lemma_filter_moves_on(start: Board, before: Board, after: Board, group: int, k: int)
    requires
        filter_reached(start, before, group, k),
        0 <= group < 27,
        0 <= k < 9,
        after == before.update(
            group_index(group, k),
            filtered_cell(start, group_index(group, k), group + 1),
        ),
        start[group_index(group, k)].value is None ==> filtered_cell(
            start,
            group_index(group, k),
            group + 1,
        ).possibilities != Some(Set::<u8>::empty()),
    ensures
        filter_reached(start, after, group, k + 1),
        after != start <==> (before != start || after != before),
{
    let index = group_index(group, k);
    lemma_group_index_on_board(group, k);
    lemma_filter_at(start, before, group, k);
    assert forall|i: int| 0 <= i < 81 implies #[trigger] after[i] == filter_progress(
        start,
        i,
        group,
        k + 1,
    ) by {
        if i != index {
            assert(before[i] == filter_progress(start, i, group, k));
            if exists|j: int| 0 <= j < k + 1 && #[trigger] group_index(group, j) == i {
                let j = choose|j: int| 0 <= j < k + 1 && #[trigger] group_index(group, j) == i;
                assert(j < k);
            }
        }
    }
    assert forall|i: int|
        0 <= i < 81 && start[i].value is None && filter_passed(i, group, k + 1) implies (
    #[trigger] after[i]).possibilities != Some(Set::<u8>::empty()) by {
        if i != index {
            if exists|j: int| 0 <= j < k + 1 && #[trigger] group_index(group, j) == i {
                let j = choose|j: int| 0 <= j < k + 1 && #[trigger] group_index(group, j) == i;
                assert(j < k);
            }
            assert(filter_passed(i, group, k));
            assert(before[i].possibilities != Some(Set::<u8>::empty()));
        }
    }
    // A cell that has lost a candidate differs from the cell of the first board.
    let first = start[index];
    if first.value is None && first.possibilities is Some {
        let all = first.possibilities->0;
        lemma_seen_values_step(start, index, group);
        assert(in_group(group, index));
        if before[index] != first {
            assert(all.difference(seen_values(start, index, group)) != all);
            assert(!(all.difference(seen_values(start, index, group)) =~= all));
            let gone = choose|d: u8|
                all.difference(seen_values(start, index, group)).contains(d) != all.contains(d);
            assert(seen_values(start, index, group + 1).contains(gone));
            assert(!after[index].possibilities->0.contains(gone));
        }
        if after[index] != before[index] {
            let kept = before[index].possibilities->0;
            let fewer = after[index].possibilities->0;
            assert(!(fewer =~= kept));
            let gone = choose|d: u8| fewer.contains(d) != kept.contains(d);
            assert(all.contains(gone));
        }
    }
    if before != start {
        assert(!(before =~= start));
        let j = choose|j: int| 0 <= j < 81 && before[j] != start[j];
        if j != index {
            assert(after[j] == before[j]);
        }
        assert(after[j] != start[j]);
    }
    if after != before {
        if after[index] == before[index] {
            assert(after =~= before);
        }
        assert(after[index] != start[index]);
    }
    if before == start && after == before {
        assert(after == start);
    }
}

/// The filter, at the end of a group, stands before the next.
pub proof fn lemma_filter_next_group(start: Board, board: Board, group: int)
    requires
        filter_reached(start, board, group, 9),
        0 <= group < 27,
    ensures
        filter_reached(start, board, group + 1, 0),
{
    assert forall|i: int| 0 <= i < 81 implies #[trigger] board[i] == filter_progress(
        start,
        i,
        group + 1,
        0,
    ) by {
        assert(board[i] == filter_progress(start, i, group, 9));
        lemma_seen_values_step(start, i, group);
        if !(exists|j: int| 0 <= j < 9 && #[trigger] group_index(group, j) == i) {
            assert(!in_group(group, i));
        }
    }
    assert forall|i: int|
        0 <= i < 81 && start[i].value is None && filter_passed(i, group + 1, 0) implies (
    #[trigger] board[i]).possibilities != Some(Set::<u8>::empty()) by {
        let g = choose|g: int| 0 <= g < group + 1 && #[trigger] in_group(g, i);
        if g == group {
            let j = choose|j: int| 0 <= j < 9 && #[trigger] group_index(group, j) == i;
            assert(filter_passed(i, group, 9));
        } else {
            assert(filter_passed(i, group, 9));
        }
    }
}

/// The filter, after the last group, has made of the board what it makes of
/// it, and it does not fail.
pub proof fn lemma_filter_ends(start: Board, board: Board)
    requires
        filter_reached(start, board, 27, 0),
    ensures
        board == filtered(start),
        !filter_fails(start),
{
    assert forall|i: int| 0 <= i < 81 implies board[i] == filtered_cell(start, i, 27) by {
        assert(board[i] == filter_progress(start, i, 27, 0));
    }
    assert(board =~= filtered(start));
    assert forall|i: int| 0 <= i < 81 && start[i].value is None implies (#[trigger] filtered_cell(
        start,
        i,
        27,
    )).possibilities != Some(Set::<u8>::empty()) by {
        lemma_cell_in_its_row(start, i);
        assert(group_index(i / 9, i % 9) == i);
        assert(in_group(i / 9, i));
        assert(filter_passed(i, 27, 0));
        assert(board[i] == filtered_cell(start, i, 27));
    }
}

/// The filter fails where it finds that a cell of the group that it has come
/// to is left empty. The board that it leaves then holds, in every cell, part
/// of what the filter strikes struck.
pub proof fn lemma_filter_stops(start: Board, board: Board, group: int, k: int)
    requires
        filter_reached(start, board, group, k),
        0 <= group < 27,
        0 <= k < 9,
        start[group_index(group, k)].value is None,
        filtered_cell(start, group_index(group, k), group + 1).possibilities == Some(
            Set::<u8>::empty(),
        ),
    ensures
        filter_fails(start),
        partly_filtered(start, board),
{
    let i = group_index(group, k);
    lemma_group_index_on_board(group, k);
    let candidates = start[i].possibilities->0;
    lemma_seen_values_grow(start, i, group + 1, 27);
    assert(candidates.difference(seen_values(start, i, 27)) =~= Set::<u8>::empty()) by {
        assert forall|d: u8| !candidates.difference(seen_values(start, i, 27)).contains(d) by {
            if candidates.contains(d) {
                assert(!candidates.difference(seen_values(start, i, group + 1)).contains(d));
            }
        }
    }
    assert(filtered_cell(start, i, 27).possibilities == Some(Set::<u8>::empty()));
    assert forall|j: int| 0 <= j < 81 implies {
        let old_cell = #[trigger] start[j];
        let new_cell = board[j];
        &&& new_cell.value == old_cell.value
        &&& new_cell.is_original_value == old_cell.is_original_value
        &&& new_cell.possibilities is Some <==> old_cell.possibilities is Some
        &&& new_cell.possibilities matches Some(kept) ==> {
            &&& kept.subset_of(old_cell.possibilities->0)
            &&& filtered_cell(start, j, 27).possibilities->0.subset_of(kept)
        }
    } by {
        assert(board[j] == filter_progress(start, j, group, k));
        lemma_seen_values_grow(start, j, group, 27);
        lemma_seen_values_grow(start, j, group + 1, 27);
    }
}

/// The board that the filter has come some way on is well-formed if the
/// board that it started on is.
pub proof fn lemma_filter_keeps_well_formed(start: Board, board: Board, group: int, k: int)
    requires
        filter_reached(start, board, group, k),
        board_well_formed(start),
    ensures
        board_well_formed(board),
{
    assert forall|i: int| 0 <= i < 81 implies (#[trigger] board[i]).well_formed() by {
        assert(start[i].well_formed());
        assert(board[i] == filter_progress(start, i, group, k));
        if start[i].value is None {
            let all = start[i].possibilities->0;
            let kept = board[i].possibilities->0;
            lemma_fewer_candidates(start[i], kept);
            if kept.len() == 0 {
                assert(kept =~= Set::<u8>::empty());
                if !filter_passed(i, group, k) {
                    assert(seen_values(start, i, group) =~= Set::<u8>::empty()) by {
                        assert forall|d: u8| !seen_values(start, i, group).contains(d) by {
                            if seen_values(start, i, group).contains(d) {
                                let g = choose|g: int|
                                    0 <= g < group && #[trigger] in_group(g, i) && group_values(
                                        start,
                                        g,
                                    ).contains(d);
                                assert(filter_passed(i, group, k));
                            }
                        }
                    }
                    assert(kept =~= all);
                }
            }
        }
    }
}

/// How far the check has come in group `group`: cell `i` once the first `k`
/// cells of the group were looked at.
pub open spec fn check_progress(board: Board, i: int, group: int, k: int) -> CellView {
    if exists|j: int| 0 <= j < k && #[trigger] group_index(group, j) == i {
        checked_cell(board, group, i)
    } else {
        board[i]
    }
}

/// `board` is what the check of group `group` has made of `before` when it
/// has looked at the first `k` cells of the group.
pub open spec fn check_within(before: Board, board: Board, group: int, k: int) -> bool {
    &&& before.len() == 81
    &&& board.len() == 81
    &&& forall|i: int| 0 <= i < 81 ==> #[trigger] board[i] == check_progress(before, i, group, k)
}

/// `board` is what the check has made of `start` when it has gone over the
/// groups below `group`, none of which holds a cell without digit and
/// candidates.
pub open spec fn check_reached(start: Board, board: Board, group: int) -> bool {
    &&& start.len() == 81
    &&& board == checked_upto(start, group)
    &&& forall|h: int| 0 <= h < group ==> !#[trigger] has_void_cell(start, h)
}

/// The check of a group leaves the board its length, keeps cells without digit
/// and candidates as they are, and keeps a well-formed board well-formed.
pub proof fn lemma_check_keeps_shape(board: Board, group: int)
    requires
        board.len() == 81,
        0 <= group < 27,
    ensures
        checked_group(board, group).len() == 81,
        forall|i: int|
            0 <= i < 81 ==> (#[trigger] checked_group(board, group)[i]).is_void()
                == board[i].is_void(),
        board_well_formed(board) ==> board_well_formed(checked_group(board, group)),
{
    let after = checked_group(board, group);
    assert forall|i: int| 0 <= i < 81 implies (#[trigger] after[i]).is_void()
        == board[i].is_void() by {
        lemma_largest_forced(board, group, i, 9);
    }
    if board_well_formed(board) {
        lemma_check_group_shrinks(board, group);
    }
}

/// The check of the groups below `upto` leaves the board its length, keeps
/// cells without digit and candidates as they are, and keeps a well-formed
/// board well-formed.
pub proof fn lemma_checked_shape(board: Board, upto: int)
    requires
        board.len() == 81,
        0 <= upto <= 27,
    ensures
        checked_upto(board, upto).len() == 81,
        forall|i: int|
            0 <= i < 81 ==> (#[trigger] checked_upto(board, upto)[i]).is_void()
                == board[i].is_void(),
        forall|g: int|
            0 <= g < 27 ==> #[trigger] has_void_cell(checked_upto(board, upto), g)
                == has_void_cell(board, g),
        board_well_formed(board) ==> board_well_formed(checked_upto(board, upto)),
    decreases upto,
{
    if upto > 0 {
        lemma_checked_shape(board, upto - 1);
        lemma_check_keeps_shape(checked_upto(board, upto - 1), upto - 1);
    }
    let after = checked_upto(board, upto);
    assert forall|g: int| 0 <= g < 27 implies #[trigger] has_void_cell(after, g) == has_void_cell(
        board,
        g,
    ) by {
        if has_void_cell(after, g) {
            let k = choose|k: int| 0 <= k < 9 && (#[trigger] group_cell(after, g, k)).is_void();
            lemma_group_index_on_board(g, k);
            assert(group_cell(board, g, k).is_void());
        }
        if has_void_cell(board, g) {
            let k = choose|k: int| 0 <= k < 9 && (#[trigger] group_cell(board, g, k)).is_void();
            lemma_group_index_on_board(g, k);
            assert(group_cell(after, g, k).is_void());
        }
    }
}

/// A board of which no row holds a cell without digit and candidates holds
/// no such cell.
pub proof fn lemma_no_void_cell(board: Board)
    requires
        board.len() == 81,
        forall|h: int| 0 <= h < 27 ==> !#[trigger] has_void_cell(board, h),
    ensures
        forall|i: int| 0 <= i < 81 ==> !(#[trigger] board[i]).is_void(),
{
    assert forall|i: int| 0 <= i < 81 implies !(#[trigger] board[i]).is_void() by {
        lemma_cell_in_its_row(board, i);
        if board[i].is_void() {
            assert(group_cell(board, i / 9, i % 9).is_void());
            assert(has_void_cell(board, i / 9));
        }
    }
}

/// A group that holds a cell without digit and candidates shows that the
/// board holds one.
pub proof fn lemma_void_cell(board: Board, group: int)
    requires
        0 <= group < 27,
        has_void_cell(board, group),
    ensures
        exists|i: int| 0 <= i < 81 && (#[trigger] board[i]).is_void(),
{
    let k = choose|k: int| 0 <= k < 9 && (#[trigger] group_cell(board, group, k)).is_void();
    lemma_group_index_on_board(group, k);
    assert(board[group_index(group, k)].is_void());
}

/// The check finds cell `k` of the group as it was before the check of the
/// group.
pub proof fn lemma_check_at(before: Board, board: Board, group: int, k: int)
    requires
        check_within(before, board, group, k),
        0 <= group < 27,
        0 <= k < 9,
    ensures
        0 <= group_index(group, k) < 81,
        board[group_index(group, k)] == before[group_index(group, k)],
        in_group(group, group_index(group, k)),
{
    let i = group_index(group, k);
    lemma_group_index_on_board(group, k);
    assert(board[i] == check_progress(before, i, group, k));
    if exists|j: int| 0 <= j < k && #[trigger] group_index(group, j) == i {
        let j = choose|j: int| 0 <= j < k && #[trigger] group_index(group, j) == i;
        lemma_group_cells_differ(group, j, k);
    }
}

/// `new_cell` is `old_cell` with one of its candidates left as the only one,
/// where it was not the only one before.
pub open spec fn narrowed_to_one(old_cell: CellView, new_cell: CellView) -> bool {
    exists|d: u8|
        #[trigger] admits(old_cell, d) && new_cell == old_cell.with_candidates(
            Set::<u8>::empty().insert(d),
        ) && new_cell != old_cell
}

/// Each cell of `board` is the cell of `start`, or that cell narrowed to one
/// of its candidates.
pub open spec fn check_narrowed(start: Board, board: Board) -> bool {
    &&& board.len() == start.len()
    &&& forall|i: int|
        0 <= i < start.len() ==> #[trigger] board[i] == start[i] || narrowed_to_one(
            start[i],
            board[i],
        )
}

/// The check of a group begins on the board as the groups before left it.
pub proof fn lemma_check_begins(before: Board, group: int)
    requires
        before.len() == 81,
    ensures
        check_within(before, before, group, 0),
{
}

/// The check goes on from cell `k` of the group to the next cell, having made
/// of the cell what the group makes of it. A cell once narrowed stays as it
/// is, so the board differs from the first board if it did before or does so
/// now.
pub proof fn lemma_check_moves_on(
    start: Board,
    before: Board,
    board: Board,
    after: Board,
    group: int,
    k: int,
)
    requires
        check_narrowed(start, board),
        check_within(before, board, group, k),
        0 <= group < 27,
        0 <= k < 9,
        after == board.update(
            group_index(group, k),
            checked_cell(before, group, group_index(group, k)),
        ),
    ensures
        check_narrowed(start, after),
        check_within(before, after, group, k + 1),
        after != start <==> (board != start || after != board),
{
    let index = group_index(group, k);
    lemma_check_at(before, board, group, k);
    lemma_largest_forced(before, group, index, 9);
    assert forall|i: int| 0 <= i < 81 implies #[trigger] after[i] == check_progress(
        before,
        i,
        group,
        k + 1,
    ) by {
        if i != index {
            assert(board[i] == check_progress(before, i, group, k));
            if exists|j: int| 0 <= j < k + 1 && #[trigger] group_index(group, j) == i {
                let j = choose|j: int| 0 <= j < k + 1 && #[trigger] group_index(group, j) == i;
                assert(j < k);
            }
        }
    }
    let old_cell = start[index];
    let cell = board[index];
    let new_cell = after[index];
    assert(cell == old_cell || narrowed_to_one(old_cell, cell));
    if forced_digit(before, group, index) is Some {
        let d = forced_digit(before, group, index)->0;
        assert(admits(cell, d));
        if cell != old_cell {
            // The cell has one candidate left, and the group forces that one.
            let e = choose|e: u8|
                #[trigger] admits(old_cell, e) && cell == old_cell.with_candidates(
                    Set::<u8>::empty().insert(e),
                ) && cell != old_cell;
            assert(d == e);
            assert(new_cell == cell);
        } else if new_cell != old_cell {
            assert(admits(old_cell, d));
            assert(narrowed_to_one(old_cell, new_cell));
        }
    } else {
        assert(new_cell == cell);
    }
    assert forall|i: int| 0 <= i < start.len() implies #[trigger] after[i] == start[i]
        || narrowed_to_one(start[i], after[i]) by {
        if i != index {
            assert(after[i] == board[i]);
            assert(board[i] == start[i] || narrowed_to_one(start[i], board[i]));
        }
    }
    if board != start {
        assert(!(board =~= start));
        let j = choose|j: int| 0 <= j < 81 && board[j] != start[j];
        if j != index {
            assert(after[j] == board[j]);
        }
        assert(after[j] != start[j]);
    }
    if after != board {
        if new_cell == cell {
            assert(after =~= board);
        }
        assert(after[index] != start[index]);
    }
}

/// The check, having looked at the nine cells of a group, has checked the
/// group.
pub proof fn lemma_check_group_ends(start: Board, before: Board, board: Board, group: int)
    requires
        check_reached(start, before, group),
        check_within(before, board, group, 9),
        0 <= group < 27,
        !has_void_cell(start, group),
    ensures
        check_reached(start, board, group + 1),
{
    assert forall|i: int| 0 <= i < 81 implies board[i] == checked_cell(before, group, i) by {
        assert(board[i] == check_progress(before, i, group, 9));
        lemma_largest_forced(before, group, i, 9);
    }
    assert(board =~= checked_group(before, group));
}

} // verus!
