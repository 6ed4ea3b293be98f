use std::collections::{HashMap, VecDeque};
use vstd::prelude::*;

use crate::errors::{NoMoreGuessesError, UnsolvableSudokuError};
use crate::models::digit_set::{all_digits, DigitSet};
use crate::models::guess::{lemma_applied_well_formed, Guess, GuessView};
use crate::models::sudoku::{
    board_well_formed, group_cell, group_values, is_solved_board, Sudoku,
};
use crate::models::value::{cells_view, copy_cells, same_cells, Board, SudokuCell};
use crate::progress::{
    check_narrowed, check_reached, check_within, filter_reached, lemma_check_at,
    lemma_check_begins, lemma_check_group_ends, lemma_check_moves_on, lemma_checked_shape,
    lemma_filter_at, lemma_filter_ends, lemma_filter_keeps_values,
    lemma_filter_keeps_well_formed, lemma_filter_moves_on, lemma_filter_next_group,
    lemma_filter_starts, lemma_filter_stops, lemma_no_void_cell, lemma_void_cell,
};
use crate::propagation::{
    admits, board_is_usable, checked, checked_upto, cleaned, cleaned_cell,
    count_admitting, filter_fails, filtered, forced_digit, has_void_cell, in_group, is_forced,
    keeps_digits, largest_forced, lemma_filter_shrinks, lemma_largest_forced, lemma_lighter,
    lemma_pass_changes, lemma_pass_shrinks, lemma_propagate_rests, lemma_shrinks_twice,
    partly_filtered, pass, propagate, shrinks_to, weight,
};
use crate::search::{
    first_guess, fresh_state, guess_step, guesses_made, lemma_fresh_is_consistent,
    lemma_keeps_digits_twice, lemma_no_guess_twice, lemma_search_keeps_digits, next_guess,
    next_guess_from, search, step, SearchState, Step,
};
use crate::solutions::{fits, lemma_propagate_keeps_solutions};
use crate::utils::{group_index, GroupIndexes};

verus! {

/// The digits between 1 and 9 that stand as values in the cells of a group.
fn group_fixed_digits(sudoku: &Sudoku, indexes: &Vec<usize>, group: usize) -> (fixed: DigitSet)
    requires
        sudoku@.len() == 81,
        group < 27,
        indexes@.len() == 9,
        forall|k: int| 0 <= k < 9 ==> indexes@[k] == group_index(group as int, k),
        forall|k: int| 0 <= k < 9 ==> indexes@[k] < 81,
    ensures
        fixed@ == group_values(sudoku@, group as int).intersect(all_digits()),
{
    let mut fixed = DigitSet::new();
    let mut k: usize = 0;
    while k < 9
        invariant
            k <= 9,
            sudoku@.len() == 81,
            indexes@.len() == 9,
            forall|j: int| 0 <= j < 9 ==> indexes@[j] == group_index(group as int, j),
            forall|j: int| 0 <= j < 9 ==> indexes@[j] < 81,
            forall|d: u8|
                fixed@.contains(d) <==> (1 <= d <= 9 && exists|j: int|
                    0 <= j < k && #[trigger] group_cell(sudoku@, group as int, j).value == Some(d)),
        decreases 9 - k,
    {
        let index = indexes[k];
        assert(sudoku@[index as int] == group_cell(sudoku@, group as int, k as int));
        let ghost before = fixed@;
        if let Some(value) = sudoku.cells[index].value {
            if 1 <= value && value <= 9 {
                fixed.insert(value);
            }
        }
        proof {
            assert forall|d: u8|
                fixed@.contains(d) <==> (1 <= d <= 9 && exists|j: int|
                    0 <= j < k + 1 && #[trigger] group_cell(sudoku@, group as int, j).value
                        == Some(d)) by {
                if before.contains(d) {
                    let j = choose|j: int|
                        0 <= j < k && #[trigger] group_cell(sudoku@, group as int, j).value == Some(
                            d,
                        );
                    assert(0 <= j < k + 1 && group_cell(sudoku@, group as int, j).value == Some(d));
                }
                if fixed@.contains(d) && !before.contains(d) {
                    assert(group_cell(sudoku@, group as int, k as int).value == Some(d));
                }
                if 1 <= d <= 9 && exists|j: int|
                    0 <= j < k + 1 && #[trigger] group_cell(sudoku@, group as int, j).value
                        == Some(d) {
                    let j = choose|j: int|
                        0 <= j < k + 1 && #[trigger] group_cell(sudoku@, group as int, j).value
                            == Some(d);
                    if j < k {
                        assert(before.contains(d));
                    }
                }
            }
        }
        k += 1;
    }
    assert(fixed@ =~= group_values(sudoku@, group as int).intersect(all_digits()));
    fixed
}

/// Replaces the candidates of one cell.
fn set_candidates(sudoku: &mut Sudoku, index: usize, candidates: DigitSet)
    requires
        index < old(sudoku)@.len(),
    ensures
        final(sudoku)@ == old(sudoku)@.update(
            index as int,
            old(sudoku)@[index as int].with_candidates(candidates@),
        ),
{
    let mut cell = sudoku.cells[index];
    cell.possibilities = Some(candidates);
    sudoku.cells.set(index, cell);
    assert(sudoku@ =~= old(sudoku)@.update(
        index as int,
        old(sudoku)@[index as int].with_candidates(candidates@),
    ));
}

/// The count that `counter` holds for `d`, and 0 where it holds none.
spec fn tally(counter: Map<u8, i32>, d: u8) -> int {
    if counter.contains_key(d) {
        counter[d] as int
    } else {
        0
    }
}

/// No more cells admit a digit than were looked at.
proof fn lemma_count_bounded(board: Board, group: int, d: u8, upto: int)
    requires
        0 <= upto,
    ensures
        count_admitting(board, group, d, upto) <= upto,
    decreases upto,
{
    if upto > 0 {
        lemma_count_bounded(board, group, d, upto - 1);
    }
}

/// Counts, for each digit, the open cells of a group that admit it. There is no
/// count where the group holds a cell without a digit and without candidates.
fn count_candidates(sudoku: &Sudoku, indexes: &Vec<usize>, group: usize) -> (counted: Option<
    HashMap<u8, i32>,
>)
    requires
        sudoku@.len() == 81,
        group < 27,
        indexes@.len() == 9,
        forall|k: int| 0 <= k < 9 ==> indexes@[k] == group_index(group as int, k),
        forall|k: int| 0 <= k < 9 ==> indexes@[k] < 81,
    ensures
        counted is None <==> has_void_cell(sudoku@, group as int),
        counted matches Some(counter) ==> forall|d: u8|
            #[trigger] tally(counter@, d) == count_admitting(sudoku@, group as int, d, 9),
{
    let mut counter: HashMap<u8, i32> = HashMap::new();
    let mut k: usize = 0;
    while k < 9
        invariant
            k <= 9,
            sudoku@.len() == 81,
            indexes@.len() == 9,
            forall|j: int| 0 <= j < 9 ==> indexes@[j] == group_index(group as int, j),
            forall|j: int| 0 <= j < 9 ==> indexes@[j] < 81,
            forall|j: int|
                0 <= j < k ==> !(#[trigger] group_cell(sudoku@, group as int, j)).is_void(),
            forall|d: u8|
                #[trigger] tally(counter@, d) == count_admitting(
                    sudoku@,
                    group as int,
                    d,
                    k as int,
                ),
        decreases 9 - k,
    {
        let index = indexes[k];
        let cell = sudoku.cells[index];
        assert(cell@ == group_cell(sudoku@, group as int, k as int));
        if cell.value.is_none() {
            match cell.possibilities {
                Some(candidates) => {
                    proof {
                        candidates.lemma_view_is_digits();
                        assert(!all_digits().contains(0));
                    }
                    let mut d: u8 = 1;
                    while d <= 9
                        invariant
                            1 <= d <= 10,
                            k < 9,
                            forall|e: u8|
                                #[trigger] tally(counter@, e) == count_admitting(
                                    sudoku@,
                                    group as int,
                                    e,
                                    k as int,
                                ) + if e < d && candidates@.contains(e) {
                                    1int
                                } else {
                                    0int
                                },
                        decreases 10 - d,
                    {
                        if candidates.contains(d) {
                            let count: i32 = match counter.get(&d) {
                                Some(seen) => *seen,
                                None => 0,
                            };
                            proof {
                                assert(count == tally(counter@, d));
                                lemma_count_bounded(sudoku@, group as int, d, k as int);
                            }
                            let ghost before = counter@;
                            counter.insert(d, count + 1);
                            proof {
                                assert forall|e: u8|
                                    #[trigger] tally(counter@, e) == count_admitting(
                                        sudoku@,
                                        group as int,
                                        e,
                                        k as int,
                                    ) + if e < d + 1 && candidates@.contains(e) {
                                        1int
                                    } else {
                                        0int
                                    } by {
                                    assert(tally(before, e) == count_admitting(
                                        sudoku@,
                                        group as int,
                                        e,
                                        k as int,
                                    ) + if e < d && candidates@.contains(e) {
                                        1int
                                    } else {
                                        0int
                                    });
                                }
                            }
                        }
                        d += 1;
                    }
                    proof {
                        candidates.lemma_view_is_digits();
                        assert forall|e: u8|
                            #[trigger] tally(counter@, e) == count_admitting(
                                sudoku@,
                                group as int,
                                e,
                                k + 1,
                            ) by {
                            assert(admits(cell@, e) == candidates@.contains(e));
                            if candidates@.contains(e) {
                                assert(all_digits().contains(e));
                            }
                        }
                    }
                },
                None => {
                    assert(group_cell(sudoku@, group as int, k as int).is_void());
                    return None;
                },
            }
        }
        k += 1;
    }
    proof {
        if has_void_cell(sudoku@, group as int) {
            let j = choose|j: int|
                0 <= j < 9 && (#[trigger] group_cell(sudoku@, group as int, j)).is_void();
            assert(!group_cell(sudoku@, group as int, j).is_void());
        }
    }
    Some(counter)
}

/// The digit that a group forces on a cell, read off the group's counts.
fn find_forced(
    cell: &SudokuCell,
    counter: &HashMap<u8, i32>,
    Ghost(board): Ghost<Board>,
    Ghost(group): Ghost<int>,
    Ghost(i): Ghost<int>,
) -> (forced: Option<u8>)
    requires
        0 <= i < board.len(),
        in_group(group, i),
        cell@ == board[i],
        forall|d: u8| #[trigger] tally(counter@, d) == count_admitting(board, group, d, 9),
    ensures
        forced == forced_digit(board, group, i),
        forced matches Some(d) ==> 1 <= d <= 9 && admits(board[i], d),
{
    let mut forced: Option<u8> = None;
    let mut d: u8 = 1;
    while d <= 9
        invariant
            1 <= d <= 10,
            0 <= i < board.len(),
            in_group(group, i),
            cell@ == board[i],
            forall|e: u8| #[trigger] tally(counter@, e) == count_admitting(board, group, e, 9),
            forced == largest_forced(board, group, i, d - 1),
        decreases 10 - d,
    {
        let admitted = cell.value.is_none() && match cell.possibilities {
            Some(candidates) => candidates.contains(d),
            None => false,
        };
        if admitted {
            if let Some(count) = counter.get(&d) {
                if *count == 1 {
                    assert(tally(counter@, d) == 1);
                    forced = Some(d);
                }
            }
        }
        proof {
            assert(admitted == admits(board[i], d));
            assert(is_forced(board, group, i, d) == (admitted && tally(counter@, d) == 1));
        }
        d += 1;
    }
    proof {
        lemma_largest_forced(board, group, i, 9);
    }
    forced
}

/// Two members of a set with one member are the same.
proof fn lemma_single_member(s: Set<u8>, a: u8, b: u8)
    requires
        s.finite(),
        s.len() == 1,
        s.contains(a),
        s.contains(b),
    ensures
        a == b,
{
    if a != b {
        let rest = s.remove(a);
        assert(rest.len() == 0);
        assert(rest.contains(b));
    }
}

/// The number of rounds after which a solve gives up.
pub const MAX_ITERATIONS: usize = 999;

/// The guesses of a vector as the contracts see them.
pub open spec fn guesses_view(guesses: Seq<Guess>) -> Seq<GuessView> {
    guesses.map_values(|guess: Guess| guess@)
}

/// What a solver is to the contracts: its stack of guesses, the latest last,
/// and the set of the guesses it has tried.
pub struct SolverView {
    pub guesses: Seq<GuessView>,
    pub used_guesses: Set<GuessView>,
}

/// The solving engine: the propagation rules, and the search that guesses
/// where they stall.
///
/// `guesses` is the path of the search, the latest guess last. `used_guesses`
/// is the memory of the search: every guess tried in it, none twice. It is a
/// vector and not a hashed set, because the verifier can follow the
/// comparison of two guesses but not their hashing. Both belong to one solve:
/// a solve starts by emptying them and leaves them empty.
#[derive(Debug)]
pub struct SudokuSolver {
    pub guesses: VecDeque<Guess>,
    pub used_guesses: Vec<Guess>,
}

impl View for SudokuSolver {
    type V = SolverView;

    open spec fn view(&self) -> SolverView {
        SolverView {
            guesses: guesses_view(self.guesses@),
            used_guesses: guesses_view(self.used_guesses@).to_set(),
        }
    }
}

impl SudokuSolver {
    /// Every guess on the stack names a cell of a well-formed board.
    pub open spec fn stack_well_formed(&self) -> bool {
        forall|k: int|
            0 <= k < self@.guesses.len() ==> (#[trigger] self@.guesses[k]).well_formed()
    }

    /// Every guess on the stack names a cell of a well-formed board, and the
    /// memory holds no guess twice.
    pub open spec fn well_formed(&self) -> bool {
        &&& self.stack_well_formed()
        &&& guesses_view(self.used_guesses@).no_duplicates()
    }

    /// The state of the search that this solver and `sudoku` are in.
    pub open spec fn state(&self, sudoku: &Sudoku) -> SearchState {
        SearchState {
            board: sudoku@,
            guesses: self@.guesses,
            used_guesses: self@.used_guesses,
        }
    }

    /// A solver without guesses.
    pub fn new() -> (solver: SudokuSolver)
        ensures
            solver@.guesses == Seq::<GuessView>::empty(),
            solver@.used_guesses == Set::<GuessView>::empty(),
            solver.well_formed(),
    {
        let solver = SudokuSolver { guesses: VecDeque::new(), used_guesses: Vec::new() };
        assert(solver@.guesses =~= Seq::<GuessView>::empty());
        assert(solver@.used_guesses =~= Set::<GuessView>::empty());
        solver
    }

    /// Whether the memory holds the guess made of these parts.
    fn has_tried(
        &self,
        index: usize,
        value: u8,
        others: &DigitSet,
        cells: &Vec<SudokuCell>,
    ) -> (tried: bool)
        ensures
            tried == self@.used_guesses.contains(
                GuessView {
                    index: index as int,
                    value,
                    other_possibilities: others@,
                    state: cells_view(cells@),
                },
            ),
    {
        let ghost wanted = GuessView {
            index: index as int,
            value,
            other_possibilities: others@,
            state: cells_view(cells@),
        };
        let ghost tried_guesses = guesses_view(self.used_guesses@);
        let mut k: usize = 0;
        while k < self.used_guesses.len()
            invariant
                k <= self.used_guesses@.len(),
                tried_guesses == guesses_view(self.used_guesses@),
                wanted == (GuessView {
                    index: index as int,
                    value,
                    other_possibilities: others@,
                    state: cells_view(cells@),
                }),
                forall|j: int| 0 <= j < k ==> #[trigger] tried_guesses[j] != wanted,
            decreases self.used_guesses.len() - k,
        {
            let guess = &self.used_guesses[k];
            if guess.index == index && guess.value == value && guess.other_possibilities.same_as(
                others,
            ) && same_cells(&guess.state, cells) {
                assert(tried_guesses[k as int] == wanted);
                assert(tried_guesses.contains(wanted));
                return true;
            }
            assert(tried_guesses[k as int] == guess@);
            k += 1;
        }
        assert(!tried_guesses.contains(wanted));
        false
    }

    /// Strikes from the candidates of every open cell the digits that stand as
    /// values in its row, its column or its block, and says whether any
    /// candidate went.
    ///
    /// Fails when that would leave an open cell without a candidate; the cells
    /// then keep part of their candidates struck.
    pub fn filter(sudoku: &mut Sudoku) -> (done: Result<bool, UnsolvableSudokuError>)
        requires
            board_is_usable(old(sudoku)@),
        ensures
            done is Err <==> filter_fails(old(sudoku)@),
            done matches Ok(modified) ==> final(sudoku)@ == filtered(old(sudoku)@) && modified == (
            final(sudoku)@ != old(sudoku)@),
            done is Err ==> partly_filtered(old(sudoku)@, final(sudoku)@),
            board_well_formed(old(sudoku)@) ==> board_well_formed(final(sudoku)@),
    {
        let ghost start = sudoku@;
        let mut modified = false;
        let mut groups = GroupIndexes::new();
        let mut group: usize = 0;
        proof {
            lemma_filter_starts(start);
        }
        while group < 27
            invariant
                group <= 27,
                groups@ == group,
                start == old(sudoku)@,
                board_is_usable(start),
                filter_reached(start, sudoku@, group as int, 0),
                modified == (sudoku@ != start),
            decreases 27 - group,
        {
            let indexes = groups.next().unwrap();
            let fixed = group_fixed_digits(sudoku, &indexes, group);
            proof {
                lemma_filter_keeps_values(start, sudoku@, group as int, 0, group as int);
            }
            let mut k: usize = 0;
            while k < 9
                invariant
                    k <= 9,
                    group < 27,
                    start == old(sudoku)@,
                    indexes@.len() == 9,
                    forall|j: int| 0 <= j < 9 ==> indexes@[j] == group_index(group as int, j),
                    forall|j: int| 0 <= j < 9 ==> indexes@[j] < 81,
                    fixed@ == group_values(start, group as int).intersect(all_digits()),
                    board_is_usable(start),
                    filter_reached(start, sudoku@, group as int, k as int),
                    modified == (sudoku@ != start),
                decreases 9 - k,
            {
                let index = indexes[k];
                let ghost before = sudoku@;
                let cell = sudoku.cells[index];
                proof {
                    assert(cell@ == before[index as int]);
                    lemma_filter_at(start, before, group as int, k as int);
                }
                if cell.value.is_none() {
                    let mut candidates = cell.possibilities.unwrap();
                    let struck = candidates.remove_all(&fixed);
                    proof {
                        cell.possibilities.unwrap().lemma_view_is_digits();
                        assert(candidates@ =~= cell@.possibilities->0.difference(
                            group_values(start, group as int),
                        ));
                    }
                    if candidates.is_empty() {
                        proof {
                            lemma_filter_stops(start, before, group as int, k as int);
                            if board_well_formed(start) {
                                lemma_filter_keeps_well_formed(
                                    start,
                                    before,
                                    group as int,
                                    k as int,
                                );
                            }
                        }
                        return Err(UnsolvableSudokuError);
                    }
                    set_candidates(sudoku, index, candidates);
                    modified = modified || struck;
                    assert(struck == (sudoku@ != before)) by {
                        if !struck {
                            assert(sudoku@ =~= before);
                        } else {
                            assert(sudoku@[index as int] != before[index as int]);
                        }
                    }
                } else {
                    assert(sudoku@ =~= before.update(index as int, before[index as int]));
                }
                proof {
                    lemma_filter_moves_on(start, before, sudoku@, group as int, k as int);
                }
                k += 1;
            }
            proof {
                lemma_filter_next_group(start, sudoku@, group as int);
            }
            group += 1;
        }
        proof {
            lemma_filter_ends(start, sudoku@);
            if board_well_formed(start) {
                lemma_filter_keeps_well_formed(start, sudoku@, 27, 0);
            }
        }
        Ok(modified)
    }

    /// Goes over the 27 groups one after the other. Where a digit is a
    /// candidate of exactly one open cell of a group, it becomes that cell's
    /// only candidate. Says whether any cell was narrowed in this way: a cell
    /// that held the forced digit as its only candidate already is none.
    ///
    /// Fails on a board that holds a cell without a digit and without
    /// candidates, having checked the groups before the first one with such a cell.
    pub fn check(sudoku: &mut Sudoku) -> (done: Result<bool, UnsolvableSudokuError>)
        requires
            old(sudoku)@.len() == 81,
        ensures
            done is Err <==> exists|i: int| 0 <= i < 81 && (#[trigger] old(sudoku)@[i]).is_void(),
            done matches Ok(modified) ==> final(sudoku)@ == checked(old(sudoku)@) && modified == (
            final(sudoku)@ != old(sudoku)@),
            done is Err ==> exists|g: int|
                0 <= g < 27 && #[trigger] has_void_cell(old(sudoku)@, g) && final(sudoku)@
                    == checked_upto(old(sudoku)@, g),
            board_well_formed(old(sudoku)@) ==> board_well_formed(final(sudoku)@),
    {
        let ghost start = sudoku@;
        let mut modified = false;
        let mut groups = GroupIndexes::new();
        let mut group: usize = 0;
        while group < 27
            invariant
                group <= 27,
                groups@ == group,
                start == old(sudoku)@,
                check_reached(start, sudoku@, group as int),
                check_narrowed(start, sudoku@),
                modified == (sudoku@ != start),
            decreases 27 - group,
        {
            let indexes = groups.next().unwrap();
            let ghost before = sudoku@;
            proof {
                lemma_checked_shape(start, group as int);
            }
            let counter = match count_candidates(sudoku, &indexes, group) {
                Some(counter) => counter,
                None => {
                    proof {
                        lemma_void_cell(start, group as int);
                    }
                    return Err(UnsolvableSudokuError);
                },
            };
            let mut k: usize = 0;
            proof {
                lemma_check_begins(before, group as int);
            }
            while k < 9
                invariant
                    k <= 9,
                    group < 27,
                    indexes@.len() == 9,
                    forall|j: int| 0 <= j < 9 ==> indexes@[j] == group_index(group as int, j),
                    forall|j: int| 0 <= j < 9 ==> indexes@[j] < 81,
                    forall|d: u8|
                        #[trigger] tally(counter@, d) == count_admitting(
                            before,
                            group as int,
                            d,
                            9,
                        ),
                    check_within(before, sudoku@, group as int, k as int),
                    check_narrowed(start, sudoku@),
                    modified == (sudoku@ != start),
                decreases 9 - k,
            {
                let index = indexes[k];
                let ghost current = sudoku@;
                let cell = sudoku.cells[index];
                proof {
                    assert(cell@ == current[index as int]);
                    lemma_check_at(before, current, group as int, k as int);
                }
                let forced = find_forced(
                    &cell,
                    &counter,
                    Ghost(before),
                    Ghost(group as int),
                    Ghost(index as int),
                );
                match forced {
                    Some(digit) => {
                        let single = DigitSet::singleton(digit);
                        let narrowed = match cell.possibilities {
                            Some(candidates) => candidates.same_as(&single),
                            None => false,
                        };
                        if !narrowed {
                            set_candidates(sudoku, index, single);
                            modified = true;
                            assert(sudoku@[index as int] != current[index as int]);
                        } else {
                            assert(sudoku@ =~= current.update(
                                index as int,
                                current[index as int].with_candidates(single@),
                            ));
                        }
                    },
                    None => {
                        assert(sudoku@ =~= current.update(index as int, current[index as int]));
                    },
                }
                proof {
                    lemma_check_moves_on(start, before, current, sudoku@, group as int, k as int);
                }
                k += 1;
            }
            proof {
                lemma_check_group_ends(start, before, sudoku@, group as int);
            }
            group += 1;
        }
        proof {
            lemma_checked_shape(start, 27);
            lemma_no_void_cell(start);
        }
        Ok(modified)
    }

    /// Gives every open cell that has a single candidate left that candidate
    /// as its value, and says whether there was such a cell.
    pub fn clean_possibilities(sudoku: &mut Sudoku) -> (changed: bool)
        requires
            board_is_usable(old(sudoku)@),
        ensures
            final(sudoku)@ == cleaned(old(sudoku)@),
            changed == (final(sudoku)@ != old(sudoku)@),
            board_well_formed(old(sudoku)@) ==> board_well_formed(final(sudoku)@),
    {
        let ghost start = sudoku@;
        let mut changed = false;
        let mut index: usize = 0;
        while index < 81
            invariant
                index <= 81,
                start == old(sudoku)@,
                board_is_usable(start),
                sudoku@.len() == 81,
                forall|i: int| 0 <= i < index ==> #[trigger] sudoku@[i] == cleaned_cell(start[i]),
                forall|i: int| index <= i < 81 ==> #[trigger] sudoku@[i] == start[i],
                changed == (sudoku@ != start),
                board_well_formed(start) ==> board_well_formed(sudoku@),
            decreases 81 - index,
        {
            let ghost current = sudoku@;
            let mut cell = sudoku.cells[index];
            assert(cell@ == sudoku@[index as int]);
            if cell.value.is_none() {
                let candidates = cell.possibilities.unwrap();
                proof {
                    candidates.lemma_view_is_digits();
                }
                if candidates.len() == 1 {
                    let digit = candidates.first().unwrap();
                    proof {
                        lemma_single_member(candidates@, digit, candidates@.choose());
                    }
                    cell.set_value(digit);
                    sudoku.cells.set(index, cell);
                    changed = true;
                    proof {
                        assert(sudoku@ =~= current.update(index as int, cell@));
                        assert(sudoku@[index as int] != start[index as int]);
                    }
                }
            }
            proof {
                assert(sudoku@[index as int] == cleaned_cell(start[index as int]));
                if !changed {
                    assert(sudoku@ =~= start);
                }
                if board_well_formed(start) {
                    assert forall|i: int| 0 <= i < 81 implies (
                    #[trigger] sudoku@[i]).well_formed() by {
                        if i != index {
                            assert(sudoku@[i] == current[i]);
                        } else {
                            assert(start[i].well_formed());
                        }
                    }
                }
            }
            index += 1;
        }
        assert(sudoku@ =~= cleaned(start));
        changed
    }

    /// Runs pass after pass (the filter, the check, the clean) until one
    /// leaves the board as it is, and says whether the board has changed.
    ///
    /// Fails when the filter fails in one of the passes.
    pub fn run_routine(sudoku: &mut Sudoku) -> (done: Result<bool, UnsolvableSudokuError>)
        requires
            old(sudoku).well_formed(),
        ensures
            done is Err <==> propagate(old(sudoku)@) is None,
            done matches Ok(changed) ==> propagate(old(sudoku)@) == Some(final(sudoku)@) && changed
                == (final(sudoku)@ != old(sudoku)@),
            final(sudoku).well_formed(),
            keeps_digits(old(sudoku)@, final(sudoku)@),
    {
        let ghost start = sudoku@;
        let mut changed = false;
        let mut again = true;
        while again
            invariant
                start == old(sudoku)@,
                board_well_formed(start),
                board_well_formed(sudoku@),
                propagate(sudoku@) == propagate(start),
                shrinks_to(start, sudoku@),
                keeps_digits(start, sudoku@),
                changed == (sudoku@ != start),
                !again ==> pass(sudoku@) == Some(sudoku@),
            decreases weight(sudoku@), (if again { 1int } else { 0int }),
        {
            let ghost before = sudoku@;
            let struck = match SudokuSolver::filter(sudoku) {
                Ok(modified) => modified,
                Err(err) => {
                    proof {
                        lemma_partly_keeps_digits(before, sudoku@);
                        lemma_keeps_digits_twice(start, before, sudoku@);
                    }
                    return Err(err);
                },
            };
            proof {
                lemma_filter_shrinks(before);
            }
            let forced = match SudokuSolver::check(sudoku) {
                Ok(modified) => modified,
                Err(err) => {
                    return Err(err);
                },
            };
            let committed = SudokuSolver::clean_possibilities(sudoku);
            again = struck || forced || committed;
            changed = changed || again;
            proof {
                lemma_pass_changes(before);
                lemma_pass_shrinks(before);
                assert(sudoku@ == pass(before)->0);
                lemma_shrinks_twice(start, before, sudoku@);
                lemma_lighter(before, sudoku@);
                lemma_lighter(start, before);
            }
        }
        Ok(changed)
    }

    /// Solves as far as the rules go without a guess: runs the routine until
    /// it reports no change. The board is then at rest, solved or not.
    ///
    /// Fails when the rules leave some open cell without a candidate. That
    /// does not happen on a board that has a solution, and every solution of
    /// the board is a solution of the board at rest.
    pub fn try_solve(sudoku: &mut Sudoku) -> (done: Result<(), UnsolvableSudokuError>)
        requires
            old(sudoku).well_formed(),
        ensures
            done is Err <==> propagate(old(sudoku)@) is None,
            done is Ok ==> propagate(old(sudoku)@) == Some(final(sudoku)@),
            final(sudoku).well_formed(),
            keeps_digits(old(sudoku)@, final(sudoku)@),
            forall|solution: Board| #[trigger]
                fits(old(sudoku)@, solution) ==> done is Ok && fits(final(sudoku)@, solution),
    {
        let ghost start = sudoku@;
        proof {
            assert forall|solution: Board| #[trigger] fits(start, solution) implies propagate(
                start,
            ) is Some && fits(propagate(start)->0, solution) by {
                lemma_propagate_keeps_solutions(start, solution);
            }
        }
        let mut modified = true;
        while modified
            invariant
                start == old(sudoku)@,
                board_well_formed(sudoku@),
                propagate(sudoku@) == propagate(start),
                keeps_digits(start, sudoku@),
                !modified ==> propagate(start) == Some(sudoku@),
                forall|solution: Board| #[trigger]
                    fits(start, solution) ==> propagate(start) is Some && fits(
                        propagate(start)->0,
                        solution,
                    ),
            decreases weight(sudoku@), (if modified { 1int } else { 0int }),
        {
            let ghost before = sudoku@;
            let routine = SudokuSolver::run_routine(sudoku);
            proof {
                lemma_keeps_digits_twice(start, before, sudoku@);
            }
            modified = match routine {
                Ok(changed) => changed,
                Err(err) => {
                    return Err(err);
                },
            };
            proof {
                lemma_propagate_rests(before);
                lemma_lighter(before, sudoku@);
            }
        }
        Ok(())
    }

    /// Remembers a guess and puts the board into the state that it leads to:
    /// the board before the guess, with the guessed digit in the guessed cell.
    pub fn apply_guess(&mut self, sudoku: &mut Sudoku, guess: &Guess)
        requires
            guess@.index < guess@.state.len(),
        ensures
            final(sudoku)@ == guess@.applied(),
            final(self)@.guesses == old(self)@.guesses,
            final(self)@.used_guesses == old(self)@.used_guesses.insert(guess@),
            old(self).well_formed() ==> final(self).well_formed(),
    {
        let ghost before = guesses_view(self.used_guesses@);
        if !self.has_tried(guess.index, guess.value, &guess.other_possibilities, &guess.state) {
            self.used_guesses.push(guess.clone());
            proof {
                let after = guesses_view(self.used_guesses@);
                assert(after =~= before.push(guess@));
                assert(!before.contains(guess@));
                assert forall|g: GuessView|
                    after.to_set().contains(g) <==> before.to_set().insert(guess@).contains(g) by {
                    if before.contains(g) {
                        let k = choose|k: int| 0 <= k < before.len() && before[k] == g;
                        assert(after[k] == g);
                    }
                    if g == guess@ {
                        assert(after[before.len() as int] == g);
                    }
                }
                assert(after.to_set() =~= before.to_set().insert(guess@));
                if before.no_duplicates() {
                    assert forall|i: int, j: int|
                        0 <= i < after.len() && 0 <= j < after.len() && i != j implies after[i]
                        != after[j] by {
                        if i < before.len() {
                            assert(before.contains(before[i]));
                        }
                        if j < before.len() {
                            assert(before.contains(before[j]));
                        }
                    }
                }
            }
        } else {
            assert(before.to_set() =~= before.to_set().insert(guess@));
        }
        let mut cells = copy_cells(&guess.state);
        cells.set(
            guess.index,
            SudokuCell { value: Some(guess.value), possibilities: None, is_original_value: false },
        );
        sudoku.cells = cells;
        assert(sudoku@ =~= guess@.applied());
        proof {
            assert(self@.guesses == old(self)@.guesses);
            if old(self).stack_well_formed() {
                assert forall|k: int| 0 <= k < self@.guesses.len() implies (
                #[trigger] self@.guesses[k]).well_formed() by {
                    assert(old(self)@.guesses[k].well_formed());
                }
            }
        }
    }

    /// Puts the board back into the state before a guess.
    pub fn reverse_guess(sudoku: &mut Sudoku, guess: &Guess)
        ensures
            final(sudoku)@ == guess@.state,
    {
        sudoku.cells = copy_cells(&guess.state);
    }

    /// The guess to make on the board, if one is left: the first open cell
    /// whose first guess is not in the memory, with the least of its
    /// candidates as the digit and the others left to try.
    pub fn produce_guess(&self, sudoku: &Sudoku) -> (produced: Option<Guess>)
        requires
            sudoku.well_formed(),
        ensures
            match produced {
                Some(guess) => {
                    &&& next_guess(sudoku@, self@.used_guesses) == Some(guess@)
                    &&& guess@ == first_guess(sudoku@, guess@.index)
                    &&& guess@.well_formed()
                },
                None => next_guess(sudoku@, self@.used_guesses) is None,
            },
    {
        let mut index: usize = 0;
        while index < 81
            invariant
                index <= 81,
                sudoku.well_formed(),
                next_guess_from(sudoku@, self@.used_guesses, index as int) == next_guess(
                    sudoku@,
                    self@.used_guesses,
                ),
            decreases 81 - index,
        {
            let cell = sudoku.cells[index];
            assert(cell@ == sudoku@[index as int]);
            assert(cell@.well_formed());
            if cell.value.is_none() {
                let mut candidates = cell.possibilities.unwrap();
                let value = candidates.first().unwrap();
                candidates.remove(value);
                if !self.has_tried(index, value, &candidates, &sudoku.cells) {
                    let guess = Guess {
                        index,
                        value,
                        other_possibilities: candidates,
                        state: copy_cells(&sudoku.cells),
                    };
                    assert(guess@ == first_guess(sudoku@, index as int));
                    return Some(guess);
                }
            }
            index += 1;
        }
        None
    }

    /// Makes the next guess: applies it, remembers it and pushes it on the
    /// stack. Fails, and changes nothing, when no guess is left.
    pub fn guess(&mut self, sudoku: &mut Sudoku) -> (done: Result<(), NoMoreGuessesError>)
        requires
            old(sudoku).well_formed(),
        ensures
            match done {
                Ok(()) => guess_step(
                    old(sudoku)@,
                    old(self)@.guesses,
                    old(self)@.used_guesses,
                ) == Step::Continue(final(self).state(final(sudoku))),
                Err(_) => guess_step(old(sudoku)@, old(self)@.guesses, old(self)@.used_guesses)
                    == Step::Exhausted && final(self)@ == old(self)@ && final(sudoku)@ == old(
                    sudoku,
                )@,
            },
            final(sudoku).well_formed(),
            old(self).well_formed() ==> final(self).well_formed(),
    {
        match self.produce_guess(sudoku) {
            Some(guess) => {
                self.apply_guess(sudoku, &guess);
                let ghost below = guesses_view(self.guesses@);
                self.guesses.push_back(guess);
                proof {
                    assert(guesses_view(self.guesses@) =~= below.push(guess@));
                    lemma_applied_well_formed(guess@);
                }
                Ok(())
            },
            None => Err(NoMoreGuessesError),
        }
    }

    /// Solves the board in place.
    ///
    /// Whatever the solver held before is dropped: the search starts without
    /// a guess, and the stack and the memory are empty again when it ends.
    ///
    /// Runs at most `MAX_ITERATIONS` rounds. A round lets the rules run until
    /// they rest; a solved board ends the search; a board at rest takes the
    /// next guess; a failure of the rules replaces the latest guess by its
    /// sibling or, where it has none, goes back to the board before it and
    /// guesses anew. No guess is made twice. The solved board keeps the digits
    /// that the board had.
    ///
    /// Fails when nothing is left to try or the rounds run out; the board is
    /// then well-formed, and nothing more is said of it.
    pub fn solve_in_place(&mut self, sudoku: &mut Sudoku) -> (done: Result<
        (),
        UnsolvableSudokuError,
    >)
        requires
            old(sudoku).well_formed(),
        ensures
            done is Ok <==> search(fresh_state(old(sudoku)@), MAX_ITERATIONS as nat) is Some,
            done is Ok ==> {
                &&& final(sudoku)@ == search(
                    fresh_state(old(sudoku)@),
                    MAX_ITERATIONS as nat,
                )->0.board
                &&& is_solved_board(final(sudoku)@)
                &&& keeps_digits(old(sudoku)@, final(sudoku)@)
            },
            guesses_made(fresh_state(old(sudoku)@), MAX_ITERATIONS as nat).no_duplicates(),
            final(self)@.guesses == Seq::<GuessView>::empty(),
            final(self)@.used_guesses == Set::<GuessView>::empty(),
            final(sudoku).well_formed(),
            final(self).well_formed(),
    {
        self.forget();
        let ghost start = self.state(sudoku);
        proof {
            assert(start == fresh_state(old(sudoku)@));
            lemma_fresh_is_consistent(old(sudoku)@);
            lemma_search_keeps_digits(old(sudoku)@, start, MAX_ITERATIONS as nat);
            lemma_no_guess_twice(old(sudoku)@, MAX_ITERATIONS as nat);
        }
        let mut iterations: usize = 0;
        while iterations < MAX_ITERATIONS
            invariant
                iterations <= MAX_ITERATIONS,
                start == fresh_state(old(sudoku)@),
                sudoku.well_formed(),
                self.well_formed(),
                search(start, MAX_ITERATIONS as nat) == search(
                    self.state(sudoku),
                    (MAX_ITERATIONS - iterations) as nat,
                ),
                search(start, MAX_ITERATIONS as nat) matches Some(end) ==> keeps_digits(
                    old(sudoku)@,
                    end.board,
                ),
                guesses_made(start, MAX_ITERATIONS as nat).no_duplicates(),
            decreases MAX_ITERATIONS - iterations,
        {
            let ghost now = self.state(sudoku);
            match SudokuSolver::try_solve(sudoku) {
                Ok(()) => {
                    if sudoku.is_solved() {
                        assert(step(now) == Step::Solved(self.state(sudoku)));
                        self.forget();
                        return Ok(());
                    }
                    match self.guess(sudoku) {
                        Ok(()) => {},
                        Err(_) => {
                            assert(step(now) == Step::Exhausted);
                            self.forget();
                            return Err(UnsolvableSudokuError);
                        },
                    }
                },
                Err(_) => {
                    let ghost stack = guesses_view(self.guesses@);
                    match self.guesses.pop_back() {
                        Some(guess) => {
                            proof {
                                assert(guess@ == stack.last());
                                assert(guesses_view(self.guesses@) =~= stack.drop_last());
                                assert(stack[stack.len() - 1].well_formed());
                                assert forall|k: int|
                                    0 <= k < self@.guesses.len() implies (
                                #[trigger] self@.guesses[k]).well_formed() by {
                                    assert(stack[k].well_formed());
                                }
                            }
                            match guess.other_guess() {
                                Some(new_guess) => {
                                    self.apply_guess(sudoku, &new_guess);
                                    let ghost below = guesses_view(self.guesses@);
                                    self.guesses.push_back(new_guess);
                                    proof {
                                        assert(guesses_view(self.guesses@) =~= below.push(
                                            new_guess@,
                                        ));
                                        lemma_applied_well_formed(new_guess@);
                                    }
                                },
                                None => {
                                    SudokuSolver::reverse_guess(sudoku, &guess);
                                    match self.guess(sudoku) {
                                        Ok(()) => {},
                                        Err(_) => {
                                            assert(step(now) == Step::Exhausted);
                                            self.forget();
                                            return Err(UnsolvableSudokuError);
                                        },
                                    }
                                },
                            }
                        },
                        None => {
                            assert(step(now) == Step::Exhausted);
                            self.forget();
                            return Err(UnsolvableSudokuError);
                        },
                    }
                },
            }
            assert(step(now) == Step::Continue(self.state(sudoku)));
            iterations += 1;
        }
        self.forget();
        Err(UnsolvableSudokuError)
    }

    /// Drops what the solver holds: the stack of guesses and the memory of
    /// guesses tried.
    fn forget(&mut self)
        ensures
            final(self)@.guesses == Seq::<GuessView>::empty(),
            final(self)@.used_guesses == Set::<GuessView>::empty(),
            final(self).well_formed(),
    {
        self.guesses = VecDeque::new();
        self.used_guesses = Vec::new();
        assert(guesses_view(self.guesses@) =~= Seq::<GuessView>::empty());
        assert(guesses_view(self.used_guesses@).to_set() =~= Set::<GuessView>::empty());
    }

    /// Solves a copy of the board and hands it out; the board itself is left
    /// as it is. Whatever the solver held before is dropped, and the solver
    /// holds nothing afterwards.
    pub fn solve(&mut self, sudoku: &Sudoku) -> (done: Result<Sudoku, UnsolvableSudokuError>)
        requires
            sudoku.well_formed(),
        ensures
            done is Ok <==> search(fresh_state(sudoku@), MAX_ITERATIONS as nat) is Some,
            done matches Ok(solved) ==> {
                &&& solved@ == search(fresh_state(sudoku@), MAX_ITERATIONS as nat)->0.board
                &&& is_solved_board(solved@)
                &&& keeps_digits(sudoku@, solved@)
                &&& solved.well_formed()
            },
            guesses_made(fresh_state(sudoku@), MAX_ITERATIONS as nat).no_duplicates(),
            final(self)@.guesses == Seq::<GuessView>::empty(),
            final(self)@.used_guesses == Set::<GuessView>::empty(),
            final(self).well_formed(),
    {
        let mut mutable_sudoku = sudoku.clone();
        match self.solve_in_place(&mut mutable_sudoku) {
            Ok(()) => Ok(mutable_sudoku),
            Err(err) => Err(err),
        }
    }
}

/// A board on which the filter has come some way keeps the digits of the
/// board that it started on.
proof fn lemma_partly_keeps_digits(before: Board, after: Board)
    requires
        board_well_formed(before),
        partly_filtered(before, after),
    ensures
        keeps_digits(before, after),
{
    assert forall|i: int|
        0 <= i < before.len() && before[i].value is Some implies #[trigger] after[i]
        == before[i] by {
        assert(before[i].well_formed());
        assert(after[i].value == before[i].value);
    }
}

} // verus!