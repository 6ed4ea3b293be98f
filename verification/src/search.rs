//! The search as a state machine over views: what one round of the solver does
//! to the board, the stack of guesses and the memory of guesses tried.

use vstd::prelude::*;

use crate::models::digit_set::{
    digits_above, least_digit, lemma_above_least, lemma_above_next, lemma_least_digit_exists,
};
use crate::models::guess::{lemma_applied_well_formed, GuessView};
use crate::models::sudoku::{
    board_well_formed, group_cell, group_is_complete, is_solved_board, lemma_cell_in_its_row,
};
use crate::models::value::Board;
use crate::propagation::{
    keeps_digits, lemma_filled_board_rests, lemma_propagate_rests, propagate,
};

verus! {

/// The state of a search: the board, the guesses that led to it (the latest
/// last), and every guess tried so far.
pub struct SearchState {
    pub board: Board,
    pub guesses: Seq<GuessView>,
    pub used_guesses: Set<GuessView>,
}

/// How one round of the search ends.
pub enum Step {
    /// The rules solved the board.
    Solved(SearchState),
    /// There is nothing left to try.
    Exhausted,
    /// A guess was made, and the search goes on.
    Continue(SearchState),
}

/// The guess that opens cell `i` of `board`: the least of its candidates, with
/// the others left to try.
pub open spec fn first_guess(board: Board, i: int) -> GuessView {
    let candidates = board[i].possibilities->0;
    let value = least_digit(candidates);
    GuessView { index: i, value, other_possibilities: candidates.remove(value), state: board }
}

/// Cell `i` is open, and the guess that opens it was not tried yet.
pub open spec fn is_fresh(board: Board, used: Set<GuessView>, i: int) -> bool {
    board[i].value is None && !used.contains(first_guess(board, i))
}

/// The guess to make on `board`, looking from cell `from` on: the first guess
/// of the first open cell whose first guess was not tried yet.
pub open spec fn next_guess_from(board: Board, used: Set<GuessView>, from: int) -> Option<
    GuessView,
>
    decreases 81 - from,
{
    if from >= 81 {
        None
    } else if is_fresh(board, used, from) {
        Some(first_guess(board, from))
    } else {
        next_guess_from(board, used, from + 1)
    }
}

/// The guess to make on `board`, if there is one left.
pub open spec fn next_guess(board: Board, used: Set<GuessView>) -> Option<GuessView> {
    next_guess_from(board, used, 0)
}

/// The state once `guess` is made above the guesses `below`: the guess is
/// applied, pushed and remembered.
pub open spec fn take(
    below: Seq<GuessView>,
    used: Set<GuessView>,
    guess: GuessView,
) -> SearchState {
    SearchState {
        board: guess.applied(),
        guesses: below.push(guess),
        used_guesses: used.insert(guess),
    }
}

/// A round that has to guess on `board`: it makes the next guess, or it is at
/// its end where none is left.
pub open spec fn guess_step(board: Board, below: Seq<GuessView>, used: Set<GuessView>) -> Step {
    match next_guess(board, used) {
        Some(guess) => Step::Continue(take(below, used, guess)),
        None => Step::Exhausted,
    }
}

/// One round of the search.
///
/// The rules run until they rest. A solved board ends the search. A board at
/// rest and unsolved takes the next guess. When the rules fail, the latest
/// guess gives way to its sibling; when it has none, the board goes back to
/// what it was before that guess, and the next guess is made from there.
/// Without a guess to go back on, the search is at its end.
pub open spec fn step(state: SearchState) -> Step {
    match propagate(state.board) {
        Some(rest) => if is_solved_board(rest) {
            Step::Solved(SearchState { board: rest, ..state })
        } else {
            guess_step(rest, state.guesses, state.used_guesses)
        },
        None => if state.guesses.len() == 0 {
            Step::Exhausted
        } else {
            let latest = state.guesses.last();
            let below = state.guesses.drop_last();
            match latest.sibling() {
                Some(next) => Step::Continue(take(below, state.used_guesses, next)),
                None => guess_step(latest.state, below, state.used_guesses),
            }
        },
    }
}

/// The state in which a search of at most `rounds` rounds finds the board
/// solved. There is none when the search comes to its end before, or when the
/// rounds run out.
pub open spec fn search(state: SearchState, rounds: nat) -> Option<SearchState>
    decreases rounds,
{
    if rounds == 0 {
        None
    } else {
        match step(state) {
            Step::Solved(end) => Some(end),
            Step::Exhausted => None,
            Step::Continue(next) => search(next, (rounds - 1) as nat),
        }
    }
}

/// The next guess, where there is one, is the first guess of an open cell, it
/// was not tried before, and no cell before it has a guess left.
pub proof fn lemma_next_guess_from(board: Board, used: Set<GuessView>, from: int)
    requires
        0 <= from,
    ensures
        match next_guess_from(board, used, from) {
            Some(guess) => {
                &&& from <= guess.index < 81
                &&& guess == first_guess(board, guess.index)
                &&& is_fresh(board, used, guess.index)
                &&& forall|i: int| from <= i < guess.index ==> !is_fresh(board, used, i)
            },
            None => forall|i: int| from <= i < 81 ==> !is_fresh(board, used, i),
        },
    decreases 81 - from,
{
    if from < 81 && !is_fresh(board, used, from) {
        lemma_next_guess_from(board, used, from + 1);
    }
}

/// The state in which a search starts on `board` with a solver that holds no
/// guess.
pub open spec fn fresh_state(board: Board) -> SearchState {
    SearchState {
        board,
        guesses: Seq::<GuessView>::empty(),
        used_guesses: Set::<GuessView>::empty(),
    }
}

/// The guesses that a search of at most `rounds` rounds makes, in their order.
pub open spec fn guesses_made(state: SearchState, rounds: nat) -> Seq<GuessView>
    decreases rounds,
{
    if rounds == 0 {
        Seq::empty()
    } else {
        match step(state) {
            Step::Continue(next) => seq![next.guesses.last()] + guesses_made(
                next,
                (rounds - 1) as nat,
            ),
            _ => Seq::empty(),
        }
    }
}

/// The guess on cell `i` of `board` with the digit `value`: the candidates of
/// the cell above `value` are left to try.
pub open spec fn chain_guess(board: Board, i: int, value: u8) -> GuessView {
    GuessView {
        index: i,
        value,
        other_possibilities: digits_above(board[i].possibilities->0, value),
        state: board,
    }
}

/// The guess is on an open cell, its digit is a candidate of that cell, and
/// the digits left to try are the candidates above it.
pub open spec fn is_chain(guess: GuessView) -> bool {
    &&& guess.well_formed()
    &&& guess.state[guess.index].value is None
    &&& guess.state[guess.index].possibilities->0.contains(guess.value)
    &&& guess == chain_guess(guess.state, guess.index, guess.value)
}

/// Both guesses are on the same cell of the same board.
pub open spec fn same_place(a: GuessView, b: GuessView) -> bool {
    a.index == b.index && a.state == b.state
}

/// Every guess in the memory is a guess of a chain, and the first guess of
/// its chain is in the memory too.
#[verifier::opaque]
pub open spec fn memory_consistent(used: Set<GuessView>) -> bool {
    forall|guess: GuessView| #[trigger]
        used.contains(guess) ==> is_chain(guess) && used.contains(
            first_guess(guess.state, guess.index),
        )
}

/// The guesses of the stack are in the memory, they were made on boards that
/// keep the digits of `root`, no two of them are on the same cell of the same
/// board, and the memory holds no later guess of their chains.
#[verifier::opaque]
pub open spec fn stack_consistent(
    root: Board,
    stack: Seq<GuessView>,
    used: Set<GuessView>,
) -> bool {
    &&& forall|k: int|
        0 <= k < stack.len() ==> used.contains(#[trigger] stack[k]) && keeps_digits(
            root,
            stack[k].state,
        )
    &&& forall|k: int, other: GuessView|
        0 <= k < stack.len() && #[trigger] used.contains(other) && same_place(
            other,
            #[trigger] stack[k],
        ) ==> other.value <= stack[k].value
    &&& forall|j: int, k: int|
        0 <= j < k < stack.len() ==> !same_place(#[trigger] stack[j], #[trigger] stack[k])
}

/// What holds of every state of a search that started on `root` without a
/// guess.
pub open spec fn consistent(root: Board, state: SearchState) -> bool {
    &&& board_well_formed(state.board)
    &&& keeps_digits(root, state.board)
    &&& memory_consistent(state.used_guesses)
    &&& stack_consistent(root, state.guesses, state.used_guesses)
}

/// Keeping the digits twice is keeping them.
pub proof fn lemma_keeps_digits_twice(first: Board, second: Board, third: Board)
    requires
        keeps_digits(first, second),
        keeps_digits(second, third),
    ensures
        keeps_digits(first, third),
{
    assert forall|i: int| 0 <= i < first.len() && first[i].value is Some implies #[trigger] third[i]
        == first[i] by {
        assert(second[i] == first[i]);
        assert(third[i] == second[i]);
    }
}

/// The first guess of an open cell of a well-formed board is the guess of its
/// chain with the least candidate.
pub proof fn lemma_first_guess_is_chain(board: Board, i: int)
    requires
        board_well_formed(board),
        0 <= i < 81,
        board[i].value is None,
    ensures
        is_chain(first_guess(board, i)),
        first_guess(board, i) == chain_guess(
            board,
            i,
            least_digit(board[i].possibilities->0),
        ),
        forall|d: u8|
            board[i].possibilities->0.contains(d) ==> least_digit(board[i].possibilities->0) <= d,
{
    assert(board[i].well_formed());
    let candidates = board[i].possibilities->0;
    assert(candidates.len() > 0);
    let d = candidates.choose();
    lemma_least_digit_exists(candidates, d);
    lemma_above_least(candidates);
}

/// The board that a guess of a chain leads to keeps the digits that the board
/// before the guess keeps.
pub proof fn lemma_applied_keeps_digits(root: Board, guess: GuessView)
    requires
        is_chain(guess),
        keeps_digits(root, guess.state),
    ensures
        keeps_digits(root, guess.applied()),
        board_well_formed(guess.applied()),
{
    lemma_applied_well_formed(guess);
    assert forall|i: int| 0 <= i < root.len() && root[i].value is Some implies (
    #[trigger] guess.applied()[i]) == root[i] by {
        assert(guess.state[i] == root[i]);
    }
}

/// What a consistent stack says of each of its guesses.
pub proof fn lemma_stack_holds(root: Board, stack: Seq<GuessView>, used: Set<GuessView>, k: int)
    requires
        stack_consistent(root, stack, used),
        0 <= k < stack.len(),
    ensures
        used.contains(stack[k]),
        keeps_digits(root, stack[k].state),
{
    reveal(stack_consistent);
}

/// A stack without its latest guess is still consistent.
pub proof fn lemma_stack_below(root: Board, stack: Seq<GuessView>, used: Set<GuessView>)
    requires
        stack_consistent(root, stack, used),
        stack.len() > 0,
    ensures
        stack_consistent(root, stack.drop_last(), used),
{
    reveal(stack_consistent);
    let below = stack.drop_last();
    assert forall|k: int| 0 <= k < below.len() implies used.contains(#[trigger] below[k])
        && keeps_digits(root, below[k].state) by {
        assert(below[k] == stack[k]);
    }
    assert forall|k: int, other: GuessView|
        0 <= k < below.len() && #[trigger] used.contains(other) && same_place(
            other,
            #[trigger] below[k],
        ) implies other.value <= below[k].value by {
        assert(below[k] == stack[k]);
    }
    assert forall|j: int, k: int| 0 <= j < k < below.len() implies !same_place(
        #[trigger] below[j],
        #[trigger] below[k],
    ) by {
        assert(below[j] == stack[j]);
        assert(below[k] == stack[k]);
    }
}

/// What a consistent memory says of a guess that it holds.
pub proof fn lemma_memory_holds(used: Set<GuessView>, guess: GuessView)
    requires
        memory_consistent(used),
        used.contains(guess),
    ensures
        is_chain(guess),
        used.contains(first_guess(guess.state, guess.index)),
{
    reveal(memory_consistent);
}

/// A memory that takes in a guess of a chain stays consistent, if the guess is
/// the first of its chain or the memory holds the first already.
pub proof fn lemma_memory_with(used: Set<GuessView>, guess: GuessView)
    requires
        memory_consistent(used),
        is_chain(guess),
        guess == first_guess(guess.state, guess.index) || used.contains(
            first_guess(guess.state, guess.index),
        ),
    ensures
        memory_consistent(used.insert(guess)),
{
    reveal(memory_consistent);
    let after = used.insert(guess);
    assert forall|g: GuessView| #[trigger] after.contains(g) implies is_chain(g) && after.contains(
        first_guess(g.state, g.index),
    ) by {
        if g != guess {
            assert(used.contains(g));
        }
    }
}

/// A stack that takes a guess on a place where none of its guesses stands,
/// and of which the memory holds no later guess, stays consistent.
pub proof fn lemma_stack_with(
    root: Board,
    below: Seq<GuessView>,
    used: Set<GuessView>,
    guess: GuessView,
)
    requires
        stack_consistent(root, below, used),
        keeps_digits(root, guess.state),
        forall|other: GuessView| #[trigger]
            used.contains(other) && same_place(other, guess) ==> other.value <= guess.value,
        forall|k: int| 0 <= k < below.len() ==> !same_place(#[trigger] below[k], guess),
    ensures
        stack_consistent(root, below.push(guess), used.insert(guess)),
{
    reveal(stack_consistent);
    let stack = below.push(guess);
    let memory = used.insert(guess);
    assert forall|k: int| 0 <= k < stack.len() implies memory.contains(#[trigger] stack[k])
        && keeps_digits(root, stack[k].state) by {
        if k < below.len() {
            assert(stack[k] == below[k]);
            assert(used.contains(below[k]));
        }
    }
    assert forall|k: int, other: GuessView|
        0 <= k < stack.len() && #[trigger] memory.contains(other) && same_place(
            other,
            #[trigger] stack[k],
        ) implies other.value <= stack[k].value by {
        if k < below.len() {
            assert(stack[k] == below[k]);
            if other == guess {
                assert(same_place(below[k], guess));
            } else {
                assert(used.contains(other));
            }
        } else {
            if other != guess {
                assert(used.contains(other));
            }
        }
    }
    assert forall|j: int, k: int| 0 <= j < k < stack.len() implies !same_place(
        #[trigger] stack[j],
        #[trigger] stack[k],
    ) by {
        assert(stack[j] == below[j]);
        if k < below.len() {
            assert(stack[k] == below[k]);
        }
    }
}

/// Making the next guess on a board keeps the state consistent, and the guess
/// is not one that the memory holds.
pub proof fn lemma_first_guess_keeps_consistent(
    root: Board,
    board: Board,
    below: Seq<GuessView>,
    used: Set<GuessView>,
)
    requires
        board_well_formed(board),
        keeps_digits(root, board),
        memory_consistent(used),
        stack_consistent(root, below, used),
        next_guess(board, used) is Some,
    ensures
        !used.contains(next_guess(board, used)->0),
        consistent(root, take(below, used, next_guess(board, used)->0)),
{
    let guess = next_guess(board, used)->0;
    lemma_next_guess_from(board, used, 0);
    lemma_first_guess_is_chain(board, guess.index);
    lemma_applied_keeps_digits(root, guess);
    // No guess of the memory stands on this cell of this board: the first
    // guess of its chain would be in the memory.
    assert forall|other: GuessView| #[trigger] used.contains(other) implies !same_place(
        other,
        guess,
    ) by {
        if same_place(other, guess) {
            lemma_memory_holds(used, other);
        }
    }
    assert forall|k: int| 0 <= k < below.len() implies !same_place(#[trigger] below[k], guess) by {
        lemma_stack_holds(root, below, used, k);
    }
    lemma_memory_with(used, guess);
    lemma_stack_with(root, below, used, guess);
}

/// The sibling of a guess of a chain is the next guess of that chain.
pub proof fn lemma_sibling_is_chain(guess: GuessView)
    requires
        is_chain(guess),
        guess.sibling() is Some,
    ensures
        is_chain(guess.sibling()->0),
        same_place(guess.sibling()->0, guess),
        guess.sibling()->0.value > guess.value,
{
    let next = guess.sibling()->0;
    let candidates = guess.state[guess.index].possibilities->0;
    assert(guess.state[guess.index].well_formed());
    assert(guess.other_possibilities == digits_above(candidates, guess.value));
    vstd::set_lib::lemma_len_subset(guess.other_possibilities, candidates);
    let witness = guess.other_possibilities.choose();
    assert(guess.other_possibilities.contains(witness));
    lemma_above_next(candidates, guess.value);
    assert(next == chain_guess(guess.state, guess.index, next.value));
}

/// Replacing the latest guess by its sibling keeps the state consistent, and
/// the sibling is not a guess that the memory holds.
pub proof fn lemma_sibling_keeps_consistent(
    root: Board,
    stack: Seq<GuessView>,
    used: Set<GuessView>,
)
    requires
        memory_consistent(used),
        stack_consistent(root, stack, used),
        stack.len() > 0,
        stack.last().sibling() is Some,
    ensures
        !used.contains(stack.last().sibling()->0),
        consistent(root, take(stack.drop_last(), used, stack.last().sibling()->0)),
{
    let latest = stack.last();
    let below = stack.drop_last();
    let next = latest.sibling()->0;
    lemma_stack_holds(root, stack, used, stack.len() - 1);
    lemma_sibling_in_memory(used, latest);
    lemma_stack_below(root, stack, used);
    lemma_applied_keeps_digits(root, next);
    lemma_sibling_fits(root, stack, used, next);
    lemma_stack_with(root, below, used, next);
}

/// The memory that takes in the sibling of one of its guesses stays
/// consistent, and the sibling is the next guess of the same chain.
proof fn lemma_sibling_in_memory(used: Set<GuessView>, guess: GuessView)
    requires
        memory_consistent(used),
        used.contains(guess),
        guess.sibling() is Some,
    ensures
        memory_consistent(used.insert(guess.sibling()->0)),
        is_chain(guess.sibling()->0),
        same_place(guess.sibling()->0, guess),
        guess.sibling()->0.value > guess.value,
{
    lemma_memory_holds(used, guess);
    lemma_sibling_is_chain(guess);
    lemma_memory_with(used, guess.sibling()->0);
}

/// A guess on the place of the latest guess, with a larger digit, fits on the
/// stack below the latest guess, and the memory does not hold it.
proof fn lemma_sibling_fits(
    root: Board,
    stack: Seq<GuessView>,
    used: Set<GuessView>,
    next: GuessView,
)
    requires
        stack_consistent(root, stack, used),
        stack.len() > 0,
        same_place(next, stack.last()),
        next.value > stack.last().value,
    ensures
        !used.contains(next),
        forall|other: GuessView| #[trigger]
            used.contains(other) && same_place(other, next) ==> other.value <= next.value,
        forall|k: int|
            0 <= k < stack.drop_last().len() ==> !same_place(
                #[trigger] stack.drop_last()[k],
                next,
            ),
{
    reveal(stack_consistent);
    let n = stack.len() - 1;
    let below = stack.drop_last();
    assert forall|other: GuessView| #[trigger] used.contains(other) && same_place(
        other,
        next,
    ) implies other.value <= next.value by {
        assert(same_place(other, stack[n]));
        assert(other.value <= stack[n].value);
    }
    if used.contains(next) {
        assert(same_place(next, stack[n]));
        assert(next.value <= stack[n].value);
    }
    assert forall|k: int| 0 <= k < below.len() implies !same_place(#[trigger] below[k], next) by {
        assert(below[k] == stack[k]);
        assert(!same_place(stack[k], stack[n]));
    }
}

/// A round keeps a consistent state consistent. The guess that it makes, if
/// it makes one, is not a guess that the memory held, and a board that it
/// leaves solved keeps the digits of the board that the search started on.
pub proof fn lemma_step_keeps_consistent(root: Board, state: SearchState)
    requires
        consistent(root, state),
    ensures
        match step(state) {
            Step::Continue(next) => {
                &&& consistent(root, next)
                &&& next.guesses.len() > 0
                &&& !state.used_guesses.contains(next.guesses.last())
                &&& next.used_guesses == state.used_guesses.insert(next.guesses.last())
            },
            Step::Solved(end) => {
                &&& is_solved_board(end.board)
                &&& keeps_digits(root, end.board)
                &&& board_well_formed(end.board)
            },
            Step::Exhausted => true,
        },
{
    match propagate(state.board) {
        Some(rest) => {
            lemma_propagate_rests(state.board);
            lemma_keeps_digits_twice(root, state.board, rest);
            if !is_solved_board(rest) {
                if next_guess(rest, state.used_guesses) is Some {
                    lemma_first_guess_keeps_consistent(
                        root,
                        rest,
                        state.guesses,
                        state.used_guesses,
                    );
                }
            }
        },
        None => {
            if state.guesses.len() > 0 {
                let latest = state.guesses.last();
                let below = state.guesses.drop_last();
                if latest.sibling() is Some {
                    lemma_sibling_keeps_consistent(root, state.guesses, state.used_guesses);
                } else {
                    lemma_stack_below(root, state.guesses, state.used_guesses);
                    let n = state.guesses.len() - 1;
                    assert(state.guesses[n] == latest);
                    lemma_stack_holds(root, state.guesses, state.used_guesses, n);
                    lemma_memory_holds(state.used_guesses, latest);
                    if next_guess(latest.state, state.used_guesses) is Some {
                        lemma_first_guess_keeps_consistent(
                            root,
                            latest.state,
                            below,
                            state.used_guesses,
                        );
                    }
                }
            }
        },
    }
}

/// A search that starts without a guess is consistent.
pub proof fn lemma_fresh_is_consistent(board: Board)
    requires
        board_well_formed(board),
    ensures
        consistent(board, fresh_state(board)),
{
    reveal(memory_consistent);
    reveal(stack_consistent);
}

/// No guess is made twice: the guesses that a search makes from a consistent
/// state differ from each other and from every guess in the memory.
pub proof fn lemma_guesses_differ(root: Board, state: SearchState, rounds: nat)
    requires
        consistent(root, state),
    ensures
        guesses_made(state, rounds).no_duplicates(),
        forall|k: int|
            0 <= k < guesses_made(state, rounds).len() ==> !state.used_guesses.contains(
                #[trigger] guesses_made(state, rounds)[k],
            ),
    decreases rounds,
{
    if rounds > 0 {
        lemma_step_keeps_consistent(root, state);
        match step(state) {
            Step::Continue(next) => {
                let guess = next.guesses.last();
                let later = guesses_made(next, (rounds - 1) as nat);
                let made = guesses_made(state, rounds);
                lemma_guesses_differ(root, next, (rounds - 1) as nat);
                assert(made == seq![guess] + later);
                assert forall|k: int| 0 <= k < made.len() implies !state.used_guesses.contains(
                    #[trigger] made[k],
                ) by {
                    if k > 0 {
                        assert(made[k] == later[k - 1]);
                        assert(!next.used_guesses.contains(later[k - 1]));
                    }
                }
                assert forall|j: int, k: int|
                    0 <= j < made.len() && 0 <= k < made.len() && j != k implies made[j]
                    != made[k] by {
                    if j > 0 {
                        assert(made[j] == later[j - 1]);
                        assert(!next.used_guesses.contains(later[j - 1]));
                    }
                    if k > 0 {
                        assert(made[k] == later[k - 1]);
                        assert(!next.used_guesses.contains(later[k - 1]));
                    }
                }
            },
            _ => {},
        }
    }
}

/// Within one solve no guess is tried twice: the guesses made by a search
/// that starts on a well-formed board, without a guess on the stack and with
/// an empty memory, are all different in cell, digit, digits left to try, or
/// board before the guess.
pub proof fn lemma_no_guess_twice(board: Board, rounds: nat)
    requires
        board_well_formed(board),
    ensures
        guesses_made(fresh_state(board), rounds).no_duplicates(),
{
    lemma_fresh_is_consistent(board);
    lemma_guesses_differ(board, fresh_state(board), rounds);
}

/// The board that a search from a consistent state ends on is solved,
/// well-formed, and keeps the digits of the board that the search started on.
pub proof fn lemma_search_keeps_digits(root: Board, state: SearchState, rounds: nat)
    requires
        consistent(root, state),
    ensures
        search(state, rounds) matches Some(end) ==> is_solved_board(end.board) && keeps_digits(
            root,
            end.board,
        ) && board_well_formed(end.board),
    decreases rounds,
{
    if rounds > 0 {
        lemma_step_keeps_consistent(root, state);
        match step(state) {
            Step::Continue(next) => {
                lemma_search_keeps_digits(root, next, (rounds - 1) as nat);
            },
            _ => {},
        }
    }
}

/// Where the rules alone solve the board, the search ends in its first round:
/// on the board on which the rules rest, with the stack and the memory as they
/// were. No guess is made.
pub proof fn lemma_deduction_alone(state: SearchState, rounds: nat)
    requires
        propagate(state.board) is Some,
        is_solved_board(propagate(state.board)->0),
        rounds > 0,
    ensures
        search(state, rounds) == Some(
            SearchState { board: propagate(state.board)->0, ..state },
        ),
        guesses_made(state, rounds) == Seq::<GuessView>::empty(),
{
}

/// The rules leave a solved board as it is.
pub proof fn lemma_solved_board_rests(board: Board)
    requires
        board_well_formed(board),
        is_solved_board(board),
    ensures
        propagate(board) == Some(board),
{
    assert forall|i: int| 0 <= i < 81 implies (#[trigger] board[i]).value is Some by {
        lemma_cell_in_its_row(board, i);
        assert(group_is_complete(board, i / 9));
        assert(group_cell(board, i / 9, i % 9).value is Some);
    }
    lemma_filled_board_rests(board);
}

/// Solving a solved board changes nothing: the search ends in its first
/// round, in the state in which it started.
pub proof fn lemma_solved_stays_solved(state: SearchState, rounds: nat)
    requires
        board_well_formed(state.board),
        is_solved_board(state.board),
        rounds > 0,
    ensures
        search(state, rounds) == Some(state),
{
    lemma_solved_board_rests(state.board);
}

} // verus!
