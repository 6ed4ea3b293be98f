use sudoku::models::{DigitSet, Guess, Sudoku, SudokuCell};
use sudoku::server::{solve, SudokuInput};
use sudoku::SudokuSolver;

fn easy_digits() -> Vec<u8> {
    vec![
        0, 0, 0, 0, 0, 2, 7, 0, 5,
        0, 0, 7, 0, 1, 0, 0, 0, 0,
        5, 8, 0, 0, 0, 0, 4, 2, 0,
        0, 3, 5, 0, 9, 8, 0, 6, 0,
        7, 1, 0, 0, 2, 0, 0, 0, 9,
        0, 0, 0, 0, 0, 5, 0, 4, 0,
        1, 6, 8, 2, 4, 9, 5, 7, 3,
        0, 0, 0, 3, 5, 1, 0, 8, 0,
        3, 5, 2, 7, 8, 6, 9, 1, 4,
    ]
}

fn hard_digits() -> Vec<u8> {
    vec![
        0, 3, 0, 5, 0, 0, 0, 0, 0,
        1, 0, 0, 8, 0, 2, 0, 9, 0,
        0, 0, 9, 0, 0, 0, 4, 0, 0,
        8, 0, 0, 9, 0, 1, 0, 4, 0,
        0, 0, 0, 0, 7, 0, 0, 0, 0,
        0, 6, 0, 0, 0, 0, 0, 0, 3,
        7, 0, 0, 0, 4, 0, 0, 0, 0,
        0, 8, 0, 2, 0, 7, 6, 0, 0,
        0, 0, 0, 0, 5, 0, 0, 2, 0,
    ]
}

fn solved_digits() -> Vec<u8> {
    vec![
        5, 3, 4, 6, 7, 8, 9, 1, 2,
        6, 7, 2, 1, 9, 5, 3, 4, 8,
        1, 9, 8, 3, 4, 2, 5, 6, 7,
        8, 5, 9, 7, 6, 1, 4, 2, 3,
        4, 2, 6, 8, 5, 3, 7, 9, 1,
        7, 1, 3, 9, 2, 4, 8, 5, 6,
        9, 6, 1, 5, 3, 7, 2, 8, 4,
        2, 8, 7, 4, 1, 9, 6, 3, 5,
        3, 4, 5, 2, 8, 6, 1, 7, 9,
    ]
}

fn grid(sudoku: &Sudoku) -> Vec<u8> {
    sudoku.cells.iter().map(|cell| cell.value.unwrap_or(0)).collect()
}

#[test]
fn solver_test_filter_row_complete() {
    // Test first row.
    let mut values: Vec<u8> = vec![1, 2, 3, 4, 5, 6, 7, 8, 0];
    for _ in 0..72 {
        values.push(0);
    }
    let mut sudoku = Sudoku::new(values).unwrap();

    let _ = SudokuSolver::filter(&mut sudoku);

    assert_eq!(
        sudoku.cells[8].possibilities,
        Some(DigitSet::from_digits(&[9]))
    );
}

#[test]
fn solver_test_filter_row_incomplete() {
    // Test first row.
    let mut values: Vec<u8> = vec![1, 2, 3, 4, 5, 6, 7, 0, 0];
    for _ in 0..72 {
        values.push(0);
    }

    let mut sudoku = Sudoku::new(values).unwrap();
    let _ = SudokuSolver::filter(&mut sudoku);

    assert_eq!(
        sudoku.cells[7].possibilities,
        Some(DigitSet::from_digits(&[8, 9]))
    );
    assert_eq!(
        sudoku.cells[8].possibilities,
        Some(DigitSet::from_digits(&[8, 9]))
    );
}

#[test]
fn solver_test_check() {
    // This particular sudoku is stuck, but a 7 can be written on the middle
    // part of the block number 6 (southwest block). The check function should
    // fix that.
    let values: Vec<u8> = vec![
        0, 0, 0, 0, 0, 2, 7, 0, 5,
        0, 0, 7, 0, 1, 0, 0, 0, 0,
        5, 8, 0, 0, 0, 0, 4, 2, 0,
        0, 3, 5, 0, 9, 8, 0, 6, 0,
        7, 1, 0, 0, 2, 0, 0, 0, 9,
        0, 0, 0, 0, 0, 5, 0, 4, 0,
        1, 6, 8, 2, 4, 9, 5, 7, 3,
        0, 0, 0, 3, 5, 1, 0, 8, 0,
        3, 5, 2, 7, 8, 6, 9, 1, 4,
    ];

    let mut sudoku = Sudoku::new(values).unwrap();
    let _ = SudokuSolver::filter(&mut sudoku);

    assert_eq!(
        sudoku.cells[64].possibilities,
        Some(DigitSet::from_digits(&[7, 4, 9]))
    );

    let _ = SudokuSolver::check(&mut sudoku);
    assert_eq!(
        sudoku.cells[64].possibilities,
        Some(DigitSet::from_digits(&[7]))
    );
}

#[test]
fn solver_test_solve() {
    let values: Vec<u8> = vec![
        0, 0, 0, 0, 0, 2, 7, 0, 5,
        0, 0, 7, 0, 1, 0, 0, 0, 0,
        5, 8, 0, 0, 0, 0, 4, 2, 0,
        0, 3, 5, 0, 9, 8, 0, 6, 0,
        7, 1, 0, 0, 2, 0, 0, 0, 9,
        0, 0, 0, 0, 0, 5, 0, 4, 0,
        1, 6, 8, 2, 4, 9, 5, 7, 3,
        0, 0, 0, 3, 5, 1, 0, 8, 0,
        3, 5, 2, 7, 8, 6, 9, 1, 4,
    ];

    let mut sudoku = Sudoku::new(values.clone()).unwrap();
    let _ = SudokuSolver::try_solve(&mut sudoku);
    assert!(sudoku.is_solved());

    let mut sudoku = Sudoku::new(values.clone()).unwrap();
    let mut solver = SudokuSolver::new();
    let _ = solver.solve_in_place(&mut sudoku);
    assert!(sudoku.is_solved());

    // Hard one.
    let values: Vec<u8> = vec![
        0, 3, 0, 5, 0, 0, 0, 0, 0, 1, 0, 0, 8, 0, 2, 0, 9, 0, 0, 0, 9, 0, 0, 0, 4, 0, 0, 8, 0,
        0, 9, 0, 1, 0, 4, 0, 0, 0, 0, 0, 7, 0, 0, 0, 0, 0, 6, 0, 0, 0, 0, 0, 0, 3, 7, 0, 0, 0,
        4, 0, 0, 0, 0, 0, 8, 0, 2, 0, 7, 6, 0, 0, 0, 0, 0, 0, 5, 0, 0, 2, 0,
    ];

    let mut sudoku = Sudoku::new(values.clone()).unwrap();
    let _ = SudokuSolver::try_solve(&mut sudoku);
    assert!(!sudoku.is_solved());

    let mut sudoku = Sudoku::new(values.clone()).unwrap();
    let mut solver = SudokuSolver::new();
    let _ = solver.solve_in_place(&mut sudoku);
    assert!(sudoku.is_solved());
}

#[test]
fn a_new_solver_holds_no_guess() {
    let solver = SudokuSolver::new();
    assert!(solver.guesses.is_empty());
    assert!(solver.used_guesses.is_empty());
}

#[test]
fn solve_leaves_the_board_as_it_was() {
    let sudoku = Sudoku::new(hard_digits()).unwrap();
    let mut solver = SudokuSolver::new();
    let solved = solver.solve(&sudoku).unwrap();
    assert!(solved.is_solved());
    assert!(!sudoku.is_solved());
    assert_eq!(grid(&sudoku), hard_digits());
    assert_eq!(sudoku.cells[0].possibilities, Some(DigitSet::full()));
}

#[test]
fn solve_and_solve_in_place_agree() {
    for digits in [easy_digits(), hard_digits(), solved_digits()] {
        let sudoku = Sudoku::new(digits).unwrap();
        let solved = SudokuSolver::new().solve(&sudoku).unwrap();
        let mut in_place = sudoku.clone();
        assert!(SudokuSolver::new().solve_in_place(&mut in_place).is_ok());
        assert_eq!(solved.cells, in_place.cells);
        assert!(in_place.is_solved());
    }
}

#[test]
fn the_rules_alone_solve_the_easy_board() {
    let sudoku = Sudoku::new(easy_digits()).unwrap();
    let mut by_rules = sudoku.clone();
    assert!(SudokuSolver::try_solve(&mut by_rules).is_ok());
    assert!(by_rules.is_solved());
    let mut solver = SudokuSolver::new();
    let solved = solver.solve(&sudoku).unwrap();
    assert_eq!(solved.cells, by_rules.cells);
    assert!(solver.guesses.is_empty());
    assert!(solver.used_guesses.is_empty());
}

#[test]
fn solving_a_solved_board_returns_it_unchanged() {
    let sudoku = Sudoku::new(solved_digits()).unwrap();
    let mut solver = SudokuSolver::new();
    let solved = solver.solve(&sudoku).unwrap();
    assert_eq!(solved.cells, sudoku.cells);
    assert!(solver.guesses.is_empty());
    let mut in_place = sudoku.clone();
    assert!(solver.solve_in_place(&mut in_place).is_ok());
    assert_eq!(in_place.cells, sudoku.cells);
}

#[test]
fn the_memory_is_empty_after_a_solve() {
    let mut solver = SudokuSolver::new();
    let mut sudoku = Sudoku::new(hard_digits()).unwrap();
    assert!(solver.solve_in_place(&mut sudoku).is_ok());
    assert!(solver.used_guesses.is_empty());
    assert!(solver.guesses.is_empty());

    // A board that no guess saves: the first row leaves its last cell only a
    // 9, and the last column holds one.
    let mut values = vec![0u8; 81];
    for column in 0..8 {
        values[column] = column as u8 + 1;
    }
    values[80] = 9;
    let mut solver = SudokuSolver::new();
    let mut sudoku = Sudoku::new(values).unwrap();
    assert!(solver.solve_in_place(&mut sudoku).is_err());
    assert!(solver.used_guesses.is_empty());
    assert!(solver.guesses.is_empty());
}

#[test]
fn run_routine_says_whether_the_board_changed() {
    let mut sudoku = Sudoku::new(easy_digits()).unwrap();
    assert_eq!(SudokuSolver::run_routine(&mut sudoku).ok(), Some(true));
    assert!(sudoku.is_solved());
    assert_eq!(SudokuSolver::run_routine(&mut sudoku).ok(), Some(false));
    let mut blank = Sudoku::new(vec![0u8; 81]).unwrap();
    assert_eq!(SudokuSolver::run_routine(&mut blank).ok(), Some(false));
}

#[test]
fn clean_gives_single_candidates_their_cell() {
    let mut values: Vec<u8> = vec![1, 2, 3, 4, 5, 6, 7, 8, 0];
    for _ in 0..72 {
        values.push(0);
    }
    let mut sudoku = Sudoku::new(values).unwrap();
    assert!(!SudokuSolver::clean_possibilities(&mut sudoku));
    let _ = SudokuSolver::filter(&mut sudoku);
    assert!(SudokuSolver::clean_possibilities(&mut sudoku));
    assert_eq!(sudoku.cells[8].value, Some(9));
    assert_eq!(sudoku.cells[8].possibilities, None);
    assert!(!sudoku.cells[8].is_original_value);
    assert_eq!(sudoku.cells[9].value, None);
    assert!(!SudokuSolver::clean_possibilities(&mut sudoku));
}

#[test]
fn the_first_guess_takes_the_least_candidate_of_the_first_open_cell() {
    let mut sudoku = Sudoku::new(hard_digits()).unwrap();
    assert!(SudokuSolver::try_solve(&mut sudoku).is_ok());
    let before = sudoku.cells.clone();
    let first_open = before.iter().position(|cell| cell.value.is_none()).unwrap();
    let candidates = before[first_open].possibilities.unwrap();
    let least = candidates.first().unwrap();
    let mut others = candidates;
    others.remove(least);

    let mut solver = SudokuSolver::new();
    let guess = solver.produce_guess(&sudoku).unwrap();
    assert_eq!(guess.index, first_open);
    assert_eq!(guess.value, least);
    assert_eq!(guess.other_possibilities, others);
    assert_eq!(guess.state, before);

    assert!(solver.guess(&mut sudoku).is_ok());
    assert_eq!(sudoku.cells[first_open].value, Some(least));
    assert_eq!(sudoku.cells[first_open].possibilities, None);
    assert!(!sudoku.cells[first_open].is_original_value);
    for index in 0..81 {
        if index != first_open {
            assert_eq!(sudoku.cells[index], before[index]);
        }
    }
    assert_eq!(solver.guesses.len(), 1);
    assert_eq!(solver.guesses[0], guess);
    assert_eq!(solver.used_guesses, vec![guess]);
}

#[test]
fn a_guess_is_not_made_twice() {
    let mut sudoku = Sudoku::new(hard_digits()).unwrap();
    assert!(SudokuSolver::try_solve(&mut sudoku).is_ok());
    let mut solver = SudokuSolver::new();
    let first = solver.produce_guess(&sudoku).unwrap();
    assert!(solver.guess(&mut sudoku).is_ok());

    // Back on the board before the guess, the next guess is another one.
    SudokuSolver::reverse_guess(&mut sudoku, &first);
    assert_eq!(sudoku.cells, first.state);
    let second = solver.produce_guess(&sudoku).unwrap();
    assert!(second != first);
    assert!(second.index > first.index);
    assert_eq!(second.state, first.state);

    // Applying a guess again does not remember it twice.
    solver.apply_guess(&mut sudoku, &first);
    assert_eq!(solver.used_guesses.len(), 1);
    solver.apply_guess(&mut sudoku, &second);
    assert_eq!(solver.used_guesses.len(), 2);
}

#[test]
fn no_guess_is_left_on_a_full_board() {
    let mut sudoku = Sudoku::new(solved_digits()).unwrap();
    let mut solver = SudokuSolver::new();
    assert!(solver.produce_guess(&sudoku).is_none());
    assert!(solver.guess(&mut sudoku).is_err());
    assert!(solver.guesses.is_empty());
    assert!(solver.used_guesses.is_empty());
    assert_eq!(grid(&sudoku), solved_digits());
}

#[test]
fn the_other_guess_takes_the_least_digit_left() {
    let state: Vec<SudokuCell> = Sudoku::new(vec![0u8; 81]).unwrap().cells;
    let guess = Guess {
        index: 3,
        value: 2,
        other_possibilities: DigitSet::from_digits(&[8, 4, 6]),
        state: state.clone(),
    };
    let second = guess.other_guess().unwrap();
    assert_eq!(second.index, 3);
    assert_eq!(second.value, 4);
    assert_eq!(second.other_possibilities, DigitSet::from_digits(&[6, 8]));
    assert_eq!(second.state, state);
    let third = second.other_guess().unwrap();
    assert_eq!(third.value, 6);
    let fourth = third.other_guess().unwrap();
    assert_eq!(fourth.value, 8);
    assert_eq!(fourth.other_possibilities, DigitSet::new());
    assert!(fourth.other_guess().is_none());
    assert!(guess.same_as(&guess.clone()));
    assert!(!guess.same_as(&second));
}

#[test]
fn the_sibling_follows_a_failed_guess() {
    // The rounds of a solve, made by hand to see the path.
    let mut sudoku = Sudoku::new(hard_digits()).unwrap();
    let mut solver = SudokuSolver::new();
    let mut siblings = 0;
    let mut rounds = 0;
    loop {
        assert!(rounds < 999);
        match SudokuSolver::try_solve(&mut sudoku) {
            Ok(()) => {
                if sudoku.is_solved() {
                    break;
                }
                assert!(solver.guess(&mut sudoku).is_ok());
            }
            Err(_) => {
                let failed = solver.guesses.pop_back().unwrap();
                let next = failed.other_guess().unwrap();
                assert_eq!(next.index, failed.index);
                assert_eq!(next.state, failed.state);
                assert!(next.value > failed.value);
                assert!(!solver.used_guesses.contains(&next));
                solver.apply_guess(&mut sudoku, &next);
                solver.guesses.push_back(next);
                siblings += 1;
            }
        }
        rounds += 1;
    }
    assert_eq!(rounds, 5);
    assert_eq!(siblings, 2);
    assert_eq!(solver.guesses.len(), 3);
    assert_eq!(solver.used_guesses.len(), 5);
    for guess in solver.guesses.iter() {
        let cell = guess.state[guess.index];
        assert_eq!(cell.value, None);
        let candidates = cell.possibilities.unwrap();
        assert!(candidates.contains(guess.value));
        // The digits left to try are the candidates above the guessed digit.
        let mut above = DigitSet::new();
        for digit in 1..=9u8 {
            if candidates.contains(digit) && digit > guess.value {
                above.insert(digit);
            }
        }
        assert_eq!(guess.other_possibilities, above);
        assert_eq!(sudoku.cells[guess.index].value, Some(guess.value));
    }

    // The solver itself ends on the same board, and holds nothing then.
    let mut whole = SudokuSolver::new();
    let solved = whole.solve(&Sudoku::new(hard_digits()).unwrap()).unwrap();
    assert_eq!(solved.cells, sudoku.cells);
    assert!(whole.guesses.is_empty());
    assert!(whole.used_guesses.is_empty());
}

#[test]
fn a_solve_does_not_depend_on_what_the_solver_held() {
    // A solver with a guess left over from another board.
    let mut used = SudokuSolver::new();
    let mut other = Sudoku::new(hard_digits()).unwrap();
    assert!(SudokuSolver::try_solve(&mut other).is_ok());
    assert!(used.guess(&mut other).is_ok());
    assert_eq!(used.guesses.len(), 1);
    assert_eq!(used.used_guesses.len(), 1);

    // A board on which the rules fail at once: no solver solves it.
    let mut values = vec![0u8; 81];
    for column in 0..8 {
        values[column] = column as u8 + 1;
    }
    values[80] = 9;
    let mut sudoku = Sudoku::new(values.clone()).unwrap();
    assert!(used.solve_in_place(&mut sudoku).is_err());
    assert!(used.guesses.is_empty());
    assert!(used.used_guesses.is_empty());
    let mut sudoku = Sudoku::new(values).unwrap();
    assert!(SudokuSolver::new().solve_in_place(&mut sudoku).is_err());

    // And a board that is solved comes out the same from both.
    let mut used = SudokuSolver::new();
    let mut other = Sudoku::new(easy_digits()).unwrap();
    assert!(used.guess(&mut other).is_ok());
    let first = used.solve(&Sudoku::new(hard_digits()).unwrap()).unwrap();
    let second = used.solve(&Sudoku::new(hard_digits()).unwrap()).unwrap();
    let fresh = SudokuSolver::new()
        .solve(&Sudoku::new(hard_digits()).unwrap())
        .unwrap();
    assert_eq!(first.cells, fresh.cells);
    assert_eq!(second.cells, fresh.cells);
    assert!(used.guesses.is_empty());
}

#[test]
fn a_board_that_the_rules_fill_wrongly_is_given_up() {
    // On an empty board the guesses and the rules fill every cell without
    // ever leaving a cell without candidates, but not every group is
    // complete: no guess is left then, and the search ends.
    let sudoku = Sudoku::new(vec![0u8; 81]).unwrap();
    let mut solver = SudokuSolver::new();
    assert!(solver.solve(&sudoku).is_err());
    assert!(solver.used_guesses.is_empty());
}

#[test]
fn the_request_handler_solves_a_board() {
    let values: Vec<i8> = hard_digits().iter().map(|digit| *digit as i8).collect();
    let output = solve(SudokuInput { values });
    assert!(!output.error);
    let solved = output.values.unwrap();
    assert_eq!(solved.len(), 81);
    let mut sudoku = Sudoku::new(hard_digits()).unwrap();
    assert!(sudoku.solve().is_ok());
    let expected: Vec<i8> = grid(&sudoku).iter().map(|digit| *digit as i8).collect();
    assert_eq!(solved, expected);
    let given = hard_digits();
    for index in 0..81 {
        assert!((1..=9).contains(&solved[index]));
        if given[index] != 0 {
            assert_eq!(solved[index], given[index] as i8);
        }
    }
}

#[test]
fn the_request_handler_marks_errors() {
    let output = solve(SudokuInput { values: vec![0; 80] });
    assert!(output.error);
    assert!(output.values.is_none());

    let mut values: Vec<i8> = vec![0; 81];
    values[0] = 5;
    values[1] = 5;
    let output = solve(SudokuInput { values });
    assert!(output.error);
    assert!(output.values.is_none());

    let mut values: Vec<i8> = vec![0; 81];
    for column in 0..8 {
        values[column] = column as i8 + 1;
    }
    values[80] = 9;
    let output = solve(SudokuInput { values });
    assert!(output.error);
    assert!(output.values.is_none());
}
