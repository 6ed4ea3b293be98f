use sudoku::errors::SudokuCreationError;
use sudoku::models::{DigitSet, Sudoku, SudokuCell};
use sudoku::parse::parse_digits;

fn solved_digits() -> Vec<u8> {
    vec![
        5, 3, 4, 6, 7, 8, 9, 1, 2,
        6, 7, 2, 1, 9, 5, 3, 4, 8,
        1, 9, 8, 3, 4, 2, 5, 6, 7,
        8, 5, 9, 7, 6, 1, 4, 2, 3,
        4, 2, 6, 8, 5, 3, 7, 9, 1,
        7, 1, 3, 9, 2, 4, 8, 5, 6,
        9, 6, 1, 5, 3, 7, 2, 8, 4,
        2, 8, 7, 4, 1, 9, 6, 3, 5,
        3, 4, 5, 2, 8, 6, 1, 7, 9,
    ]
}

fn easy_digits() -> Vec<u8> {
    vec![
        0, 0, 0, 0, 0, 2, 7, 0, 5,
        0, 0, 7, 0, 1, 0, 0, 0, 0,
        5, 8, 0, 0, 0, 0, 4, 2, 0,
        0, 3, 5, 0, 9, 8, 0, 6, 0,
        7, 1, 0, 0, 2, 0, 0, 0, 9,
        0, 0, 0, 0, 0, 5, 0, 4, 0,
        1, 6, 8, 2, 4, 9, 5, 7, 3,
        0, 0, 0, 3, 5, 1, 0, 8, 0,
        3, 5, 2, 7, 8, 6, 9, 1, 4,
    ]
}

fn hard_digits() -> Vec<u8> {
    vec![
        0, 3, 0, 5, 0, 0, 0, 0, 0,
        1, 0, 0, 8, 0, 2, 0, 9, 0,
        0, 0, 9, 0, 0, 0, 4, 0, 0,
        8, 0, 0, 9, 0, 1, 0, 4, 0,
        0, 0, 0, 0, 7, 0, 0, 0, 0,
        0, 6, 0, 0, 0, 0, 0, 0, 3,
        7, 0, 0, 0, 4, 0, 0, 0, 0,
        0, 8, 0, 2, 0, 7, 6, 0, 0,
        0, 0, 0, 0, 5, 0, 0, 2, 0,
    ]
}

fn grid(sudoku: &Sudoku) -> Vec<u8> {
    sudoku.cells.iter().map(|cell| cell.value.unwrap_or(0)).collect()
}

#[test]
fn sudoku_test_new() {
    let values: Vec<u8> = vec![
        0, 0, 0, 0, 0, 2, 7, 0, 5,
        0, 0, 7, 0, 1, 0, 0, 0, 0,
        5, 8, 0, 0, 0, 0, 4, 2, 0,
        0, 3, 5, 0, 9, 8, 0, 0, 0,
        7, 1, 0, 0, 2, 0, 0, 0, 9,
        0, 0, 0, 0, 0, 5, 0, 4, 0,
        1, 6, 8, 2, 0, 9, 5, 0, 3,
        0, 0, 0, 3, 0, 1, 0, 8, 0,
        0, 5, 2, 7, 0, 6, 9, 1, 4,
    ];
    Sudoku::new(values).unwrap();
}

#[test]
fn sudoku_test_filter_row_complete() {
    // Test first row.
    let mut values: Vec<u8> = vec![1, 2, 3, 4, 5, 6, 7, 8, 0];
    for _ in 0..72 {
        values.push(0);
    }

    let mut sudoku = Sudoku::new(values).unwrap();
    let _ = sudoku.filter();

    assert_eq!(
        sudoku.cells[8].possibilities,
        Some(DigitSet::from_digits(&[9]))
    );
}

#[test]
fn sudoku_test_filter_row_incomplete() {
    // Test first row.
    let mut values: Vec<u8> = vec![1, 2, 3, 4, 5, 6, 7, 0, 0];
    for _ in 0..72 {
        values.push(0);
    }

    let mut sudoku = Sudoku::new(values).unwrap();
    let _ = sudoku.filter();

    assert_eq!(
        sudoku.cells[7].possibilities,
        Some(DigitSet::from_digits(&[8, 9]))
    );
    assert_eq!(
        sudoku.cells[8].possibilities,
        Some(DigitSet::from_digits(&[8, 9]))
    );
}

#[test]
fn test_is_solved() {
    let values: Vec<u8> = vec![
        5, 3, 4, 6, 7, 8, 9, 1, 2,
        6, 7, 2, 1, 9, 5, 3, 4, 8,
        1, 9, 8, 3, 4, 2, 5, 6, 7,
        8, 5, 9, 7, 6, 1, 4, 2, 3,
        4, 2, 6, 8, 5, 3, 7, 9, 1,
        7, 1, 3, 9, 2, 4, 8, 5, 6,
        9, 6, 1, 5, 3, 7, 2, 8, 4,
        2, 8, 7, 4, 1, 9, 6, 3, 5,
        3, 4, 5, 2, 8, 6, 1, 7, 9,
    ];
    assert!(Sudoku::new(values).unwrap().is_solved());
}

#[test]
fn test_from_string() {
    let s = "5,3,4,6,7,8,9,1,2,6,7,2,1,9,5,3,4,8,1,9,8,3,4,2,5,6,7,8,5,9,7,6,1,4,2,3,4,2,6,8,5,3,7,9,1,7,1,3,9,2,4,8,5,6,9,6,1,5,3,7,2,8,4,2,8,7,4,1,9,6,3,5,3,4,5,2,8,6,1,7,9";
    assert!(Sudoku::from(s).is_solved());

    let s  = "\
        5, 3, 4, 6, 7, 8, 9, 1, 2,\
        6, 7, 2, 1, 9, 5, 3, 4, 8,\
        1, 9, 8, 3, 4, 2, 5, 6, 7,\
        8, 5, 9, 7, 6, 1, 4, 2, 3,\
        4, 2, 6, 8, 5, 3, 7, 9, 1,\
        7, 1, 3, 9, 2, 4, 8, 5, 6,\
        9, 6, 1, 5, 3, 7, 2, 8, 4,\
        2, 8, 7, 4, 1, 9, 6, 3, 5,\
        3, 4, 5, 2, 8, 6, 1, 7, 9\
    ";
    assert!(Sudoku::from(s).is_solved());

    let s  = "\
        5,  , 4, 6, 7, 8, 9,  , 2,\
        6, 7, 2, 1, 9, 5, 3, 4, 8,\
        1, 9, 8, 3, 4, 2, 5, 6, 7,\
        8, 5, 9, 7, 6, 1, 4, 2, 3,\
        4, 2, 6, 8, 5, 3, 7, 9, 1,\
        7, 1, 3,  , 2, 4, 8, 5, 6,\
        9, 6, 1, 5, 3, 7,  , 8, 4,\
        2, 8, 7,  , 1, 9, 6, 3, 5,\
        3, 4, 5, 2, 8, 6, 1, 7, 9\
    ";
    assert!(!Sudoku::from(s).is_solved());
}

#[test]
fn sudoku_test_check() {
    // This particular sudoku is stuck, but a 7 can be written on the middle
    // part of the block number 6 (southwest block). The check function should
    // fix that.
    let values: Vec<u8> = vec![
        0, 0, 0, 0, 0, 2, 7, 0, 5,
        0, 0, 7, 0, 1, 0, 0, 0, 0,
        5, 8, 0, 0, 0, 0, 4, 2, 0,
        0, 3, 5, 0, 9, 8, 0, 6, 0,
        7, 1, 0, 0, 2, 0, 0, 0, 9,
        0, 0, 0, 0, 0, 5, 0, 4, 0,
        1, 6, 8, 2, 4, 9, 5, 7, 3,
        0, 0, 0, 3, 5, 1, 0, 8, 0,
        3, 5, 2, 7, 8, 6, 9, 1, 4,
    ];

    let mut sudoku = Sudoku::new(values).unwrap();
    let _ = sudoku.filter();

    assert_eq!(
        sudoku.cells[64].possibilities,
        Some(DigitSet::from_digits(&[7, 4, 9]))
    );

    let _ = sudoku.check();
    assert_eq!(
        sudoku.cells[64].possibilities,
        Some(DigitSet::from_digits(&[7]))
    );
}

#[test]
fn sudoku_test_solve() {
    let values: Vec<u8> = vec![
        0, 0, 0, 0, 0, 2, 7, 0, 5,
        0, 0, 7, 0, 1, 0, 0, 0, 0,
        5, 8, 0, 0, 0, 0, 4, 2, 0,
        0, 3, 5, 0, 9, 8, 0, 6, 0,
        7, 1, 0, 0, 2, 0, 0, 0, 9,
        0, 0, 0, 0, 0, 5, 0, 4, 0,
        1, 6, 8, 2, 4, 9, 5, 7, 3,
        0, 0, 0, 3, 5, 1, 0, 8, 0,
        3, 5, 2, 7, 8, 6, 9, 1, 4,
    ];

    let mut sudoku = Sudoku::new(values.clone()).unwrap();
    let _ = sudoku.try_solve();
    assert!(sudoku.is_solved());

    let mut sudoku = Sudoku::new(values.clone()).unwrap();
    let _ = sudoku.solve();
    assert!(sudoku.is_solved());

    // Hard one.
    let values: Vec<u8> = vec![
        0, 3, 0, 5, 0, 0, 0, 0, 0,
        1, 0, 0, 8, 0, 2, 0, 9, 0,
        0, 0, 9, 0, 0, 0, 4, 0, 0,
        8, 0, 0, 9, 0, 1, 0, 4, 0,
        0, 0, 0, 0, 7, 0, 0, 0, 0,
        0, 6, 0, 0, 0, 0, 0, 0, 3,
        7, 0, 0, 0, 4, 0, 0, 0, 0,
        0, 8, 0, 2, 0, 7, 6, 0, 0,
        0, 0, 0, 0, 5, 0, 0, 2, 0,
    ];

    let mut sudoku = Sudoku::new(values.clone()).unwrap();
    let _ = sudoku.try_solve();
    assert!(!sudoku.is_solved());

    let mut sudoku = Sudoku::new(values.clone()).unwrap();
    let _ = sudoku.solve();
    assert!(sudoku.is_solved());
}

#[test]
fn new_refuses_a_digit_twice_in_a_row() {
    let mut values = vec![0u8; 81];
    values[0] = 5;
    values[7] = 5;
    assert!(matches!(
        Sudoku::new(values),
        Err(SudokuCreationError::InvalidValues)
    ));
}

#[test]
fn new_refuses_eighty_digits() {
    assert!(matches!(
        Sudoku::new(vec![0u8; 80]),
        Err(SudokuCreationError::InvalidLength)
    ));
}

#[test]
fn new_marks_the_given_digits() {
    let sudoku = Sudoku::new(easy_digits()).unwrap();
    assert_eq!(sudoku.cells.len(), 81);
    assert_eq!(sudoku.cells[5].value, Some(2));
    assert!(sudoku.cells[5].is_original_value);
    assert_eq!(sudoku.cells[5].possibilities, None);
    assert_eq!(sudoku.cells[0].value, None);
    assert!(!sudoku.cells[0].is_original_value);
    assert_eq!(sudoku.cells[0].possibilities, Some(DigitSet::full()));
    assert_eq!(grid(&sudoku), easy_digits());
}

#[test]
fn a_board_with_a_blank_is_not_solved() {
    for blank in [0usize, 40, 80] {
        let mut values = solved_digits();
        values[blank] = 0;
        assert!(!Sudoku::new(values).unwrap().is_solved());
    }
    assert!(!Sudoku::new(vec![0u8; 81]).unwrap().is_solved());
}

#[test]
fn a_full_board_with_a_wrong_digit_is_not_solved() {
    // Rows and columns are complete, the blocks are not.
    let mut cells: Vec<SudokuCell> = Vec::new();
    for row in 0..9u8 {
        for column in 0..9u8 {
            cells.push(SudokuCell::new((row + column) % 9 + 1));
        }
    }
    assert!(!Sudoku { cells }.is_solved());

    // A digit that is none: every group holds nine different values.
    let mut cells: Vec<SudokuCell> = Sudoku::new(solved_digits()).unwrap().cells;
    for cell in cells.iter_mut() {
        if cell.value == Some(9) {
            cell.value = Some(10);
        }
    }
    assert!(!Sudoku { cells }.is_solved());
}

#[test]
fn solving_a_solved_board_changes_nothing() {
    let mut sudoku = Sudoku::new(solved_digits()).unwrap();
    assert!(sudoku.solve().is_ok());
    assert!(sudoku.is_solved());
    assert_eq!(grid(&sudoku), solved_digits());
    for cell in sudoku.cells.iter() {
        assert!(cell.is_original_value);
    }
}

#[test]
fn try_solve_twice_changes_nothing_more() {
    for digits in [easy_digits(), hard_digits(), vec![0u8; 81]] {
        let mut sudoku = Sudoku::new(digits).unwrap();
        assert!(sudoku.try_solve().is_ok());
        let rest = sudoku.cells.clone();
        assert!(sudoku.try_solve().is_ok());
        assert_eq!(sudoku.cells, rest);
        assert_eq!(sudoku.filter().ok(), Some(false));
        assert_eq!(sudoku.check().ok(), Some(false));
        assert_eq!(sudoku.cells, rest);
    }
}

#[test]
fn try_solve_commits_a_single_candidate_and_goes_on() {
    // One open cell has a single candidate, and nothing else is known.
    let mut sudoku = Sudoku::new(vec![0u8; 81]).unwrap();
    sudoku.cells[0].possibilities = Some(DigitSet::singleton(5));
    assert!(sudoku.try_solve().is_ok());
    assert_eq!(sudoku.cells[0].value, Some(5));
    assert!(!sudoku.cells[0].is_original_value);
    let without_five = DigitSet::from_digits(&[1, 2, 3, 4, 6, 7, 8, 9]);
    for peer in [1usize, 8, 9, 72, 10, 20] {
        assert_eq!(sudoku.cells[peer].possibilities, Some(without_five));
    }
    assert_eq!(sudoku.cells[40].possibilities, Some(DigitSet::full()));
    let rest = sudoku.cells.clone();
    assert!(sudoku.try_solve().is_ok());
    assert_eq!(sudoku.cells, rest);
}

#[test]
fn the_easy_board_keeps_its_digits() {
    let mut sudoku = Sudoku::new(easy_digits()).unwrap();
    assert!(sudoku.solve().is_ok());
    let solved = grid(&sudoku);
    let given = easy_digits();
    for index in 0..81 {
        assert!((1..=9).contains(&solved[index]));
        if given[index] != 0 {
            assert_eq!(solved[index], given[index]);
            assert!(sudoku.cells[index].is_original_value);
        } else {
            assert!(!sudoku.cells[index].is_original_value);
        }
    }
}

#[test]
fn the_hard_board_keeps_its_digits() {
    let mut sudoku = Sudoku::new(hard_digits()).unwrap();
    assert!(sudoku.solve().is_ok());
    assert!(sudoku.is_solved());
    let solved = grid(&sudoku);
    let given = hard_digits();
    for index in 0..81 {
        if given[index] != 0 {
            assert_eq!(solved[index], given[index]);
        }
    }
}

#[test]
fn filter_fails_where_a_cell_has_no_candidate_left() {
    // The last cell of the first row can only take a 9, and its column holds one.
    let mut values = vec![0u8; 81];
    for column in 0..8 {
        values[column] = column as u8 + 1;
    }
    values[80] = 9;
    let mut sudoku = Sudoku::new(values.clone()).unwrap();
    assert!(sudoku.filter().is_err());
    let mut sudoku = Sudoku::new(values.clone()).unwrap();
    assert!(sudoku.try_solve().is_err());
    let mut sudoku = Sudoku::new(values).unwrap();
    assert!(sudoku.solve().is_err());
}

#[test]
fn filter_says_whether_a_candidate_went() {
    let mut sudoku = Sudoku::new(vec![0u8; 81]).unwrap();
    assert_eq!(sudoku.filter().ok(), Some(false));
    let mut values = vec![0u8; 81];
    values[40] = 6;
    let mut sudoku = Sudoku::new(values).unwrap();
    assert_eq!(sudoku.filter().ok(), Some(true));
    let without_six = DigitSet::from_digits(&[1, 2, 3, 4, 5, 7, 8, 9]);
    // Row, column and block of the middle cell.
    for peer in [36usize, 44, 4, 76, 30, 50] {
        assert_eq!(sudoku.cells[peer].possibilities, Some(without_six));
    }
    assert_eq!(sudoku.cells[0].possibilities, Some(DigitSet::full()));
    assert_eq!(sudoku.filter().ok(), Some(false));
}

#[test]
fn check_fails_on_a_cell_without_digit_and_candidates() {
    let mut sudoku = Sudoku::new(vec![0u8; 81]).unwrap();
    sudoku.cells[13].possibilities = None;
    assert!(sudoku.check().is_err());
}

#[test]
fn check_takes_the_largest_of_two_forced_digits() {
    // Two digits are candidates of the first cell alone in its row.
    let mut sudoku = Sudoku::new(vec![0u8; 81]).unwrap();
    let others = DigitSet::from_digits(&[1, 2, 4, 5, 6, 8, 9]);
    for column in 1..9 {
        sudoku.cells[column].possibilities = Some(others);
    }
    assert_eq!(sudoku.check().ok(), Some(true));
    assert_eq!(sudoku.cells[0].possibilities, Some(DigitSet::singleton(7)));
    assert_eq!(sudoku.cells[1].possibilities, Some(others));
}

#[test]
fn parse_digits_reads_the_fields_between_commas() {
    assert_eq!(parse_digits("1,2,3"), vec![1, 2, 3]);
    assert_eq!(parse_digits(""), vec![0]);
    assert_eq!(parse_digits(","), vec![0, 0]);
    assert_eq!(parse_digits(" 7 ,\t8\n,  "), vec![7, 8, 0]);
    assert_eq!(parse_digits("+5,007,255,256"), vec![5, 7, 255, 0]);
    assert_eq!(parse_digits("-1,1 2,x,+,++1,1+"), vec![0, 0, 0, 0, 0, 0]);
    assert_eq!(parse_digits("\u{a0}4\u{3000},\u{2003}9"), vec![4, 9]);
    assert_eq!(parse_digits("00000000000000000000000000012"), vec![12]);
    assert_eq!(parse_digits("99999999999999999999999999999"), vec![0]);
}

#[test]
fn parse_digits_agrees_with_the_standard_library() {
    let texts = [
        "5,  , 4, 6",
        " 12 ,+3,-3, 3 4,٣,3\u{85}",
        "0,00,+0,+00, +1,+ 1,256,0255",
        "\u{b}1\u{c},\u{1680}2\u{2028},\u{2029}3\u{202f},\u{205f}4\u{200a},\u{200b}5",
    ];
    for text in texts {
        let expected: Vec<u8> = text
            .split(',')
            .map(|field| field.trim().parse::<u8>().unwrap_or(0))
            .collect();
        assert_eq!(parse_digits(text), expected);
    }
}

#[test]
fn check_reports_no_change_on_a_cell_that_has_its_one_candidate() {
    // A solved grid with one blank: the filter leaves the cell its digit as
    // the only candidate, and the check finds nothing to narrow.
    let mut values = solved_digits();
    values[80] = 0;
    let mut sudoku = Sudoku::new(values).unwrap();
    assert_eq!(sudoku.filter().ok(), Some(true));
    assert_eq!(
        sudoku.cells[80].possibilities,
        Some(DigitSet::singleton(9))
    );
    let before = sudoku.cells.clone();
    assert_eq!(sudoku.check().ok(), Some(false));
    assert_eq!(sudoku.cells, before);
}

#[test]
fn check_reports_a_change_where_it_narrows_a_cell() {
    let mut values = solved_digits();
    values[80] = 0;
    let mut sudoku = Sudoku::new(values).unwrap();
    // Not filtered: the open cell holds all nine candidates, and each digit
    // is a candidate of this cell alone.
    let before = sudoku.cells.clone();
    assert_eq!(sudoku.check().ok(), Some(true));
    assert!(sudoku.cells != before);
    assert_eq!(sudoku.cells[80].possibilities.unwrap().len(), 1);
    assert_eq!(sudoku.check().ok(), Some(false));
}

#[test]
fn the_rules_drop_no_solution() {
    let mut solved = Sudoku::new(hard_digits()).unwrap();
    assert!(solved.solve().is_ok());
    let mut sudoku = Sudoku::new(hard_digits()).unwrap();
    let mut rounds = 0;
    loop {
        for index in 0..81 {
            let digit = solved.cells[index].value.unwrap();
            match sudoku.cells[index].value {
                Some(value) => assert_eq!(value, digit),
                None => assert!(sudoku.cells[index].possibilities.unwrap().contains(digit)),
            }
        }
        if rounds == 3 {
            break;
        }
        match rounds {
            0 => assert!(sudoku.filter().is_ok()),
            1 => assert!(sudoku.check().is_ok()),
            _ => assert!(sudoku.try_solve().is_ok()),
        }
        rounds += 1;
    }
    assert!(!sudoku.is_solved());
}
