use sudoku::errors::SudokuCreationError;
use sudoku::models::Sudoku;
use sudoku::utils::{
    assert_values, get_block_indexes, get_column_indexes, get_group_indexes, get_row_indexes,
    GroupIndexes,
};

#[test]
fn utils_test_new() {
    let values: Vec<u8> = vec![
        0, 0, 0, 0, 0, 2, 7, 0, 5,
        0, 0, 7, 0, 1, 0, 0, 0, 0,
        5, 8, 0, 0, 0, 0, 4, 2, 0,
        0, 3, 5, 0, 9, 8, 0, 0, 0,
        7, 1, 0, 0, 2, 0, 0, 0, 9,
        0, 0, 0, 0, 0, 5, 0, 4, 0,
        1, 6, 8, 2, 0, 9, 5, 0, 3,
        0, 0, 0, 3, 0, 1, 0, 8, 0,
        0, 5, 2, 7, 0, 6, 9, 1, 4,
    ];
    Sudoku::new(values).unwrap();
}

#[test]
fn test_get_block_indexes() {
    assert_eq!(vec![0, 1, 2, 9, 10, 11, 18, 19, 20], get_block_indexes(0));
    assert_eq!(vec![3, 4, 5, 12, 13, 14, 21, 22, 23], get_block_indexes(1));
    assert_eq!(vec![6, 7, 8, 15, 16, 17, 24, 25, 26], get_block_indexes(2));
    assert_eq!(
        vec![27, 28, 29, 36, 37, 38, 45, 46, 47],
        get_block_indexes(3)
    );
    assert_eq!(
        vec![30, 31, 32, 39, 40, 41, 48, 49, 50],
        get_block_indexes(4)
    );
    assert_eq!(
        vec![33, 34, 35, 42, 43, 44, 51, 52, 53],
        get_block_indexes(5)
    );
    assert_eq!(
        vec![54, 55, 56, 63, 64, 65, 72, 73, 74],
        get_block_indexes(6)
    );
    assert_eq!(
        vec![57, 58, 59, 66, 67, 68, 75, 76, 77],
        get_block_indexes(7)
    );
}

#[test]
fn test_get_column_indexes() {
    assert_eq!(
        vec![0, 9, 18, 27, 36, 45, 54, 63, 72],
        get_column_indexes(0)
    );
    assert_eq!(
        vec![1, 10, 19, 28, 37, 46, 55, 64, 73],
        get_column_indexes(1)
    );
    assert_eq!(
        vec![7, 16, 25, 34, 43, 52, 61, 70, 79],
        get_column_indexes(7)
    );
}

#[test]
fn test_group_indexes() {
    let mut i = 0;
    let mut groups = GroupIndexes::new();
    while let Some(_) = groups.next() {
        i += 1;
    }
    assert_eq!(i, 27);
}

#[test]
fn row_indexes_are_nine_in_a_row() {
    assert_eq!(vec![0, 1, 2, 3, 4, 5, 6, 7, 8], get_row_indexes(0));
    assert_eq!(vec![18, 19, 20, 21, 22, 23, 24, 25, 26], get_row_indexes(2));
    assert_eq!(vec![72, 73, 74, 75, 76, 77, 78, 79, 80], get_row_indexes(8));
}

#[test]
fn last_block_and_last_column() {
    assert_eq!(
        vec![60, 61, 62, 69, 70, 71, 78, 79, 80],
        get_block_indexes(8)
    );
    assert_eq!(
        vec![8, 17, 26, 35, 44, 53, 62, 71, 80],
        get_column_indexes(8)
    );
}

#[test]
fn column_walk_stops_below_81() {
    assert_eq!(vec![80], get_column_indexes(80));
    assert_eq!(vec![72], get_column_indexes(72));
    assert_eq!(vec![71, 80], get_column_indexes(71));
    assert_eq!(Vec::<usize>::new(), get_column_indexes(81));
    assert_eq!(Vec::<usize>::new(), get_column_indexes(1000));
}

#[test]
fn groups_come_as_rows_then_columns_then_blocks() {
    let mut groups = GroupIndexes::new();
    let mut all: Vec<Vec<usize>> = Vec::new();
    while let Some(indexes) = groups.next() {
        all.push(indexes);
    }
    assert_eq!(all.len(), 27);
    for row in 0..9 {
        assert_eq!(all[row], get_row_indexes(row));
        assert_eq!(all[9 + row], get_column_indexes(row));
        assert_eq!(all[18 + row], get_block_indexes(row));
        assert_eq!(all[row], get_group_indexes(row));
        assert_eq!(all[9 + row], get_group_indexes(9 + row));
        assert_eq!(all[18 + row], get_group_indexes(18 + row));
    }
    assert_eq!(groups.next(), None);
    assert_eq!(groups.next(), None);
}

#[test]
fn assert_values_takes_a_blank_board() {
    assert!(matches!(assert_values(vec![0; 81]), Ok(())));
}

#[test]
fn assert_values_refuses_other_lengths() {
    assert!(matches!(
        assert_values(vec![0; 80]),
        Err(SudokuCreationError::InvalidLength)
    ));
    assert!(matches!(
        assert_values(vec![0; 82]),
        Err(SudokuCreationError::InvalidLength)
    ));
    assert!(matches!(
        assert_values(Vec::new()),
        Err(SudokuCreationError::InvalidLength)
    ));
    // The length is looked at first.
    assert!(matches!(
        assert_values(vec![5; 80]),
        Err(SudokuCreationError::InvalidLength)
    ));
}

#[test]
fn assert_values_refuses_a_digit_twice_in_a_row() {
    let mut values: Vec<u8> = vec![0; 81];
    values[27] = 5;
    values[35] = 5;
    assert!(matches!(
        assert_values(values),
        Err(SudokuCreationError::InvalidValues)
    ));
}

#[test]
fn assert_values_refuses_a_digit_twice_in_a_column() {
    let mut values: Vec<u8> = vec![0; 81];
    values[4] = 7;
    values[76] = 7;
    assert!(matches!(
        assert_values(values),
        Err(SudokuCreationError::InvalidValues)
    ));
}

#[test]
fn assert_values_refuses_a_digit_twice_in_a_block() {
    let mut values: Vec<u8> = vec![0; 81];
    values[0] = 3;
    values[20] = 3;
    assert!(matches!(
        assert_values(values),
        Err(SudokuCreationError::InvalidValues)
    ));
}

#[test]
fn assert_values_takes_a_digit_twice_in_different_groups() {
    let mut values: Vec<u8> = vec![0; 81];
    values[0] = 3;
    values[30] = 3;
    values[80] = 3;
    assert!(matches!(assert_values(values), Ok(())));
}
