use sudoku::models::{DigitSet, SudokuCell};

#[test]
fn test_new_zero() {
    let value = SudokuCell::new(0);
    assert_eq!(value.value, None);
    assert_eq!(
        value.possibilities,
        Some(DigitSet::from_digits(&[1, 2, 3, 4, 5, 6, 7, 8, 9]))
    );
    assert!(!value.is_original_value);
}

#[test]
fn test_new_non_zero() {
    let value = SudokuCell::new(1);
    assert_eq!(value.value, Some(1));
    assert_eq!(value.possibilities, None);
    assert!(value.is_original_value);
}

#[test]
fn set_value_drops_the_candidates() {
    let mut cell = SudokuCell::new(0);
    cell.set_value(4);
    assert_eq!(cell.value, Some(4));
    assert_eq!(cell.possibilities, None);
    assert!(!cell.is_original_value);
}

#[test]
fn cells_compare_by_digit_candidates_and_mark() {
    let open = SudokuCell::new(0);
    let given = SudokuCell::new(3);
    let mut written = SudokuCell::new(0);
    written.set_value(3);
    assert!(open.same_as(&SudokuCell::new(0)));
    assert!(!open.same_as(&given));
    assert!(!given.same_as(&written));
    assert!(given.same_as(&SudokuCell::new(3)));
}

#[test]
fn digit_set_starts_empty_or_full() {
    let empty = DigitSet::new();
    assert!(empty.is_empty());
    assert_eq!(empty.len(), 0);
    assert_eq!(empty.first(), None);
    let full = DigitSet::full();
    assert!(!full.is_empty());
    assert_eq!(full.len(), 9);
    assert_eq!(full.first(), Some(1));
    for digit in 1..=9u8 {
        assert!(full.contains(digit));
        assert!(!empty.contains(digit));
    }
    assert!(!full.contains(0));
    assert!(!full.contains(10));
    assert!(!full.contains(255));
}

#[test]
fn digit_set_insert_and_remove() {
    let mut set = DigitSet::new();
    assert!(set.insert(5));
    assert!(!set.insert(5));
    assert!(set.insert(9));
    assert!(set.insert(2));
    assert_eq!(set.len(), 3);
    assert_eq!(set.first(), Some(2));
    assert!(set.remove(2));
    assert!(!set.remove(2));
    assert!(!set.remove(0));
    assert!(!set.remove(200));
    assert_eq!(set.len(), 2);
    assert_eq!(set.first(), Some(5));
    assert_eq!(set, DigitSet::from_digits(&[9, 5]));
    assert!(set.same_as(&DigitSet::from_digits(&[5, 9, 9])));
    assert!(!set.same_as(&DigitSet::singleton(5)));
}

#[test]
fn digit_set_from_digits_passes_over_what_is_no_digit() {
    let set = DigitSet::from_digits(&[0, 3, 10, 3, 200, 7]);
    assert_eq!(set.len(), 2);
    assert!(set.contains(3));
    assert!(set.contains(7));
    assert_eq!(set, DigitSet::from_digits(&[7, 3]));
    assert_eq!(DigitSet::from_digits(&[]), DigitSet::new());
    assert_eq!(DigitSet::singleton(8), DigitSet::from_digits(&[8]));
}

#[test]
fn digit_set_remove_all_strikes_the_digits_of_another_set() {
    let mut set = DigitSet::from_digits(&[1, 4, 7, 9]);
    assert!(set.remove_all(&DigitSet::from_digits(&[4, 5, 9])));
    assert_eq!(set, DigitSet::from_digits(&[1, 7]));
    assert!(!set.remove_all(&DigitSet::from_digits(&[2, 3])));
    assert!(!set.remove_all(&DigitSet::new()));
    assert_eq!(set, DigitSet::from_digits(&[1, 7]));
    assert!(set.remove_all(&DigitSet::full()));
    assert!(set.is_empty());
}
