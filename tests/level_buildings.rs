use coding_puzzles::buildings::{dynamic_search, has_negative, naive_search, run, GenericError};
use coding_puzzles::Mode;

#[test]
fn test_linear() {
    let building_heights = vec![1, 2, 3, 4, 5];
    let min_levels = 6;
    assert!(min_levels == run(&building_heights, &Mode::Naive).unwrap());
    assert!(min_levels == run(&building_heights, &Mode::DynamicProgramming).unwrap());
}

#[test]
fn test_big_diff() {
    let building_heights = vec![1, 1, 1, 6, 10];
    let min_levels = 7;
    assert!(min_levels == run(&building_heights, &Mode::Naive).unwrap());
    assert!(min_levels == run(&building_heights, &Mode::DynamicProgramming).unwrap());
}

#[test]
fn test_equal_height() {
    let building_heights = vec![10, 10, 10, 10, 10];
    let min_levels = 0;
    assert!(min_levels == run(&building_heights, &Mode::Naive).unwrap());
    assert!(min_levels == run(&building_heights, &Mode::DynamicProgramming).unwrap());
}

#[test]
fn test_single_peak() {
    let building_heights = vec![0, 0, 0, 0, 10];
    let min_levels = 0;
    assert!(min_levels == run(&building_heights, &Mode::Naive).unwrap());
    assert!(min_levels == run(&building_heights, &Mode::DynamicProgramming).unwrap());
}

#[test]
fn test_negative() {
    // Negative numbers
    let building_heights = vec![1, -1];
    assert!(run(&building_heights, &Mode::Naive).is_err());
    assert!(run(&building_heights, &Mode::DynamicProgramming).is_err());
}

#[test]
fn test_empty() {
    // Empty list
    let building_heights = vec![];
    assert!(run(&building_heights, &Mode::Naive).is_err());
    assert!(run(&building_heights, &Mode::DynamicProgramming).is_err());
}

#[test]
fn test_single_element() {
    // Single Element
    let building_heights = vec![1];
    assert!(run(&building_heights, &Mode::Naive).unwrap() == 0);
    assert!(run(&building_heights, &Mode::DynamicProgramming).unwrap() == 0);
}

#[test]
fn error_messages_name_the_reason() {
    let empty: Vec<i32> = vec![];
    assert_eq!(run(&empty, &Mode::Naive).unwrap_err().details, "vector empty!");
    assert_eq!(
        run(&vec![3, -2, 5], &Mode::DynamicProgramming).unwrap_err().details,
        "Interval has bunker!"
    );
    assert_eq!(GenericError::new("x").details, "x");
}

#[test]
fn searches_agree_on_unsorted_rows_with_duplicates() {
    let heights = vec![7, 3, 3, 9, 1, 3, 12];
    let naive = naive_search(&heights);
    assert_eq!(naive, dynamic_search(&heights));
    // choosing 7: remove 3 + 3 + 1 + 3 whole, and 2 + 5 above it
    assert_eq!(naive, 17);
}

#[test]
fn empty_rows_give_the_sentinel() {
    let empty: Vec<i32> = vec![];
    assert_eq!(naive_search(&empty), -1);
    assert_eq!(dynamic_search(&empty), -1);
}

#[test]
fn tall_buildings_do_not_overflow() {
    // choosing i32::MAX - 1: remove 1 + 1 whole, and 1 above it
    let heights = vec![i32::MAX, 1, 1, i32::MAX - 1];
    assert_eq!(run(&heights, &Mode::Naive).unwrap(), 3);
    assert_eq!(run(&heights, &Mode::DynamicProgramming).unwrap(), 3);
    let flat = vec![i32::MAX; 6];
    assert_eq!(naive_search(&flat), 0);
    assert_eq!(dynamic_search(&flat), 0);
}

#[test]
fn negative_heights_are_found() {
    assert!(has_negative(&vec![0, 4, -1]));
    assert!(!has_negative(&vec![0, 4, 1]));
    assert!(!has_negative(&vec![]));
}
