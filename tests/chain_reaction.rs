use coding_puzzles::chain::{execute, FunElement, ReduceError};

#[test]
fn test_equality() {
    let el1 = FunElement {
        idx: 1,
        next_element: 1,
        fun_val: 50,
    };
    let el2 = FunElement {
        idx: 1,
        next_element: 1,
        fun_val: 40,
    };
    let el3 = FunElement {
        idx: 1,
        next_element: 2,
        fun_val: 40,
    };
    let el4 = FunElement {
        idx: 1,
        next_element: 2,
        fun_val: 50,
    };

    assert!(el1 == el1);
    assert!(el2 < el1);
    assert!(el1 < el3);
    assert!(el4 > el2);
    assert!(el1 > el2);
}

#[test]
fn test_single() {
    let fun_values: Vec<i64> = vec![50];
    let pointer_values: Vec<usize> = vec![0];
    assert_eq!(execute(fun_values, pointer_values), Ok(50));
}

#[test]
fn test_row2() {
    let fun_values = vec![50, 40];
    let pointer_values = vec![0, 1];
    assert_eq!(execute(fun_values, pointer_values), Ok(50));
}

#[test]
fn test_parallel2() {
    let fun_values = vec![50, 40];
    let pointer_values = vec![0, 0];
    assert_eq!(execute(fun_values, pointer_values), Ok(90));
}

#[test]
fn test_parallel10() {
    let fun_values = vec![100, 90, 80, 70, 60, 50, 40, 30, 20, 10];
    let pointer_values = vec![0, 0, 0, 0, 0, 0, 0, 0, 0, 0];
    assert_eq!(execute(fun_values, pointer_values), Ok(550));
}

#[test]
fn test_row10() {
    let fun_values = vec![100, 90, 80, 70, 60, 50, 40, 30, 20, 10];
    let pointer_values = vec![0, 1, 2, 3, 4, 5, 6, 7, 8, 9];
    assert_eq!(execute(fun_values, pointer_values), Ok(100));
}

#[test]
fn test_multi_subtree2() {
    let fun_values = vec![100, 90, 80, 70, 60, 50, 40, 30, 20, 10];
    let pointer_values = vec![0, 1, 2, 3, 4, 0, 6, 7, 8, 9];
    assert_eq!(execute(fun_values, pointer_values), Ok(150));
}

#[test]
fn test_multi_subtree5() {
    let fun_values = vec![100, 90, 80, 70, 60, 50, 40, 30, 20, 10];
    let pointer_values = vec![0, 1, 0, 3, 0, 5, 0, 7, 0, 9];
    assert_eq!(execute(fun_values, pointer_values), Ok(300));
}

#[test]
fn test_max_range() {
    let max_val: i64 = 10i64.pow(9);
    let mut fun_values = vec![];
    let mut pointer_values = vec![];
    for _ in 0..1000 {
        fun_values.push(max_val);
        pointer_values.push(0);
    }
    assert_eq!(
        execute(fun_values, pointer_values),
        Ok(i128::from(max_val) * 1000)
    );
}

#[test]
fn single_root_keeps_its_value() {
    assert_eq!(execute(vec![-7], vec![0]), Ok(-7));
    assert_eq!(execute(vec![i64::MAX], vec![0]), Ok(i128::from(i64::MAX)));
}

#[test]
fn worked_branching_examples() {
    assert_eq!(execute(vec![60, 20, 40, 50], vec![0, 1, 1, 2]), Ok(110));
    assert_eq!(execute(vec![3, 2, 1, 4, 5], vec![0, 1, 1, 1, 0]), Ok(14));
    assert_eq!(
        execute(
            vec![100, 100, 100, 90, 80, 100, 90, 100],
            vec![0, 1, 2, 1, 2, 3, 1, 3]
        ),
        Ok(490)
    );
}

#[test]
fn repeated_calls_agree() {
    let values = vec![100, 100, 100, 90, 80, 100, 90, 100];
    let parents = vec![0, 1, 2, 1, 2, 3, 1, 3];
    let first = execute(values.clone(), parents.clone());
    let second = execute(values, parents);
    assert_eq!(first, second);
}

#[test]
fn merge_carries_the_swapped_value() {
    // Node 4 raises node 2 to 20; node 3 then loses to node 2's 20, which is
    // added, and the smaller 5 travels on into the root.
    assert_eq!(execute(vec![3, 1, 5, 20], vec![0, 1, 1, 2]), Ok(25));
}

#[test]
fn many_maximal_roots_sum_without_overflow() {
    let values = vec![i64::MAX; 4];
    let parents = vec![0; 4];
    assert_eq!(execute(values, parents), Ok(4 * i128::from(i64::MAX)));
    let values = vec![i64::MIN; 3];
    let parents = vec![0; 3];
    assert_eq!(execute(values, parents), Ok(3 * i128::from(i64::MIN)));
}

#[test]
fn length_mismatch_is_invalid_input() {
    assert_eq!(execute(vec![1, 2], vec![0]), Err(ReduceError::InvalidInput));
    assert_eq!(execute(vec![], vec![0]), Err(ReduceError::InvalidInput));
}

#[test]
fn parent_out_of_range_is_malformed() {
    assert_eq!(execute(vec![1, 2], vec![0, 3]), Err(ReduceError::MalformedGraph));
}

#[test]
fn empty_forest_totals_zero() {
    assert_eq!(execute(vec![], vec![]), Ok(0));
}
