use coding_puzzles::intervals::{dynamic_search, has_single_interval, naive_search, Interval};
use coding_puzzles::Mode;

struct IntervalTest {
    name: String,
    first_interval: Interval,
    second_interval: Interval,
    result: bool,
}

#[test]
fn run_sanity_check() {
    let tests = vec![
        IntervalTest {
            name: "0".to_string(),
            first_interval: Interval::new(0, 4),
            second_interval: Interval::new(3, 5),
            result: true,
        },
        IntervalTest {
            name: "1".to_string(),
            first_interval: Interval::new(3, 5),
            second_interval: Interval::new(4, 5),
            result: true,
        },
        IntervalTest {
            name: "2".to_string(),
            first_interval: Interval::new(0, 4),
            second_interval: Interval::new(0, 4),
            result: true,
        },
        IntervalTest {
            name: "3".to_string(),
            first_interval: Interval::new(0, 4),
            second_interval: Interval::new(0, 4),
            result: true,
        },
        IntervalTest {
            name: "4".to_string(),
            first_interval: Interval::new(0, 4),
            second_interval: Interval::new(6, 7),
            result: false,
        },
        IntervalTest {
            name: "5".to_string(),
            first_interval: Interval::new(3, 5),
            second_interval: Interval::new(6, 7),
            result: false,
        },
        IntervalTest {
            name: "6".to_string(),
            first_interval: Interval::new(4, 5),
            second_interval: Interval::new(6, 7),
            result: false,
        },
    ];
    for next in tests {
        assert_eq!(
            next.result,
            Interval::overlaps(&next.first_interval, &next.second_interval),
            "Testing: {}",
            next.name
        );
    }
}

struct AlgoTest {
    name: String,
    vector: Vec<Interval>,
    result: Option<Interval>,
}

fn small_examples() -> Vec<AlgoTest> {
    vec![
        AlgoTest {
            name: "empty".to_string(),
            vector: Vec::<Interval>::new(),
            result: None,
        },
        AlgoTest {
            name: "one".to_string(),
            vector: vec![Interval::new(0, 3)],
            result: Some(Interval::new(0, 3)),
        },
        AlgoTest {
            name: "unmatched first".to_string(),
            vector: vec![
                Interval::new(0, 3),
                Interval::new(4, 6),
                Interval::new(5, 7),
                Interval::new(7, 10),
            ],
            result: Some(Interval::new(0, 3)),
        },
        AlgoTest {
            name: "unmatched last".to_string(),
            vector: vec![
                Interval::new(4, 6),
                Interval::new(5, 7),
                Interval::new(7, 10),
                Interval::new(25, 50),
            ],
            result: Some(Interval::new(25, 50)),
        },
        AlgoTest {
            name: "unmatched middle".to_string(),
            vector: vec![
                Interval::new(3, 5),
                Interval::new(4, 6),
                Interval::new(7, 9),
                Interval::new(10, 30),
                Interval::new(10, 20),
            ],
            result: Some(Interval::new(7, 9)),
        },
        AlgoTest {
            name: "matched".to_string(),
            vector: vec![
                Interval::new(1, 3),
                Interval::new(2, 4),
                Interval::new(3, 5),
                Interval::new(4, 6),
            ],
            result: None,
        },
    ]
}

#[test]
fn run_small_examples() {
    let tests = small_examples();
    for case in &tests {
        assert_eq!(
            case.result,
            has_single_interval(&case.vector, naive_search),
            "Test {}",
            case.name
        );
    }
    for case in &tests {
        assert_eq!(
            case.result,
            has_single_interval(&case.vector, dynamic_search),
            "Test {}",
            case.name
        );
    }
}

#[test]
fn small_examples_by_mode() {
    for case in &small_examples() {
        assert_eq!(
            case.result,
            Interval::has_single_interval(&case.vector, &Mode::Naive),
            "Test {}",
            case.name
        );
        assert_eq!(
            case.result,
            Interval::has_single_interval(&case.vector, &Mode::DynamicProgramming),
            "Test {}",
            case.name
        );
    }
}

#[test]
fn overlap_is_symmetric_on_touching_ends() {
    assert!(Interval::overlaps(&Interval::new(0, 3), &Interval::new(3, 5)));
    assert!(Interval::overlaps(&Interval::new(3, 5), &Interval::new(0, 3)));
    assert!(!Interval::overlaps(&Interval::new(0, 3), &Interval::new(4, 6)));
    assert!(!Interval::overlaps(&Interval::new(4, 6), &Interval::new(0, 3)));
}

#[test]
fn copy_keeps_both_ends() {
    let a = Interval::new(-5, 8);
    assert_eq!(a.copy(), a);
    assert_eq!(a.copy().low, -5);
    assert_eq!(a.copy().high, 8);
}

#[test]
fn naive_returns_the_first_isolated_in_list_order() {
    let list = vec![
        Interval::new(20, 30),
        Interval::new(0, 1),
        Interval::new(10, 12),
        Interval::new(11, 15),
    ];
    assert_eq!(naive_search(&list), Some(Interval::new(20, 30)));
    let found = dynamic_search(&list);
    assert!(found == Some(Interval::new(0, 1)) || found == Some(Interval::new(20, 30)));
}

#[test]
fn dynamic_on_one_interval_finds_none() {
    assert_eq!(dynamic_search(&[Interval::new(1, 2)]), None);
}

#[test]
fn equal_intervals_overlap_each_other() {
    let list = vec![Interval::new(1, 2), Interval::new(1, 2)];
    assert_eq!(naive_search(&list), None);
    assert_eq!(dynamic_search(&list), None);
}

#[test]
fn unsorted_input_with_isolated_middle() {
    let list = vec![
        Interval::new(40, 45),
        Interval::new(1, 5),
        Interval::new(20, 22),
        Interval::new(42, 50),
        Interval::new(4, 9),
    ];
    assert_eq!(naive_search(&list), Some(Interval::new(20, 22)));
    assert_eq!(dynamic_search(&list), Some(Interval::new(20, 22)));
}
