use dock_order::classify::classify_priorities;
use dock_order::cli::Args;
use dock_order::exceptions::resolve_exception_groups;
use dock_order::lists::{flatten, insert_ascending};
use dock_order::models::Priority;
use dock_order::processor::process_docks;
use dock_order::warnings::Warning;
use std::collections::HashSet;

#[test]
fn raw_groups_are_sorted_and_stripped_of_repeats() {
    let r = resolve_exception_groups(&vec![vec![4, 2, 4, 3, 2]], 1, 9);
    assert_eq!(r.groups, vec![vec![2, 3, 4]]);
    assert_eq!(r.docks, [2, 3, 4].into_iter().collect::<HashSet<u32>>());
    assert!(r.warnings.is_empty());
}

#[test]
fn resolved_groups_stand_in_order_of_their_smallest_member() {
    let r = resolve_exception_groups(&vec![vec![8, 7], vec![5], vec![1, 9], vec![3, 2]], 1, 9);
    assert_eq!(r.groups, vec![vec![1, 9], vec![2, 3], vec![5], vec![7, 8]]);
}

#[test]
fn first_claim_wins() {
    let r = resolve_exception_groups(&vec![vec![5, 6], vec![4, 5, 6, 7], vec![6, 5]], 1, 9);
    assert_eq!(r.groups, vec![vec![4, 7], vec![5, 6]]);
    assert_eq!(
        r.warnings,
        vec![
            Warning::AlreadyClaimed { dock: 5 },
            Warning::AlreadyClaimed { dock: 6 },
            Warning::AlreadyClaimed { dock: 5 },
            Warning::AlreadyClaimed { dock: 6 },
        ]
    );
    assert_eq!(r.docks, [4, 5, 6, 7].into_iter().collect::<HashSet<u32>>());
}

#[test]
fn docks_out_of_range_are_dropped_with_a_warning_each() {
    let r = resolve_exception_groups(&vec![vec![12, 3, 0, 12], vec![11, 3], vec![20]], 1, 9);
    assert_eq!(r.groups, vec![vec![3]]);
    assert_eq!(
        r.warnings,
        vec![
            Warning::ExceptionOutOfRange { dock: 12, min: 1, max: 9 },
            Warning::ExceptionOutOfRange { dock: 0, min: 1, max: 9 },
            Warning::ExceptionOutOfRange { dock: 12, min: 1, max: 9 },
            Warning::ExceptionOutOfRange { dock: 11, min: 1, max: 9 },
            Warning::AlreadyClaimed { dock: 3 },
            Warning::ExceptionOutOfRange { dock: 20, min: 1, max: 9 },
        ]
    );
    assert_eq!(r.docks.len(), 1);
}

#[test]
fn no_raw_groups_give_no_groups() {
    let r = resolve_exception_groups(&Vec::new(), 1, 9);
    assert!(r.groups.is_empty());
    assert!(r.docks.is_empty());
    assert!(r.warnings.is_empty());
    let r = resolve_exception_groups(&vec![Vec::new(), Vec::new()], 1, 9);
    assert!(r.groups.is_empty());
}

#[test]
fn first_priority_wins_over_second() {
    let none: HashSet<u32> = HashSet::new();
    let c = classify_priorities(&vec![3, 4], &vec![4, 5], &none, 1, 9);
    assert_eq!(c.priorities.get(&3), Some(&Priority::First));
    assert_eq!(c.priorities.get(&4), Some(&Priority::First));
    assert_eq!(c.priorities.get(&5), Some(&Priority::Second));
    assert_eq!(c.priorities.len(), 3);
    assert!(c.warnings.is_empty());
}

#[test]
fn exception_docks_get_no_priority() {
    let exceptions: HashSet<u32> = [3, 5].into_iter().collect();
    let c = classify_priorities(&vec![3, 4], &vec![5, 6], &exceptions, 1, 9);
    assert_eq!(c.priorities.get(&3), None);
    assert_eq!(c.priorities.get(&5), None);
    assert_eq!(c.priorities.get(&4), Some(&Priority::First));
    assert_eq!(c.priorities.get(&6), Some(&Priority::Second));
    assert_eq!(c.priorities.len(), 2);
    assert!(c.warnings.is_empty());
}

#[test]
fn priority_docks_out_of_range_are_warned_of_once() {
    let none: HashSet<u32> = HashSet::new();
    let c = classify_priorities(&vec![12, 3, 0, 12, 0], &vec![10, 12, 10, 2], &none, 1, 9);
    assert_eq!(c.priorities.len(), 2);
    assert_eq!(
        c.warnings,
        vec![
            Warning::FirstPriorityOutOfRange { dock: 12, min: 1, max: 9 },
            Warning::FirstPriorityOutOfRange { dock: 0, min: 1, max: 9 },
            Warning::SecondPriorityOutOfRange { dock: 10, min: 1, max: 9 },
            Warning::SecondPriorityOutOfRange { dock: 12, min: 1, max: 9 },
        ]
    );
}

#[test]
fn lists_are_strung_together_in_order() {
    assert_eq!(flatten(&vec![vec![3, 1], Vec::new(), vec![2, 3]]), vec![3, 1, 2, 3]);
    assert_eq!(flatten(&Vec::new()), Vec::<u32>::new());
}

#[test]
fn insertion_keeps_a_list_ascending() {
    let mut list: Vec<u32> = Vec::new();
    for d in [5, 1, 9, 5, 3, 1, 0, u32::MAX] {
        insert_ascending(&mut list, d);
    }
    assert_eq!(list, vec![0, 1, 3, 5, 9, u32::MAX]);
}

#[test]
fn warnings_read_as_full_sentences() {
    assert_eq!(
        Warning::ExceptionOutOfRange { dock: 90, min: 51, max: 78 }.message(),
        "Warning: Exception dock 90 is outside the specified range [51-78] and will be ignored."
    );
    assert_eq!(
        Warning::AlreadyClaimed { dock: 60 }.message(),
        "Warning: Dock 60 in exception group already part of another exception group. Ignoring."
    );
    assert_eq!(
        Warning::FirstPriorityOutOfRange { dock: 4294967295, min: 0, max: 7 }.message(),
        "Warning: First priority dock 4294967295 is outside the specified range [0-7] and will be ignored."
    );
    assert_eq!(
        Warning::SecondPriorityOutOfRange { dock: 100, min: 101, max: 1000 }.message(),
        "Warning: Second priority dock 100 is outside the specified range [101-1000] and will be ignored."
    );
}

#[test]
fn warnings_of_a_run_come_in_the_order_of_the_work() {
    let args = Args {
        first_priority: vec![vec![100, 3], vec![100]],
        second_priority: vec![vec![0], vec![4, 0]],
        exception_groups_raw: vec![vec![7, 200, 6], vec![6, 300, 7, 8]],
        per_page: 3,
        first_priority_per_page: None,
        second_priority_per_page: None,
        min: 1,
        max: 9,
        strict_first: false,
        strict_second: false,
        print_marker: false,
    };
    let result = process_docks(&args);
    assert_eq!(
        result.warning_messages(),
        vec![
            "Warning: Exception dock 200 is outside the specified range [1-9] and will be ignored.",
            "Warning: Exception dock 300 is outside the specified range [1-9] and will be ignored.",
            "Warning: Dock 6 in exception group already part of another exception group. Ignoring.",
            "Warning: Dock 7 in exception group already part of another exception group. Ignoring.",
            "Warning: First priority dock 100 is outside the specified range [1-9] and will be ignored.",
            "Warning: Second priority dock 0 is outside the specified range [1-9] and will be ignored.",
        ]
    );
    assert_eq!(result.final_exception_groups, vec![vec![6, 7], vec![8]]);
    assert_eq!(
        result.result_groups,
        vec![vec![1, 2], vec![3, 4, 5], vec![6, 7], vec![8], vec![9]]
    );
}
