use dock_order::cli::Args;
use dock_order::models::Priority;
use dock_order::partition::{partition_docks, priority_in};
use dock_order::plan::GroupingRules;
use dock_order::processor::{process_docks, ProcessingResult};
use std::collections::{HashMap, HashSet};

fn settings(min: u32, max: u32, per_page: u16) -> Args {
    Args {
        first_priority: Vec::new(),
        second_priority: Vec::new(),
        exception_groups_raw: Vec::new(),
        per_page,
        first_priority_per_page: None,
        second_priority_per_page: None,
        min,
        max,
        strict_first: false,
        strict_second: false,
        print_marker: false,
    }
}

fn busy_settings() -> Args {
    let mut args = settings(51, 78, 4);
    args.first_priority = vec![vec![65, 66], vec![71], vec![56], vec![62]];
    args.second_priority = vec![vec![53, 54, 55], vec![66, 67], vec![77]];
    args.exception_groups_raw = vec![vec![70, 60, 70, 90], vec![58, 59, 60], vec![78], vec![40]];
    args.first_priority_per_page = Some(2);
    args.second_priority_per_page = Some(3);
    args
}

fn priority_of(result: &ProcessingResult, dock: u32) -> Priority {
    priority_in(&result.priorities, dock)
}

fn is_regular(result: &ProcessingResult, group: &Vec<u32>) -> bool {
    !result.all_exception_docks.contains(&group[0])
}

#[test]
fn plain_range_is_cut_into_chunks() {
    let result = process_docks(&settings(1, 5, 2));
    assert_eq!(result.result_groups, vec![vec![1, 2], vec![3, 4], vec![5]]);
    assert!(result.final_exception_groups.is_empty());
    assert!(result.all_exception_docks.is_empty());
    assert!(result.priorities.is_empty());
    assert!(result.warnings.is_empty());
    assert_eq!((result.fpp, result.spp, result.gpp), (2, 2, 2));
}

#[test]
fn first_priority_dock_starts_its_own_group() {
    let mut args = settings(1, 5, 2);
    args.first_priority = vec![vec![3]];
    args.first_priority_per_page = Some(1);
    let result = process_docks(&args);
    assert_eq!(result.result_groups, vec![vec![1, 2], vec![3], vec![4, 5]]);
    assert_eq!(result.priorities.get(&3), Some(&Priority::First));
    assert_eq!(result.priorities.len(), 1);
    assert_eq!((result.fpp, result.spp, result.gpp), (1, 2, 2));
}

#[test]
fn exception_group_goes_out_at_its_smallest_member() {
    let mut args = settings(1, 6, 3);
    args.exception_groups_raw = vec![vec![2, 4]];
    let result = process_docks(&args);
    assert_eq!(result.result_groups, vec![vec![1], vec![2, 4], vec![3], vec![5, 6]]);
    assert_eq!(result.final_exception_groups, vec![vec![2, 4]]);
    assert!(result.all_exception_docks.contains(&2));
    assert!(result.all_exception_docks.contains(&4));
    assert_eq!(result.all_exception_docks.len(), 2);
}

#[test]
fn dock_of_two_exception_groups_stays_in_the_first() {
    let mut args = settings(1, 5, 2);
    args.exception_groups_raw = vec![vec![1, 2], vec![2, 3]];
    let result = process_docks(&args);
    assert_eq!(result.final_exception_groups, vec![vec![1, 2], vec![3]]);
    assert_eq!(result.warnings.len(), 1);
    assert_eq!(
        result.warnings[0].message(),
        "Warning: Dock 2 in exception group already part of another exception group. Ignoring."
    );
    assert_eq!(
        result.warning_messages(),
        vec!["Warning: Dock 2 in exception group already part of another exception group. Ignoring."
            .to_string()]
    );
    assert_eq!(result.result_groups, vec![vec![1, 2], vec![3], vec![4, 5]]);
}

#[test]
fn single_dock_range_gives_one_group() {
    let mut args = settings(10, 10, 4);
    args.first_priority = vec![vec![10, 11]];
    args.second_priority = vec![vec![9]];
    let result = process_docks(&args);
    assert_eq!(result.result_groups, vec![vec![10]]);
    let mut args = settings(10, 10, 4);
    args.exception_groups_raw = vec![vec![10, 12], vec![3]];
    let result = process_docks(&args);
    assert_eq!(result.result_groups, vec![vec![10]]);
    assert_eq!(result.final_exception_groups, vec![vec![10]]);
    let result = process_docks(&settings(10, 10, 1));
    assert_eq!(result.result_groups, vec![vec![10]]);
}

#[test]
fn range_of_exception_groups_only() {
    let mut args = settings(1, 6, 2);
    args.exception_groups_raw = vec![vec![5, 3], vec![1, 2, 6], vec![4]];
    let result = process_docks(&args);
    assert_eq!(result.final_exception_groups, vec![vec![1, 2, 6], vec![3, 5], vec![4]]);
    assert_eq!(result.result_groups, vec![vec![1, 2, 6], vec![3, 5], vec![4]]);
}

#[test]
fn every_dock_lands_in_exactly_one_group() {
    let args = busy_settings();
    let result = process_docks(&args);
    let mut all: Vec<u32> = Vec::new();
    for group in &result.result_groups {
        assert!(!group.is_empty());
        all.extend(group.iter().copied());
    }
    all.sort_unstable();
    let range: Vec<u32> = (51..=78).collect();
    assert_eq!(all, range);
}

#[test]
fn busy_settings_give_the_expected_groups() {
    let result = process_docks(&busy_settings());
    assert_eq!(result.final_exception_groups, vec![vec![58, 59], vec![60, 70], vec![78]]);
    assert_eq!(
        result.result_groups,
        vec![
            vec![51, 52],
            vec![53, 54, 55],
            vec![56, 57],
            vec![58, 59],
            vec![60, 70],
            vec![61],
            vec![62, 63],
            vec![64],
            vec![65, 66],
            vec![67, 68, 69],
            vec![71, 72],
            vec![73, 74, 75, 76],
            vec![77],
            vec![78],
        ]
    );
}

#[test]
fn exception_groups_are_kept_whole() {
    let result = process_docks(&busy_settings());
    for group in &result.final_exception_groups {
        let times = result.result_groups.iter().filter(|g| *g == group).count();
        assert_eq!(times, 1);
    }
}

#[test]
fn no_member_outranks_the_seed() {
    let result = process_docks(&busy_settings());
    for group in &result.result_groups {
        if is_regular(&result, group) {
            let seed = priority_of(&result, group[0]);
            for dock in group {
                assert!(priority_of(&result, *dock) >= seed);
            }
        }
    }
    let mut args = settings(1, 6, 3);
    args.second_priority = vec![vec![2]];
    args.first_priority = vec![vec![4]];
    let result = process_docks(&args);
    assert_eq!(result.result_groups, vec![vec![1], vec![2, 3], vec![4, 5, 6]]);
}

#[test]
fn no_group_exceeds_its_capacity() {
    let result = process_docks(&busy_settings());
    for group in &result.result_groups {
        if is_regular(&result, group) {
            let capacity = match priority_of(&result, group[0]) {
                Priority::First => result.fpp,
                Priority::Second => result.spp,
                Priority::Third => result.gpp,
            };
            assert!(group.len() <= usize::from(capacity));
        }
    }
    let mut args = settings(1, 7, 3);
    args.first_priority = vec![vec![1, 2, 3]];
    args.first_priority_per_page = Some(2);
    let result = process_docks(&args);
    assert_eq!(result.result_groups, vec![vec![1, 2], vec![3, 4], vec![5, 6, 7]]);
}

#[test]
fn strict_first_groups_hold_first_docks_only() {
    let mut args = settings(1, 6, 3);
    args.first_priority = vec![vec![1, 2]];
    let loose = process_docks(&args);
    assert_eq!(loose.result_groups, vec![vec![1, 2, 3], vec![4, 5, 6]]);
    args.strict_first = true;
    let strict = process_docks(&args);
    assert_eq!(strict.result_groups, vec![vec![1, 2], vec![3, 4, 5], vec![6]]);
    for group in &strict.result_groups {
        if priority_of(&strict, group[0]) == Priority::First {
            assert!(group.iter().all(|d| priority_of(&strict, *d) == Priority::First));
        }
    }
}

#[test]
fn strict_second_groups_hold_second_docks_only() {
    let mut args = settings(1, 6, 3);
    args.second_priority = vec![vec![2, 3]];
    let loose = process_docks(&args);
    assert_eq!(loose.result_groups, vec![vec![1], vec![2, 3, 4], vec![5, 6]]);
    args.strict_second = true;
    let strict = process_docks(&args);
    assert_eq!(strict.result_groups, vec![vec![1], vec![2, 3], vec![4, 5, 6]]);
    args.strict_second = false;
    args.strict_first = true;
    let other = process_docks(&args);
    assert_eq!(other.result_groups, loose.result_groups);
}

#[test]
fn same_settings_give_the_same_result() {
    let one = process_docks(&busy_settings());
    let other = process_docks(&busy_settings());
    assert_eq!(one.result_groups, other.result_groups);
    assert_eq!(one.final_exception_groups, other.final_exception_groups);
    assert_eq!(one.all_exception_docks, other.all_exception_docks);
    assert_eq!(one.priorities, other.priorities);
    assert_eq!(one.warnings, other.warnings);
    assert_eq!((one.fpp, one.spp, one.gpp), (other.fpp, other.spp, other.gpp));
}

#[test]
fn regular_group_stops_before_an_exception_member() {
    let mut args = settings(1, 8, 4);
    args.exception_groups_raw = vec![vec![3, 7]];
    let result = process_docks(&args);
    assert_eq!(result.result_groups, vec![vec![1, 2], vec![3, 7], vec![4, 5, 6], vec![8]]);
}

#[test]
fn range_may_end_at_the_largest_number() {
    let top = u32::MAX;
    let mut args = settings(top - 4, top, 2);
    args.exception_groups_raw = vec![vec![top, top - 3]];
    let result = process_docks(&args);
    assert_eq!(
        result.result_groups,
        vec![vec![top - 4], vec![top - 3, top], vec![top - 2, top - 1]]
    );
    let result = process_docks(&settings(top - 2, top, 2));
    assert_eq!(result.result_groups, vec![vec![top - 2, top - 1], vec![top]]);
    let result = process_docks(&settings(0, 2, u16::MAX));
    assert_eq!(result.result_groups, vec![vec![0, 1, 2]]);
}

#[test]
fn partitioner_works_on_plain_values() {
    let groups = vec![vec![2, 5], vec![4]];
    let exception_docks: HashSet<u32> = [2, 4, 5].into_iter().collect();
    let mut priorities: HashMap<u32, Priority> = HashMap::new();
    priorities.insert(3, Priority::First);
    priorities.insert(6, Priority::Second);
    let rules = GroupingRules { fpp: 1, spp: 2, gpp: 3, strict_first: false, strict_second: true };
    assert_eq!(rules.capacity_for(Priority::First), 1);
    assert_eq!(rules.capacity_for(Priority::Second), 2);
    assert_eq!(rules.capacity_for(Priority::Third), 3);
    let out = partition_docks(1, 9, &groups, &exception_docks, &priorities, &rules);
    assert_eq!(
        out,
        vec![vec![1], vec![2, 5], vec![3], vec![4], vec![6], vec![7, 8, 9]]
    );
    assert_eq!(priority_in(&priorities, 3), Priority::First);
    assert_eq!(priority_in(&priorities, 6), Priority::Second);
    assert_eq!(priority_in(&priorities, 7), Priority::Third);
}

#[test]
fn priorities_are_ordered_by_importance() {
    assert!(Priority::First < Priority::Second);
    assert!(Priority::Second < Priority::Third);
    assert!(Priority::First.is_more_important_than(Priority::Second));
    assert!(Priority::First.is_more_important_than(Priority::Third));
    assert!(Priority::Second.is_more_important_than(Priority::Third));
    assert!(!Priority::Second.is_more_important_than(Priority::First));
    assert!(!Priority::Third.is_more_important_than(Priority::Third));
    assert!(!Priority::First.is_more_important_than(Priority::First));
}
