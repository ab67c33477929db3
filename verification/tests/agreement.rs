use dock_order::cli::Args;
use dock_order::models::Priority;
use dock_order::processor::process_docks;
use std::collections::{HashMap, HashSet};

struct Dice(u64);

impl Dice {
    fn roll(&mut self) -> u64 {
        self.0 = self.0.wrapping_mul(6364136223846793005).wrapping_add(1442695040888963407);
        self.0 >> 33
    }

    fn below(&mut self, n: u64) -> u64 {
        self.roll() % n
    }

    fn docks(&mut self, lists: u64, length: u64, low: u32, span: u64) -> Vec<Vec<u32>> {
        let mut all = Vec::new();
        for _ in 0..self.below(lists + 1) {
            let mut list = Vec::new();
            for _ in 0..self.below(length + 1) {
                list.push(low.wrapping_add(self.below(span) as u32));
            }
            all.push(list);
        }
        all
    }

    fn settings(&mut self) -> Args {
        let min = 5 + self.below(4) as u32;
        let max = min + self.below(24) as u32;
        Args {
            first_priority: self.docks(3, 4, min - 3, 30),
            second_priority: self.docks(3, 4, min - 3, 30),
            exception_groups_raw: self.docks(4, 5, min - 3, 30),
            per_page: 1 + self.below(5) as u16,
            first_priority_per_page: if self.below(2) == 0 {
                None
            } else {
                Some(1 + self.below(4) as u16)
            },
            second_priority_per_page: if self.below(2) == 0 {
                None
            } else {
                Some(1 + self.below(4) as u16)
            },
            min,
            max,
            strict_first: self.below(2) == 0,
            strict_second: self.below(2) == 0,
            print_marker: false,
        }
    }
}

struct Outcome {
    groups: Vec<Vec<u32>>,
    priorities: HashMap<u32, Priority>,
    exception_docks: HashSet<u32>,
    exception_groups: Vec<Vec<u32>>,
    exception_warnings: Vec<String>,
    priority_warnings: HashSet<String>,
}

fn plain_scan(args: &Args) -> Outcome {
    let fpp = args.first_priority_per_page.unwrap_or(args.per_page);
    let spp = args.second_priority_per_page.unwrap_or(args.per_page);
    let gpp = args.per_page;
    let (min, max) = (args.min, args.max);
    let first: HashSet<u32> = args.first_priority.iter().flatten().copied().collect();
    let second: HashSet<u32> = args.second_priority.iter().flatten().copied().collect();

    let mut exception_groups: Vec<Vec<u32>> = Vec::new();
    let mut exception_docks: HashSet<u32> = HashSet::new();
    let mut exception_warnings: Vec<String> = Vec::new();
    for raw in &args.exception_groups_raw {
        let mut current: Vec<u32> = Vec::new();
        for d in raw {
            if min <= *d && *d <= max {
                current.push(*d);
            } else {
                exception_warnings.push(format!(
                    "Warning: Exception dock {d} is outside the specified range [{min}-{max}] and will be ignored."
                ));
            }
        }
        current.sort_unstable();
        current.dedup();
        let mut kept = Vec::new();
        for d in current {
            if exception_docks.insert(d) {
                kept.push(d);
            } else {
                exception_warnings.push(format!(
                    "Warning: Dock {d} in exception group already part of another exception group. Ignoring."
                ));
            }
        }
        if !kept.is_empty() {
            exception_groups.push(kept);
        }
    }
    exception_groups.sort_unstable_by_key(|g| g[0]);

    let mut priorities: HashMap<u32, Priority> = HashMap::new();
    let mut priority_warnings: HashSet<String> = HashSet::new();
    for d in &first {
        if min <= *d && *d <= max {
            if !exception_docks.contains(d) {
                priorities.insert(*d, Priority::First);
            }
        } else {
            priority_warnings.insert(format!(
                "Warning: First priority dock {d} is outside the specified range [{min}-{max}] and will be ignored."
            ));
        }
    }
    for d in &second {
        if min <= *d && *d <= max {
            if !exception_docks.contains(d) {
                priorities.entry(*d).or_insert(Priority::Second);
            }
        } else {
            priority_warnings.insert(format!(
                "Warning: Second priority dock {d} is outside the specified range [{min}-{max}] and will be ignored."
            ));
        }
    }

    let range: Vec<u32> = (min..=max).collect();
    let mut groups: Vec<Vec<u32>> = Vec::new();
    let mut claimed: HashSet<u32> = HashSet::new();
    for (at, dock) in range.iter().enumerate() {
        if claimed.contains(dock) {
            continue;
        }
        if exception_docks.contains(dock) {
            if let Some(group) = exception_groups.iter().find(|g| g[0] == *dock) {
                claimed.extend(group.iter().copied());
                groups.push(group.clone());
            }
            continue;
        }
        let seed = *priorities.get(dock).unwrap_or(&Priority::Third);
        let capacity = match seed {
            Priority::First => fpp,
            Priority::Second => spp,
            Priority::Third => gpp,
        };
        let mut group = vec![*dock];
        claimed.insert(*dock);
        let mut next = at + 1;
        while group.len() < usize::from(capacity) && next < range.len() {
            let candidate = range[next];
            if claimed.contains(&candidate) || exception_docks.contains(&candidate) {
                break;
            }
            let class = *priorities.get(&candidate).unwrap_or(&Priority::Third);
            if class < seed
                || (seed == Priority::First && args.strict_first && class != Priority::First)
                || (seed == Priority::Second && args.strict_second && class != Priority::Second)
            {
                break;
            }
            group.push(candidate);
            claimed.insert(candidate);
            next += 1;
        }
        groups.push(group);
    }
    Outcome {
        groups,
        priorities,
        exception_docks,
        exception_groups,
        exception_warnings,
        priority_warnings,
    }
}

#[test]
fn engine_agrees_with_the_scan_that_keeps_a_claimed_set() {
    let mut dice = Dice(2024);
    for round in 0..4000 {
        let args = dice.settings();
        assert_eq!(args.validate_input(), Ok(()));
        let result = process_docks(&args);
        let expected = plain_scan(&args);
        assert_eq!(result.result_groups, expected.groups, "round {round}: {args:?}");
        assert_eq!(result.final_exception_groups, expected.exception_groups, "round {round}");
        assert_eq!(result.all_exception_docks, expected.exception_docks, "round {round}");
        assert_eq!(result.priorities, expected.priorities, "round {round}");
        let messages = result.warning_messages();
        let split = expected.exception_warnings.len();
        assert!(messages.len() >= split, "round {round}");
        assert_eq!(messages[..split].to_vec(), expected.exception_warnings, "round {round}");
        let rest: HashSet<String> = messages[split..].iter().cloned().collect();
        assert_eq!(rest.len(), messages.len() - split, "round {round}");
        assert_eq!(rest, expected.priority_warnings, "round {round}");
    }
}

#[test]
fn every_result_covers_its_range_once() {
    let mut dice = Dice(7);
    for round in 0..2000 {
        let args = dice.settings();
        let result = process_docks(&args);
        let mut all: Vec<u32> = result.result_groups.iter().flatten().copied().collect();
        all.sort_unstable();
        let range: Vec<u32> = (args.min..=args.max).collect();
        assert_eq!(all, range, "round {round}: {args:?}");
        for group in &result.final_exception_groups {
            let times = result.result_groups.iter().filter(|g| *g == group).count();
            assert_eq!(times, 1, "round {round}");
        }
    }
}
