//! The sequential partitioner: one forward pass over the dock range that puts
//! out every exception group at its smallest member and gathers all other
//! docks into capacity-bounded regular groups.

use crate::lists::views;
use crate::models::Priority;
use crate::plan::{priority_or_third, GroupingRules, Plan};
use std::collections::{HashMap, HashSet};
use vstd::prelude::*;

verus! {

broadcast use vstd::std_specs::hash::group_hash_axioms;

/// Reads the priority of `d` from the map; a dock without an entry is `Third`.
pub fn priority_in(priorities: &HashMap<u32, Priority>, d: u32) -> (p: Priority)
    ensures
        p == priority_or_third(priorities@, d),
{
    match priorities.get(&d) {
        Some(p) => *p,
        None => Priority::Third,
    }
}

/// Finds the exception group that begins with `d`, if there is one.
fn find_group_start(groups: &Vec<Vec<u32>>, d: u32) -> (found: Option<usize>)
    ensures
        found matches Some(j) ==> j < groups.len() && groups[j as int]@.len() > 0
            && groups[j as int]@[0] == d,
        found is None ==> forall|j: int|
            0 <= j < groups.len() && groups[j]@.len() > 0 ==> groups[j]@[0] != d,
{
    let mut j: usize = 0;
    while j < groups.len()
        invariant
            j <= groups.len(),
            forall|i: int| 0 <= i < j && groups[i]@.len() > 0 ==> groups[i]@[0] != d,
        decreases groups.len() - j,
    {
        if groups[j].len() > 0 && groups[j][0] == d {
            return Some(j);
        }
        j += 1;
    }
    None
}

/// Decides whether a regular group whose seed has priority `lead` may take
/// the candidate `c`, capacity aside.
fn admits_candidate(
    plan: Ghost<Plan>,
    exception_docks: &HashSet<u32>,
    priorities: &HashMap<u32, Priority>,
    rules: &GroupingRules,
    seed: Ghost<u32>,
    lead: Priority,
    c: u32,
) -> (ok: bool)
    requires
        exception_docks@ == plan@.members(),
        priorities@ == plan@.priorities,
        *rules == plan@.rules,
        lead == plan@.priority_of(seed@),
    ensures
        ok == plan@.admits(seed@, c),
{
    if exception_docks.contains(&c) {
        return false;
    }
    let next = priority_in(priorities, c);
    if next.is_more_important_than(lead) {
        return false;
    }
    let breaks_first = rules.strict_first && lead == Priority::First && next != Priority::First;
    let breaks_second = rules.strict_second && lead == Priority::Second && next
        != Priority::Second;
    !breaks_first && !breaks_second
}

/// Builds the regular group seeded by `seed`: the seed, then the following
/// docks for as long as the group is below the capacity of the seed's class,
/// the range is not used up and the next dock is admitted.
fn build_regular_group(
    plan: Ghost<Plan>,
    max: u32,
    exception_docks: &HashSet<u32>,
    priorities: &HashMap<u32, Priority>,
    rules: &GroupingRules,
    seed: u32,
) -> (group: Vec<u32>)
    requires
        plan@.max == max,
        exception_docks@ == plan@.members(),
        priorities@ == plan@.priorities,
        *rules == plan@.rules,
        rules.positive(),
        seed <= max,
    ensures
        group@ == Plan::run(seed, plan@.run_len(seed)),
        group@.len() == plan@.run_len(seed),
        seed + group@.len() <= max + 1,
        group@.len() <= u16::MAX,
{
    let lead = priority_in(priorities, seed);
    let cap: usize = rules.capacity_for(lead) as usize;
    let mut group: Vec<u32> = Vec::new();
    group.push(seed);
    let mut next: u64 = seed as u64 + 1;
    assert(group@ =~= Plan::run(seed, 1));
    while group.len() < cap && next <= max as u64
        invariant
            plan@.max == max,
            exception_docks@ == plan@.members(),
            priorities@ == plan@.priorities,
            *rules == plan@.rules,
            lead == plan@.priority_of(seed),
            cap == plan@.capacity_of(seed),
            1 <= group@.len() <= cap,
            next == seed + group@.len(),
            next <= max + 1,
            group@ == Plan::run(seed, group@.len()),
            plan@.run_len(seed) == group@.len() + plan@.extra(seed, group@.len()),
        ensures
            group@ == Plan::run(seed, group@.len()),
            group@.len() == plan@.run_len(seed),
            seed + group@.len() <= max + 1,
            group@.len() <= cap,
        decreases max + 1 - next,
    {
        let c: u32 = next as u32;
        if !admits_candidate(plan, exception_docks, priorities, rules, Ghost(seed), lead, c) {
            break;
        }
        group.push(c);
        next += 1;
        assert(group@ =~= Plan::run(seed, group@.len()));
    }
    group
}

/// The plan that the partitioner works on.
pub open spec fn plan_of(
    min: u32,
    max: u32,
    groups: &Vec<Vec<u32>>,
    priorities: &HashMap<u32, Priority>,
    rules: &GroupingRules,
) -> Plan {
    Plan { min, max, groups: views(groups), priorities: priorities@, rules: *rules }
}

/// Partitions the range `min ..= max` into the ordered list of result groups.
///
/// The scan visits the docks in ascending order. At the first member of an
/// exception group it puts out that group as it stands; other exception
/// members are passed over, since their group went out at its first member.
/// At any other dock it puts out the regular group seeded by that dock and
/// goes on behind the group.
pub fn partition_docks(
    min: u32,
    max: u32,
    groups: &Vec<Vec<u32>>,
    exception_docks: &HashSet<u32>,
    priorities: &HashMap<u32, Priority>,
    rules: &GroupingRules,
) -> (out: Vec<Vec<u32>>)
    requires
        plan_of(min, max, groups, priorities, rules).wf(),
        exception_docks@ == plan_of(min, max, groups, priorities, rules).members(),
    ensures
        views(&out) == plan_of(min, max, groups, priorities, rules).partition(),
        plan_of(min, max, groups, priorities, rules).sound(views(&out)),
{
    let ghost plan = plan_of(min, max, groups, priorities, rules);
    proof {
        plan.lemma_partition_sound();
    }
    let mut out: Vec<Vec<u32>> = Vec::new();
    let mut pos: u64 = min as u64;
    assert(views(&out) + plan.groups_from(pos as int) =~= plan.partition());
    while pos <= max as u64
        invariant
            plan == plan_of(min, max, groups, priorities, rules),
            plan.wf(),
            exception_docks@ == plan.members(),
            min <= pos <= max + 1,
            views(&out) + plan.groups_from(pos as int) == plan.partition(),
        decreases max + 1 - pos,
    {
        let d: u32 = pos as u32;
        let ghost before = views(&out);
        if exception_docks.contains(&d) {
            match find_group_start(groups, d) {
                Some(j) => {
                    let group = groups[j].clone();
                    proof {
                        assert(plan.starts_at(j as int, d));
                        let k = choose|k: int| plan.starts_at(k, d);
                        assert(k == j as int) by {
                            if k < j as int {
                                assert(plan.groups[k][0] < plan.groups[j as int][0]);
                            } else if k > j as int {
                                assert(plan.groups[j as int][0] < plan.groups[k][0]);
                            }
                        }
                        assert(group@ =~= groups[j as int]@);
                        assert(group@ == plan.group_at(d));
                    }
                    out.push(group);
                    proof {
                        assert(views(&out) =~= before.push(plan.group_at(d)));
                        assert(before.push(plan.group_at(d)) + plan.groups_from(pos + 1)
                            =~= before + plan.groups_from(pos as int));
                    }
                },
                None => {
                    proof {
                        assert(!plan.starts_group(d)) by {
                            if plan.starts_group(d) {
                                let k = choose|k: int| plan.starts_at(k, d);
                                assert(groups[k]@ == plan.groups[k]);
                            }
                        }
                    }
                },
            }
            pos += 1;
        } else {
            let group = build_regular_group(
                Ghost(plan),
                max,
                exception_docks,
                priorities,
                rules,
                d,
            );
            let ghost n = plan.run_len(d);
            pos += group.len() as u64;
            out.push(group);
            proof {
                assert(views(&out) =~= before.push(Plan::run(d, n)));
                assert(before.push(Plan::run(d, n)) + plan.groups_from(d + n) =~= before
                    + plan.groups_from(d as int));
            }
        }
    }
    assert(plan.groups_from(pos as int) =~= Seq::<Seq<u32>>::empty());
    assert(views(&out) =~= views(&out) + plan.groups_from(pos as int));
    out
}

} // verus!
