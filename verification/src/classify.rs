//! The priority classifier: gives every dock in range that is no exception
//! member and was named with a priority its class.

use crate::lists::lemma_take_next;
use crate::models::Priority;
use crate::warnings::Warning;
use std::collections::{HashMap, HashSet};
use vstd::prelude::*;

verus! {

broadcast use vstd::std_specs::hash::group_hash_axioms;

/// The priority map. It has an entry for every dock in range that is no
/// exception member and is among the first-priority or the second-priority
/// docks: `First` if it is among the first-priority docks, else `Second`.
/// A dock without an entry counts as `Third`.
pub open spec fn priority_map(
    first: Seq<u32>,
    second: Seq<u32>,
    exceptions: Set<u32>,
    min: u32,
    max: u32,
) -> Map<u32, Priority> {
    Map::new(
        |d: u32|
            min <= d <= max && !exceptions.contains(d) && (first.contains(d) || second.contains(
                d,
            )),
        |d: u32|
            if first.contains(d) {
                Priority::First
            } else {
                Priority::Second
            },
    )
}

/// The docks of `docks` that are out of range, each once, in the order in
/// which they first appear.
pub open spec fn strays(docks: Seq<u32>, min: u32, max: u32) -> Seq<u32>
    decreases docks.len(),
{
    if docks.len() == 0 {
        Seq::empty()
    } else if min <= docks.last() <= max || docks.drop_last().contains(docks.last()) {
        strays(docks.drop_last(), min, max)
    } else {
        strays(docks.drop_last(), min, max).push(docks.last())
    }
}

/// The warning for a first-priority dock out of range.
pub open spec fn stray_first(d: u32, min: u32, max: u32) -> Warning {
    Warning::FirstPriorityOutOfRange { dock: d, min, max }
}

/// The warning for a second-priority dock out of range.
pub open spec fn stray_second(d: u32, min: u32, max: u32) -> Warning {
    Warning::SecondPriorityOutOfRange { dock: d, min, max }
}

/// The warnings of the classifier: one for each first-priority dock out of
/// range, then one for each second-priority dock out of range, each in the
/// order in which the docks first appear.
pub open spec fn classification_warnings(
    first: Seq<u32>,
    second: Seq<u32>,
    min: u32,
    max: u32,
) -> Seq<Warning> {
    strays(first, min, max).map_values(|d: u32| stray_first(d, min, max)) + strays(
        second,
        min,
        max,
    ).map_values(|d: u32| stray_second(d, min, max))
}

/// What the classifier hands back.
pub struct Classification {
    /// The priority map.
    pub priorities: HashMap<u32, Priority>,
    /// The warnings for the docks that were dropped.
    pub warnings: Vec<Warning>,
}

/// Classifies the docks.
///
/// A dock that is among the exception docks gets no entry. A first-priority
/// dock in range is `First`. A second-priority dock in range is `Second`
/// unless it is `First` already. A first-priority or second-priority dock out
/// of range is dropped with one warning.
pub fn classify_priorities(
    first: &Vec<u32>,
    second: &Vec<u32>,
    exception_docks: &HashSet<u32>,
    min: u32,
    max: u32,
) -> (c: Classification)
    ensures
        c.priorities@ == priority_map(first@, second@, exception_docks@, min, max),
        c.warnings@ == classification_warnings(first@, second@, min, max),
{
    let mut priorities: HashMap<u32, Priority> = HashMap::new();
    let mut warnings: Vec<Warning> = Vec::new();
    let ghost none = Seq::<u32>::empty();
    let mut warned: HashSet<u32> = HashSet::new();
    let mut t: usize = 0;
    proof {
        assert(first@.take(0) =~= none);
        assert(priorities@ =~= priority_map(none, none, exception_docks@, min, max));
        assert(warnings@ =~= strays(none, min, max).map_values(|d: u32| stray_first(d, min, max)));
    }
    while t < first.len()
        invariant
            t <= first@.len(),
            none == Seq::<u32>::empty(),
            priorities@ == priority_map(first@.take(t as int), none, exception_docks@, min, max),
            forall|d: u32|
                warned@.contains(d) <==> first@.take(t as int).contains(d) && !(min <= d <= max),
            warnings@ == strays(first@.take(t as int), min, max).map_values(
                |d: u32| stray_first(d, min, max),
            ),
        decreases first@.len() - t,
    {
        let d = first[t];
        proof {
            lemma_take_next(first@, t as int);
        }
        if d >= min && d <= max {
            if !exception_docks.contains(&d) {
                priorities.insert(d, Priority::First);
            }
        } else if warned.insert(d) {
            warnings.push(Warning::FirstPriorityOutOfRange { dock: d, min, max });
        }
        proof {
            assert(priorities@ =~= priority_map(
                first@.take(t + 1),
                none,
                exception_docks@,
                min,
                max,
            ));
            assert(warnings@ =~= strays(first@.take(t + 1), min, max).map_values(
                |d: u32| stray_first(d, min, max),
            ));
        }
        t += 1;
    }
    assert(first@.take(t as int) =~= first@);
    let ghost first_warnings = warnings@;
    let mut warned: HashSet<u32> = HashSet::new();
    let mut t: usize = 0;
    proof {
        assert(second@.take(0) =~= none);
        assert(priorities@ =~= priority_map(first@, none, exception_docks@, min, max));
        assert(warnings@ =~= first_warnings + strays(none, min, max).map_values(
            |d: u32| stray_second(d, min, max),
        ));
    }
    while t < second.len()
        invariant
            t <= second@.len(),
            priorities@ == priority_map(first@, second@.take(t as int), exception_docks@, min, max),
            forall|d: u32|
                warned@.contains(d) <==> second@.take(t as int).contains(d) && !(min <= d <= max),
            first_warnings == strays(first@, min, max).map_values(
                |d: u32| stray_first(d, min, max),
            ),
            warnings@ == first_warnings + strays(second@.take(t as int), min, max).map_values(
                |d: u32| stray_second(d, min, max),
            ),
        decreases second@.len() - t,
    {
        let d = second[t];
        proof {
            lemma_take_next(second@, t as int);
        }
        if d >= min && d <= max {
            if !exception_docks.contains(&d) && !priorities.contains_key(&d) {
                priorities.insert(d, Priority::Second);
            }
        } else if warned.insert(d) {
            warnings.push(Warning::SecondPriorityOutOfRange { dock: d, min, max });
        }
        proof {
            assert(priorities@ =~= priority_map(
                first@,
                second@.take(t + 1),
                exception_docks@,
                min,
                max,
            ));
            assert(warnings@ =~= first_warnings + strays(second@.take(t + 1), min, max).map_values(
                |d: u32| stray_second(d, min, max),
            ));
        }
        t += 1;
    }
    assert(second@.take(t as int) =~= second@);
    Classification { priorities, warnings }
}

} // verus!
