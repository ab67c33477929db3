//! The engine: resolves the exception groups, classifies the docks and
//! partitions the range.

use crate::classify::{classification_warnings, classify_priorities, priority_map, Classification};
use crate::cli::Args;
use crate::exceptions::{resolve_exception_groups, Resolution};
use crate::resolution::{
    exception_docks, is_resolution, lemma_resolution_unique, resolution_warnings,
};
use crate::lists::{flatten, views};
use crate::models::Priority;
use crate::partition::partition_docks;
use crate::plan::{GroupingRules, Plan};
use crate::text::texts;
use crate::warnings::Warning;
use std::collections::{HashMap, HashSet};
use vstd::prelude::*;

verus! {

/// What one run hands to the presentation.
pub struct ProcessingResult {
    /// The ordered list of result groups.
    pub result_groups: Vec<Vec<u32>>,
    /// The priority map; a dock without an entry counts as `Third`.
    pub priorities: HashMap<u32, Priority>,
    /// The exception-dock set.
    pub all_exception_docks: HashSet<u32>,
    /// Capacity of a group seeded by a `First` dock.
    pub fpp: u16,
    /// Capacity of a group seeded by a `Second` dock.
    pub spp: u16,
    /// Capacity of a group seeded by a `Third` dock.
    pub gpp: u16,
    /// The canonical exception groups.
    pub final_exception_groups: Vec<Vec<u32>>,
    /// The warnings for input that was dropped, in the order in which they
    /// were raised.
    pub warnings: Vec<Warning>,
}

impl Args {
    /// The raw exception groups.
    pub open spec fn raw_groups(&self) -> Seq<Seq<u32>> {
        views(&self.exception_groups_raw)
    }

    /// The first-priority docks as one list.
    pub open spec fn first_docks(&self) -> Seq<u32> {
        views(&self.first_priority).flatten()
    }

    /// The second-priority docks as one list.
    pub open spec fn second_docks(&self) -> Seq<u32> {
        views(&self.second_priority).flatten()
    }

    /// The exception-dock set of these settings.
    pub open spec fn exception_docks(&self) -> Set<u32> {
        exception_docks(self.raw_groups(), self.min, self.max)
    }

    /// The priority map of these settings.
    pub open spec fn priority_map(&self) -> Map<u32, Priority> {
        priority_map(
            self.first_docks(),
            self.second_docks(),
            self.exception_docks(),
            self.min,
            self.max,
        )
    }

    /// The grouping rules of these settings: a capacity that was not given is
    /// the general capacity.
    pub open spec fn rules(&self) -> GroupingRules {
        GroupingRules {
            fpp: match self.first_priority_per_page {
                Some(n) => n,
                None => self.per_page,
            },
            spp: match self.second_priority_per_page {
                Some(n) => n,
                None => self.per_page,
            },
            gpp: self.per_page,
            strict_first: self.strict_first,
            strict_second: self.strict_second,
        }
    }

    /// The partitioning plan of these settings, given the canonical exception
    /// groups.
    pub open spec fn plan(&self, groups: Seq<Seq<u32>>) -> Plan {
        Plan {
            min: self.min,
            max: self.max,
            groups,
            priorities: self.priority_map(),
            rules: self.rules(),
        }
    }

    /// The warnings of these settings: those of the resolver, then those of
    /// the classifier.
    pub open spec fn warnings(&self) -> Seq<Warning> {
        resolution_warnings(
            self.raw_groups(),
            self.min,
            self.max,
            self.raw_groups().len() as int,
        ) + classification_warnings(self.first_docks(), self.second_docks(), self.min, self.max)
    }
}

impl ProcessingResult {
    /// The result is what the settings `args` ask for:
    /// - the capacities are those of the settings;
    /// - the exception-dock set holds the docks in range that a raw group lists;
    /// - the canonical exception groups are the resolution of the raw groups;
    /// - the priority map is that of the settings;
    /// - the result groups are the partition of the range;
    /// - the warnings are those of the settings.
    pub open spec fn is_outcome_of(&self, args: &Args) -> bool {
        &&& self.fpp == args.rules().fpp
        &&& self.spp == args.rules().spp
        &&& self.gpp == args.rules().gpp
        &&& self.all_exception_docks@ == args.exception_docks()
        &&& is_resolution(
            args.raw_groups(),
            args.min,
            args.max,
            views(&self.final_exception_groups),
        )
        &&& self.priorities@ == args.priority_map()
        &&& views(&self.result_groups) == args.plan(
            views(&self.final_exception_groups),
        ).partition()
        &&& self.warnings@ == args.warnings()
    }
}

impl ProcessingResult {
    /// Writes the texts of the warnings, in the order in which the warnings
    /// were raised.
    pub fn warning_messages(&self) -> (messages: Vec<String>)
        ensures
            texts(&messages) == self.warnings@.map_values(|w: Warning| w.text()),
    {
        let mut messages: Vec<String> = Vec::new();
        let mut i: usize = 0;
        while i < self.warnings.len()
            invariant
                i <= self.warnings@.len(),
                texts(&messages) == self.warnings@.take(i as int).map_values(
                    |w: Warning| w.text(),
                ),
            decreases self.warnings@.len() - i,
        {
            let ghost before = texts(&messages);
            messages.push(self.warnings[i].message());
            proof {
                let w = self.warnings@[i as int];
                assert(texts(&messages) =~= before.push(w.text()));
                assert(texts(&messages) =~= self.warnings@.take(i + 1).map_values(
                    |w: Warning| w.text(),
                ));
            }
            i += 1;
        }
        assert(self.warnings@.take(i as int) =~= self.warnings@);
        messages
    }
}

/// Assigns every dock of the range to exactly one result group.
///
/// The settings must be valid: `validate_input` accepts them. The exception
/// groups are resolved first, then the docks are classified, then the range
/// is partitioned. Input that is dropped on the way is told in the warnings
/// and never stops the work. The result groups cover the range exactly, keep
/// every exception group whole, and the regular groups among them respect
/// priority order, capacity and strictness.
pub fn process_docks(args: &Args) -> (r: ProcessingResult)
    requires
        args.is_valid(),
    ensures
        r.is_outcome_of(args),
        args.plan(views(&r.final_exception_groups)).wf(),
        args.plan(views(&r.final_exception_groups)).sound(views(&r.result_groups)),
{
    let fpp = match args.first_priority_per_page {
        Some(n) => n,
        None => args.per_page,
    };
    let spp = match args.second_priority_per_page {
        Some(n) => n,
        None => args.per_page,
    };
    let gpp = args.per_page;
    let first = flatten(&args.first_priority);
    let second = flatten(&args.second_priority);
    let Resolution { groups, docks, warnings } = resolve_exception_groups(
        &args.exception_groups_raw,
        args.min,
        args.max,
    );
    let Classification { priorities, warnings: more } = classify_priorities(
        &first,
        &second,
        &docks,
        args.min,
        args.max,
    );
    let mut warnings = warnings;
    let mut more = more;
    warnings.append(&mut more);
    let rules = GroupingRules {
        fpp,
        spp,
        gpp,
        strict_first: args.strict_first,
        strict_second: args.strict_second,
    };
    let ghost plan = args.plan(views(&groups));
    assert(docks@ =~= plan.members());
    let result_groups = partition_docks(args.min, args.max, &groups, &docks, &priorities, &rules);
    ProcessingResult {
        result_groups,
        priorities,
        all_exception_docks: docks,
        fpp,
        spp,
        gpp,
        final_exception_groups: groups,
        warnings,
    }
}

/// The settings fix the result: two results that are what the same settings
/// ask for hold the same result groups in the same order, the same canonical
/// exception groups, the same exception docks, the same priority map, the same
/// capacities and the same warnings.
pub proof fn lemma_outcome_unique(args: &Args, one: &ProcessingResult, other: &ProcessingResult)
    requires
        one.is_outcome_of(args),
        other.is_outcome_of(args),
    ensures
        views(&one.result_groups) == views(&other.result_groups),
        views(&one.final_exception_groups) == views(&other.final_exception_groups),
        one.all_exception_docks@ == other.all_exception_docks@,
        one.priorities@ == other.priorities@,
        one.fpp == other.fpp,
        one.spp == other.spp,
        one.gpp == other.gpp,
        one.warnings@ == other.warnings@,
{
    lemma_resolution_unique(
        args.raw_groups(),
        args.min,
        args.max,
        views(&one.final_exception_groups),
        views(&other.final_exception_groups),
    );
}

} // verus!
