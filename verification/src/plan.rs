//! The plan of a partition: the range, the canonical exception groups, the
//! priority map and the grouping rules, with the list of result groups that
//! they determine and what holds of it.

use crate::resolution::{canonical, member_of};
use crate::models::Priority;
use vstd::prelude::*;

verus! {

/// Group capacities per priority class and the two strictness flags.
#[derive(Debug, Clone, Copy, PartialEq, Eq)]
pub struct GroupingRules {
    /// Capacity of a group seeded by a `First` dock.
    pub fpp: u16,
    /// Capacity of a group seeded by a `Second` dock.
    pub spp: u16,
    /// Capacity of a group seeded by a `Third` dock.
    pub gpp: u16,
    /// A group seeded by a `First` dock takes `First` docks only.
    pub strict_first: bool,
    /// A group seeded by a `Second` dock takes `Second` docks only.
    pub strict_second: bool,
}

impl GroupingRules {
    /// The capacity of a regular group whose seed has priority `p`.
    pub open spec fn capacity(self, p: Priority) -> int {
        match p {
            Priority::First => self.fpp as int,
            Priority::Second => self.spp as int,
            Priority::Third => self.gpp as int,
        }
    }

    /// Every capacity is at least one.
    pub open spec fn positive(self) -> bool {
        self.fpp >= 1 && self.spp >= 1 && self.gpp >= 1
    }

    /// Looks up the capacity of a regular group whose seed has priority `p`.
    pub fn capacity_for(&self, p: Priority) -> (c: u16)
        ensures
            c == self.capacity(p),
    {
        match p {
            Priority::First => self.fpp,
            Priority::Second => self.spp,
            Priority::Third => self.gpp,
        }
    }
}

/// The priority of `d` under a priority map: that of its entry, and `Third`
/// for a dock without an entry.
pub open spec fn priority_or_third(priorities: Map<u32, Priority>, d: u32) -> Priority {
    if priorities.contains_key(d) {
        priorities[d]
    } else {
        Priority::Third
    }
}

/// What the partitioner works on, as plain mathematics: the range, the canonical
/// exception groups, the priority map and the grouping rules.
pub struct Plan {
    pub min: u32,
    pub max: u32,
    pub groups: Seq<Seq<u32>>,
    pub priorities: Map<u32, Priority>,
    pub rules: GroupingRules,
}

impl Plan {
    /// `d` belongs to one of the exception groups.
    pub open spec fn is_member(self, d: u32) -> bool {
        member_of(self.groups, d)
    }

    /// All members of all exception groups.
    pub open spec fn members(self) -> Set<u32> {
        Set::new(|d: u32| self.is_member(d))
    }

    /// `d` is the first (smallest) member of one of the exception groups.
    pub open spec fn starts_group(self, d: u32) -> bool {
        exists|j: int| self.starts_at(j, d)
    }

    /// Exception group `j` exists and begins with `d`.
    pub open spec fn starts_at(self, j: int, d: u32) -> bool {
        0 <= j < self.groups.len() && self.groups[j].len() > 0 && self.groups[j][0] == d
    }

    /// The exception group that begins with `d`.
    pub open spec fn group_at(self, d: u32) -> Seq<u32> {
        self.groups[choose|j: int| self.starts_at(j, d)]
    }

    /// The priority of `d`; a dock without an entry in the map is `Third`.
    pub open spec fn priority_of(self, d: u32) -> Priority {
        priority_or_third(self.priorities, d)
    }

    /// The capacity of a regular group seeded by `seed`.
    pub open spec fn capacity_of(self, seed: u32) -> int {
        self.rules.capacity(self.priority_of(seed))
    }

    /// Whether a regular group seeded by `seed` may take the candidate `c`,
    /// capacity aside: `c` is no exception member, is not more important than
    /// the seed, and is of the seed's class where that class is strict.
    ///
    /// A candidate lies beyond the seed, so the only groups that can have
    /// claimed it already are exception groups: membership covers that case.
    pub open spec fn admits(self, seed: u32, c: u32) -> bool {
        let lead = self.priority_of(seed);
        let next = self.priority_of(c);
        &&& !self.is_member(c)
        &&& !next.outranks(lead)
        &&& (lead == Priority::First && self.rules.strict_first ==> next == Priority::First)
        &&& (lead == Priority::Second && self.rules.strict_second ==> next == Priority::Second)
    }

    /// How many further docks a regular group seeded by `seed` takes once it
    /// holds the `have` docks `seed, seed + 1, ..`: it goes on while it is
    /// below capacity, the range is not used up and the next dock is admitted.
    pub open spec fn extra(self, seed: u32, have: nat) -> nat
        decreases self.max - seed - have + 1,
    {
        if have < self.capacity_of(seed) && seed + have <= self.max && self.admits(
            seed,
            (seed + have) as u32,
        ) {
            1 + self.extra(seed, have + 1)
        } else {
            0
        }
    }

    /// The size of the regular group seeded by `seed`.
    pub open spec fn run_len(self, seed: u32) -> nat {
        1 + self.extra(seed, 1)
    }

    /// The `n` consecutive docks from `seed` on.
    pub open spec fn run(seed: u32, n: nat) -> Seq<u32> {
        Seq::new(n, |i: int| (seed + i) as u32)
    }

    /// The number of docks from position `d` to the end of the range.
    pub open spec fn remaining(self, d: int) -> nat {
        if d <= self.max {
            (self.max - d + 1) as nat
        } else {
            0
        }
    }

    /// The groups that the scan puts out from position `d` on. At an exception
    /// member the scan puts out the member's group if `d` begins it and moves
    /// on by one; at any other dock it puts out the regular group seeded by `d`
    /// and moves on behind it.
    pub open spec fn groups_from(self, d: int) -> Seq<Seq<u32>>
        decreases self.remaining(d),
    {
        if d < self.min || d > self.max {
            Seq::empty()
        } else if self.is_member(d as u32) {
            if self.starts_group(d as u32) {
                seq![self.group_at(d as u32)] + self.groups_from(d + 1)
            } else {
                self.groups_from(d + 1)
            }
        } else {
            let n = self.run_len(d as u32);
            seq![Self::run(d as u32, n)] + self.groups_from(d + n)
        }
    }

    /// The ordered list of result groups for the whole range.
    pub open spec fn partition(self) -> Seq<Seq<u32>> {
        self.groups_from(self.min as int)
    }

    /// The plan is well formed: the range is not empty, the capacities are
    /// positive, and the exception groups are non-empty, ascending without
    /// repeats, inside the range, pairwise disjoint and ordered by their first
    /// member.
    pub open spec fn wf(self) -> bool {
        &&& self.min <= self.max
        &&& self.rules.positive()
        &&& canonical(self.groups, self.min, self.max)
    }

    /// The dock `d` stands somewhere in `out`.
    pub open spec fn occurs(out: Seq<Seq<u32>>, d: u32) -> bool {
        exists|k: int, i: int| 0 <= k < out.len() && 0 <= i < out[k].len() && out[k][i] == d
    }

    /// The group `g` is one of the groups of `out`.
    pub open spec fn appears(out: Seq<Seq<u32>>, g: Seq<u32>) -> bool {
        exists|k: int| 0 <= k < out.len() && out[k] == g
    }

    /// Every dock of the range stands in `out`.
    pub open spec fn covers(self, out: Seq<Seq<u32>>) -> bool {
        forall|d: u32| self.min <= d <= self.max ==> #[trigger] Self::occurs(out, d)
    }

    /// Every dock in `out` is a dock of the range.
    pub open spec fn confined(self, out: Seq<Seq<u32>>) -> bool {
        forall|k: int, i: int|
            0 <= k < out.len() && 0 <= i < out[k].len() ==> self.min <= #[trigger] out[k][i]
                <= self.max
    }

    /// No dock stands at two places of `out`.
    pub open spec fn exclusive(out: Seq<Seq<u32>>) -> bool {
        forall|k: int, i: int, l: int, j: int|
            0 <= k < out.len() && 0 <= i < out[k].len() && 0 <= l < out.len() && 0 <= j
                < out[l].len() && #[trigger] out[k][i] == #[trigger] out[l][j] ==> k == l && i
                == j
    }

    /// `g` is one of the exception groups.
    pub open spec fn is_exception_group(self, g: Seq<u32>) -> bool {
        exists|j: int| 0 <= j < self.groups.len() && self.groups[j] == g
    }

    /// `g` is a regular group: a result group that is not seeded by an
    /// exception member.
    pub open spec fn is_regular(self, g: Seq<u32>) -> bool {
        g.len() > 0 && !self.is_member(g[0])
    }

    /// No member of `g` is more important than the seed of `g`.
    pub open spec fn keeps_rank(self, g: Seq<u32>) -> bool {
        forall|i: int|
            0 <= i < g.len() ==> !self.priority_of(#[trigger] g[i]).outranks(
                self.priority_of(g[0]),
            )
    }

    /// `g` holds no more docks than the capacity of its seed's class.
    pub open spec fn within_capacity(self, g: Seq<u32>) -> bool {
        g.len() <= self.capacity_of(g[0])
    }

    /// Where the class of the seed of `g` is strict, every member of `g` is
    /// of that class.
    pub open spec fn keeps_strictness(self, g: Seq<u32>) -> bool {
        &&& self.rules.strict_first && self.priority_of(g[0]) == Priority::First ==> forall|i: int|
            0 <= i < g.len() ==> self.priority_of(#[trigger] g[i]) == Priority::First
        &&& self.rules.strict_second && self.priority_of(g[0]) == Priority::Second ==> forall|
            i: int,
        |
            0 <= i < g.len() ==> self.priority_of(#[trigger] g[i]) == Priority::Second
    }

    /// `g` is a run of consecutive docks none of which is an exception member.
    pub open spec fn is_plain_run(self, g: Seq<u32>) -> bool {
        &&& forall|i: int| 0 <= i < g.len() ==> #[trigger] g[i] == g[0] + i
        &&& forall|i: int| 0 <= i < g.len() ==> !self.is_member(#[trigger] g[i])
    }

    /// `g` cannot take the dock behind its last: it is at capacity, or it ends
    /// where the range ends, or its seed does not admit that dock.
    pub open spec fn is_full(self, g: Seq<u32>) -> bool {
        ||| g.len() >= self.capacity_of(g[0])
        ||| g[0] + g.len() > self.max
        ||| !self.admits(g[0], (g[0] + g.len()) as u32)
    }

    /// What holds of a list of result groups `out` under this plan:
    /// - no group is empty, and the groups stand in ascending order of their
    ///   first members;
    /// - every dock of the range stands in `out`, nothing else does, and no
    ///   dock stands there twice;
    /// - every exception group is a group of `out`, as it stands;
    /// - a regular group is a run of consecutive docks without exception
    ///   members, holds no dock more important than its seed, stays within the
    ///   capacity of its seed's class, is of one class where that class is
    ///   strict, and cannot take the dock behind its last.
    pub open spec fn sound(self, out: Seq<Seq<u32>>) -> bool {
        &&& forall|k: int| 0 <= k < out.len() ==> (#[trigger] out[k]).len() > 0
        &&& forall|k: int, l: int|
            0 <= k < l < out.len() ==> (#[trigger] out[k])[0] < (#[trigger] out[l])[0]
        &&& self.covers(out)
        &&& self.confined(out)
        &&& Self::exclusive(out)
        &&& forall|j: int|
            0 <= j < self.groups.len() ==> Self::appears(out, #[trigger] self.groups[j])
        &&& forall|k: int|
            0 <= k < out.len() && self.is_regular(#[trigger] out[k]) ==> {
                &&& self.is_plain_run(out[k])
                &&& self.keeps_rank(out[k])
                &&& self.within_capacity(out[k])
                &&& self.keeps_strictness(out[k])
                &&& self.is_full(out[k])
            }
    }
}

} // verus!
