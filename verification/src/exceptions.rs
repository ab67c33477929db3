//! The exception group resolver: turns the raw exception groups into the
//! canonical ones, which are ascending, pairwise disjoint and ordered by their
//! smallest member.

use crate::lists::{
    ascending, insert_ascending, lemma_ascending_members, lemma_ascending_prefix,
    lemma_push_ascending, lemma_push_contains, lemma_take_next, views,
};
use crate::resolution::{
    already_claimed, canonical, claims, docks_listed, exception_docks, is_claim_list,
    is_resolution, lemma_resolution_canonical, listed_before, member_of, ordered_by_first,
    out_of_range_warnings, repeat_warnings, repeats, resolution_warnings, resolved_from,
    resolved_in,
};
use crate::warnings::Warning;
use std::collections::HashSet;
use vstd::prelude::*;

verus! {

broadcast use vstd::std_specs::hash::group_hash_axioms;

/// What the resolver hands back.
pub struct Resolution {
    /// The canonical exception groups.
    pub groups: Vec<Vec<u32>>,
    /// The exception-dock set: all members of all canonical groups.
    pub docks: HashSet<u32>,
    /// The warnings for the docks that were dropped.
    pub warnings: Vec<Warning>,
}

/// Gathers the docks of `list` that are in range into an ascending list
/// without repeats, and records a warning for each listing out of range.
fn in_range_ascending(
    list: &Vec<u32>,
    min: u32,
    max: u32,
    warnings: &mut Vec<Warning>,
) -> (current: Vec<u32>)
    ensures
        ascending(current@),
        forall|d: u32| current@.contains(d) <==> list@.contains(d) && min <= d <= max,
        final(warnings)@ == old(warnings)@ + out_of_range_warnings(list@, min, max),
{
    let mut current: Vec<u32> = Vec::new();
    let mut t: usize = 0;
    assert(list@.take(0) =~= Seq::<u32>::empty());
    assert(warnings@ =~= old(warnings)@ + out_of_range_warnings(list@.take(0), min, max));
    while t < list.len()
        invariant
            t <= list@.len(),
            ascending(current@),
            forall|d: u32|
                current@.contains(d) <==> list@.take(t as int).contains(d) && min <= d <= max,
            warnings@ == old(warnings)@ + out_of_range_warnings(list@.take(t as int), min, max),
        decreases list@.len() - t,
    {
        let d = list[t];
        proof {
            lemma_take_next(list@, t as int);
        }
        if d >= min && d <= max {
            insert_ascending(&mut current, d);
        } else {
            warnings.push(Warning::ExceptionOutOfRange { dock: d, min, max });
            assert(warnings@ =~= old(warnings)@ + out_of_range_warnings(
                list@.take(t + 1),
                min,
                max,
            ));
        }
        t += 1;
    }
    assert(list@.take(t as int) =~= list@);
    current
}

/// Claims the docks of the ascending list `current` that are not yet in
/// `claimed`, and records a warning for each that is. Returns the docks that
/// it claimed, ascending, and the docks that it found claimed, ascending too.
fn claim_unclaimed(
    current: &Vec<u32>,
    claimed: &mut HashSet<u32>,
    warnings: &mut Vec<Warning>,
) -> (out: (Vec<u32>, Ghost<Seq<u32>>))
    requires
        ascending(current@),
    ensures
        ascending(out.0@),
        forall|d: u32| out.0@.contains(d) <==> current@.contains(d) && !old(claimed)@.contains(d),
        ascending(out.1@),
        forall|d: u32| out.1@.contains(d) <==> current@.contains(d) && old(claimed)@.contains(d),
        forall|d: u32|
            final(claimed)@.contains(d) <==> old(claimed)@.contains(d) || current@.contains(d),
        final(warnings)@ == old(warnings)@ + out.1@.map_values(|d: u32| already_claimed(d)),
{
    let mut kept: Vec<u32> = Vec::new();
    let ghost mut vain: Seq<u32> = Seq::empty();
    let mut t: usize = 0;
    assert(current@.take(0) =~= Seq::<u32>::empty());
    assert(warnings@ =~= old(warnings)@ + vain.map_values(|d: u32| already_claimed(d)));
    while t < current.len()
        invariant
            t <= current@.len(),
            ascending(current@),
            ascending(kept@),
            ascending(vain),
            forall|d: u32|
                kept@.contains(d) <==> current@.take(t as int).contains(d) && !old(
                    claimed,
                )@.contains(d),
            forall|d: u32|
                vain.contains(d) <==> current@.take(t as int).contains(d) && old(claimed)@.contains(
                    d,
                ),
            forall|d: u32|
                claimed@.contains(d) <==> old(claimed)@.contains(d) || current@.take(
                    t as int,
                ).contains(d),
            warnings@ == old(warnings)@ + vain.map_values(|d: u32| already_claimed(d)),
        decreases current@.len() - t,
    {
        let d = current[t];
        proof {
            lemma_take_next(current@, t as int);
            lemma_ascending_prefix(current@, t as int);
        }
        let ghost seen = current@.take(t as int);
        let ghost next = current@.take(t + 1);
        let ghost kept_before = kept@;
        let ghost vain_before = vain;
        if !claimed.contains(&d) {
            proof {
                lemma_push_contains(kept@, d);
                lemma_push_ascending(kept@, d);
            }
            kept.push(d);
            claimed.insert(d);
            assert(kept@ == kept_before.push(d));
        } else {
            proof {
                lemma_push_contains(vain, d);
                lemma_push_ascending(vain, d);
                vain = vain.push(d);
            }
            warnings.push(Warning::AlreadyClaimed { dock: d });
            assert(warnings@ =~= old(warnings)@ + vain.map_values(|d: u32| already_claimed(d)));
        }
        proof {
            assert forall|x: u32| kept@.contains(x) <==> next.contains(x) && !old(
                claimed,
            )@.contains(x) by {
                assert(kept_before.contains(x) <==> seen.contains(x) && !old(claimed)@.contains(x));
            }
            assert forall|x: u32| vain.contains(x) <==> next.contains(x) && old(claimed)@.contains(
                x,
            ) by {
                assert(vain_before.contains(x) <==> seen.contains(x) && old(claimed)@.contains(x));
            }
        }
        t += 1;
    }
    assert(current@.take(t as int) =~= current@);
    (kept, Ghost(vain))
}

/// Puts `group` into `sorted` at its place in the order of first members.
fn insert_by_first(sorted: &mut Vec<Vec<u32>>, group: Vec<u32>)
    requires
        group@.len() > 0,
        forall|k: int| 0 <= k < old(sorted)@.len() ==> (#[trigger] old(sorted)@[k])@.len() > 0,
        forall|k: int|
            0 <= k < old(sorted)@.len() ==> (#[trigger] old(sorted)@[k])@[0] != group@[0],
        ordered_by_first(views(old(sorted))),
    ensures
        ordered_by_first(views(final(sorted))),
        forall|k: int| 0 <= k < final(sorted)@.len() ==> (#[trigger] final(sorted)@[k])@.len() > 0,
        forall|g: Seq<u32>|
            views(final(sorted)).contains(g) <==> views(old(sorted)).contains(g) || g == group@,
{
    let first = group[0];
    let mut p: usize = 0;
    while p < sorted.len() && sorted[p][0] < first
        invariant
            p <= sorted@.len(),
            sorted@ == old(sorted)@,
            forall|k: int| 0 <= k < sorted@.len() ==> (#[trigger] sorted@[k])@.len() > 0,
            forall|k: int| 0 <= k < p ==> (#[trigger] sorted@[k])@[0] < first,
        decreases sorted@.len() - p,
    {
        p += 1;
    }
    let ghost before = sorted@;
    let ghost lists_before = views(sorted);
    let ghost list = group@;
    sorted.insert(p, group);
    proof {
        before.insert_ensures(p as int, group);
        let after = views(sorted);
        assert forall|k: int| 0 <= k < after.len() implies #[trigger] after[k] == (if k < p {
            lists_before[k]
        } else if k == p {
            list
        } else {
            lists_before[k - 1]
        }) by {
            if k > p {
                assert(sorted@[(k - 1) + 1] == before[k - 1]);
            }
        }
        assert forall|a: int, b: int| 0 <= a < b < after.len() implies (#[trigger] after[a])[0] < (
        #[trigger] after[b])[0] by {
            let a0 = if a < p { a } else { a - 1 };
            let b0 = if b < p { b } else { b - 1 };
            if a != p && b != p {
                assert(lists_before[a0][0] < lists_before[b0][0]);
            } else if a == p {
                assert(after[b] == lists_before[b0]);
                assert(before[b0]@[0] != first);
                if p < b0 {
                    assert(lists_before[p as int][0] < lists_before[b0][0]);
                }
            } else {
                assert(after[a] == lists_before[a0]);
                assert(before[a0]@[0] < first);
            }
        }
        assert forall|k: int| 0 <= k < sorted@.len() implies (#[trigger] sorted@[k])@.len() > 0 by {
            assert(after[k].len() > 0);
        }
        assert forall|g: Seq<u32>| after.contains(g) <==> lists_before.contains(g) || g == list by {
            if after.contains(g) {
                let k = choose|k: int| 0 <= k < after.len() && after[k] == g;
                if k < p {
                    assert(lists_before[k] == g);
                } else if k > p {
                    assert(lists_before[k - 1] == g);
                }
            }
            if lists_before.contains(g) {
                let k = choose|k: int| 0 <= k < lists_before.len() && lists_before[k] == g;
                if k < p {
                    assert(after[k] == g);
                } else {
                    assert(after[k + 1] == g);
                }
            }
            if g == list {
                assert(after[p as int] == g);
            }
        }
    }
}

/// Sorts groups by their first members. The groups are not empty and no two
/// of them begin with the same dock.
fn sort_by_first(groups: Vec<Vec<u32>>) -> (sorted: Vec<Vec<u32>>)
    requires
        forall|k: int| 0 <= k < groups@.len() ==> (#[trigger] groups@[k])@.len() > 0,
        forall|a: int, b: int|
            0 <= a < b < groups@.len() ==> (#[trigger] groups@[a])@[0] != (
            #[trigger] groups@[b])@[0],
    ensures
        ordered_by_first(views(&sorted)),
        forall|g: Seq<u32>| views(&sorted).contains(g) <==> views(&groups).contains(g),
{
    let ghost all = views(&groups);
    let mut rest = groups;
    let mut sorted: Vec<Vec<u32>> = Vec::new();
    assert(views(&rest) =~= all.take(rest@.len() as int));
    while rest.len() > 0
        invariant
            rest@.len() <= all.len(),
            views(&rest) == all.take(rest@.len() as int),
            forall|k: int| 0 <= k < all.len() ==> (#[trigger] all[k]).len() > 0,
            forall|a: int, b: int|
                0 <= a < b < all.len() ==> (#[trigger] all[a])[0] != (#[trigger] all[b])[0],
            ordered_by_first(views(&sorted)),
            forall|k: int| 0 <= k < sorted@.len() ==> (#[trigger] sorted@[k])@.len() > 0,
            forall|g: Seq<u32>|
                views(&sorted).contains(g) <==> exists|k: int|
                    rest@.len() <= k < all.len() && all[k] == g,
        decreases rest@.len(),
    {
        let ghost n = rest@.len() - 1;
        let ghost lists_before = views(&rest);
        let ghost sorted_before = views(&sorted);
        let group = rest.pop().unwrap();
        proof {
            assert(group@ == lists_before[n]);
            assert(group@ == all[n]);
            assert(views(&rest) =~= all.take(n));
            assert forall|k: int| 0 <= k < sorted@.len() implies (#[trigger] sorted@[k])@[0]
                != group@[0] by {
                assert(sorted_before[k] == sorted@[k]@);
                assert(sorted_before.contains(sorted_before[k]));
                let m = choose|m: int| n + 1 <= m < all.len() && all[m] == sorted_before[k];
                assert(all[n][0] != all[m][0]);
            }
        }
        insert_by_first(&mut sorted, group);
        proof {
            assert forall|g: Seq<u32>| views(&sorted).contains(g) <==> exists|k: int|
                n <= k < all.len() && all[k] == g by {
                if sorted_before.contains(g) {
                    let m = choose|m: int| n + 1 <= m < all.len() && all[m] == g;
                    assert(n <= m < all.len() && all[m] == g);
                }
                if exists|k: int| n <= k < all.len() && all[k] == g {
                    let m = choose|m: int| n <= m < all.len() && all[m] == g;
                    if m > n {
                        assert(n + 1 <= m < all.len() && all[m] == g);
                    }
                }
            }
        }
    }
    proof {
        assert forall|g: Seq<u32>| views(&sorted).contains(g) <==> all.contains(g) by {
            if all.contains(g) {
                let m = choose|m: int| 0 <= m < all.len() && all[m] == g;
                assert(0 <= m < all.len() && all[m] == g);
            }
        }
    }
    sorted
}

/// Resolves the raw exception groups.
///
/// Each raw group is taken in the order of the input: its docks out of range
/// are dropped with a warning each, the rest is put in ascending order without
/// repeats, and of these every dock that an earlier group claimed is dropped
/// with a warning; what is left, if anything, is a finalized group. The
/// finalized groups are then put in ascending order of their smallest members.
pub fn resolve_exception_groups(raw: &Vec<Vec<u32>>, min: u32, max: u32) -> (r: Resolution)
    ensures
        is_resolution(views(raw), min, max, views(&r.groups)),
        canonical(views(&r.groups), min, max),
        r.docks@ == exception_docks(views(raw), min, max),
        forall|d: u32| r.docks@.contains(d) <==> member_of(views(&r.groups), d),
        r.warnings@ == resolution_warnings(views(raw), min, max, raw@.len() as int),
{
    let ghost lists = views(raw);
    let mut in_order: Vec<Vec<u32>> = Vec::new();
    let mut docks: HashSet<u32> = HashSet::new();
    let mut warnings: Vec<Warning> = Vec::new();
    let mut i: usize = 0;
    assert(docks@ =~= docks_listed(lists, min, max, 0));
    while i < raw.len()
        invariant
            i <= raw@.len(),
            lists == views(raw),
            docks@ == docks_listed(lists, min, max, i as int),
            warnings@ == resolution_warnings(lists, min, max, i as int),
            forall|k: int|
                0 <= k < in_order@.len() ==> resolved_from(
                    lists,
                    min,
                    max,
                    i as int,
                    (#[trigger] in_order@[k])@,
                ),
            forall|j: int, d: u32|
                0 <= j < i && #[trigger] claims(lists, min, max, j, d) ==> resolved_in(
                    lists,
                    min,
                    max,
                    j,
                    views(&in_order),
                ),
            forall|k: int|
                0 <= k < in_order@.len() ==> docks@.contains((#[trigger] in_order@[k])@[0]),
            forall|a: int, b: int|
                0 <= a < b < in_order@.len() ==> (#[trigger] in_order@[a])@[0] != (
                #[trigger] in_order@[b])@[0],
        decreases raw@.len() - i,
    {
        let ghost warned = warnings@;
        let ghost claimed = docks@;
        let ghost groups_before = in_order@;
        let ghost lists_before = views(&in_order);
        let current = in_range_ascending(&raw[i], min, max, &mut warnings);
        let (kept, vain) = claim_unclaimed(&current, &mut docks, &mut warnings);
        proof {
            assert(raw@[i as int]@ == lists[i as int]);
            assert forall|d: u32| kept@.contains(d) <==> claims(lists, min, max, i as int, d) by {
                assert(claimed.contains(d) <==> docks_listed(lists, min, max, i as int).contains(d));
                assert(current@.contains(d) <==> lists[i as int].contains(d) && min <= d <= max);
                assert(kept@.contains(d) <==> current@.contains(d) && !claimed.contains(d));
                assert(0 <= i < lists.len());
            }
            let in_vain = Set::new(|d: u32| repeats(lists, min, max, i as int, d));
            assert forall|d: u32| vain@.contains(d) <==> min <= d <= max && in_vain.contains(d) by {
                assert(claimed.contains(d) <==> docks_listed(lists, min, max, i as int).contains(d));
            }
            lemma_ascending_members(vain@, in_vain, min as int, max as int);
            assert(warnings@ =~= warned + out_of_range_warnings(lists[i as int], min, max)
                + repeat_warnings(lists, min, max, i as int));
            assert forall|d: u32| docks@.contains(d) <==> docks_listed(
                lists,
                min,
                max,
                i + 1,
            ).contains(d) by {
                assert(claimed.contains(d) <==> docks_listed(lists, min, max, i as int).contains(d));
                if claimed.contains(d) {
                    let j = choose|j: int|
                        0 <= j < i && j < lists.len() && (#[trigger] lists[j]).contains(d);
                    assert(0 <= j < i + 1 && lists[j].contains(d));
                }
                if current@.contains(d) {
                    assert(lists[i as int].contains(d));
                }
                if min <= d <= max && listed_before(lists, i + 1, d) {
                    let j = choose|j: int|
                        0 <= j < i + 1 && j < lists.len() && (#[trigger] lists[j]).contains(d);
                    if j < i {
                        assert(listed_before(lists, i as int, d));
                    }
                }
            }
            assert(docks@ =~= docks_listed(lists, min, max, i + 1));
            assert forall|k: int| 0 <= k < groups_before.len() implies resolved_from(
                lists,
                min,
                max,
                i + 1,
                (#[trigger] groups_before[k])@,
            ) by {
                let j = choose|j: int|
                    0 <= j < i && is_claim_list(lists, min, max, j, groups_before[k]@);
                assert(0 <= j < i + 1 && is_claim_list(lists, min, max, j, groups_before[k]@));
            }
        }
        if kept.len() > 0 {
            proof {
                assert(kept@.contains(kept@[0]));
                assert(!claimed.contains(kept@[0]));
            }
            in_order.push(kept);
            proof {
                let last = in_order@.len() - 1;
                assert(views(&in_order) =~= lists_before.push(in_order@[last]@));
                assert(is_claim_list(lists, min, max, i as int, in_order@[last]@));
                assert forall|k: int| 0 <= k < in_order@.len() implies resolved_from(
                    lists,
                    min,
                    max,
                    i + 1,
                    (#[trigger] in_order@[k])@,
                ) by {
                    if k < last {
                        assert(in_order@[k] == groups_before[k]);
                    }
                }
                assert forall|k: int| 0 <= k < in_order@.len() implies docks@.contains(
                    (#[trigger] in_order@[k])@[0],
                ) by {
                    if k < last {
                        assert(in_order@[k] == groups_before[k]);
                        assert(claimed.contains(groups_before[k]@[0]));
                    }
                }
                assert forall|a: int, b: int| 0 <= a < b < in_order@.len() implies (
                #[trigger] in_order@[a])@[0] != (#[trigger] in_order@[b])@[0] by {
                    assert(in_order@[a] == groups_before[a]);
                    if b < last {
                        assert(in_order@[b] == groups_before[b]);
                    } else {
                        assert(claimed.contains(groups_before[a]@[0]));
                    }
                }
            }
        }
        proof {
            let now = views(&in_order);
            assert forall|j: int, d: u32|
                0 <= j < i + 1 && #[trigger] claims(lists, min, max, j, d) implies resolved_in(
                lists,
                min,
                max,
                j,
                now,
            ) by {
                if j < i {
                    assert(resolved_in(lists, min, max, j, lists_before));
                    let k = choose|k: int|
                        0 <= k < lists_before.len() && is_claim_list(
                            lists,
                            min,
                            max,
                            j,
                            lists_before[k],
                        );
                    assert(now[k] == lists_before[k]);
                } else {
                    assert(kept@.contains(d));
                    assert(is_claim_list(lists, min, max, j, now[now.len() - 1]));
                }
            }
        }
        i += 1;
    }
    let ghost unsorted = views(&in_order);
    let ghost old_order = in_order@;
    proof {
        assert forall|k: int| 0 <= k < in_order@.len() implies (#[trigger] in_order@[k])@.len()
            > 0 by {
            assert(resolved_from(lists, min, max, i as int, in_order@[k]@));
        }
    }
    let groups = sort_by_first(in_order);
    proof {
        let sorted = views(&groups);
        assert forall|k: int| 0 <= k < sorted.len() implies resolved_from(
            lists,
            min,
            max,
            lists.len() as int,
            #[trigger] sorted[k],
        ) by {
            assert(sorted.contains(sorted[k]));
            let m = choose|m: int| 0 <= m < unsorted.len() && unsorted[m] == sorted[k];
            assert(resolved_from(lists, min, max, i as int, old_order[m]@));
        }
        assert forall|j: int, d: u32| #[trigger] claims(lists, min, max, j, d) implies resolved_in(
            lists,
            min,
            max,
            j,
            sorted,
        ) by {
            assert(resolved_in(lists, min, max, j, unsorted));
            let m = choose|m: int|
                0 <= m < unsorted.len() && is_claim_list(lists, min, max, j, unsorted[m]);
            assert(unsorted.contains(unsorted[m]));
            let k = choose|k: int| 0 <= k < sorted.len() && sorted[k] == unsorted[m];
            assert(is_claim_list(lists, min, max, j, sorted[k]));
        }
        lemma_resolution_canonical(lists, min, max, sorted);
    }
    Resolution { groups, docks, warnings }
}

} // verus!
