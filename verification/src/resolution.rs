//! The canonical resolution of raw exception groups: what it is, which
//! warnings go with it, and what holds of it.

use crate::lists::{ascending, ascending_members, lemma_ascending_unique};
use crate::warnings::Warning;
use vstd::prelude::*;

verus! {

/// One of the raw groups before group `i` lists the dock `d`.
pub open spec fn listed_before(raw: Seq<Seq<u32>>, i: int, d: u32) -> bool {
    exists|j: int| 0 <= j < i && j < raw.len() && (#[trigger] raw[j]).contains(d)
}

/// Raw group `i` claims the dock `d`: the dock is in range, the group lists
/// it, and no earlier group does.
pub open spec fn claims(raw: Seq<Seq<u32>>, min: u32, max: u32, i: int, d: u32) -> bool {
    &&& 0 <= i < raw.len()
    &&& min <= d <= max
    &&& raw[i].contains(d)
    &&& !listed_before(raw, i, d)
}

/// Raw group `i` lists the dock `d`, which is in range, in vain: an earlier
/// group lists it too.
pub open spec fn repeats(raw: Seq<Seq<u32>>, min: u32, max: u32, i: int, d: u32) -> bool {
    &&& 0 <= i < raw.len()
    &&& min <= d <= max
    &&& raw[i].contains(d)
    &&& listed_before(raw, i, d)
}

/// The docks in range that the first `n` raw groups list.
pub open spec fn docks_listed(raw: Seq<Seq<u32>>, min: u32, max: u32, n: int) -> Set<u32> {
    Set::new(|d: u32| min <= d <= max && listed_before(raw, n, d))
}

/// The exception-dock set: every dock in range that some raw group lists.
pub open spec fn exception_docks(raw: Seq<Seq<u32>>, min: u32, max: u32) -> Set<u32> {
    docks_listed(raw, min, max, raw.len() as int)
}

/// `g` is the group that raw group `i` resolves to: the docks that it claims,
/// ascending and without repeats, and at least one of them.
pub open spec fn is_claim_list(
    raw: Seq<Seq<u32>>,
    min: u32,
    max: u32,
    i: int,
    g: Seq<u32>,
) -> bool {
    &&& g.len() > 0
    &&& ascending(g)
    &&& forall|d: u32| g.contains(d) <==> claims(raw, min, max, i, d)
}

/// `g` is what one of the first `n` raw groups resolves to.
pub open spec fn resolved_from(
    raw: Seq<Seq<u32>>,
    min: u32,
    max: u32,
    n: int,
    g: Seq<u32>,
) -> bool {
    exists|i: int| 0 <= i < n && is_claim_list(raw, min, max, i, g)
}

/// What raw group `i` resolves to is one of `groups`.
pub open spec fn resolved_in(
    raw: Seq<Seq<u32>>,
    min: u32,
    max: u32,
    i: int,
    groups: Seq<Seq<u32>>,
) -> bool {
    exists|k: int| 0 <= k < groups.len() && is_claim_list(raw, min, max, i, groups[k])
}

/// The groups stand in ascending order of their first members.
pub open spec fn ordered_by_first(groups: Seq<Seq<u32>>) -> bool {
    forall|a: int, b: int|
        0 <= a < b < groups.len() ==> (#[trigger] groups[a])[0] < (#[trigger] groups[b])[0]
}

/// The dock `d` belongs to one of `groups`.
pub open spec fn member_of(groups: Seq<Seq<u32>>, d: u32) -> bool {
    exists|j: int, a: int| 0 <= j < groups.len() && 0 <= a < groups[j].len() && groups[j][a] == d
}

/// `groups` has the form of canonical exception groups for the range
/// `min ..= max`: every group is non-empty, ascending without repeats and
/// inside the range, the groups are pairwise disjoint, and they stand in
/// ascending order of their first members.
pub open spec fn canonical(groups: Seq<Seq<u32>>, min: u32, max: u32) -> bool {
    &&& forall|j: int| 0 <= j < groups.len() ==> (#[trigger] groups[j]).len() > 0
    &&& forall|j: int, a: int, b: int|
        0 <= j < groups.len() && 0 <= a < b < groups[j].len() ==> #[trigger] groups[j][a]
            < #[trigger] groups[j][b]
    &&& forall|j: int, a: int|
        0 <= j < groups.len() && 0 <= a < groups[j].len() ==> min <= #[trigger] groups[j][a] <= max
    &&& ordered_by_first(groups)
    &&& forall|i: int, j: int, a: int, b: int|
        0 <= i < groups.len() && 0 <= j < groups.len() && 0 <= a < groups[i].len() && 0 <= b
            < groups[j].len() && #[trigger] groups[i][a] == #[trigger] groups[j][b] ==> i == j
}

/// `groups` is the canonical resolution of the raw groups: each of its groups
/// is what one raw group resolves to, every raw group that claims a dock is
/// resolved in it, and the groups stand in ascending order of their smallest
/// members.
pub open spec fn is_resolution(
    raw: Seq<Seq<u32>>,
    min: u32,
    max: u32,
    groups: Seq<Seq<u32>>,
) -> bool {
    &&& forall|k: int|
        0 <= k < groups.len() ==> resolved_from(
            raw,
            min,
            max,
            raw.len() as int,
            #[trigger] groups[k],
        )
    &&& forall|i: int, d: u32| #[trigger]
        claims(raw, min, max, i, d) ==> resolved_in(raw, min, max, i, groups)
    &&& ordered_by_first(groups)
}

/// The warnings for the docks of one raw group that are out of range, in the
/// order in which the group lists them, one for each listing.
pub open spec fn out_of_range_warnings(list: Seq<u32>, min: u32, max: u32) -> Seq<Warning>
    decreases list.len(),
{
    if list.len() == 0 {
        Seq::empty()
    } else if min <= list.last() <= max {
        out_of_range_warnings(list.drop_last(), min, max)
    } else {
        out_of_range_warnings(list.drop_last(), min, max).push(
            Warning::ExceptionOutOfRange { dock: list.last(), min, max },
        )
    }
}

/// The warning for a dock that an earlier group has.
pub open spec fn already_claimed(d: u32) -> Warning {
    Warning::AlreadyClaimed { dock: d }
}

/// The warnings for the docks that raw group `i` lists in vain, in ascending
/// order of the docks, one for each dock.
pub open spec fn repeat_warnings(raw: Seq<Seq<u32>>, min: u32, max: u32, i: int) -> Seq<Warning> {
    ascending_members(
        Set::new(|d: u32| repeats(raw, min, max, i, d)),
        min as int,
        max as int,
    ).map_values(|d: u32| already_claimed(d))
}

/// The warnings of the first `n` raw groups, group by group: for each group
/// first those for docks out of range, then those for docks listed in vain.
pub open spec fn resolution_warnings(raw: Seq<Seq<u32>>, min: u32, max: u32, n: int) -> Seq<
    Warning,
>
    decreases n,
{
    if n <= 0 {
        Seq::empty()
    } else {
        resolution_warnings(raw, min, max, n - 1) + out_of_range_warnings(raw[n - 1], min, max)
            + repeat_warnings(raw, min, max, n - 1)
    }
}

/// A dock in range that one of the first `n` raw groups lists is claimed by
/// one of them: by the first that lists it.
pub proof fn lemma_first_listing(raw: Seq<Seq<u32>>, min: u32, max: u32, n: int, d: u32) -> (i: int)
    requires
        min <= d <= max,
        listed_before(raw, n, d),
    ensures
        0 <= i < n,
        claims(raw, min, max, i, d),
    decreases n,
{
    let j = choose|j: int| 0 <= j < n && j < raw.len() && (#[trigger] raw[j]).contains(d);
    if listed_before(raw, j, d) {
        lemma_first_listing(raw, min, max, j, d)
    } else {
        j
    }
}

/// A dock is claimed by one raw group at most.
pub proof fn lemma_one_claim(raw: Seq<Seq<u32>>, min: u32, max: u32, i: int, j: int, d: u32)
    requires
        claims(raw, min, max, i, d),
        claims(raw, min, max, j, d),
    ensures
        i == j,
{
    if i < j {
        assert(0 <= i < j && i < raw.len() && raw[i].contains(d));
    } else if j < i {
        assert(0 <= j < i && j < raw.len() && raw[j].contains(d));
    }
}

/// A canonical resolution has the form of canonical exception groups, and its
/// members are the exception docks: resolved groups are pairwise disjoint and
/// every exception dock belongs to exactly one of them.
pub proof fn lemma_resolution_canonical(
    raw: Seq<Seq<u32>>,
    min: u32,
    max: u32,
    groups: Seq<Seq<u32>>,
)
    requires
        is_resolution(raw, min, max, groups),
    ensures
        canonical(groups, min, max),
        forall|d: u32| member_of(groups, d) <==> exception_docks(raw, min, max).contains(d),
{
    let n = raw.len() as int;
    assert forall|j: int| 0 <= j < groups.len() implies (#[trigger] groups[j]).len() > 0 by {
        assert(resolved_from(raw, min, max, n, groups[j]));
    }
    assert forall|j: int, a: int, b: int|
        0 <= j < groups.len() && 0 <= a < b < groups[j].len() implies #[trigger] groups[j][a]
        < #[trigger] groups[j][b] by {
        assert(resolved_from(raw, min, max, n, groups[j]));
    }
    assert forall|j: int, a: int| 0 <= j < groups.len() && 0 <= a < groups[j].len() implies min
        <= #[trigger] groups[j][a] <= max by {
        assert(resolved_from(raw, min, max, n, groups[j]));
        assert(groups[j].contains(groups[j][a]));
    }
    assert forall|i: int, j: int, a: int, b: int|
        0 <= i < groups.len() && 0 <= j < groups.len() && 0 <= a < groups[i].len() && 0 <= b
            < groups[j].len() && #[trigger] groups[i][a] == #[trigger] groups[j][b] implies i
        == j by {
        let d = groups[i][a];
        assert(resolved_from(raw, min, max, n, groups[i]));
        assert(resolved_from(raw, min, max, n, groups[j]));
        let p = choose|p: int| 0 <= p < n && is_claim_list(raw, min, max, p, groups[i]);
        let q = choose|q: int| 0 <= q < n && is_claim_list(raw, min, max, q, groups[j]);
        assert(groups[i].contains(d));
        assert(groups[j].contains(d));
        lemma_one_claim(raw, min, max, p, q, d);
        lemma_ascending_unique(groups[i], groups[j]);
        if i < j {
            assert(groups[i][0] < groups[j][0]);
        } else if j < i {
            assert(groups[j][0] < groups[i][0]);
        }
    }
    assert forall|d: u32| member_of(groups, d) <==> exception_docks(raw, min, max).contains(
        d,
    ) by {
        if member_of(groups, d) {
            let (j, a) = choose|j: int, a: int|
                0 <= j < groups.len() && 0 <= a < groups[j].len() && groups[j][a] == d;
            assert(resolved_from(raw, min, max, n, groups[j]));
            let p = choose|p: int| 0 <= p < n && is_claim_list(raw, min, max, p, groups[j]);
            assert(groups[j].contains(d));
            assert(claims(raw, min, max, p, d));
            assert(0 <= p < n && p < raw.len() && raw[p].contains(d));
        }
        if exception_docks(raw, min, max).contains(d) {
            let p = lemma_first_listing(raw, min, max, n, d);
            assert(resolved_in(raw, min, max, p, groups));
            let k = choose|k: int|
                0 <= k < groups.len() && is_claim_list(raw, min, max, p, groups[k]);
            assert(groups[k].contains(d));
            let a = choose|a: int| 0 <= a < groups[k].len() && groups[k][a] == d;
            assert(groups[k][a] == d);
        }
    }
}

/// Every group of one canonical resolution is a group of any other.
proof fn lemma_resolution_shared(
    raw: Seq<Seq<u32>>,
    min: u32,
    max: u32,
    one: Seq<Seq<u32>>,
    other: Seq<Seq<u32>>,
    k: int,
) -> (l: int)
    requires
        is_resolution(raw, min, max, one),
        is_resolution(raw, min, max, other),
        0 <= k < one.len(),
    ensures
        0 <= l < other.len(),
        other[l] == one[k],
{
    assert(resolved_from(raw, min, max, raw.len() as int, one[k]));
    let p = choose|p: int| 0 <= p < raw.len() && is_claim_list(raw, min, max, p, one[k]);
    assert(one[k].contains(one[k][0]));
    assert(claims(raw, min, max, p, one[k][0]));
    assert(resolved_in(raw, min, max, p, other));
    let l = choose|l: int| 0 <= l < other.len() && is_claim_list(raw, min, max, p, other[l]);
    lemma_ascending_unique(one[k], other[l]);
    l
}

/// Two canonical resolutions of the same raw groups agree on their first `n`
/// groups.
proof fn lemma_resolution_prefix(
    raw: Seq<Seq<u32>>,
    min: u32,
    max: u32,
    one: Seq<Seq<u32>>,
    other: Seq<Seq<u32>>,
    n: int,
)
    requires
        is_resolution(raw, min, max, one),
        is_resolution(raw, min, max, other),
        0 <= n <= one.len(),
    ensures
        n <= other.len(),
        forall|k: int| 0 <= k < n ==> one[k] == other[k],
    decreases n,
{
    if n > 0 {
        lemma_resolution_prefix(raw, min, max, one, other, n - 1);
        lemma_resolution_canonical(raw, min, max, one);
        lemma_resolution_canonical(raw, min, max, other);
        let k = n - 1;
        let l = lemma_resolution_shared(raw, min, max, one, other, k);
        if l < k {
            assert(one[l] == other[l]);
            assert(one[l][0] < one[k][0]);
        } else if l > k {
            let m = lemma_resolution_shared(raw, min, max, other, one, k);
            assert(other[k][0] < other[l][0]);
            if m < k {
                assert(one[m] == other[m]);
                assert(other[m][0] < other[k][0]);
            } else if m > k {
                assert(one[k][0] < one[m][0]);
            }
        }
    }
}

/// The raw groups have one canonical resolution only.
pub proof fn lemma_resolution_unique(
    raw: Seq<Seq<u32>>,
    min: u32,
    max: u32,
    one: Seq<Seq<u32>>,
    other: Seq<Seq<u32>>,
)
    requires
        is_resolution(raw, min, max, one),
        is_resolution(raw, min, max, other),
    ensures
        one == other,
{
    lemma_resolution_prefix(raw, min, max, one, other, one.len() as int);
    lemma_resolution_prefix(raw, min, max, other, one, other.len() as int);
    assert(one =~= other);
}

} // verus!
