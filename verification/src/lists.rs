//! Lists of dock numbers: views of nested lists, ascending lists and the
//! ascending list of the members of a set.

use vstd::prelude::*;

verus! {

/// The views of the lists in `lists`, in order.
pub open spec fn views(lists: &Vec<Vec<u32>>) -> Seq<Seq<u32>> {
    Seq::new(lists@.len(), |i: int| lists@[i]@)
}

/// `list` is strictly ascending: it is sorted and holds no dock twice.
pub open spec fn ascending(list: Seq<u32>) -> bool {
    forall|a: int, b: int| 0 <= a < b < list.len() ==> list[a] < list[b]
}

/// The docks of `set` that lie in `lo ..= hi`, in ascending order.
pub open spec fn ascending_members(set: Set<u32>, lo: int, hi: int) -> Seq<u32>
    decreases hi - lo + 1,
{
    if hi < lo {
        Seq::empty()
    } else if set.contains(hi as u32) {
        ascending_members(set, lo, hi - 1).push(hi as u32)
    } else {
        ascending_members(set, lo, hi - 1)
    }
}

/// `list` is the ascending list of the docks of `set` that lie in `lo ..= hi`.
pub open spec fn lists_members(list: Seq<u32>, set: Set<u32>, lo: int, hi: int) -> bool {
    &&& ascending(list)
    &&& forall|d: u32| list.contains(d) <==> lo <= d <= hi && set.contains(d)
}

/// An ascending list is fixed by the docks that it holds: the one that holds
/// the docks of `set` in `lo ..= hi` is `ascending_members(set, lo, hi)`.
pub proof fn lemma_ascending_members(list: Seq<u32>, set: Set<u32>, lo: int, hi: int)
    requires
        lists_members(list, set, lo, hi),
        0 <= lo,
        hi <= u32::MAX,
    ensures
        list == ascending_members(set, lo, hi),
    decreases hi - lo + 1,
{
    if hi < lo {
        if list.len() > 0 {
            assert(list.contains(list[0]));
        }
        assert(list =~= Seq::<u32>::empty());
    } else {
        let top = hi as u32;
        assert forall|i: int| 0 <= i < list.len() implies lo <= #[trigger] list[i] <= hi by {
            assert(list.contains(list[i]));
        }
        if set.contains(top) {
            assert(list.contains(top));
            let i = choose|i: int| 0 <= i < list.len() && list[i] == top;
            if i < list.len() - 1 {
                assert(list[i] < list[list.len() - 1]);
            }
            let below = list.drop_last();
            assert forall|d: u32| below.contains(d) <==> lo <= d <= hi - 1 && set.contains(d) by {
                if below.contains(d) {
                    let k = choose|k: int| 0 <= k < below.len() && below[k] == d;
                    assert(list[k] == d);
                    assert(list[k] < list[list.len() - 1]);
                    assert(list.contains(d));
                }
                if lo <= d <= hi - 1 && set.contains(d) {
                    assert(list.contains(d));
                    let k = choose|k: int| 0 <= k < list.len() && list[k] == d;
                    assert(below[k] == d);
                }
            }
            lemma_ascending_members(below, set, lo, hi - 1);
            assert(list =~= below.push(top));
        } else {
            assert forall|d: u32| list.contains(d) <==> lo <= d <= hi - 1 && set.contains(d) by {}
            lemma_ascending_members(list, set, lo, hi - 1);
        }
    }
}

/// Two ascending lists that hold the same docks are the same list.
pub proof fn lemma_ascending_unique(a: Seq<u32>, b: Seq<u32>)
    requires
        ascending(a),
        ascending(b),
        forall|d: u32| a.contains(d) <==> b.contains(d),
    ensures
        a == b,
{
    let held = Set::new(|d: u32| a.contains(d));
    lemma_ascending_members(a, held, 0, u32::MAX as int);
    lemma_ascending_members(b, held, 0, u32::MAX as int);
}

/// The first `t + 1` docks of a list hold what the first `t` hold and the
/// dock at index `t`.
pub proof fn lemma_take_next(list: Seq<u32>, t: int)
    requires
        0 <= t < list.len(),
    ensures
        list.take(t + 1).drop_last() == list.take(t),
        list.take(t + 1).last() == list[t],
        forall|x: u32| list.take(t + 1).contains(x) <==> list.take(t).contains(x) || x == list[t],
{
    let seen = list.take(t);
    let next = list.take(t + 1);
    assert(next.drop_last() =~= seen);
    assert forall|x: u32| next.contains(x) <==> seen.contains(x) || x == list[t] by {
        if next.contains(x) {
            let k = choose|k: int| 0 <= k < next.len() && next[k] == x;
            if k < t {
                assert(seen[k] == x);
            }
        }
        if seen.contains(x) {
            let k = choose|k: int| 0 <= k < seen.len() && seen[k] == x;
            assert(next[k] == x);
        }
        if x == list[t] {
            assert(next[t] == x);
        }
    }
}

/// A list with one more dock at its end holds what it held and that dock.
pub proof fn lemma_push_contains(list: Seq<u32>, d: u32)
    ensures
        forall|x: u32| list.push(d).contains(x) <==> list.contains(x) || x == d,
{
    let longer = list.push(d);
    assert forall|x: u32| longer.contains(x) <==> list.contains(x) || x == d by {
        if longer.contains(x) {
            let k = choose|k: int| 0 <= k < longer.len() && longer[k] == x;
            if k < list.len() {
                assert(list[k] == x);
            }
        }
        if list.contains(x) {
            let k = choose|k: int| 0 <= k < list.len() && list[k] == x;
            assert(longer[k] == x);
        }
        if x == d {
            assert(longer[list.len() as int] == x);
        }
    }
}

/// An ascending list stays ascending when a dock larger than all of its
/// docks is put at its end.
pub proof fn lemma_push_ascending(list: Seq<u32>, d: u32)
    requires
        ascending(list),
        forall|x: u32| list.contains(x) ==> x < d,
    ensures
        ascending(list.push(d)),
{
    let longer = list.push(d);
    assert forall|a: int, b: int| 0 <= a < b < longer.len() implies longer[a] < longer[b] by {
        assert(list.contains(list[a]));
        if b < list.len() {
            assert(list[a] < list[b]);
        }
    }
}

/// The docks of an ascending list before index `t` are smaller than the dock
/// at index `t`.
pub proof fn lemma_ascending_prefix(list: Seq<u32>, t: int)
    requires
        ascending(list),
        0 <= t < list.len(),
    ensures
        forall|x: u32| list.take(t).contains(x) ==> x < list[t],
{
    assert forall|x: u32| list.take(t).contains(x) implies x < list[t] by {
        let k = choose|k: int| 0 <= k < list.take(t).len() && list.take(t)[k] == x;
        assert(list[k] < list[t]);
    }
}

/// Strings the lists together, in order, into one list.
pub fn flatten(lists: &Vec<Vec<u32>>) -> (flat: Vec<u32>)
    ensures
        flat@ == views(lists).flatten(),
{
    let mut flat: Vec<u32> = Vec::new();
    let mut i: usize = 0;
    assert(views(lists).take(0) =~= Seq::<Seq<u32>>::empty());
    while i < lists.len()
        invariant
            i <= lists@.len(),
            flat@ == views(lists).take(i as int).flatten(),
        decreases lists@.len() - i,
    {
        let list = &lists[i];
        let ghost before = flat@;
        let mut t: usize = 0;
        while t < list.len()
            invariant
                t <= list@.len(),
                flat@ == before + list@.take(t as int),
            decreases list@.len() - t,
        {
            flat.push(list[t]);
            t += 1;
            assert(flat@ =~= before + list@.take(t as int));
        }
        proof {
            let done = views(lists).take(i as int);
            assert(list@.take(t as int) =~= list@);
            assert(views(lists).take(i + 1) =~= done.push(list@));
            done.lemma_flatten_push(list@);
        }
        i += 1;
    }
    assert(views(lists).take(i as int) =~= views(lists));
    flat
}

/// Puts `d` into the ascending list `list`, unless it is there already.
pub fn insert_ascending(list: &mut Vec<u32>, d: u32)
    requires
        ascending(old(list)@),
    ensures
        ascending(final(list)@),
        forall|x: u32| final(list)@.contains(x) <==> old(list)@.contains(x) || x == d,
{
    let mut p: usize = 0;
    while p < list.len() && list[p] < d
        invariant
            p <= list.len(),
            list@ == old(list)@,
            forall|a: int| 0 <= a < p ==> list@[a] < d,
        decreases list.len() - p,
    {
        p += 1;
    }
    if p < list.len() && list[p] == d {
        assert(list@.contains(d));
        return ;
    }
    let ghost before = list@;
    list.insert(p, d);
    proof {
        before.insert_ensures(p as int, d);
        let after = list@;
        assert forall|a: int, b: int| 0 <= a < b < after.len() implies after[a] < after[b] by {
            let a0 = if a < p { a } else { a - 1 };
            let b0 = if b < p { b } else { b - 1 };
            if a != p {
                assert(after[a] == before[a0]);
            }
            if b != p {
                assert(after[b] == before[b0]);
            }
            if a != p && b != p {
                assert(before[a0] < before[b0]);
            } else if a == p {
                if p < before.len() && p < b0 {
                    assert(before[p as int] < before[b0]);
                }
            }
        }
        assert forall|x: u32| after.contains(x) <==> before.contains(x) || x == d by {
            if after.contains(x) {
                let k = choose|k: int| 0 <= k < after.len() && after[k] == x;
                if k < p {
                    assert(before[k] == x);
                } else if k > p {
                    assert(after[(k - 1) + 1] == before[k - 1]);
                    assert(before[k - 1] == x);
                }
            }
            if before.contains(x) {
                let k = choose|k: int| 0 <= k < before.len() && before[k] == x;
                if k < p {
                    assert(after[k] == x);
                } else {
                    assert(after[k + 1] == x);
                }
            }
            if x == d {
                assert(after[p as int] == x);
            }
        }
    }
}

} // verus!
