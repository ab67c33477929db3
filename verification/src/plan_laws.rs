//! What holds of a plan: the list of result groups that it determines is
//! sound, and it is the only sound list.

use crate::models::Priority;
use crate::plan::Plan;
use vstd::prelude::*;

verus! {

impl Plan {
    /// `g` is a regular group as the scan builds it.
    spec fn is_built_run(self, g: Seq<u32>) -> bool {
        &&& g.len() >= 1
        &&& g.len() <= self.capacity_of(g[0])
        &&& self.is_plain_run(g)
        &&& forall|i: int| 1 <= i < g.len() ==> self.admits(g[0], #[trigger] g[i])
        &&& self.is_full(g)
    }

    /// What holds of the groups that the scan puts out from position `d` on.
    spec fn suffix_ok(self, d: int, out: Seq<Seq<u32>>) -> bool {
        &&& forall|k: int|
            0 <= k < out.len() ==> self.is_exception_group(#[trigger] out[k]) || self.is_built_run(
                out[k],
            )
        &&& forall|k: int, i: int|
            0 <= k < out.len() && 0 <= i < out[k].len() ==> d <= #[trigger] out[k][i] <= self.max
        &&& forall|k: int, l: int|
            0 <= k < l < out.len() ==> (#[trigger] out[k])[0] < (#[trigger] out[l])[0]
        &&& forall|x: u32|
            d <= x <= self.max && !self.is_member(x) ==> #[trigger] Self::occurs(out, x)
        &&& forall|j: int|
            0 <= j < self.groups.len() && (#[trigger] self.groups[j])[0] >= d ==> Self::appears(
                out,
                self.groups[j],
            )
        &&& Self::exclusive(out)
    }

    /// The regular group seeded by `seed` stays within its capacity and within
    /// the range, every dock behind the first `have` was admitted, and the
    /// dock behind the last cannot be taken.
    proof fn lemma_extra(self, seed: u32, have: nat)
        requires
            1 <= have <= self.capacity_of(seed),
            seed + have <= self.max + 1,
        ensures
            have + self.extra(seed, have) <= self.capacity_of(seed),
            seed + have + self.extra(seed, have) <= self.max + 1,
            forall|i: int|
                have <= i < have + self.extra(seed, have) ==> self.admits(
                    seed,
                    #[trigger] ((seed + i) as u32),
                ),
            have + self.extra(seed, have) >= self.capacity_of(seed) || seed + have + self.extra(
                seed,
                have,
            ) > self.max || !self.admits(seed, (seed + have + self.extra(seed, have)) as u32),
        decreases self.max - seed - have + 1,
    {
        if have < self.capacity_of(seed) && seed + have <= self.max && self.admits(
            seed,
            (seed + have) as u32,
        ) {
            self.lemma_extra(seed, have + 1);
        }
    }

    /// The regular group seeded by a dock that is no exception member is a
    /// group as the scan builds it.
    proof fn lemma_run_is_built(self, seed: u32)
        requires
            self.wf(),
            self.min <= seed <= self.max,
            !self.is_member(seed),
        ensures
            self.is_built_run(Self::run(seed, self.run_len(seed))),
            seed + self.run_len(seed) <= self.max + 1,
    {
        self.lemma_extra(seed, 1);
        let g = Self::run(seed, self.run_len(seed));
        assert forall|i: int| 1 <= i < g.len() implies self.admits(g[0], #[trigger] g[i]) by {
            assert(g[i] == (seed + i) as u32);
        }
        assert forall|i: int| 0 <= i < g.len() implies !self.is_member(#[trigger] g[i]) by {
            if i > 0 {
                assert(self.admits(g[0], g[i]));
            }
        }
    }

    /// Putting the group `g`, which deals with the positions from `d` up to
    /// `e`, before the groups put out from `e` on gives what holds of the
    /// groups put out from `d` on.
    proof fn lemma_prepend(self, d: int, e: int, g: Seq<u32>, rest: Seq<Seq<u32>>)
        requires
            self.wf(),
            self.min <= d < e <= self.max + 1,
            self.suffix_ok(e, rest),
            self.is_exception_group(g) || self.is_built_run(g),
            g.len() > 0,
            g[0] == d,
            forall|a: int, b: int| 0 <= a < b < g.len() ==> #[trigger] g[a] < #[trigger] g[b],
            forall|i: int| 0 <= i < g.len() ==> #[trigger] g[i] <= self.max,
            forall|i: int| 0 <= i < g.len() ==> !Self::occurs(rest, #[trigger] g[i]),
            forall|x: u32| d <= x < e && !self.is_member(x) ==> #[trigger] g.contains(x),
            forall|j: int|
                0 <= j < self.groups.len() && d <= (#[trigger] self.groups[j])[0] < e
                    ==> self.groups[j] == g,
        ensures
            self.suffix_ok(d, seq![g] + rest),
    {
        let out = seq![g] + rest;
        assert(out[0] == g);
        assert forall|k: int| 1 <= k < out.len() implies #[trigger] out[k] == rest[k - 1] by {}
        assert forall|k: int| 0 <= k < out.len() implies self.is_exception_group(#[trigger] out[k])
            || self.is_built_run(out[k]) by {
            if k > 0 {
                assert(out[k] == rest[k - 1]);
            }
        }
        assert forall|k: int, i: int| 0 <= k < out.len() && 0 <= i < out[k].len() implies d
            <= #[trigger] out[k][i] <= self.max by {
            if k > 0 {
                assert(out[k][i] == rest[k - 1][i]);
            } else {
                if i > 0 {
                    assert(g[0] < g[i]);
                }
            }
        }
        assert forall|k: int, l: int| 0 <= k < l < out.len() implies (#[trigger] out[k])[0] < (
        #[trigger] out[l])[0] by {
            assert(out[l] == rest[l - 1]);
            assert(rest[l - 1].len() > 0) by {
                self.lemma_suffix_nonempty(e, rest, l - 1);
            }
            assert(e <= rest[l - 1][0]);
            if k > 0 {
                assert(out[k] == rest[k - 1]);
            }
        }
        assert forall|x: u32|
            d <= x <= self.max && !self.is_member(x) implies #[trigger] Self::occurs(out, x) by {
            if x < e {
                assert(g.contains(x));
                let i = choose|i: int| 0 <= i < g.len() && g[i] == x;
                assert(out[0][i] == x);
            } else {
                assert(Self::occurs(rest, x));
                let (k, i) = choose|k: int, i: int|
                    0 <= k < rest.len() && 0 <= i < rest[k].len() && rest[k][i] == x;
                assert(out[k + 1][i] == x);
            }
        }
        assert forall|j: int|
            0 <= j < self.groups.len() && (#[trigger] self.groups[j])[0] >= d implies Self::appears(
            out,
            self.groups[j],
        ) by {
            if self.groups[j][0] < e {
                assert(out[0] == self.groups[j]);
            } else {
                assert(Self::appears(rest, self.groups[j]));
                let k = choose|k: int| 0 <= k < rest.len() && rest[k] == self.groups[j];
                assert(out[k + 1] == self.groups[j]);
            }
        }
        assert forall|k: int, i: int, l: int, j: int|
            0 <= k < out.len() && 0 <= i < out[k].len() && 0 <= l < out.len() && 0 <= j
                < out[l].len() && #[trigger] out[k][i] == #[trigger] out[l][j] implies k == l && i
            == j by {
            if k == 0 && l == 0 {
                if i < j {
                    assert(g[i] < g[j]);
                } else if j < i {
                    assert(g[j] < g[i]);
                }
            } else if k == 0 {
                assert(rest[l - 1][j] == g[i]);
                assert(Self::occurs(rest, g[i]));
            } else if l == 0 {
                assert(rest[k - 1][i] == g[j]);
                assert(Self::occurs(rest, g[j]));
            } else {
                assert(rest[k - 1][i] == rest[l - 1][j]);
            }
        }
    }

    /// No group put out from position `d` on is empty.
    proof fn lemma_suffix_nonempty(self, d: int, out: Seq<Seq<u32>>, k: int)
        requires
            self.wf(),
            self.suffix_ok(d, out),
            0 <= k < out.len(),
        ensures
            out[k].len() > 0,
    {
        if self.is_exception_group(out[k]) {
            let j = choose|j: int| 0 <= j < self.groups.len() && self.groups[j] == out[k];
            assert(self.groups[j].len() > 0);
        }
    }

    /// What holds of the groups that the scan puts out from position `d` on.
    proof fn lemma_groups_from(self, d: int)
        requires
            self.wf(),
            self.min <= d <= self.max + 1,
        ensures
            self.suffix_ok(d, self.groups_from(d)),
        decreases self.max + 1 - d,
    {
        if d > self.max {
            assert(self.groups_from(d) =~= Seq::<Seq<u32>>::empty());
        } else if self.is_member(d as u32) {
            let rest = self.groups_from(d + 1);
            self.lemma_groups_from(d + 1);
            let first = d as u32;
            if self.starts_group(first) {
                let j = choose|j: int| self.starts_at(j, first);
                let g = self.groups[j];
                assert(g == self.group_at(first));
                assert(self.is_exception_group(g));
                assert forall|i: int| 0 <= i < g.len() implies !Self::occurs(
                    rest,
                    #[trigger] g[i],
                ) by {
                    if Self::occurs(rest, g[i]) {
                        let (k, l) = choose|k: int, l: int|
                            0 <= k < rest.len() && 0 <= l < rest[k].len() && rest[k][l] == g[i];
                        self.lemma_suffix_nonempty(d + 1, rest, k);
                        assert(d + 1 <= rest[k][0]);
                        if self.is_exception_group(rest[k]) {
                            let m = choose|m: int|
                                0 <= m < self.groups.len() && self.groups[m] == rest[k];
                            assert(self.groups[m][l] == self.groups[j][i]);
                            assert(m == j);
                        } else {
                            assert(!self.is_member(rest[k][l]));
                            assert(self.groups[j][i] == g[i]);
                        }
                    }
                }
                assert forall|x: u32|
                    d <= x < d + 1 && !self.is_member(x) implies #[trigger] g.contains(x) by {}
                assert forall|m: int|
                    0 <= m < self.groups.len() && d <= (#[trigger] self.groups[m])[0] < d
                        + 1 implies self.groups[m] == g by {
                    assert(self.groups[m][0] == self.groups[j][0]);
                    assert(m == j);
                }
                self.lemma_prepend(d, d + 1, g, rest);
            } else {
                assert forall|m: int|
                    0 <= m < self.groups.len() && (#[trigger] self.groups[m])[0]
                        >= d implies Self::appears(rest, self.groups[m]) by {
                    if self.groups[m][0] == d {
                        assert(self.starts_at(m, d as u32));
                    }
                }
            }
        } else {
            let n = self.run_len(d as u32);
            let g = Self::run(d as u32, n);
            let rest = self.groups_from(d + n);
            self.lemma_run_is_built(d as u32);
            self.lemma_groups_from(d + n);
            assert forall|i: int| 0 <= i < g.len() implies !Self::occurs(rest, #[trigger] g[i]) by {
                if Self::occurs(rest, g[i]) {
                    let (k, l) = choose|k: int, l: int|
                        0 <= k < rest.len() && 0 <= l < rest[k].len() && rest[k][l] == g[i];
                    assert(d + n <= rest[k][l]);
                }
            }
            assert forall|x: u32|
                d <= x < d + n && !self.is_member(x) implies #[trigger] g.contains(x) by {
                assert(g[x - d] == x);
            }
            assert forall|m: int|
                0 <= m < self.groups.len() && d <= (#[trigger] self.groups[m])[0] < d
                    + n implies self.groups[m] == g by {
                let x = self.groups[m][0];
                assert(g[x - d] == x);
                assert(!self.is_member(g[x - d]));
                assert(self.groups[m][0] == x);
            }
            self.lemma_prepend(d, d + n, g, rest);
        }
    }

    /// The list of result groups covers the range exactly, keeps every
    /// exception group whole, and builds regular groups that respect priority
    /// order, capacity and strictness.
    pub proof fn lemma_partition_sound(self)
        requires
            self.wf(),
        ensures
            self.sound(self.partition()),
    {
        let out = self.partition();
        self.lemma_groups_from(self.min as int);
        assert forall|k: int| 0 <= k < out.len() implies (#[trigger] out[k]).len() > 0 by {
            self.lemma_suffix_nonempty(self.min as int, out, k);
        }
        assert forall|d: u32| self.min <= d <= self.max implies #[trigger] Self::occurs(out, d) by {
            if self.is_member(d) {
                let (j, a) = choose|j: int, a: int|
                    0 <= j < self.groups.len() && 0 <= a < self.groups[j].len()
                        && self.groups[j][a] == d;
                assert(self.min <= self.groups[j][0]);
                assert(Self::appears(out, self.groups[j]));
                let k = choose|k: int| 0 <= k < out.len() && out[k] == self.groups[j];
                assert(out[k][a] == d);
            }
        }
        assert forall|j: int| 0 <= j < self.groups.len() implies Self::appears(
            out,
            #[trigger] self.groups[j],
        ) by {
            assert(self.min <= self.groups[j][0]);
        }
        assert forall|k: int| 0 <= k < out.len() && self.is_regular(#[trigger] out[k]) implies {
            &&& self.is_plain_run(out[k])
            &&& self.keeps_rank(out[k])
            &&& self.within_capacity(out[k])
            &&& self.keeps_strictness(out[k])
            &&& self.is_full(out[k])
        } by {
            let g = out[k];
            if self.is_exception_group(g) {
                let j = choose|j: int| 0 <= j < self.groups.len() && self.groups[j] == g;
                assert(self.groups[j][0] == g[0]);
            }
            assert(self.is_built_run(g));
            assert forall|i: int| 0 <= i < g.len() implies !self.priority_of(
                #[trigger] g[i],
            ).outranks(self.priority_of(g[0])) by {
                if i > 0 {
                    assert(self.admits(g[0], g[i]));
                }
            }
            if self.rules.strict_first && self.priority_of(g[0]) == Priority::First {
                assert forall|i: int| 0 <= i < g.len() implies self.priority_of(#[trigger] g[i])
                    == Priority::First by {
                    if i > 0 {
                        assert(self.admits(g[0], g[i]));
                    }
                }
            }
            if self.rules.strict_second && self.priority_of(g[0]) == Priority::Second {
                assert forall|i: int| 0 <= i < g.len() implies self.priority_of(#[trigger] g[i])
                    == Priority::Second by {
                    if i > 0 {
                        assert(self.admits(g[0], g[i]));
                    }
                }
            }
        }
    }

    /// No group stands twice in a sound list of result groups: with the
    /// clause on exception groups, each of them is exactly one result group.
    pub proof fn lemma_group_once(self, out: Seq<Seq<u32>>, k: int, l: int)
        requires
            self.sound(out),
            0 <= k < out.len(),
            0 <= l < out.len(),
            out[k] == out[l],
        ensures
            k == l,
    {
        if k < l {
            assert(out[k][0] < out[l][0]);
        } else if l < k {
            assert(out[l][0] < out[k][0]);
        }
    }

    /// A group of a sound list of result groups that begins with an exception
    /// member is the exception group of that member.
    proof fn lemma_exception_first(self, out: Seq<Seq<u32>>, k: int) -> (j: int)
        requires
            self.wf(),
            self.sound(out),
            0 <= k < out.len(),
            self.is_member(out[k][0]),
        ensures
            0 <= j < self.groups.len(),
            out[k] == self.groups[j],
            out[k][0] == self.groups[j][0],
    {
        let first = out[k][0];
        let (j, b) = choose|j: int, b: int|
            0 <= j < self.groups.len() && 0 <= b < self.groups[j].len() && self.groups[j][b]
                == first;
        assert(Self::appears(out, self.groups[j]));
        let p = choose|p: int| 0 <= p < out.len() && out[p] == self.groups[j];
        assert(out[k].len() > 0);
        assert(out[p][b] == out[k][0]);
        j
    }

    /// A sound regular group has the size of the group that the scan builds
    /// from its seed.
    proof fn lemma_full_run(self, g: Seq<u32>, have: nat)
        requires
            1 <= have <= g.len(),
            g[0] + g.len() <= self.max + 1,
            self.is_plain_run(g),
            self.keeps_rank(g),
            self.within_capacity(g),
            self.keeps_strictness(g),
            self.is_full(g),
        ensures
            have + self.extra(g[0], have) == g.len(),
        decreases g.len() - have,
    {
        if have < g.len() {
            let c = g[have as int];
            assert(c == g[0] + have);
            assert(!self.is_member(c));
            assert(!self.priority_of(c).outranks(self.priority_of(g[0])));
            assert(self.admits(g[0], c));
            self.lemma_full_run(g, have + 1);
        }
    }

    /// The groups of a sound list of result groups from index `k` on, where
    /// the groups before index `k` deal with the positions before `d`, are
    /// the groups that the scan puts out from position `d` on.
    proof fn lemma_sound_suffix(self, out: Seq<Seq<u32>>, d: int, k: int)
        requires
            self.wf(),
            self.sound(out),
            self.min <= d <= self.max + 1,
            0 <= k <= out.len(),
            forall|i: int| 0 <= i < k ==> (#[trigger] out[i])[0] < d,
            forall|i: int|
                0 <= i < k && self.is_regular(#[trigger] out[i]) ==> out[i][0] + out[i].len() <= d,
            forall|i: int| k <= i < out.len() ==> (#[trigger] out[i])[0] >= d,
        ensures
            out.skip(k) == self.groups_from(d),
        decreases self.max + 1 - d,
    {
        if d > self.max {
            if k < out.len() {
                assert(out[k].len() > 0);
                assert(out[k][0] <= self.max);
            }
            assert(out.skip(k) =~= self.groups_from(d));
        } else {
            let x = d as u32;
            assert(Self::occurs(out, x));
            let (i, a) = choose|i: int, a: int|
                0 <= i < out.len() && 0 <= a < out[i].len() && out[i][a] == x;
            assert(out[i].len() > 0);
            if self.is_member(x) {
                let (j, b) = choose|j: int, b: int|
                    0 <= j < self.groups.len() && 0 <= b < self.groups[j].len()
                        && self.groups[j][b] == x;
                assert(Self::appears(out, self.groups[j]));
                let p = choose|p: int| 0 <= p < out.len() && out[p] == self.groups[j];
                assert(out[p][b] == x);
                if self.starts_group(x) {
                    let first = choose|first: int| self.starts_at(first, x);
                    assert(self.groups[first][0] == self.groups[j][b]);
                    assert(first == j);
                    if b > 0 {
                        assert(self.groups[j][0] < self.groups[j][b]);
                    }
                    assert(out[p][0] == x);
                    if p < k {
                        assert(out[p][0] < d);
                    } else if p > k {
                        assert(out[k][0] < out[p][0]);
                        assert(out[k][0] >= d);
                    }
                    assert(out[k] == self.group_at(x));
                    assert forall|q: int| k + 1 <= q < out.len() implies (#[trigger] out[q])[0] >= d
                        + 1 by {
                        assert(out[k][0] < out[q][0]);
                    }
                    self.lemma_sound_suffix(out, d + 1, k + 1);
                    assert(out.skip(k) =~= seq![out[k]] + out.skip(k + 1));
                } else {
                    assert forall|q: int| k <= q < out.len() implies (#[trigger] out[q])[0] >= d
                        + 1 by {
                        assert(out[q].len() > 0);
                        if out[q][0] == x {
                            assert(out[q][0] == out[p][b]);
                            assert(self.starts_at(j, x));
                        }
                    }
                    self.lemma_sound_suffix(out, d + 1, k);
                }
            } else {
                if self.is_member(out[i][0]) {
                    let j = self.lemma_exception_first(out, i);
                    assert(self.groups[j][a] == x);
                }
                assert(self.is_regular(out[i]));
                assert(out[i][a] == out[i][0] + a);
                if i < k {
                    assert(out[i][0] + out[i].len() <= d);
                } else if i > k {
                    assert(out[k][0] < out[i][0]);
                    assert(out[k][0] >= d);
                }
                let g = out[k];
                assert(g[0] == x);
                let last = g.len() - 1;
                assert(g[last] == g[0] + last);
                assert(g[last] <= self.max);
                self.lemma_full_run(g, 1);
                let n = self.run_len(x);
                assert(g =~= Self::run(x, n));
                assert forall|q: int| k + 1 <= q < out.len() implies (#[trigger] out[q])[0] >= d
                    + n by {
                    assert(out[k][0] < out[q][0]);
                    assert(out[q].len() > 0);
                    if out[q][0] < d + n {
                        let y = out[q][0];
                        assert(g[y - d] == y);
                        assert(out[k][y - d] == out[q][0]);
                    }
                }
                self.lemma_sound_suffix(out, d + n, k + 1);
                assert(out.skip(k) =~= seq![out[k]] + out.skip(k + 1));
            }
        }
    }

    /// The partition is the only sound list of result groups.
    pub proof fn lemma_partition_unique(self, out: Seq<Seq<u32>>)
        requires
            self.wf(),
            self.sound(out),
        ensures
            out == self.partition(),
    {
        assert forall|i: int| 0 <= i < out.len() implies (#[trigger] out[i])[0] >= self.min by {
            assert(out[i].len() > 0);
        }
        self.lemma_sound_suffix(out, self.min as int, 0);
        assert(out.skip(0) =~= out);
    }
}

} // verus!
