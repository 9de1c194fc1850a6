//! Intermediary-node scoring: turn a batch of paths into a per-node count
//! of interior occurrences (positions strictly between a path's endpoints),
//! and combine one licit-batch and one illicit-batch count map into mixer
//! candidate entries.

use vstd::prelude::*;

use crate::graph::distinct_seq;
use crate::graph::names;
use crate::graph::paths_view;

verus! {

/// The interior of a path: everything strictly between its first and last
/// element. Paths of fewer than three nodes have no interior.
pub open spec fn interior(p: Seq<Seq<char>>) -> Seq<Seq<char>> {
    if p.len() >= 3 {
        p.subrange(1, p.len() - 1)
    } else {
        Seq::empty()
    }
}

/// The interiors of all paths, concatenated in order.
pub open spec fn interiors(paths: Seq<Seq<Seq<char>>>) -> Seq<Seq<char>>
    decreases paths.len(),
{
    if paths.len() == 0 {
        Seq::empty()
    } else {
        interiors(paths.drop_last()) + interior(paths.last())
    }
}

/// The number of interior positions over all paths: the sum of
/// `max(len - 2, 0)` over the batch.
pub open spec fn total_interior_len(paths: Seq<Seq<Seq<char>>>) -> int
    decreases paths.len(),
{
    if paths.len() == 0 {
        0
    } else {
        total_interior_len(paths.drop_last()) + interior(paths.last()).len()
    }
}

/// How often `x` occurs in `s`.
pub open spec fn count_occ(s: Seq<Seq<char>>, x: Seq<char>) -> int
    decreases s.len(),
{
    if s.len() == 0 {
        0
    } else {
        count_occ(s.drop_last(), x) + if s.last() == x {
            1int
        } else {
            0int
        }
    }
}

/// The elements of `s` in first-occurrence order, each once.
pub open spec fn dedup_first(s: Seq<Seq<char>>) -> Seq<Seq<char>>
    decreases s.len(),
{
    if s.len() == 0 {
        Seq::empty()
    } else {
        let d = dedup_first(s.drop_last());
        if d.contains(s.last()) {
            d
        } else {
            d.push(s.last())
        }
    }
}

/// Membership splits over the last element.
proof fn lemma_contains_split(s: Seq<Seq<char>>, x: Seq<char>)
    requires
        s.len() > 0,
    ensures
        s.contains(x) == (s.drop_last().contains(x) || s.last() == x),
{
    if s.contains(x) {
        let w = choose|w: int| 0 <= w < s.len() && s[w] == x;
        if w < s.len() - 1 {
            assert(s.drop_last()[w] == x);
        }
    }
    if s.drop_last().contains(x) {
        let w = choose|w: int| 0 <= w < s.drop_last().len() && s.drop_last()[w] == x;
        assert(s[w] == x);
    }
}

/// A sequence holds exactly the elements of its deduplication.
proof fn lemma_dedup_contains(s: Seq<Seq<char>>, x: Seq<char>)
    ensures
        dedup_first(s).contains(x) == s.contains(x),
    decreases s.len(),
{
    if s.len() > 0 {
        lemma_dedup_contains(s.drop_last(), x);
        lemma_contains_split(s, x);
        let d = dedup_first(s.drop_last());
        if !d.contains(s.last()) {
            lemma_contains_split(d.push(s.last()), x);
            assert(d.push(s.last()).drop_last() =~= d);
        }
    }
}

/// A deduplication holds no repeats.
proof fn lemma_dedup_distinct(s: Seq<Seq<char>>)
    ensures
        distinct_seq(dedup_first(s)),
    decreases s.len(),
{
    if s.len() > 0 {
        lemma_dedup_distinct(s.drop_last());
        let d = dedup_first(s.drop_last());
        if !d.contains(s.last()) {
            assert forall|i: int, j: int|
                0 <= i < j < d.push(s.last()).len() implies d.push(s.last())[i] != d.push(
                s.last(),
            )[j] by {
                if j == d.len() {
                    assert(d[i] == d.push(s.last())[i]);
                    if d.push(s.last())[i] == s.last() {
                        assert(d.contains(s.last()));
                    }
                }
            }
        }
    }
}

/// An element absent from `s` occurs zero times, and a present one at
/// least once.
proof fn lemma_count_occ_contains(s: Seq<Seq<char>>, x: Seq<char>)
    ensures
        s.contains(x) ==> count_occ(s, x) >= 1,
        !s.contains(x) ==> count_occ(s, x) == 0,
        count_occ(s, x) <= s.len(),
    decreases s.len(),
{
    if s.len() > 0 {
        lemma_count_occ_contains(s.drop_last(), x);
        lemma_contains_split(s, x);
    }
}

/// The sum of the occurrence counts of `keys` in `s`.
pub open spec fn sum_occ(keys: Seq<Seq<char>>, s: Seq<Seq<char>>) -> int
    decreases keys.len(),
{
    if keys.len() == 0 {
        0
    } else {
        sum_occ(keys.drop_last(), s) + count_occ(s, keys.last())
    }
}

/// Appending one element to the stream raises the occurrence sum of a
/// repeat-free key list by one exactly when the element is a key.
proof fn lemma_sum_occ_push(keys: Seq<Seq<char>>, s: Seq<Seq<char>>, e: Seq<char>)
    requires
        distinct_seq(keys),
    ensures
        sum_occ(keys, s.push(e)) == sum_occ(keys, s) + if keys.contains(e) {
            1int
        } else {
            0int
        },
    decreases keys.len(),
{
    if keys.len() > 0 {
        assert(distinct_seq(keys.drop_last())) by {
            assert(forall|i: int, j: int|
                0 <= i < j < keys.drop_last().len() ==> keys.drop_last()[i] == keys[i]
                    && keys.drop_last()[j] == keys[j]);
        }
        lemma_sum_occ_push(keys.drop_last(), s, e);
        lemma_contains_split(keys, e);
        assert(s.push(e).drop_last() =~= s);
        assert(s.push(e).last() == e);
        if keys.last() == e {
            if keys.drop_last().contains(e) {
                let w = choose|w: int|
                    0 <= w < keys.drop_last().len() && keys.drop_last()[w] == e;
                assert(keys[w] == e && keys[keys.len() - 1] == e);
                assert(false);
            }
        }
    }
}

/// Summing the occurrence counts of every distinct element of a stream
/// yields the stream's length.
proof fn lemma_sum_occ_dedup(s: Seq<Seq<char>>)
    ensures
        sum_occ(dedup_first(s), s) == s.len(),
    decreases s.len(),
{
    if s.len() > 0 {
        let s0 = s.drop_last();
        let e = s.last();
        lemma_sum_occ_dedup(s0);
        lemma_dedup_distinct(s0);
        let d0 = dedup_first(s0);
        assert(s =~= s0.push(e));
        if d0.contains(e) {
            lemma_sum_occ_push(d0, s0, e);
        } else {
            lemma_sum_occ_push(d0, s0, e);
            assert(d0.push(e).drop_last() =~= d0);
            assert(d0.push(e).last() == e);
            assert(sum_occ(d0.push(e), s) == sum_occ(d0, s) + count_occ(s, e));
            lemma_dedup_contains(s0, e);
            lemma_count_occ_contains(s0, e);
            assert(count_occ(s, e) == count_occ(s0, e) + 1);
        }
    }
}

/// One per-node interior-occurrence record.
pub struct NodeCount {
    pub node: String,
    pub count: usize,
}

/// Per-node interior-occurrence counts for a batch of paths, keyed by node
/// in first-occurrence order.
pub struct FreqMap {
    pub entries: Vec<NodeCount>,
}

/// The mathematical value of a count map.
pub open spec fn freq_view(v: Seq<NodeCount>) -> Seq<(Seq<char>, int)> {
    v.map_values(|e: NodeCount| (e.node@, e.count as int))
}

/// The sum of all recorded counts.
pub open spec fn sum_counts(v: Seq<(Seq<char>, int)>) -> int
    decreases v.len(),
{
    if v.len() == 0 {
        0
    } else {
        sum_counts(v.drop_last()) + v.last().1
    }
}

/// The count recorded for `node` by the first matching entry, or `0`.
pub open spec fn freq_of(v: Seq<(Seq<char>, int)>, node: Seq<char>) -> int
    decreases v.len(),
{
    if v.len() == 0 {
        0
    } else if v[0].0 == node {
        v[0].1
    } else {
        freq_of(v.drop_first(), node)
    }
}

impl FreqMap {
    /// The mathematical value of the map.
    pub open spec fn view_counts(self) -> Seq<(Seq<char>, int)> {
        freq_view(self.entries@)
    }

    /// The map agrees with the interior stream `s`: its keys are the
    /// distinct elements of `s` in first-occurrence order and each count is
    /// the element's number of occurrences.
    pub open spec fn matches_stream(self, s: Seq<Seq<char>>) -> bool {
        &&& self.entries@.map_values(|e: NodeCount| e.node@) == dedup_first(s)
        &&& forall|k: int|
            0 <= k < self.entries@.len() ==> (#[trigger] self.entries@[k].count as int)
                == count_occ(s, self.entries@[k].node@)
    }

    /// An empty count map.
    pub fn new() -> (r: FreqMap)
        ensures
            r.entries@.len() == 0,
            r.matches_stream(Seq::empty()),
    {
        let r = FreqMap { entries: Vec::new() };
        proof {
            assert(r.entries@.map_values(|e: NodeCount| e.node@) =~= dedup_first(Seq::empty()));
        }
        r
    }

    /// Index of the first entry for `node`, if any.
    fn find(&self, node: &String) -> (r: Option<usize>)
        ensures
            match r {
                Some(ix) => 0 <= ix < self.entries@.len() && self.entries@[
                    ix as int
                ].node@ == node@,
                None => !self.entries@.map_values(|e: NodeCount| e.node@).contains(node@),
            },
    {
        let n = self.entries.len();
        let mut i: usize = 0;
        while i < n
            invariant
                n == self.entries@.len(),
                0 <= i <= n,
                forall|k: int| 0 <= k < i ==> self.entries@[k].node@ != node@,
            decreases n - i,
        {
            if self.entries[i].node.eq(node) {
                return Some(i);
            }
            i = i + 1;
        }
        proof {
            let keys = self.entries@.map_values(|e: NodeCount| e.node@);
            if keys.contains(node@) {
                let w = choose|w: int| 0 <= w < keys.len() && keys[w] == node@;
                assert(self.entries@[w].node@ == node@);
            }
        }
        None
    }

    /// The count recorded for `node`, or `0`.
    pub fn get(&self, node: &String) -> (r: usize)
        ensures
            r as int == freq_of(self.view_counts(), node@),
    {
        let n = self.entries.len();
        let mut i: usize = 0;
        while i < n
            invariant
                n == self.entries@.len(),
                0 <= i <= n,
                forall|k: int| 0 <= k < i ==> self.entries@[k].node@ != node@,
            decreases n - i,
        {
            if self.entries[i].node.eq(node) {
                proof {
                    lemma_freq_of_skip(self.view_counts(), node@, i as int);
                }
                return self.entries[i].count;
            }
            i = i + 1;
        }
        proof {
            lemma_freq_of_skip(self.view_counts(), node@, n as int);
        }
        0
    }

    /// Record one more interior occurrence of `node`.
    fn bump(&mut self, node: &String, Ghost(s): Ghost<Seq<Seq<char>>>)
        requires
            old(self).matches_stream(s),
            s.len() < usize::MAX,
        ensures
            final(self).matches_stream(s.push(node@)),
            final(self).entries@.len() >= old(self).entries@.len(),
    {
        let ghost keys0 = self.entries@.map_values(|e: NodeCount| e.node@);
        proof {
            assert(s.push(node@).drop_last() =~= s);
        }
        match self.find(node) {
            Some(ix) => {
                proof {
                    lemma_dedup_contains(s, node@);
                    assert(keys0[ix as int] == node@);
                    assert(keys0.contains(node@));
                    assert(dedup_first(s.push(node@)) == keys0);
                    lemma_count_occ_contains(s, node@);
                    assert(self.entries@[ix as int].count as int == count_occ(s, node@));
                    assert(count_occ(s, node@) < usize::MAX as int);
                }
                let c = self.entries[ix].count;
                let nm = self.entries[ix].node.clone();
                self.entries.set(ix, NodeCount { node: nm, count: c + 1 });
                proof {
                    assert(self.entries@.map_values(|e: NodeCount| e.node@) =~= keys0);
                    lemma_dedup_distinct(s);
                    assert forall|k: int| 0 <= k < self.entries@.len() implies (
                    #[trigger] self.entries@[k].count as int) == count_occ(
                        s.push(node@),
                        self.entries@[k].node@,
                    ) by {
                        if k == ix {
                            assert(count_occ(s.push(node@), node@) == count_occ(s, node@) + 1);
                        } else {
                            assert(old(self).entries@[k].count as int == count_occ(
                                s,
                                old(self).entries@[k].node@,
                            ));
                            assert(keys0[k] != keys0[ix as int]);
                            assert(count_occ(s.push(node@), self.entries@[k].node@) == count_occ(
                                s,
                                self.entries@[k].node@,
                            ));
                        }
                    }
                }
            },
            None => {
                proof {
                    lemma_dedup_contains(s, node@);
                    assert(dedup_first(s.push(node@)) == keys0.push(node@));
                    lemma_count_occ_contains(s, node@);
                }
                self.entries.push(NodeCount { node: node.clone(), count: 1 });
                proof {
                    assert(self.entries@.map_values(|e: NodeCount| e.node@) =~= keys0.push(node@));
                    assert forall|k: int| 0 <= k < self.entries@.len() implies (
                    #[trigger] self.entries@[k].count as int) == count_occ(
                        s.push(node@),
                        self.entries@[k].node@,
                    ) by {
                        if k < old(self).entries@.len() {
                            assert(old(self).entries@[k].count as int == count_occ(
                                s,
                                old(self).entries@[k].node@,
                            ));
                            assert(keys0[k] == self.entries@[k].node@);
                            if self.entries@[k].node@ == node@ {
                                assert(keys0.contains(node@));
                                assert(false);
                            }
                        } else {
                            assert(count_occ(s.push(node@), node@) == count_occ(s, node@) + 1);
                        }
                    }
                }
            },
        }
    }
}

/// Interiors of one more path extend the stream by that path's interior.
proof fn lemma_interiors_take_step(pv: Seq<Seq<Seq<char>>>, i: int)
    requires
        0 <= i < pv.len(),
    ensures
        interiors(pv.take(i + 1)) == interiors(pv.take(i)) + interior(pv[i]),
        total_interior_len(pv.take(i + 1)) == total_interior_len(pv.take(i)) + interior(
            pv[i],
        ).len(),
{
    assert(pv.take(i + 1).drop_last() =~= pv.take(i));
    assert(pv.take(i + 1).last() == pv[i]);
}

/// A prefix of the batch, with the next path, never exceeds the whole
/// batch's interior total.
proof fn lemma_total_take_le(pv: Seq<Seq<Seq<char>>>, i: int)
    requires
        0 <= i < pv.len(),
    ensures
        total_interior_len(pv.take(i)) + interior(pv[i]).len() <= total_interior_len(pv),
        total_interior_len(pv.take(i)) >= 0,
    decreases pv.len(),
{
    lemma_interiors_take_step(pv, i);
    lemma_interiors_total(pv.take(i));
    lemma_interiors_total(pv.take(i + 1));
    lemma_interiors_total(pv);
    lemma_interiors_prefix_le(pv, i + 1);
}

/// The interior stream's length is the batch's interior total.
proof fn lemma_interiors_total(pv: Seq<Seq<Seq<char>>>)
    ensures
        interiors(pv).len() == total_interior_len(pv),
        total_interior_len(pv) >= 0,
    decreases pv.len(),
{
    if pv.len() > 0 {
        lemma_interiors_total(pv.drop_last());
    }
}

/// The interior stream of a prefix is never longer than the whole one.
proof fn lemma_interiors_prefix_le(pv: Seq<Seq<Seq<char>>>, i: int)
    requires
        0 <= i <= pv.len(),
    ensures
        interiors(pv.take(i)).len() <= interiors(pv).len(),
    decreases pv.len() - i,
{
    if i < pv.len() {
        lemma_interiors_take_step(pv, i);
        lemma_interiors_prefix_le(pv, i + 1);
    } else {
        assert(pv.take(i) =~= pv);
    }
}

/// A count map that agrees with a stream sums to the stream's length.
proof fn lemma_sum_counts_matches(entries: Seq<NodeCount>, s: Seq<Seq<char>>)
    requires
        forall|k: int|
            0 <= k < entries.len() ==> (#[trigger] entries[k].count as int) == count_occ(
                s,
                entries[k].node@,
            ),
    ensures
        sum_counts(freq_view(entries)) == sum_occ(
            entries.map_values(|e: NodeCount| e.node@),
            s,
        ),
    decreases entries.len(),
{
    if entries.len() > 0 {
        assert(forall|k: int|
            0 <= k < entries.drop_last().len() ==> entries.drop_last()[k] == entries[k]);
        lemma_sum_counts_matches(entries.drop_last(), s);
        assert(freq_view(entries).drop_last() =~= freq_view(entries.drop_last()));
        assert(entries.map_values(|e: NodeCount| e.node@).drop_last() =~= entries.drop_last()
            .map_values(|e: NodeCount| e.node@));
        assert(freq_view(entries).last().1 == entries.last().count as int);
        assert(entries.map_values(|e: NodeCount| e.node@).last() == entries.last().node@);
    }
}

/// Count, for every node, how often it occurs strictly between the first
/// and last element of a path, over the whole batch. Paths of two or fewer
/// nodes contribute nothing. The recorded counts sum to the number of
/// interior positions: the sum of `max(len - 2, 0)` over the batch.
pub fn calculate_reuse_score(paths: &Vec<Vec<String>>) -> (r: FreqMap)
    requires
        total_interior_len(paths_view(paths@)) <= usize::MAX,
    ensures
        r.matches_stream(interiors(paths_view(paths@))),
        sum_counts(r.view_counts()) == total_interior_len(paths_view(paths@)),
{
    let ghost pv = paths_view(paths@);
    let mut freq = FreqMap::new();
    let ghost mut s: Seq<Seq<char>> = Seq::empty();
    let np = paths.len();
    let mut i: usize = 0;
    proof {
        assert(pv.take(0) =~= Seq::<Seq<Seq<char>>>::empty());
    }
    while i < np
        invariant
            np == paths@.len(),
            pv == paths_view(paths@),
            total_interior_len(pv) <= usize::MAX,
            0 <= i <= np,
            freq.matches_stream(s),
            s == interiors(pv.take(i as int)),
            s.len() == total_interior_len(pv.take(i as int)),
        decreases np - i,
    {
        let p = &paths[i];
        proof {
            assert(pv[i as int] == names(paths@[i as int]@));
        }
        if p.len() > 2 {
            let m = p.len() - 1;
            let mut j: usize = 1;
            proof {
                assert(interior(pv[i as int]).take(0) =~= Seq::<Seq<char>>::empty());
                assert(s + interior(pv[i as int]).take(0) =~= s);
            }
            let ghost s0 = s;
            while j < m
                invariant
                    np == paths@.len(),
                    pv == paths_view(paths@),
                    total_interior_len(pv) <= usize::MAX,
                    0 <= i < np,
                    p == &paths@[i as int],
                    pv[i as int] == names(paths@[i as int]@),
                    p@.len() >= 3,
                    m == p@.len() - 1,
                    1 <= j <= m,
                    freq.matches_stream(s),
                    s0 == interiors(pv.take(i as int)),
                    s0.len() == total_interior_len(pv.take(i as int)),
                    s == s0 + interior(pv[i as int]).take(j - 1),
                decreases m - j,
            {
                proof {
                    lemma_total_take_le(pv, i as int);
                    assert(interior(pv[i as int]).len() == p@.len() - 2);
                    assert(s.len() == s0.len() + (j - 1));
                    assert(s.len() < s0.len() + interior(pv[i as int]).len());
                    assert(s.len() < usize::MAX);
                }
                freq.bump(&p[j], Ghost(s));
                proof {
                    assert(interior(pv[i as int])[j - 1] == pv[i as int][j as int]);
                    assert(pv[i as int][j as int] == p@[j as int]@);
                    assert(interior(pv[i as int]).take(j as int) =~= interior(
                        pv[i as int],
                    ).take(j - 1).push(p@[j as int]@));
                    assert(s0 + interior(pv[i as int]).take(j as int) =~= (s0 + interior(
                        pv[i as int],
                    ).take(j - 1)).push(p@[j as int]@));
                    s = s.push(p@[j as int]@);
                }
                j = j + 1;
            }
            proof {
                assert(interior(pv[i as int]).take(m - 1) =~= interior(pv[i as int]));
                lemma_interiors_take_step(pv, i as int);
            }
        } else {
            proof {
                assert(interior(pv[i as int]).len() == 0);
                assert(interior(pv[i as int]) =~= Seq::<Seq<char>>::empty());
                assert(s + interior(pv[i as int]) =~= s);
                lemma_interiors_take_step(pv, i as int);
            }
        }
        i = i + 1;
    }
    proof {
        assert(pv.take(np as int) =~= pv);
        lemma_sum_counts_matches(freq.entries@, s);
        lemma_sum_occ_dedup(s);
        lemma_interiors_total(pv);
    }
    freq
}

/// Count interior occurrences after checking that the number of interior
/// positions fits the counter; a batch too large to count is refused
/// instead of overflowing.
pub fn try_reuse_score(paths: &Vec<Vec<String>>) -> (r: Option<FreqMap>)
    ensures
        match r {
            Some(f) => {
                &&& total_interior_len(paths_view(paths@)) <= usize::MAX as int
                &&& f.matches_stream(interiors(paths_view(paths@)))
                &&& sum_counts(f.view_counts()) == total_interior_len(paths_view(paths@))
            },
            None => total_interior_len(paths_view(paths@)) > usize::MAX as int,
        },
{
    let ghost pv = paths_view(paths@);
    let mut total: usize = 0;
    let n = paths.len();
    let mut i: usize = 0;
    proof {
        assert(pv.take(0) =~= Seq::<Seq<Seq<char>>>::empty());
    }
    while i < n
        invariant
            n == paths@.len(),
            pv == paths_view(paths@),
            0 <= i <= n,
            total as int == total_interior_len(pv.take(i as int)),
        decreases n - i,
    {
        proof {
            assert(pv[i as int] == names(paths@[i as int]@));
            lemma_total_take_le(pv, i as int);
            lemma_interiors_take_step(pv, i as int);
        }
        if paths[i].len() > 2 {
            let extra = paths[i].len() - 2;
            proof {
                assert(interior(pv[i as int]).len() == extra as int);
            }
            if extra > usize::MAX - total {
                proof {
                    lemma_total_suffix_ge(pv, i + 1);
                }
                return None;
            }
            total = total + extra;
        } else {
            proof {
                assert(interior(pv[i as int]).len() == 0);
            }
        }
        i = i + 1;
    }
    proof {
        assert(pv.take(n as int) =~= pv);
    }
    Some(calculate_reuse_score(paths))
}

/// The whole batch's interior total is at least any prefix's.
proof fn lemma_total_suffix_ge(pv: Seq<Seq<Seq<char>>>, i: int)
    requires
        0 <= i <= pv.len(),
    ensures
        total_interior_len(pv) >= total_interior_len(pv.take(i)),
    decreases pv.len() - i,
{
    if i < pv.len() {
        lemma_interiors_take_step(pv, i);
        lemma_total_suffix_ge(pv, i + 1);
    } else {
        assert(pv.take(i) =~= pv);
    }
}

/// The one count-map value that agrees with an interior stream: its
/// distinct elements in first-occurrence order, each with its number of
/// occurrences.
pub open spec fn counts_of_stream(s: Seq<Seq<char>>) -> Seq<(Seq<char>, int)> {
    Seq::new(dedup_first(s).len(), |k: int| (dedup_first(s)[k], count_occ(s, dedup_first(s)[k])))
}

/// A count map that agrees with a stream has exactly that stream's count
/// value.
pub proof fn lemma_matches_stream_counts(f: FreqMap, s: Seq<Seq<char>>)
    requires
        f.matches_stream(s),
    ensures
        f.view_counts() == counts_of_stream(s),
{
    let keys = f.entries@.map_values(|e: NodeCount| e.node@);
    assert(f.view_counts() =~= counts_of_stream(s)) by {
        assert(f.entries@.len() == keys.len());
        assert(keys.len() == dedup_first(s).len());
        assert forall|k: int| 0 <= k < f.view_counts().len() implies f.view_counts()[k]
            == counts_of_stream(s)[k] by {
            assert(keys[k] == f.entries@[k].node@);
            assert(f.entries@[k].node@ == dedup_first(s)[k]);
        }
    }
}

/// The node keys of a count map that agrees with a stream hold no repeats.
pub proof fn lemma_freq_keys_distinct(f: FreqMap, s: Seq<Seq<char>>)
    requires
        f.matches_stream(s),
    ensures
        distinct_seq(f.entries@.map_values(|e: NodeCount| e.node@)),
{
    lemma_dedup_distinct(s);
}

/// One mixer candidate: a node with its interior-occurrence count on the
/// licit batch and on the illicit batch. Its mixer score is the ratio of
/// the illicit count to the licit count plus one (the Laplace smoothing
/// that avoids division by zero); the counts are reported so the caller
/// can form that ratio.
pub struct MixerEntry {
    pub node: String,
    pub licit: usize,
    pub illicit: usize,
}

/// The mathematical value of a list of mixer entries.
pub open spec fn mixer_view(v: Seq<MixerEntry>) -> Seq<(Seq<char>, int, int)> {
    v.map_values(|e: MixerEntry| (e.node@, e.licit as int, e.illicit as int))
}

/// Some entry of `v` is keyed by `k`.
pub open spec fn has_key(v: Seq<(Seq<char>, int)>, k: Seq<char>) -> bool {
    exists|j: int| 0 <= j < v.len() && v[j].0 == k
}

/// The mixer entries contributed by the illicit keys `ill[i..]`, each
/// paired with its licit count.
pub open spec fn mixer_ill(
    ill: Seq<(Seq<char>, int)>,
    lic: Seq<(Seq<char>, int)>,
    i: int,
) -> Seq<(Seq<char>, int, int)>
    decreases ill.len() - i,
{
    if i < 0 || i >= ill.len() {
        Seq::empty()
    } else {
        seq![(ill[i].0, freq_of(lic, ill[i].0), ill[i].1)] + mixer_ill(ill, lic, i + 1)
    }
}

/// The mixer entries contributed by the licit keys `lic[i..]` that appear
/// on no illicit path.
pub open spec fn mixer_lic(
    ill: Seq<(Seq<char>, int)>,
    lic: Seq<(Seq<char>, int)>,
    i: int,
) -> Seq<(Seq<char>, int, int)>
    decreases lic.len() - i,
{
    if i < 0 || i >= lic.len() {
        Seq::empty()
    } else if has_key(ill, lic[i].0) {
        mixer_lic(ill, lic, i + 1)
    } else {
        seq![(lic[i].0, lic[i].1, 0int)] + mixer_lic(ill, lic, i + 1)
    }
}

/// The full mixer list: every illicit key first, then the licit-only keys.
pub open spec fn mixer_spec(
    ill: Seq<(Seq<char>, int)>,
    lic: Seq<(Seq<char>, int)>,
) -> Seq<(Seq<char>, int, int)> {
    mixer_ill(ill, lic, 0) + mixer_lic(ill, lic, 0)
}

/// Combine the two batches' count maps into one mixer entry per node of
/// their key union: nodes seen on illicit paths first (with their licit
/// count, or zero), then nodes seen only on licit paths (with illicit
/// count zero).
pub fn compute_mixer_data(freq_illicit: &FreqMap, freq_licit: &FreqMap) -> (r: Vec<MixerEntry>)
    ensures
        mixer_view(r@) == mixer_spec(freq_illicit.view_counts(), freq_licit.view_counts()),
{
    let ghost ill = freq_illicit.view_counts();
    let ghost lic = freq_licit.view_counts();
    let mut r: Vec<MixerEntry> = Vec::new();
    let ni = freq_illicit.entries.len();
    let mut i: usize = 0;
    while i < ni
        invariant
            ill == freq_illicit.view_counts(),
            lic == freq_licit.view_counts(),
            ni == freq_illicit.entries@.len(),
            0 <= i <= ni,
            mixer_view(r@) + mixer_ill(ill, lic, i as int) == mixer_ill(ill, lic, 0),
        decreases ni - i,
    {
        let ghost pre = mixer_view(r@);
        let ghost rest = mixer_ill(ill, lic, i + 1);
        let node = &freq_illicit.entries[i].node;
        let licit_count = freq_licit.get(node);
        let entry = MixerEntry {
            node: node.clone(),
            licit: licit_count,
            illicit: freq_illicit.entries[i].count,
        };
        r.push(entry);
        proof {
            assert(ill[i as int] == (node@, freq_illicit.entries@[i as int].count as int));
            assert(mixer_view(r@) =~= pre + seq![(node@, licit_count as int, ill[i as int].1)]);
            assert(pre + (seq![(ill[i as int].0, freq_of(lic, ill[i as int].0), ill[i as int].1)]
                + rest) =~= (pre + seq![
                (ill[i as int].0, freq_of(lic, ill[i as int].0), ill[i as int].1),
            ]) + rest);
        }
        i = i + 1;
    }
    proof {
        assert(mixer_view(r@) + Seq::<(Seq<char>, int, int)>::empty() =~= mixer_view(r@));
        assert(mixer_view(r@) == mixer_ill(ill, lic, 0));
    }
    let ghost base = mixer_view(r@);
    let nl = freq_licit.entries.len();
    let mut j: usize = 0;
    while j < nl
        invariant
            ill == freq_illicit.view_counts(),
            lic == freq_licit.view_counts(),
            nl == freq_licit.entries@.len(),
            0 <= j <= nl,
            base == mixer_ill(ill, lic, 0),
            mixer_view(r@) + mixer_lic(ill, lic, j as int) == base + mixer_lic(ill, lic, 0),
        decreases nl - j,
    {
        let ghost pre = mixer_view(r@);
        let ghost rest = mixer_lic(ill, lic, j + 1);
        let node = &freq_licit.entries[j].node;
        proof {
            assert(lic[j as int] == (node@, freq_licit.entries@[j as int].count as int));
        }
        match freq_illicit.find(node) {
            Some(ix) => {
                proof {
                    assert(ill[ix as int].0 == node@);
                    assert(has_key(ill, lic[j as int].0));
                }
            },
            None => {
                proof {
                    assert(!has_key(ill, lic[j as int].0)) by {
                        if has_key(ill, lic[j as int].0) {
                            let w = choose|w: int| 0 <= w < ill.len() && ill[w].0 == node@;
                            assert(freq_illicit.entries@.map_values(|e: NodeCount| e.node@)[w]
                                == node@);
                        }
                    }
                }
                let entry = MixerEntry {
                    node: node.clone(),
                    licit: freq_licit.entries[j].count,
                    illicit: 0,
                };
                r.push(entry);
                proof {
                    assert(mixer_view(r@) =~= pre + seq![(lic[j as int].0, lic[j as int].1, 0int)]);
                    assert(pre + (seq![(lic[j as int].0, lic[j as int].1, 0int)] + rest) =~= (pre
                        + seq![(lic[j as int].0, lic[j as int].1, 0int)]) + rest);
                }
            },
        }
        j = j + 1;
    }
    proof {
        assert(mixer_view(r@) + Seq::<(Seq<char>, int, int)>::empty() =~= mixer_view(r@));
    }
    r
}

/// The node keys of a mixer list.
pub open spec fn mixer_keys(v: Seq<(Seq<char>, int, int)>) -> Seq<Seq<char>> {
    v.map_values(|e: (Seq<char>, int, int)| e.0)
}

/// The keys of a key list.
pub open spec fn pair_keys(v: Seq<(Seq<char>, int)>) -> Seq<Seq<char>> {
    v.map_values(|p: (Seq<char>, int)| p.0)
}

/// The illicit part of the mixer list carries exactly the illicit keys
/// from `i` on, in order.
proof fn lemma_mixer_ill_keys(ill: Seq<(Seq<char>, int)>, lic: Seq<(Seq<char>, int)>, i: int)
    requires
        0 <= i <= ill.len(),
    ensures
        mixer_keys(mixer_ill(ill, lic, i)) =~= pair_keys(ill).skip(i),
    decreases ill.len() - i,
{
    if i < ill.len() {
        lemma_mixer_ill_keys(ill, lic, i + 1);
        let e = (ill[i].0, freq_of(lic, ill[i].0), ill[i].1);
        assert(mixer_ill(ill, lic, i) == seq![e] + mixer_ill(ill, lic, i + 1));
        assert forall|k: int|
            0 <= k < mixer_keys(mixer_ill(ill, lic, i)).len() implies mixer_keys(
            mixer_ill(ill, lic, i),
        )[k] == pair_keys(ill).skip(i)[k] by {
            if k > 0 {
                assert(mixer_ill(ill, lic, i)[k] == mixer_ill(ill, lic, i + 1)[k - 1]);
                assert(mixer_keys(mixer_ill(ill, lic, i + 1))[k - 1] == pair_keys(ill).skip(
                    i + 1,
                )[k - 1]);
            }
        }
    }
}

/// The licit-only part of the mixer list has repeat-free keys, none of
/// which is an illicit key.
proof fn lemma_mixer_lic_keys(ill: Seq<(Seq<char>, int)>, lic: Seq<(Seq<char>, int)>, i: int)
    requires
        0 <= i <= lic.len(),
        distinct_seq(pair_keys(lic)),
    ensures
        distinct_seq(mixer_keys(mixer_lic(ill, lic, i))),
        forall|x: Seq<char>|
            #[trigger] mixer_keys(mixer_lic(ill, lic, i)).contains(x) ==> !has_key(ill, x)
                && exists|j: int| i <= j < lic.len() && lic[j].0 == x,
    decreases lic.len() - i,
{
    if i < lic.len() {
        lemma_mixer_lic_keys(ill, lic, i + 1);
        let rest = mixer_keys(mixer_lic(ill, lic, i + 1));
        if !has_key(ill, lic[i].0) {
            let full = mixer_keys(mixer_lic(ill, lic, i));
            assert(full =~= seq![lic[i].0] + rest);
            assert forall|x: Seq<char>| full.contains(x) implies !has_key(ill, x) && exists|j: int|
                i <= j < lic.len() && lic[j].0 == x by {
                let w = choose|w: int| 0 <= w < full.len() && full[w] == x;
                if w == 0 {
                    assert(lic[i].0 == x);
                    assert(i <= i < lic.len() && lic[i].0 == x);
                } else {
                    assert(rest[w - 1] == x);
                    assert(mixer_keys(mixer_lic(ill, lic, i + 1)).contains(x));
                    let j0 = choose|j0: int| i + 1 <= j0 < lic.len() && lic[j0].0 == x;
                    assert(i <= j0 < lic.len() && lic[j0].0 == x);
                }
            }
            assert forall|a: int, b: int| 0 <= a < b < full.len() implies full[a] != full[b] by {
                if a == 0 {
                    assert(rest[b - 1] == full[b]);
                    assert(mixer_keys(mixer_lic(ill, lic, i + 1)).contains(full[b]));
                    if full[b] == lic[i].0 {
                        let j = choose|j: int|
                            i + 1 <= j < lic.len() && lic[j].0 == full[b];
                        assert(pair_keys(lic)[i] == pair_keys(lic)[j]);
                        assert(false);
                    }
                } else {
                    assert(rest[a - 1] == full[a] && rest[b - 1] == full[b]);
                }
            }
        }
    }
}

/// When both count maps have repeat-free keys, so has the mixer list.
pub proof fn lemma_mixer_keys_distinct(ill: Seq<(Seq<char>, int)>, lic: Seq<(Seq<char>, int)>)
    requires
        distinct_seq(pair_keys(ill)),
        distinct_seq(pair_keys(lic)),
    ensures
        distinct_seq(mixer_keys(mixer_spec(ill, lic))),
{
    lemma_mixer_ill_keys(ill, lic, 0);
    lemma_mixer_lic_keys(ill, lic, 0);
    let ki = mixer_keys(mixer_ill(ill, lic, 0));
    let kl = mixer_keys(mixer_lic(ill, lic, 0));
    let full = mixer_keys(mixer_spec(ill, lic));
    assert(ki =~= pair_keys(ill).skip(0));
    assert(pair_keys(ill).skip(0) =~= pair_keys(ill));
    assert(full =~= ki + kl);
    assert forall|a: int, b: int| 0 <= a < b < full.len() implies full[a] != full[b] by {
        if b < ki.len() {
            assert(full[a] == ki[a] && full[b] == ki[b]);
            assert(pair_keys(ill)[a] != pair_keys(ill)[b]);
        } else if a >= ki.len() {
            assert(full[a] == kl[a - ki.len()] && full[b] == kl[b - ki.len()]);
        } else {
            assert(full[a] == ki[a] && full[b] == kl[b - ki.len()]);
            assert(mixer_keys(mixer_lic(ill, lic, 0)).contains(full[b]));
            assert(!has_key(ill, full[b]));
            if full[a] == full[b] {
                assert(ill[a].0 == full[b]);
                assert(has_key(ill, full[b]));
            }
        }
    }
}

/// The keys of a count map, as the key list of its value.
pub proof fn lemma_freq_view_keys(f: FreqMap)
    ensures
        pair_keys(f.view_counts()) =~= f.entries@.map_values(|e: NodeCount| e.node@),
{
}

/// `freq_of` is decided by the entries from the first match on.
proof fn lemma_freq_of_skip(v: Seq<(Seq<char>, int)>, node: Seq<char>, i: int)
    requires
        0 <= i <= v.len(),
        forall|k: int| 0 <= k < i ==> v[k].0 != node,
    ensures
        i < v.len() && v[i].0 == node ==> freq_of(v, node) == v[i].1,
        i == v.len() ==> freq_of(v, node) == 0,
    decreases i, v.len(),
{
    if i == 0 {
        if v.len() > 0 && v[0].0 != node {
            lemma_freq_of_skip(v.drop_first(), node, 0);
        }
    } else {
        lemma_freq_of_skip(v.drop_first(), node, i - 1);
        if i < v.len() && v[i].0 == node {
            assert(v.drop_first()[i - 1] == v[i]);
        }
    }
}



/// Idempotence of the scorer: two count maps that agree with the same
/// interior stream, and two mixer lists over the same count maps,
/// coincide.
pub proof fn lemma_scorer_deterministic(
    f1: FreqMap,
    f2: FreqMap,
    s: Seq<Seq<char>>,
    ill: Seq<(Seq<char>, int)>,
    lic: Seq<(Seq<char>, int)>,
    m1: Seq<(Seq<char>, int, int)>,
    m2: Seq<(Seq<char>, int, int)>,
)
    requires
        f1.matches_stream(s),
        f2.matches_stream(s),
        m1 == mixer_spec(ill, lic),
        m2 == mixer_spec(ill, lic),
    ensures
        f1.view_counts() == f2.view_counts(),
        m1 == m2,
{
    assert(f1.view_counts() =~= f2.view_counts()) by {
        let k1 = f1.entries@.map_values(|e: NodeCount| e.node@);
        assert(f1.entries@.len() == k1.len());
        assert(f2.entries@.len() == dedup_first(s).len());
        assert forall|k: int| 0 <= k < f1.view_counts().len() implies f1.view_counts()[k]
            == f2.view_counts()[k] by {
            assert(f1.entries@.map_values(|e: NodeCount| e.node@)[k] == f1.entries@[k].node@);
            assert(f2.entries@.map_values(|e: NodeCount| e.node@)[k] == f2.entries@[k].node@);
            assert(f1.entries@[k].node@ == dedup_first(s)[k]);
            assert(f2.entries@[k].node@ == dedup_first(s)[k]);
        }
    }
}

} // verus!
