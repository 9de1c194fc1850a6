//! The graph model: a directed adjacency structure keyed by node name, and
//! the auxiliary per-node timestamp map that constrains traversal.

use vstd::prelude::*;

verus! {

/// The character sequences of a list of node names.
pub open spec fn names(v: Seq<String>) -> Seq<Seq<char>> {
    v.map_values(|s: String| s@)
}

/// The character sequences of a list of paths.
pub open spec fn paths_view(v: Seq<Vec<String>>) -> Seq<Seq<Seq<char>>> {
    v.map_values(|p: Vec<String>| names(p@))
}

/// An exact copy of a list of node names.
pub fn clone_path(v: &Vec<String>) -> (r: Vec<String>)
    ensures
        r@ == v@,
{
    let n = v.len();
    let mut r: Vec<String> = Vec::new();
    let mut i: usize = 0;
    while i < n
        invariant
            n == v@.len(),
            0 <= i <= n,
            r@ == v@.take(i as int),
        decreases n - i,
    {
        r.push(v[i].clone());
        proof {
            assert(r@ =~= v@.take(i + 1));
        }
        i = i + 1;
    }
    proof {
        assert(v@.take(n as int) =~= v@);
    }
    r
}

/// No two elements of the sequence are equal.
pub open spec fn distinct_seq<A>(s: Seq<A>) -> bool {
    forall|i: int, j: int| 0 <= i < j < s.len() ==> s[i] != s[j]
}

/// One adjacency entry: a node and its successor list.
pub struct GraphEntry {
    pub node: String,
    pub succs: Vec<String>,
}

/// A directed graph as an adjacency list. A node with no entry is a sink:
/// absence is equivalent to an empty successor set.
pub struct Graph {
    pub entries: Vec<GraphEntry>,
}

/// The successor list recorded for `n` by the first matching entry, as
/// character sequences; empty when no entry matches.
pub open spec fn succs_in(entries: Seq<GraphEntry>, n: Seq<char>) -> Seq<Seq<char>>
    decreases entries.len(),
{
    if entries.len() == 0 {
        Seq::empty()
    } else if entries[0].node@ == n {
        names(entries[0].succs@)
    } else {
        succs_in(entries.drop_first(), n)
    }
}

impl Graph {
    /// Node names of the entries, in order.
    pub open spec fn node_names(self) -> Seq<Seq<char>> {
        self.entries@.map_values(|e: GraphEntry| e.node@)
    }

    /// The graph has an adjacency entry for `n`.
    pub open spec fn has_node(self, n: Seq<char>) -> bool {
        exists|i: int| 0 <= i < self.entries@.len() && self.entries@[i].node@ == n
    }

    /// The successors of `n` (empty when `n` has no entry).
    pub open spec fn succs_of(self, n: Seq<char>) -> Seq<Seq<char>> {
        succs_in(self.entries@, n)
    }

    /// There is an edge from `u` to `v`.
    pub open spec fn edge(self, u: Seq<char>, v: Seq<char>) -> bool {
        self.succs_of(u).contains(v)
    }

    /// Well-formed: node names are unique and each successor list is a set
    /// (no repeated name).
    pub open spec fn wf(self) -> bool {
        &&& distinct_seq(self.node_names())
        &&& forall|i: int|
            0 <= i < self.entries@.len() ==> distinct_seq(names(#[trigger] self.entries@[i].succs@))
    }

    /// An empty graph.
    pub fn new() -> (r: Graph)
        ensures
            r.wf(),
            r.entries@.len() == 0,
            forall|n: Seq<char>| !r.has_node(n),
            forall|n: Seq<char>| #[trigger] r.succs_of(n) == Seq::<Seq<char>>::empty(),
    {
        let g = Graph { entries: Vec::new() };
        proof {
            assert(g.node_names() =~= Seq::<Seq<char>>::empty());
            assert forall|n: Seq<char>| #[trigger] g.succs_of(n) == Seq::<Seq<char>>::empty() by {
                reveal_with_fuel(succs_in, 1);
            }
        }
        g
    }

    /// Index of the first entry for `node`, if any.
    fn lookup_idx(&self, node: &String) -> (r: Option<usize>)
        ensures
            match r {
                Some(i) => {
                    &&& 0 <= i < self.entries@.len()
                    &&& self.entries@[i as int].node@ == node@
                    &&& forall|k: int| 0 <= k < i ==> self.entries@[k].node@ != node@
                },
                None => !self.has_node(node@),
            },
    {
        let n = self.entries.len();
        let mut i: usize = 0;
        while i < n
            invariant
                n == self.entries@.len(),
                0 <= i <= n,
                forall|k: int| 0 <= k < i ==> self.entries@[k].node@ != node@,
            decreases n - i,
        {
            if self.entries[i].node.eq(node) {
                return Some(i);
            }
            i = i + 1;
        }
        None
    }

    /// The successor list of `node`, or `None` when the graph has no entry
    /// for it.
    pub fn lookup(&self, node: &String) -> (r: Option<&Vec<String>>)
        ensures
            match r {
                Some(ns) => self.has_node(node@) && names(ns@) == self.succs_of(node@),
                None => !self.has_node(node@) && self.succs_of(node@) == Seq::<Seq<char>>::empty(),
            },
    {
        match self.lookup_idx(node) {
            Some(i) => {
                proof {
                    lemma_succs_in_skip(self.entries@, node@, i as int);
                    assert(self.entries@.skip(i as int)[0] == self.entries@[i as int]);
                }
                Some(&self.entries[i].succs)
            },
            None => {
                proof {
                    lemma_succs_in_absent(self.entries@, node@);
                }
                None
            },
        }
    }

    /// Record the edge `from -> to`, creating the entry for `from` when it is
    /// missing and ignoring a duplicate edge (successor sets hold no
    /// repeats).
    pub fn add_edge(&mut self, from: String, to: String)
        requires
            old(self).wf(),
        ensures
            final(self).wf(),
            forall|n: Seq<char>| #[trigger]
                final(self).has_node(n) == (old(self).has_node(n) || n == from@),
            forall|n: Seq<char>|
                n != from@ ==> #[trigger] final(self).succs_of(n) == old(self).succs_of(n),
            final(self).succs_of(from@) == if old(self).succs_of(from@).contains(to@) {
                old(self).succs_of(from@)
            } else {
                old(self).succs_of(from@).push(to@)
            },
    {
        let ghost entries0 = self.entries@;
        match self.lookup_idx(&from) {
            Some(i) => {
                let ghost oldsuccs = names(entries0[i as int].succs@);
                proof {
                    lemma_succs_in_skip(entries0, from@, i as int);
                    assert(entries0.skip(i as int)[0] == entries0[i as int]);
                    assert(succs_in(entries0, from@) == oldsuccs);
                }
                let entry = self.entries.remove(i);
                let node = entry.node;
                let mut succs = entry.succs;
                let present = contains_name(&succs, &to);
                if !present {
                    succs.push(to);
                }
                let ghost newsuccs = names(succs@);
                proof {
                    if !oldsuccs.contains(to@) {
                        assert(newsuccs =~= oldsuccs.push(to@));
                    } else {
                        assert(newsuccs =~= oldsuccs);
                    }
                }
                self.entries.insert(i, GraphEntry { node, succs });
                proof {
                    let entries1 = self.entries@;
                    assert(entries1 =~= entries0.update(
                        i as int,
                        GraphEntry { node: entries0[i as int].node, succs },
                    ));
                    assert(self.node_names() =~= old(self).node_names());
                    assert forall|n: Seq<char>| #[trigger]
                        final(self).has_node(n) == (old(self).has_node(n) || n == from@) by {
                        if old(self).has_node(n) || n == from@ {
                            let w = if n == from@ {
                                i as int
                            } else {
                                choose|w: int|
                                    0 <= w < entries0.len() && entries0[w].node@ == n
                            };
                            assert(entries1[w].node@ == n);
                        }
                        if final(self).has_node(n) {
                            let w = choose|w: int|
                                0 <= w < entries1.len() && entries1[w].node@ == n;
                            assert(entries0[w].node@ == n || w == i as int);
                        }
                    }
                    assert forall|n: Seq<char>| n != from@ implies #[trigger] final(self).succs_of(
                        n,
                    ) == old(self).succs_of(n) by {
                        lemma_succs_in_update(entries0, i as int, succs, n);
                    }
                    lemma_succs_in_skip(entries1, from@, i as int);
                    assert(entries1.skip(i as int)[0] == entries1[i as int]);
                    assert(final(self).succs_of(from@) == newsuccs);
                }
            },
            None => {
                proof {
                    lemma_succs_in_absent(entries0, from@);
                }
                let mut succs: Vec<String> = Vec::new();
                succs.push(to);
                let ghost newentry = GraphEntry { node: from, succs };
                self.entries.push(GraphEntry { node: from, succs });
                proof {
                    let entries1 = self.entries@;
                    assert(entries1 =~= entries0.push(newentry));
                    assert(self.node_names() =~= old(self).node_names().push(from@));
                    assert forall|n: Seq<char>| #[trigger]
                        final(self).has_node(n) == (old(self).has_node(n) || n == from@) by {
                        if old(self).has_node(n) {
                            let w = choose|w: int|
                                0 <= w < entries0.len() && entries0[w].node@ == n;
                            assert(entries1[w].node@ == n);
                        }
                        if n == from@ {
                            assert(entries1[entries0.len() as int].node@ == n);
                        }
                        if final(self).has_node(n) {
                            let w = choose|w: int|
                                0 <= w < entries1.len() && entries1[w].node@ == n;
                            if w < entries0.len() {
                                assert(entries0[w].node@ == n);
                            }
                        }
                    }
                    assert forall|n: Seq<char>| #[trigger]
                        succs_in(entries1, n) == if n == from@ {
                            names(newentry.succs@)
                        } else {
                            succs_in(entries0, n)
                        } by {
                        lemma_succs_in_push(entries0, newentry, n);
                        if n == from@ {
                            lemma_succs_in_absent(entries0, n);
                        } else if !exists|k: int|
                            0 <= k < entries0.len() && entries0[k].node@ == n {
                            lemma_succs_in_absent(entries0, n);
                        }
                    }
                    assert(names(newentry.succs@) =~= Seq::<Seq<char>>::empty().push(to@));
                    assert(old(self).succs_of(from@) == Seq::<Seq<char>>::empty());
                    assert(!old(self).succs_of(from@).contains(to@));
                }
            },
        }
    }
}

/// One timestamp record: a node and its discretized time step.
pub struct TimeEntry {
    pub node: String,
    pub time: usize,
}

/// The timestamp recorded for `n` by the first matching entry, if any.
pub open spec fn time_in(entries: Seq<TimeEntry>, n: Seq<char>) -> Option<int>
    decreases entries.len(),
{
    if entries.len() == 0 {
        None
    } else if entries[0].node@ == n {
        Some(entries[0].time as int)
    } else {
        time_in(entries.drop_first(), n)
    }
}

/// Per-node timestamps. Later insertions shadow earlier ones, so a reload of
/// the same node overwrites its time. A node with no record is treated as
/// time `0` when departed from and as unboundedly late when entered, which
/// makes traversal into unknown nodes maximally permissive.
pub struct TimeMap {
    pub entries: Vec<TimeEntry>,
}

impl TimeMap {
    /// The recorded timestamp of `n`, if any.
    pub open spec fn time_of(self, n: Seq<char>) -> Option<int> {
        time_in(self.entries@, n)
    }

    /// The timestamp used when departing from `n`: its record, or `0`.
    pub open spec fn src_time(self, n: Seq<char>) -> int {
        match self.time_of(n) {
            None => 0,
            Some(t) => t,
        }
    }

    /// The edge `u -> v` may be traversed: `v` is no earlier than `u`, and a
    /// node without a record can always be entered.
    pub open spec fn allows(self, u: Seq<char>, v: Seq<char>) -> bool {
        match self.time_of(v) {
            None => true,
            Some(tv) => tv >= self.src_time(u),
        }
    }

    /// An empty timestamp map.
    pub fn new() -> (r: TimeMap)
        ensures
            r.entries@.len() == 0,
            forall|n: Seq<char>| #[trigger] r.time_of(n) == None::<int>,
            forall|u: Seq<char>, v: Seq<char>| #[trigger] r.allows(u, v),
    {
        TimeMap { entries: Vec::new() }
    }

    /// Record `time` for `node`, overwriting any earlier record.
    pub fn insert(&mut self, node: String, time: usize)
        ensures
            final(self).time_of(node@) == Some(time as int),
            forall|n: Seq<char>|
                n != node@ ==> #[trigger] final(self).time_of(n) == old(self).time_of(n),
    {
        let ghost entries0 = self.entries@;
        let ghost e = TimeEntry { node, time };
        self.entries.insert(0, TimeEntry { node, time });
        proof {
            assert(self.entries@ =~= entries0.insert(0, e));
            assert(self.entries@[0] == e);
            assert(self.entries@.drop_first() =~= entries0);
        }
    }

    /// The recorded timestamp of `node`, if any.
    pub fn get(&self, node: &String) -> (r: Option<usize>)
        ensures
            self.time_of(node@) == match r {
                Some(t) => Some(t as int),
                None => None::<int>,
            },
    {
        let n = self.entries.len();
        let mut i: usize = 0;
        while i < n
            invariant
                n == self.entries@.len(),
                0 <= i <= n,
                forall|k: int| 0 <= k < i ==> self.entries@[k].node@ != node@,
            decreases n - i,
        {
            if self.entries[i].node.eq(node) {
                proof {
                    lemma_time_in_skip(self.entries@, node@, i as int);
                    assert(self.entries@.skip(i as int)[0] == self.entries@[i as int]);
                }
                return Some(self.entries[i].time);
            }
            i = i + 1;
        }
        proof {
            lemma_time_in_skip(self.entries@, node@, n as int);
            assert(self.entries@.skip(n as int) =~= Seq::<TimeEntry>::empty());
        }
        None
    }
}

/// The timestamp an edge comparison departs from: the record of `u`, or `0`.
pub fn source_time(tm: &TimeMap, u: &String) -> (r: usize)
    ensures
        r as int == tm.src_time(u@),
{
    match tm.get(u) {
        Some(t) => t,
        None => 0,
    }
}

/// Whether the timestamp constraint lets traversal step from `u` to `v`.
pub fn allows_edge(tm: &TimeMap, u: &String, v: &String) -> (r: bool)
    ensures
        r == tm.allows(u@, v@),
{
    match tm.get(v) {
        Some(tv) => tv >= source_time(tm, u),
        None => true,
    }
}

/// When no entry before index `i` matches `n`, the timestamp lookup is
/// decided by the entries from `i` on.
proof fn lemma_time_in_skip(entries: Seq<TimeEntry>, n: Seq<char>, i: int)
    requires
        0 <= i <= entries.len(),
        forall|k: int| 0 <= k < i ==> entries[k].node@ != n,
    ensures
        time_in(entries, n) == time_in(entries.skip(i), n),
    decreases i,
{
    if i > 0 {
        assert(entries.drop_first() =~= entries.skip(1));
        lemma_time_in_skip(entries.skip(1), n, i - 1);
        assert(entries.skip(1).skip(i - 1) =~= entries.skip(i));
    } else {
        assert(entries.skip(0) =~= entries);
    }
}

/// Whether some element of `v` has the same characters as `x`.
pub fn contains_name(v: &Vec<String>, x: &String) -> (r: bool)
    ensures
        r == names(v@).contains(x@),
{
    let n = v.len();
    let mut i: usize = 0;
    while i < n
        invariant
            n == v@.len(),
            0 <= i <= n,
            forall|k: int| 0 <= k < i ==> names(v@)[k] != x@,
        decreases n - i,
    {
        if v[i].eq(x) {
            proof {
                assert(names(v@)[i as int] == x@);
            }
            return true;
        }
        i = i + 1;
    }
    proof {
        assert(forall|k: int| 0 <= k < names(v@).len() ==> names(v@)[k] != x@);
    }
    false
}

/// When no entry before index `i` matches `n`, the lookup result is decided
/// by the entries from `i` on.
proof fn lemma_succs_in_skip(entries: Seq<GraphEntry>, n: Seq<char>, i: int)
    requires
        0 <= i <= entries.len(),
        forall|k: int| 0 <= k < i ==> entries[k].node@ != n,
    ensures
        succs_in(entries, n) == succs_in(entries.skip(i), n),
    decreases i,
{
    if i > 0 {
        assert(entries.drop_first() =~= entries.skip(1));
        lemma_succs_in_skip(entries.skip(1), n, i - 1);
        assert(entries.skip(1).skip(i - 1) =~= entries.skip(i));
    } else {
        assert(entries.skip(0) =~= entries);
    }
}

/// A node with no matching entry has an empty successor list.
proof fn lemma_succs_in_absent(entries: Seq<GraphEntry>, n: Seq<char>)
    requires
        forall|k: int| 0 <= k < entries.len() ==> entries[k].node@ != n,
    ensures
        succs_in(entries, n) == Seq::<Seq<char>>::empty(),
    decreases entries.len(),
{
    if entries.len() > 0 {
        lemma_succs_in_absent(entries.drop_first(), n);
    }
}

/// Replacing the successor list of the entry at `i` leaves every other
/// node's lookup unchanged.
proof fn lemma_succs_in_update(entries: Seq<GraphEntry>, i: int, succs: Vec<String>, n: Seq<char>)
    requires
        0 <= i < entries.len(),
        n != entries[i].node@,
    ensures
        succs_in(
            entries.update(i, GraphEntry { node: entries[i].node, succs }),
            n,
        ) == succs_in(entries, n),
    decreases entries.len(),
{
    let entries2 = entries.update(i, GraphEntry { node: entries[i].node, succs });
    if entries.len() > 0 {
        if i == 0 {
            assert(entries2.drop_first() =~= entries.drop_first());
        } else {
            assert(entries2[0] == entries[0]);
            assert(entries2.drop_first() =~= entries.drop_first().update(
                i - 1,
                GraphEntry { node: entries[i].node, succs },
            ));
            lemma_succs_in_update(entries.drop_first(), i - 1, succs, n);
        }
    }
}

/// Appending an entry only affects the lookup of names that had no entry.
proof fn lemma_succs_in_push(entries: Seq<GraphEntry>, e: GraphEntry, n: Seq<char>)
    ensures
        succs_in(entries.push(e), n) == if exists|k: int|
            0 <= k < entries.len() && entries[k].node@ == n {
            succs_in(entries, n)
        } else if e.node@ == n {
            names(e.succs@)
        } else {
            Seq::<Seq<char>>::empty()
        },
    decreases entries.len(),
{
    if entries.len() == 0 {
        assert(entries.push(e).drop_first() =~= Seq::<GraphEntry>::empty());
        assert(succs_in(Seq::<GraphEntry>::empty(), n) == Seq::<Seq<char>>::empty());
    } else {
        assert(entries.push(e).drop_first() =~= entries.drop_first().push(e));
        lemma_succs_in_push(entries.drop_first(), e, n);
        if entries[0].node@ != n {
            assert((exists|k: int| 0 <= k < entries.len() && entries[k].node@ == n)
                == (exists|k: int|
                0 <= k < entries.drop_first().len() && entries.drop_first()[k].node@ == n)) by {
                if exists|k: int| 0 <= k < entries.len() && entries[k].node@ == n {
                    let w = choose|k: int| 0 <= k < entries.len() && entries[k].node@ == n;
                    assert(entries.drop_first()[w - 1].node@ == n);
                }
                if exists|k: int|
                    0 <= k < entries.drop_first().len() && entries.drop_first()[k].node@ == n {
                    let w = choose|k: int|
                        0 <= k < entries.drop_first().len() && entries.drop_first()[k].node@ == n;
                    assert(entries[w + 1].node@ == n);
                }
            }
        }
    }
}

} // verus!
