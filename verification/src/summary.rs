//! Memory-bounded path summaries: instead of materializing paths, record
//! per `(start, target)` pair how many timestamp-monotonic simple paths
//! were completed (up to a cap) and their cumulative depth, where depth
//! counts nodes starting at `1` for the origin.

use vstd::prelude::*;

use crate::graph::Graph;
use crate::graph::TimeMap;
use crate::graph::allows_edge;
use crate::graph::contains_name;
use crate::graph::names;

verus! {

/// Running totals for one `(start, target)` pair: completed-path count,
/// cumulative depth, and whether the target was ever reached (an entry is
/// recorded only then, even when the cap left the count unchanged).
pub struct PairTally {
    pub count: usize,
    pub total_depth: usize,
    pub hit: bool,
}

/// The mathematical value of a tally.
pub open spec fn tally_view(t: PairTally) -> (int, int, bool) {
    (t.count as int, t.total_depth as int, t.hit)
}

/// Bounds kept by every tally: the count never passes the cap, and the
/// cumulative depth never passes `count` paths of `maxd` nodes each.
pub open spec fn tally_wf(t: (int, int, bool), cap: int, maxd: int) -> bool {
    &&& 0 <= t.0 <= cap
    &&& 0 <= t.1 <= t.0 * maxd
}

/// The tally after the search stands at `cur` at `depth` with `onpath` the
/// nodes stacked below it: a completion is counted the instant `cur` equals
/// `target` at depth above one, unless the count already reached `cap`.
pub open spec fn sum_tally(
    g: Graph,
    tm: TimeMap,
    target: Seq<char>,
    cur: Seq<char>,
    depth: nat,
    maxd: nat,
    cap: int,
    onpath: Seq<Seq<char>>,
    t: (int, int, bool),
) -> (int, int, bool)
    decreases maxd - depth, 1int, 0int,
{
    if depth >= maxd || onpath.contains(cur) {
        t
    } else if cur == target && depth > 1 {
        if t.0 >= cap {
            (t.0, t.1, true)
        } else {
            (t.0 + 1, t.1 + depth, true)
        }
    } else {
        sum_scan(g, tm, target, cur, depth, maxd, cap, onpath.push(cur), g.succs_of(cur), 0, t)
    }
}

/// The tally after the successors `succs[i..]` of `cur` are explored in
/// order.
pub open spec fn sum_scan(
    g: Graph,
    tm: TimeMap,
    target: Seq<char>,
    cur: Seq<char>,
    depth: nat,
    maxd: nat,
    cap: int,
    onpath2: Seq<Seq<char>>,
    succs: Seq<Seq<char>>,
    i: int,
    t: (int, int, bool),
) -> (int, int, bool)
    decreases maxd - depth, 0int, succs.len() - i,
{
    if i < 0 || i >= succs.len() || depth >= maxd {
        t
    } else {
        let t2 = if tm.allows(cur, succs[i]) {
            sum_tally(g, tm, target, succs[i], (depth + 1) as nat, maxd, cap, onpath2, t)
        } else {
            t
        };
        sum_scan(g, tm, target, cur, depth, maxd, cap, onpath2, succs, i + 1, t2)
    }
}

/// Depth-bounded, timestamp-monotonic search from `current` toward
/// `target` that counts completions into `tally` instead of storing
/// paths. Terminates on every finite graph, cycles included: the
/// `decreases` clause bounds the recursion by the remaining depth budget.
/// The count never passes `max_path`; once the cap is reached further
/// completions are discarded without being counted. The traversal stack is
/// restored on return.
pub fn dfs_summary(
    graph: &Graph,
    timestamps: &TimeMap,
    current: &String,
    target: &String,
    depth: usize,
    visited_on_path: &mut Vec<String>,
    tally: &mut PairTally,
    max_depth: usize,
    max_path: usize,
)
    requires
        (max_path as int) * (max_depth as int) <= usize::MAX as int,
        tally_wf(tally_view(*old(tally)), max_path as int, max_depth as int),
    ensures
        final(visited_on_path)@ == old(visited_on_path)@,
        tally_view(*final(tally)) == sum_tally(
            *graph,
            *timestamps,
            target@,
            current@,
            depth as nat,
            max_depth as nat,
            max_path as int,
            names(old(visited_on_path)@),
            tally_view(*old(tally)),
        ),
        tally_wf(tally_view(*final(tally)), max_path as int, max_depth as int),
    decreases max_depth - depth,
{
    if depth >= max_depth || contains_name(visited_on_path, current) {
        return ;
    }
    if current.eq(target) && depth > 1 {
        if tally.count >= max_path {
            tally.hit = true;
            return ;
        }
        proof {
            assert((tally.count + 1) * (max_depth as int) == (tally.count as int) * (
            max_depth as int) + (max_depth as int)) by (nonlinear_arith);
            assert((tally.count + 1) * (max_depth as int) <= (max_path as int) * (
            max_depth as int)) by (nonlinear_arith)
                requires
                    tally.count + 1 <= max_path as int,
                    max_depth as int >= 0,
            ;
        }
        tally.count = tally.count + 1;
        tally.total_depth = tally.total_depth + depth;
        tally.hit = true;
        return ;
    }
    visited_on_path.push(current.clone());
    let ghost onpath2 = names(visited_on_path@);
    proof {
        assert(onpath2 =~= names(old(visited_on_path)@).push(current@));
    }
    match graph.lookup(current) {
        Some(ns) => {
            let ghost succs = names(ns@);
            let n = ns.len();
            let mut i: usize = 0;
            while i < n
                invariant
                    n == ns@.len(),
                    succs == names(ns@),
                    succs == graph.succs_of(current@),
                    0 <= i <= n,
                    depth < max_depth,
                    (max_path as int) * (max_depth as int) <= usize::MAX as int,
                    visited_on_path@ == old(visited_on_path)@.push(*current),
                    onpath2 == names(visited_on_path@),
                    tally_wf(tally_view(*tally), max_path as int, max_depth as int),
                    sum_scan(
                        *graph,
                        *timestamps,
                        target@,
                        current@,
                        depth as nat,
                        max_depth as nat,
                        max_path as int,
                        onpath2,
                        succs,
                        i as int,
                        tally_view(*tally),
                    ) == sum_scan(
                        *graph,
                        *timestamps,
                        target@,
                        current@,
                        depth as nat,
                        max_depth as nat,
                        max_path as int,
                        onpath2,
                        succs,
                        0,
                        tally_view(*old(tally)),
                    ),
                decreases n - i,
            {
                proof {
                    assert(succs[i as int] == ns@[i as int]@);
                }
                if allows_edge(timestamps, current, &ns[i]) && depth < max_depth {
                    dfs_summary(
                        graph,
                        timestamps,
                        &ns[i],
                        target,
                        depth + 1,
                        visited_on_path,
                        tally,
                        max_depth,
                        max_path,
                    );
                }
                i = i + 1;
            }
        },
        None => {
            proof {
                assert(graph.succs_of(current@) =~= Seq::<Seq<char>>::empty());
            }
        },
    }
    visited_on_path.pop();
    proof {
        assert(visited_on_path@ =~= old(visited_on_path)@);
    }
}

/// One recorded summary entry, keyed by its `(start, target)` pair.
pub struct PathStat {
    pub start: String,
    pub target: String,
    pub count: usize,
    pub total_depth: usize,
}

/// The mathematical value of a list of summary entries.
pub open spec fn stats_view(v: Seq<PathStat>) -> Seq<((Seq<char>, Seq<char>), (int, int))> {
    v.map_values(
        |s: PathStat| ((s.start@, s.target@), (s.count as int, s.total_depth as int)),
    )
}

/// Index of the first entry with key `key`, or `-1` when none matches.
pub open spec fn find_stat(
    stats: Seq<((Seq<char>, Seq<char>), (int, int))>,
    key: (Seq<char>, Seq<char>),
) -> int
    decreases stats.len(),
{
    if stats.len() == 0 {
        -1
    } else if stats[0].0 == key {
        0
    } else {
        let r = find_stat(stats.drop_first(), key);
        if r < 0 {
            -1
        } else {
            r + 1
        }
    }
}

/// A forward scan that found no match before `i` pins the first-match
/// index.
proof fn lemma_find_stat_prefix(
    stats: Seq<((Seq<char>, Seq<char>), (int, int))>,
    key: (Seq<char>, Seq<char>),
    i: int,
)
    requires
        0 <= i <= stats.len(),
        forall|k: int| 0 <= k < i ==> stats[k].0 != key,
    ensures
        i < stats.len() && stats[i].0 == key ==> find_stat(stats, key) == i,
        i == stats.len() ==> find_stat(stats, key) == -1,
    decreases i, stats.len(),
{
    if i == 0 {
        if stats.len() == 0 {
        } else if stats[0].0 == key {
        } else {
            lemma_find_stat_prefix(stats.drop_first(), key, 0);
        }
    } else {
        assert(stats[0].0 != key);
        lemma_find_stat_prefix(stats.drop_first(), key, i - 1);
        assert(forall|k: int|
            0 <= k < i - 1 ==> stats.drop_first()[k] == stats[k + 1]);
        if i < stats.len() && stats[i].0 == key {
            assert(stats.drop_first()[i - 1].0 == key);
        }
    }
}

/// The summary list after one `(start, target)` pair is processed: the
/// pair's tally is resumed from its existing entry, the bounded search is
/// run, and the entry is written back (or created) exactly when the target
/// was ever reached.
pub open spec fn summary_step(
    g: Graph,
    tm: TimeMap,
    maxd: nat,
    cap: int,
    stats: Seq<((Seq<char>, Seq<char>), (int, int))>,
    start: Seq<char>,
    target: Seq<char>,
) -> Seq<((Seq<char>, Seq<char>), (int, int))> {
    let key = (start, target);
    let idx = find_stat(stats, key);
    let t0 = if idx >= 0 {
        (stats[idx].1.0, stats[idx].1.1, true)
    } else {
        (0int, 0int, false)
    };
    let t1 = sum_tally(g, tm, target, start, 1, maxd, cap, Seq::empty(), t0);
    if t1.2 {
        if idx >= 0 {
            stats.update(idx, (key, (t1.0, t1.1)))
        } else {
            stats.push((key, (t1.0, t1.1)))
        }
    } else {
        stats
    }
}

/// The summary list after every pair of `starts[i..] x targets`, with the
/// pair `(starts[i], targets[j..])` next in line.
pub open spec fn summary_pairs(
    g: Graph,
    tm: TimeMap,
    starts: Seq<Seq<char>>,
    targets: Seq<Seq<char>>,
    maxd: nat,
    cap: int,
    i: int,
    j: int,
    stats: Seq<((Seq<char>, Seq<char>), (int, int))>,
) -> Seq<((Seq<char>, Seq<char>), (int, int))>
    decreases starts.len() - i, targets.len() - j,
{
    if i < 0 || j < 0 || i >= starts.len() {
        stats
    } else if j >= targets.len() {
        summary_pairs(g, tm, starts, targets, maxd, cap, i + 1, 0, stats)
    } else {
        summary_pairs(
            g,
            tm,
            starts,
            targets,
            maxd,
            cap,
            i,
            j + 1,
            summary_step(g, tm, maxd, cap, stats, starts[i], targets[j]),
        )
    }
}

/// Aggregate path counts per `(start, target)` pair.
pub struct SummaryMap {
    pub entries: Vec<PathStat>,
}

impl SummaryMap {
    /// The mathematical value of the map.
    pub open spec fn view_stats(self) -> Seq<((Seq<char>, Seq<char>), (int, int))> {
        stats_view(self.entries@)
    }

    /// The `(count, total_depth)` recorded for `(start, target)`, if any.
    pub fn get(&self, start: &String, target: &String) -> (r: Option<(usize, usize)>)
        ensures
            match r {
                Some(ct) => {
                    let idx = find_stat(self.view_stats(), (start@, target@));
                    &&& idx >= 0
                    &&& self.view_stats()[idx].1 == (ct.0 as int, ct.1 as int)
                },
                None => find_stat(self.view_stats(), (start@, target@)) == -1,
            },
    {
        match find_entry(&self.entries, start, target) {
            Some(ix) => Some((self.entries[ix].count, self.entries[ix].total_depth)),
            None => None,
        }
    }
}

/// Index of the first entry for `(start, target)`, if any.
fn find_entry(entries: &Vec<PathStat>, start: &String, target: &String) -> (r: Option<usize>)
    ensures
        match r {
            Some(ix) => {
                &&& 0 <= ix < entries@.len()
                &&& entries@[ix as int].start@ == start@
                &&& entries@[ix as int].target@ == target@
                &&& find_stat(stats_view(entries@), (start@, target@)) == ix
            },
            None => find_stat(stats_view(entries@), (start@, target@)) == -1,
        },
{
    let n = entries.len();
    let mut i: usize = 0;
    while i < n
        invariant
            n == entries@.len(),
            0 <= i <= n,
            forall|k: int|
                0 <= k < i ==> #[trigger] stats_view(entries@)[k].0 != (start@, target@),
        decreases n - i,
    {
        if entries[i].start.eq(start) && entries[i].target.eq(target) {
            proof {
                assert(stats_view(entries@)[i as int].0 == (start@, target@));
                lemma_find_stat_prefix(stats_view(entries@), (start@, target@), i as int);
            }
            return Some(i);
        }
        proof {
            assert(stats_view(entries@)[i as int].0 == (entries@[i as int].start@, entries@[i as int].target@));
        }
        i = i + 1;
    }
    proof {
        lemma_find_stat_prefix(stats_view(entries@), (start@, target@), n as int);
    }
    None
}

/// Run the bounded summary search for every `(start, target)` pair in the
/// cross product of the two lists, each from depth `1` with a fresh
/// traversal stack, and record `(count, total_depth)` per pair. Every
/// recorded count is at most `max_path`.
pub fn summarize_paths_to_targets(
    graph: &Graph,
    timestamps: &TimeMap,
    start_nodes: &Vec<String>,
    end_nodes: &Vec<String>,
    max_depth: usize,
    max_path: usize,
) -> (r: SummaryMap)
    requires
        (max_path as int) * (max_depth as int) <= usize::MAX as int,
    ensures
        r.view_stats() == summary_pairs(
            *graph,
            *timestamps,
            names(start_nodes@),
            names(end_nodes@),
            max_depth as nat,
            max_path as int,
            0,
            0,
            Seq::empty(),
        ),
        forall|k: int|
            0 <= k < r.entries@.len() ==> #[trigger] r.entries@[k].count <= max_path,
{
    let ghost g = *graph;
    let ghost tm = *timestamps;
    let ghost starts = names(start_nodes@);
    let ghost targets = names(end_nodes@);
    let ghost m = max_depth as nat;
    let ghost cap = max_path as int;
    let mut result = SummaryMap { entries: Vec::new() };
    let ns = start_nodes.len();
    let nt = end_nodes.len();
    let mut i: usize = 0;
    proof {
        assert(stats_view(Seq::<PathStat>::empty()) =~= Seq::<
            ((Seq<char>, Seq<char>), (int, int)),
        >::empty());
    }
    while i < ns
        invariant
            g == *graph,
            tm == *timestamps,
            m == max_depth as nat,
            cap == max_path as int,
            (max_path as int) * (max_depth as int) <= usize::MAX as int,
            ns == start_nodes@.len(),
            nt == end_nodes@.len(),
            starts == names(start_nodes@),
            targets == names(end_nodes@),
            0 <= i <= ns,
            forall|k: int|
                0 <= k < result.entries@.len() ==> tally_wf(
                    (
                        #[trigger] result.entries@[k].count as int,
                        result.entries@[k].total_depth as int,
                        true,
                    ),
                    cap,
                    m as int,
                ),
            summary_pairs(g, tm, starts, targets, m, cap, i as int, 0, stats_view(result.entries@))
                == summary_pairs(g, tm, starts, targets, m, cap, 0, 0, Seq::empty()),
        decreases ns - i,
    {
        let mut j: usize = 0;
        while j < nt
            invariant
                g == *graph,
                tm == *timestamps,
                m == max_depth as nat,
                cap == max_path as int,
                (max_path as int) * (max_depth as int) <= usize::MAX as int,
                ns == start_nodes@.len(),
                nt == end_nodes@.len(),
                starts == names(start_nodes@),
                targets == names(end_nodes@),
                0 <= i < ns,
                0 <= j <= nt,
                forall|k: int|
                    0 <= k < result.entries@.len() ==> tally_wf(
                        (
                            #[trigger] result.entries@[k].count as int,
                            result.entries@[k].total_depth as int,
                            true,
                        ),
                        cap,
                        m as int,
                    ),
                summary_pairs(
                    g,
                    tm,
                    starts,
                    targets,
                    m,
                    cap,
                    i as int,
                    j as int,
                    stats_view(result.entries@),
                ) == summary_pairs(g, tm, starts, targets, m, cap, 0, 0, Seq::empty()),
            decreases nt - j,
        {
            let ghost stats0 = stats_view(result.entries@);
            let start = &start_nodes[i];
            let target = &end_nodes[j];
            proof {
                assert(starts[i as int] == start_nodes@[i as int]@);
                assert(targets[j as int] == end_nodes@[j as int]@);
            }
            let idx = find_entry(&result.entries, start, target);
            let mut tally = match idx {
                Some(ix) => PairTally {
                    count: result.entries[ix].count,
                    total_depth: result.entries[ix].total_depth,
                    hit: true,
                },
                None => PairTally { count: 0, total_depth: 0, hit: false },
            };
            let mut visited: Vec<String> = Vec::new();
            proof {
                assert(names(Seq::<String>::empty()) =~= Seq::<Seq<char>>::empty());
            }
            dfs_summary(
                graph,
                timestamps,
                start,
                target,
                1,
                &mut visited,
                &mut tally,
                max_depth,
                max_path,
            );
            if tally.hit {
                match idx {
                    Some(ix) => {
                        let entry = PathStat {
                            start: start.clone(),
                            target: target.clone(),
                            count: tally.count,
                            total_depth: tally.total_depth,
                        };
                        result.entries.set(ix, entry);
                        proof {
                            assert(stats_view(result.entries@) =~= summary_step(
                                g,
                                tm,
                                m,
                                cap,
                                stats0,
                                starts[i as int],
                                targets[j as int],
                            ));
                        }
                    },
                    None => {
                        let entry = PathStat {
                            start: start.clone(),
                            target: target.clone(),
                            count: tally.count,
                            total_depth: tally.total_depth,
                        };
                        result.entries.push(entry);
                        proof {
                            assert(stats_view(result.entries@) =~= summary_step(
                                g,
                                tm,
                                m,
                                cap,
                                stats0,
                                starts[i as int],
                                targets[j as int],
                            ));
                        }
                    },
                }
            } else {
                proof {
                    assert(stats_view(result.entries@) == summary_step(
                        g,
                        tm,
                        m,
                        cap,
                        stats0,
                        starts[i as int],
                        targets[j as int],
                    ));
                }
            }
            j = j + 1;
        }
        i = i + 1;
    }
    result
}



/// Idempotence of the summarizer: two summaries of the same inputs
/// coincide.
pub proof fn lemma_summarize_deterministic(
    g: Graph,
    tm: TimeMap,
    starts: Seq<Seq<char>>,
    targets: Seq<Seq<char>>,
    maxd: nat,
    cap: int,
    r1: Seq<((Seq<char>, Seq<char>), (int, int))>,
    r2: Seq<((Seq<char>, Seq<char>), (int, int))>,
)
    requires
        r1 == summary_pairs(g, tm, starts, targets, maxd, cap, 0, 0, Seq::empty()),
        r2 == summary_pairs(g, tm, starts, targets, maxd, cap, 0, 0, Seq::empty()),
    ensures
        r1 == r2,
{
}

} // verus!
