//! The sampling driver: out-degree ranking, uniform sampling of node
//! lists, one deterministic analysis trial, and the repeated randomized
//! trials that accumulate per-node mixer-score counts.

use vstd::prelude::*;

use rand::seq::IndexedRandom;

use crate::graph::Graph;
use crate::graph::GraphEntry;
use crate::graph::TimeMap;
use crate::graph::names;
use crate::graph::paths_view;
use crate::explore::dfs_collect_paths;
use crate::explore::reach_list;
use crate::explore::reachable_calculator;
use crate::explore::target_paths;
use crate::score::FreqMap;
use crate::score::MixerEntry;
use crate::score::compute_mixer_data;
use crate::score::interiors;
use crate::score::lemma_freq_keys_distinct;
use crate::score::lemma_freq_view_keys;
use crate::score::lemma_mixer_keys_distinct;
use crate::score::mixer_keys;
use crate::score::mixer_view;
use crate::score::sum_counts;
use crate::score::total_interior_len;
use crate::score::try_reuse_score;
use crate::summary::PathStat;
use crate::summary::stats_view;
use crate::summary::summarize_paths_to_targets;
use crate::summary::summary_pairs;

verus! {

/// A node paired with its out-degree.
pub struct DegEntry {
    pub node: String,
    pub degree: usize,
}

/// The mathematical value of a degree list.
pub open spec fn deg_view(v: Seq<DegEntry>) -> Seq<(Seq<char>, int)> {
    v.map_values(|e: DegEntry| (e.node@, e.degree as int))
}

/// The position at which a count `c` is inserted into a descending list:
/// after every entry at least as large, so equal counts keep their order.
pub open spec fn ins_pos(s: Seq<(Seq<char>, int)>, c: int) -> int
    decreases s.len(),
{
    if s.len() == 0 {
        0
    } else if s[0].1 < c {
        0
    } else {
        1 + ins_pos(s.drop_first(), c)
    }
}

/// Insert one pair into a descending list at its stable position.
pub open spec fn insert_desc(s: Seq<(Seq<char>, int)>, x: (Seq<char>, int)) -> Seq<
    (Seq<char>, int),
> {
    s.insert(ins_pos(s, x.1), x)
}

/// The first `i` elements of `s`, sorted descending by count via stable
/// insertion.
pub open spec fn sort_desc(s: Seq<(Seq<char>, int)>, i: int) -> Seq<(Seq<char>, int)>
    decreases i,
{
    if i <= 0 {
        Seq::empty()
    } else {
        insert_desc(sort_desc(s, i - 1), s[i - 1])
    }
}

/// The insertion position never passes the end of the list.
proof fn lemma_ins_pos_le(s: Seq<(Seq<char>, int)>, c: int)
    ensures
        0 <= ins_pos(s, c) <= s.len(),
    decreases s.len(),
{
    if s.len() > 0 && !(s[0].1 < c) {
        lemma_ins_pos_le(s.drop_first(), c);
    }
}

/// A forward scan that saw only counts at least `c` before `i` pins the
/// insertion position.
proof fn lemma_ins_pos_prefix(s: Seq<(Seq<char>, int)>, c: int, i: int)
    requires
        0 <= i <= s.len(),
        forall|k: int| 0 <= k < i ==> s[k].1 >= c,
    ensures
        i < s.len() && s[i].1 < c ==> ins_pos(s, c) == i,
        i == s.len() ==> ins_pos(s, c) == s.len(),
    decreases i, s.len(),
{
    if i == 0 {
        if s.len() > 0 && !(s[0].1 < c) {
            lemma_ins_pos_prefix(s.drop_first(), c, 0);
        }
    } else {
        assert(s[0].1 >= c);
        lemma_ins_pos_prefix(s.drop_first(), c, i - 1);
        if i < s.len() && s[i].1 < c {
            assert(s.drop_first()[i - 1] == s[i]);
        }
    }
}

/// Stable insertion sort, descending by degree.
fn sort_desc_exec(items: Vec<DegEntry>) -> (r: Vec<DegEntry>)
    ensures
        deg_view(r@) == sort_desc(deg_view(items@), items@.len() as int),
{
    let ghost sv = deg_view(items@);
    let mut sorted: Vec<DegEntry> = Vec::new();
    let n = items.len();
    let mut i: usize = 0;
    proof {
        assert(deg_view(Seq::<DegEntry>::empty()) =~= Seq::<(Seq<char>, int)>::empty());
    }
    while i < n
        invariant
            n == items@.len(),
            sv == deg_view(items@),
            0 <= i <= n,
            deg_view(sorted@) == sort_desc(sv, i as int),
        decreases n - i,
    {
        let c = items[i].degree;
        proof {
            assert(sv[i as int] == (items@[i as int].node@, items@[i as int].degree as int));
        }
        let m = sorted.len();
        let mut pos: usize = 0;
        while pos < m && sorted[pos].degree >= c
            invariant
                m == sorted@.len(),
                0 <= pos <= m,
                forall|k: int| 0 <= k < pos ==> deg_view(sorted@)[k].1 >= c,
            decreases m - pos,
        {
            proof {
                assert(deg_view(sorted@)[pos as int].1 == sorted@[pos as int].degree as int);
            }
            pos = pos + 1;
        }
        proof {
            if pos < m {
                assert(deg_view(sorted@)[pos as int].1 == sorted@[pos as int].degree as int);
            }
            lemma_ins_pos_prefix(deg_view(sorted@), c as int, pos as int);
        }
        let ghost prev = deg_view(sorted@);
        let node = items[i].node.clone();
        sorted.insert(pos, DegEntry { node, degree: c });
        proof {
            assert(deg_view(sorted@) =~= prev.insert(pos as int, (node@, c as int)));
            assert((node@, c as int) == sv[i as int]);
            assert(deg_view(sorted@) =~= insert_desc(prev, sv[i as int]));
        }
        i = i + 1;
    }
    sorted
}

/// The out-degree pairs of every graph entry, in entry order.
pub open spec fn degree_pairs(g: Graph) -> Seq<(Seq<char>, int)> {
    g.entries@.map_values(|e: GraphEntry| (e.node@, e.succs@.len() as int))
}

/// The node names of the first `limit` elements of a ranking.
pub open spec fn prefix_names(s: Seq<(Seq<char>, int)>, limit: int) -> Seq<Seq<char>> {
    if limit <= s.len() {
        s.take(limit).map_values(|p: (Seq<char>, int)| p.0)
    } else {
        s.map_values(|p: (Seq<char>, int)| p.0)
    }
}

/// The `limit` nodes of the graph with the highest out-degree, ties kept in
/// entry order.
pub fn top_outdegree_calculator(graph: &Graph, limit: usize) -> (r: Vec<String>)
    ensures
        names(r@) == prefix_names(
            sort_desc(degree_pairs(*graph), graph.entries@.len() as int),
            limit as int,
        ),
{
    let mut items: Vec<DegEntry> = Vec::new();
    let n = graph.entries.len();
    let mut i: usize = 0;
    proof {
        assert(deg_view(Seq::<DegEntry>::empty()) =~= degree_pairs(*graph).take(0));
    }
    while i < n
        invariant
            n == graph.entries@.len(),
            0 <= i <= n,
            deg_view(items@) == degree_pairs(*graph).take(i as int),
        decreases n - i,
    {
        let ghost prev = deg_view(items@);
        let node = graph.entries[i].node.clone();
        let degree = graph.entries[i].succs.len();
        items.push(DegEntry { node, degree });
        proof {
            assert(deg_view(items@) =~= prev.push((node@, degree as int)));
            assert((node@, degree as int) == degree_pairs(*graph)[i as int]);
            assert(deg_view(items@) =~= degree_pairs(*graph).take(i + 1));
        }
        i = i + 1;
    }
    proof {
        assert(degree_pairs(*graph).take(n as int) =~= degree_pairs(*graph));
    }
    let sorted = sort_desc_exec(items);
    take_names(sorted, limit)
}

/// The out-degree pairs of the listed nodes that have a graph entry, in
/// list order.
pub open spec fn degree_pairs_of(g: Graph, nodes: Seq<Seq<char>>, i: int) -> Seq<(Seq<char>, int)>
    decreases nodes.len() - i,
{
    if i < 0 || i >= nodes.len() {
        Seq::empty()
    } else if g.has_node(nodes[i]) {
        seq![(nodes[i], g.succs_of(nodes[i]).len() as int)] + degree_pairs_of(g, nodes, i + 1)
    } else {
        degree_pairs_of(g, nodes, i + 1)
    }
}

/// The `limit` highest-out-degree nodes among `nodes` (those without a
/// graph entry are dropped), ties kept in list order.
pub fn rank_by_outdegree(graph: &Graph, nodes: &Vec<String>, limit: usize) -> (r: Vec<String>)
    ensures
        names(r@) == prefix_names(
            sort_desc(
                degree_pairs_of(*graph, names(nodes@), 0),
                degree_pairs_of(*graph, names(nodes@), 0).len() as int,
            ),
            limit as int,
        ),
{
    let ghost nv = names(nodes@);
    let mut items: Vec<DegEntry> = Vec::new();
    let n = nodes.len();
    let mut i: usize = 0;
    while i < n
        invariant
            n == nodes@.len(),
            nv == names(nodes@),
            0 <= i <= n,
            deg_view(items@) + degree_pairs_of(*graph, nv, i as int) == degree_pairs_of(
                *graph,
                nv,
                0,
            ),
        decreases n - i,
    {
        let ghost pre = deg_view(items@);
        let ghost rest = degree_pairs_of(*graph, nv, i + 1);
        proof {
            assert(nv[i as int] == nodes@[i as int]@);
        }
        match graph.lookup(&nodes[i]) {
            Some(ns) => {
                let node = nodes[i].clone();
                let degree = ns.len();
                proof {
                    assert(names(ns@).len() == ns@.len());
                }
                items.push(DegEntry { node, degree });
                proof {
                    assert(deg_view(items@) =~= pre + seq![
                        (nv[i as int], graph.succs_of(nv[i as int]).len() as int),
                    ]);
                    assert(pre + (seq![
                        (nv[i as int], graph.succs_of(nv[i as int]).len() as int),
                    ] + rest) =~= (pre + seq![
                        (nv[i as int], graph.succs_of(nv[i as int]).len() as int),
                    ]) + rest);
                }
            },
            None => {},
        }
        i = i + 1;
    }
    proof {
        assert(deg_view(items@) + Seq::<(Seq<char>, int)>::empty() =~= deg_view(items@));
        assert(deg_view(items@) == degree_pairs_of(*graph, nv, 0));
    }
    let ghost all = deg_view(items@);
    let sorted = sort_desc_exec(items);
    proof {
        assert(all.len() == deg_view(sorted@).len()) by {
            lemma_sort_desc_len(all, all.len() as int);
        }
    }
    take_names(sorted, limit)
}

/// Sorting keeps the number of elements.
proof fn lemma_sort_desc_len(s: Seq<(Seq<char>, int)>, i: int)
    requires
        0 <= i <= s.len(),
    ensures
        sort_desc(s, i).len() == i,
    decreases i,
{
    if i > 0 {
        lemma_sort_desc_len(s, i - 1);
        lemma_ins_pos_le(sort_desc(s, i - 1), s[i - 1].1);
    }
}

/// The first `limit` node names of a ranked degree list.
fn take_names(sorted: Vec<DegEntry>, limit: usize) -> (r: Vec<String>)
    ensures
        names(r@) == prefix_names(deg_view(sorted@), limit as int),
{
    let ghost sv = deg_view(sorted@);
    let mut r: Vec<String> = Vec::new();
    let n = sorted.len();
    let m = if limit < n {
        limit
    } else {
        n
    };
    let mut i: usize = 0;
    while i < m
        invariant
            n == sorted@.len(),
            sv == deg_view(sorted@),
            m == if limit < n {
                limit as int
            } else {
                n as int
            },
            0 <= i <= m,
            names(r@) == sv.take(m as int).map_values(|p: (Seq<char>, int)| p.0).take(i as int),
        decreases m - i,
    {
        let ghost prev = names(r@);
        r.push(sorted[i].node.clone());
        proof {
            let mapped = sv.take(m as int).map_values(|p: (Seq<char>, int)| p.0);
            assert(mapped[i as int] == sv.take(m as int)[i as int].0);
            assert(sv.take(m as int)[i as int] == sv[i as int]);
            assert(sv[i as int] == (sorted@[i as int].node@, sorted@[i as int].degree as int));
            assert(names(r@) =~= prev.push(sorted@[i as int].node@));
            assert(names(r@) =~= mapped.take(i + 1));
        }
        i = i + 1;
    }
    proof {
        let mapped = sv.take(m as int).map_values(|p: (Seq<char>, int)| p.0);
        assert(mapped.take(m as int) =~= mapped);
        if limit as int > sv.len() {
            assert(sv.take(m as int) =~= sv);
        }
    }
    r
}

/// Depth bound of the reachability pass that gathers candidate targets.
pub const REACH_DEPTH: usize = 10;

/// How many of the highest-out-degree reachable nodes are kept.
pub const TOP_LIMIT: usize = 100;

/// How many of the kept nodes are sampled as path targets.
pub const TARGET_SAMPLE: usize = 100;

/// Depth bound of the path-count summary.
pub const SUMMARY_DEPTH: usize = 15;

/// Cap on counted paths per `(start, target)` pair in the summary.
pub const SUMMARY_CAP: usize = 100;

/// How many pairs, ranked by path count, get their paths materialized.
pub const TOP_PAIRS: usize = 10;

/// Depth bound of the full path enumeration for the top pairs.
pub const PATH_DEPTH: usize = 20;

/// How many start nodes are sampled from each label's list per trial.
pub const SAMPLE_SIZE: usize = 100;

/// The position at which a path count `c` is inserted into a descending
/// summary list, after every entry at least as large.
pub open spec fn stat_ins_pos(s: Seq<((Seq<char>, Seq<char>), (int, int))>, c: int) -> int
    decreases s.len(),
{
    if s.len() == 0 {
        0
    } else if s[0].1.0 < c {
        0
    } else {
        1 + stat_ins_pos(s.drop_first(), c)
    }
}

/// The first `i` summary entries, sorted descending by path count via
/// stable insertion.
pub open spec fn stat_sort_desc(s: Seq<((Seq<char>, Seq<char>), (int, int))>, i: int) -> Seq<
    ((Seq<char>, Seq<char>), (int, int)),
>
    decreases i,
{
    if i <= 0 {
        Seq::empty()
    } else {
        let sorted = stat_sort_desc(s, i - 1);
        sorted.insert(stat_ins_pos(sorted, s[i - 1].1.0), s[i - 1])
    }
}

/// The insertion position never passes the end of the list.
proof fn lemma_stat_ins_pos_le(s: Seq<((Seq<char>, Seq<char>), (int, int))>, c: int)
    ensures
        0 <= stat_ins_pos(s, c) <= s.len(),
    decreases s.len(),
{
    if s.len() > 0 && !(s[0].1.0 < c) {
        lemma_stat_ins_pos_le(s.drop_first(), c);
    }
}

/// A forward scan that saw only counts at least `c` before `i` pins the
/// insertion position.
proof fn lemma_stat_ins_pos_prefix(
    s: Seq<((Seq<char>, Seq<char>), (int, int))>,
    c: int,
    i: int,
)
    requires
        0 <= i <= s.len(),
        forall|k: int| 0 <= k < i ==> s[k].1.0 >= c,
    ensures
        i < s.len() && s[i].1.0 < c ==> stat_ins_pos(s, c) == i,
        i == s.len() ==> stat_ins_pos(s, c) == s.len(),
    decreases i, s.len(),
{
    if i == 0 {
        if s.len() > 0 && !(s[0].1.0 < c) {
            lemma_stat_ins_pos_prefix(s.drop_first(), c, 0);
        }
    } else {
        assert(s[0].1.0 >= c);
        lemma_stat_ins_pos_prefix(s.drop_first(), c, i - 1);
        if i < s.len() && s[i].1.0 < c {
            assert(s.drop_first()[i - 1] == s[i]);
        }
    }
}

/// Stable insertion sort of summary entries, descending by path count.
fn sort_stats_exec(items: Vec<PathStat>) -> (r: Vec<PathStat>)
    ensures
        stats_view(r@) == stat_sort_desc(stats_view(items@), items@.len() as int),
{
    let ghost sv = stats_view(items@);
    let mut sorted: Vec<PathStat> = Vec::new();
    let n = items.len();
    let mut i: usize = 0;
    proof {
        assert(stats_view(Seq::<PathStat>::empty()) =~= Seq::<
            ((Seq<char>, Seq<char>), (int, int)),
        >::empty());
    }
    while i < n
        invariant
            n == items@.len(),
            sv == stats_view(items@),
            0 <= i <= n,
            stats_view(sorted@) == stat_sort_desc(sv, i as int),
        decreases n - i,
    {
        let c = items[i].count;
        proof {
            assert(sv[i as int] == (
                (items@[i as int].start@, items@[i as int].target@),
                (items@[i as int].count as int, items@[i as int].total_depth as int),
            ));
        }
        let m = sorted.len();
        let mut pos: usize = 0;
        while pos < m && sorted[pos].count >= c
            invariant
                m == sorted@.len(),
                0 <= pos <= m,
                forall|k: int| 0 <= k < pos ==> stats_view(sorted@)[k].1.0 >= c,
            decreases m - pos,
        {
            proof {
                assert(stats_view(sorted@)[pos as int].1.0 == sorted@[pos as int].count as int);
            }
            pos = pos + 1;
        }
        proof {
            if pos < m {
                assert(stats_view(sorted@)[pos as int].1.0 == sorted@[pos as int].count as int);
            }
            lemma_stat_ins_pos_prefix(stats_view(sorted@), c as int, pos as int);
        }
        let ghost prev = stats_view(sorted@);
        let entry = PathStat {
            start: items[i].start.clone(),
            target: items[i].target.clone(),
            count: c,
            total_depth: items[i].total_depth,
        };
        sorted.insert(pos, entry);
        proof {
            assert(stats_view(sorted@) =~= prev.insert(pos as int, sv[i as int]));
        }
        i = i + 1;
    }
    sorted
}

/// The first `limit` entries of a ranked summary list.
fn take_stats(sorted: Vec<PathStat>, limit: usize) -> (r: Vec<PathStat>)
    ensures
        stats_view(r@) == if limit as int <= sorted@.len() {
            stats_view(sorted@).take(limit as int)
        } else {
            stats_view(sorted@)
        },
{
    let ghost sv = stats_view(sorted@);
    let mut r: Vec<PathStat> = Vec::new();
    let n = sorted.len();
    let m = if limit < n {
        limit
    } else {
        n
    };
    let mut i: usize = 0;
    proof {
        assert(stats_view(Seq::<PathStat>::empty()) =~= sv.take(0));
    }
    while i < m
        invariant
            n == sorted@.len(),
            sv == stats_view(sorted@),
            m == if limit < n {
                limit as int
            } else {
                n as int
            },
            0 <= i <= m,
            stats_view(r@) == sv.take(i as int),
        decreases m - i,
    {
        let ghost prev = stats_view(r@);
        let entry = PathStat {
            start: sorted[i].start.clone(),
            target: sorted[i].target.clone(),
            count: sorted[i].count,
            total_depth: sorted[i].total_depth,
        };
        r.push(entry);
        proof {
            assert(stats_view(r@) =~= prev.push(sv[i as int]));
            assert(stats_view(r@) =~= sv.take(i + 1));
        }
        i = i + 1;
    }
    proof {
        if limit as int > sv.len() {
            assert(sv.take(m as int) =~= sv);
        }
    }
    r
}

/// The paths materialized for the pairs `pairs[i..]`: for each, every
/// timestamp-monotonic simple path from its start to its target within
/// `maxd`, in order.
pub open spec fn pairs_paths(
    g: Graph,
    tm: TimeMap,
    pairs: Seq<((Seq<char>, Seq<char>), (int, int))>,
    i: int,
    maxd: nat,
) -> Seq<Seq<Seq<char>>>
    decreases pairs.len() - i,
{
    if i < 0 || i >= pairs.len() {
        Seq::empty()
    } else {
        target_paths(g, tm, pairs[i].0.1, maxd, Seq::empty(), 1, pairs[i].0.0) + pairs_paths(
            g,
            tm,
            pairs,
            i + 1,
            maxd,
        )
    }
}

/// The summary a trial builds between its start nodes and its sampled
/// targets.
pub open spec fn trial_stats(
    g: Graph,
    tm: TimeMap,
    starts: Seq<Seq<char>>,
    targets: Seq<Seq<char>>,
) -> Seq<((Seq<char>, Seq<char>), (int, int))> {
    summary_pairs(
        g,
        tm,
        starts,
        targets,
        SUMMARY_DEPTH as nat,
        SUMMARY_CAP as int,
        0,
        0,
        Seq::empty(),
    )
}

/// The pairs whose paths a trial materializes: the summary entries ranked
/// descending by path count, capped at the top few.
pub open spec fn trial_top_pairs(sv: Seq<((Seq<char>, Seq<char>), (int, int))>) -> Seq<
    ((Seq<char>, Seq<char>), (int, int)),
> {
    let sorted = stat_sort_desc(sv, sv.len() as int);
    if TOP_PAIRS as int <= sorted.len() {
        sorted.take(TOP_PAIRS as int)
    } else {
        sorted
    }
}

/// All paths one trial materializes for its start nodes and targets.
pub open spec fn trial_paths(
    g: Graph,
    tm: TimeMap,
    starts: Seq<Seq<char>>,
    targets: Seq<Seq<char>>,
) -> Seq<Seq<Seq<char>>> {
    pairs_paths(
        g,
        tm,
        trial_top_pairs(trial_stats(g, tm, starts, targets)),
        0,
        PATH_DEPTH as nat,
    )
}

/// The trial outcome is the interior-occurrence count map of the trial's
/// materialized paths, or nothing when those interiors outgrow the
/// counter.
pub open spec fn trial_result_ok(
    r: Option<FreqMap>,
    g: Graph,
    tm: TimeMap,
    starts: Seq<Seq<char>>,
    targets: Seq<Seq<char>>,
) -> bool {
    let tp = trial_paths(g, tm, starts, targets);
    match r {
        Some(f) => {
            &&& total_interior_len(tp) <= usize::MAX as int
            &&& f.matches_stream(interiors(tp))
            &&& sum_counts(f.view_counts()) == total_interior_len(tp)
        },
        None => total_interior_len(tp) > usize::MAX as int,
    }
}

/// One deterministic analysis trial for already-chosen targets: summarize
/// path counts from the start nodes to the targets, rank the pairs by
/// count, materialize full paths for the top pairs, and count interior
/// occurrences over those paths.
pub fn theory_trial(
    graph: &Graph,
    timestamps: &TimeMap,
    start_nodes: &Vec<String>,
    sampled_targets: &Vec<String>,
) -> (r: Option<FreqMap>)
    ensures
        trial_result_ok(r, *graph, *timestamps, names(start_nodes@), names(sampled_targets@)),
{
    let ghost g = *graph;
    let ghost tm = *timestamps;
    let stats = summarize_paths_to_targets(
        graph,
        timestamps,
        start_nodes,
        sampled_targets,
        SUMMARY_DEPTH,
        SUMMARY_CAP,
    );
    let sorted = sort_stats_exec(stats.entries);
    let top = take_stats(sorted, TOP_PAIRS);
    let ghost tpv = stats_view(top@);
    proof {
        assert(tpv == trial_top_pairs(
            trial_stats(g, tm, names(start_nodes@), names(sampled_targets@)),
        ));
    }
    let mut all_paths: Vec<Vec<String>> = Vec::new();
    let nt = top.len();
    let mut i: usize = 0;
    proof {
        assert(paths_view(Seq::<Vec<String>>::empty()) + pairs_paths(
            g,
            tm,
            tpv,
            0,
            PATH_DEPTH as nat,
        ) =~= pairs_paths(g, tm, tpv, 0, PATH_DEPTH as nat));
    }
    while i < nt
        invariant
            g == *graph,
            tm == *timestamps,
            nt == top@.len(),
            tpv == stats_view(top@),
            0 <= i <= nt,
            paths_view(all_paths@) + pairs_paths(g, tm, tpv, i as int, PATH_DEPTH as nat)
                == pairs_paths(g, tm, tpv, 0, PATH_DEPTH as nat),
        decreases nt - i,
    {
        let ghost pre = paths_view(all_paths@);
        let ghost rest = pairs_paths(g, tm, tpv, i + 1, PATH_DEPTH as nat);
        let mut path: Vec<String> = Vec::new();
        proof {
            assert(names(Seq::<String>::empty()) =~= Seq::<Seq<char>>::empty());
            assert(tpv[i as int].0.0 == top@[i as int].start@);
            assert(tpv[i as int].0.1 == top@[i as int].target@);
        }
        dfs_collect_paths(
            graph,
            timestamps,
            &top[i].start,
            &top[i].target,
            &mut path,
            &mut all_paths,
            1,
            PATH_DEPTH,
        );
        proof {
            let here = target_paths(
                g,
                tm,
                tpv[i as int].0.1,
                PATH_DEPTH as nat,
                Seq::empty(),
                1,
                tpv[i as int].0.0,
            );
            assert(pre + (here + rest) =~= (pre + here) + rest);
        }
        i = i + 1;
    }
    proof {
        assert(paths_view(all_paths@) + Seq::<Seq<Seq<char>>>::empty() =~= paths_view(
            all_paths@,
        ));
    }
    try_reuse_score(&all_paths)
}

/// The pool a trial samples its targets from: the highest-out-degree nodes
/// among those reachable from the start nodes.
pub open spec fn trial_pool(g: Graph, tm: TimeMap, starts: Seq<Seq<char>>) -> Seq<Seq<char>> {
    let reach = reach_list(g, tm, starts, REACH_DEPTH as nat, 0, Seq::empty());
    let degs = degree_pairs_of(g, reach, 0);
    prefix_names(sort_desc(degs, degs.len() as int), TOP_LIMIT as int)
}

/// One randomized analysis trial: gather the reachable high-out-degree
/// pool, sample targets from it, and run the deterministic trial on that
/// sample. Whatever sample the random source produced, the result is the
/// deterministic trial's result for it.
pub fn theory_tester(graph: &Graph, timestamps: &TimeMap, start_nodes: &Vec<String>) -> (r:
    Option<FreqMap>)
    ensures
        exists|t: Seq<Seq<char>>|
            #[trigger] sample_ok(
                t,
                trial_pool(*graph, *timestamps, names(start_nodes@)),
                TARGET_SAMPLE as int,
            ) && trial_result_ok(r, *graph, *timestamps, names(start_nodes@), t),
{
    let reachable = reachable_calculator(graph, timestamps, start_nodes, REACH_DEPTH);
    let ranked = rank_by_outdegree(graph, &reachable, TOP_LIMIT);
    let ghost pool = names(ranked@);
    proof {
        assert(pool == trial_pool(*graph, *timestamps, names(start_nodes@)));
    }
    let targets = sampler(ranked, TARGET_SAMPLE);
    let r = theory_trial(graph, timestamps, start_nodes, &targets);
    proof {
        assert(sample_ok(names(targets@), pool, TARGET_SAMPLE as int) && trial_result_ok(
            r,
            *graph,
            *timestamps,
            names(start_nodes@),
            names(targets@),
        ));
    }
    r
}

/// A sample drawn from `pool` without replacement: as many elements as
/// asked for (or all of them, when the pool is smaller), each taken from
/// the pool, and no element taken more often than the pool holds it.
pub open spec fn sample_ok(t: Seq<Seq<char>>, pool: Seq<Seq<char>>, limit: int) -> bool {
    &&& t.len() == if limit <= pool.len() {
        limit
    } else {
        pool.len() as int
    }
    &&& forall|k: int| 0 <= k < t.len() ==> pool.contains(#[trigger] t[k])
    &&& t.to_multiset().subset_of(pool.to_multiset())
}

/// Relies on rand's `IndexedRandom::sample` (with `rand::rng`): it draws
/// `min(limit, len)` elements of the slice at distinct indices, in random
/// order. Distinct indices make the result a sub-multiset of the slice: no
/// element is drawn more often than the slice holds it.
#[verifier::external_body]
fn sample_from(nodes: &Vec<String>, limit: usize) -> (r: Vec<String>)
    ensures
        sample_ok(names(r@), names(nodes@), limit as int),
{
    let mut rng = rand::rng();
    nodes.as_slice().sample(&mut rng, limit).cloned().collect()
}

/// Draw a uniform random sample without replacement: `limit` of the given
/// nodes, or all of them when fewer are given.
pub fn sampler(nodes: Vec<String>, limit: usize) -> (r: Vec<String>)
    ensures
        sample_ok(names(r@), names(nodes@), limit as int),
{
    sample_from(&nodes, limit)
}


/// One trial's outcome for a node: its interior-occurrence counts on the
/// illicit batch and on the licit batch. The trial's mixer score is the
/// illicit count over the licit count plus one.
pub struct ScorePoint {
    pub illicit: usize,
    pub licit: usize,
}

/// A node's per-trial score series.
pub struct ScoreEntry {
    pub node: String,
    pub trials: Vec<ScorePoint>,
}

/// Per-node score series over all trials, keyed by node.
pub struct ScoreSeries {
    pub entries: Vec<ScoreEntry>,
}

/// The mathematical value of a score series: each node with its per-trial
/// `(illicit, licit)` count pairs, in order.
pub open spec fn series_view(v: Seq<ScoreEntry>) -> Seq<(Seq<char>, Seq<(int, int)>)> {
    v.map_values(
        |e: ScoreEntry|
            (
                e.node@,
                e.trials@.map_values(|p: ScorePoint| (p.illicit as int, p.licit as int)),
            ),
    )
}

/// Index of the first series entry keyed by `key`, or `-1` when none
/// matches.
pub open spec fn find_series(s: Seq<(Seq<char>, Seq<(int, int)>)>, key: Seq<char>) -> int
    decreases s.len(),
{
    if s.len() == 0 {
        -1
    } else if s[0].0 == key {
        0
    } else {
        let r = find_series(s.drop_first(), key);
        if r < 0 {
            -1
        } else {
            r + 1
        }
    }
}

/// A forward scan that found no match before `i` pins the first-match
/// index.
proof fn lemma_find_series_prefix(s: Seq<(Seq<char>, Seq<(int, int)>)>, key: Seq<char>, i: int)
    requires
        0 <= i <= s.len(),
        forall|k: int| 0 <= k < i ==> s[k].0 != key,
    ensures
        i < s.len() && s[i].0 == key ==> find_series(s, key) == i,
        i == s.len() ==> find_series(s, key) == -1,
    decreases i, s.len(),
{
    if i == 0 {
        if s.len() > 0 && s[0].0 != key {
            lemma_find_series_prefix(s.drop_first(), key, 0);
        }
    } else {
        assert(s[0].0 != key);
        lemma_find_series_prefix(s.drop_first(), key, i - 1);
        if i < s.len() && s[i].0 == key {
            assert(s.drop_first()[i - 1] == s[i]);
        }
    }
}

/// The series after the mixer entries `mixer[j..]` of one trial are
/// appended: a listed node's series gains that node's `(illicit, licit)`
/// point, an unlisted-so-far node gets a fresh one-point series, and no
/// other series changes.
pub open spec fn series_add(
    s: Seq<(Seq<char>, Seq<(int, int)>)>,
    mixer: Seq<(Seq<char>, int, int)>,
    j: int,
) -> Seq<(Seq<char>, Seq<(int, int)>)>
    decreases mixer.len() - j,
{
    if j < 0 || j >= mixer.len() {
        s
    } else {
        let m = mixer[j];
        let idx = find_series(s, m.0);
        let s2 = if idx >= 0 {
            s.update(idx, (m.0, s[idx].1.push((m.2, m.1))))
        } else {
            s.push((m.0, seq![(m.2, m.1)]))
        };
        series_add(s2, mixer, j + 1)
    }
}

impl ScoreSeries {
    /// The node keys of the series.
    pub open spec fn keys(self) -> Seq<Seq<char>> {
        self.entries@.map_values(|e: ScoreEntry| e.node@)
    }

    /// Every node appears once, and no series is longer than `bound`.
    pub open spec fn wf(self, bound: int) -> bool {
        &&& crate::graph::distinct_seq(self.keys())
        &&& forall|k: int|
            0 <= k < self.entries@.len() ==> (#[trigger] self.entries@[k].trials@.len())
                <= bound
    }

    /// Index of the first entry for `node`, if any.
    fn find(&self, node: &String) -> (r: Option<usize>)
        ensures
            match r {
                Some(ix) => {
                    &&& 0 <= ix < self.entries@.len()
                    &&& self.entries@[ix as int].node@ == node@
                    &&& find_series(series_view(self.entries@), node@) == ix
                },
                None => {
                    &&& !self.keys().contains(node@)
                    &&& find_series(series_view(self.entries@), node@) == -1
                },
            },
    {
        let n = self.entries.len();
        let mut i: usize = 0;
        while i < n
            invariant
                n == self.entries@.len(),
                0 <= i <= n,
                forall|k: int| 0 <= k < i ==> self.entries@[k].node@ != node@,
            decreases n - i,
        {
            if self.entries[i].node.eq(node) {
                proof {
                    assert(forall|k: int|
                        0 <= k < i ==> #[trigger] series_view(self.entries@)[k].0
                            == self.entries@[k].node@);
                    assert(series_view(self.entries@)[i as int].0 == node@);
                    lemma_find_series_prefix(series_view(self.entries@), node@, i as int);
                }
                return Some(i);
            }
            i = i + 1;
        }
        proof {
            if self.keys().contains(node@) {
                let w = choose|w: int|
                    0 <= w < self.keys().len() && self.keys()[w] == node@;
                assert(self.entries@[w].node@ == node@);
            }
            assert(forall|k: int|
                0 <= k < n ==> #[trigger] series_view(self.entries@)[k].0 == self.entries@[
                    k
                ].node@);
            lemma_find_series_prefix(series_view(self.entries@), node@, n as int);
        }
        None
    }

    /// Append one trial's mixer counts: each listed node gets one more
    /// point on its series, absent nodes get a fresh one-point series, and
    /// every other series is unchanged.
    fn add_trial(&mut self, mixer: &Vec<MixerEntry>, Ghost(bound): Ghost<int>)
        requires
            bound >= 0,
            crate::graph::distinct_seq(mixer@.map_values(|e: MixerEntry| e.node@)),
            old(self).wf(bound),
        ensures
            final(self).wf(bound + 1),
            series_view(final(self).entries@) == series_add(
                series_view(old(self).entries@),
                mixer_view(mixer@),
                0,
            ),
    {
        let ghost mkeys = mixer@.map_values(|e: MixerEntry| e.node@);
        let ghost mview = mixer_view(mixer@);
        let n = mixer.len();
        let mut j: usize = 0;
        while j < n
            invariant
                n == mixer@.len(),
                mkeys == mixer@.map_values(|e: MixerEntry| e.node@),
                mview == mixer_view(mixer@),
                crate::graph::distinct_seq(mkeys),
                bound >= 0,
                0 <= j <= n,
                crate::graph::distinct_seq(self.keys()),
                series_add(series_view(self.entries@), mview, j as int) == series_add(
                    series_view(old(self).entries@),
                    mview,
                    0,
                ),
                forall|k: int|
                    0 <= k < self.entries@.len() ==> (#[trigger] self.entries@[
                    k
                    ].trials@.len()) <= bound + 1,
                forall|k: int|
                    0 <= k < self.entries@.len() && !mkeys.take(j as int).contains(
                        #[trigger] self.entries@[k].node@,
                    ) ==> self.entries@[k].trials@.len() <= bound,
            decreases n - j,
        {
            let ghost keys0 = self.keys();
            let ghost sv0 = series_view(self.entries@);
            let point = ScorePoint { illicit: mixer[j].illicit, licit: mixer[j].licit };
            proof {
                assert(mkeys[j as int] == mixer@[j as int].node@);
                assert(mview[j as int] == (
                    mixer@[j as int].node@,
                    mixer@[j as int].licit as int,
                    mixer@[j as int].illicit as int,
                ));
            }
            match self.find(&mixer[j].node) {
                Some(ix) => {
                    proof {
                        assert(!mkeys.take(j as int).contains(mkeys[j as int])) by {
                            if mkeys.take(j as int).contains(mkeys[j as int]) {
                                let w = choose|w: int|
                                    0 <= w < j && mkeys.take(j as int)[w] == mkeys[j as int];
                                assert(mkeys[w] == mkeys[j as int]);
                            }
                        }
                        assert(self.entries@[ix as int].trials@.len() <= bound);
                    }
                    let ghost entries0 = self.entries@;
                    let mut entry = self.entries.remove(ix);
                    entry.trials.push(point);
                    let ghost entry1 = entry;
                    self.entries.insert(ix, entry);
                    proof {
                        assert(self.entries@ =~= entries0.update(ix as int, entry1));
                        assert(self.keys() =~= keys0);
                        assert(entry1.trials@.len() == entries0[ix as int].trials@.len() + 1);
                        assert(series_view(self.entries@) =~= sv0.update(
                            ix as int,
                            (mview[j as int].0, sv0[ix as int].1.push(
                                (mview[j as int].2, mview[j as int].1),
                            )),
                        )) by {
                            assert(entry1.node == entries0[ix as int].node);
                            assert(entry1.trials@ =~= entries0[ix as int].trials@.push(point));
                            assert(entry1.trials@.map_values(
                                |p: ScorePoint| (p.illicit as int, p.licit as int),
                            ) =~= entries0[ix as int].trials@.map_values(
                                |p: ScorePoint| (p.illicit as int, p.licit as int),
                            ).push((point.illicit as int, point.licit as int)));
                            assert(sv0[ix as int].1 == entries0[ix as int].trials@.map_values(
                                |p: ScorePoint| (p.illicit as int, p.licit as int),
                            ));
                        }
                        assert(series_add(sv0, mview, j as int) == series_add(
                            series_view(self.entries@),
                            mview,
                            j + 1,
                        ));
                        assert forall|k: int|
                            0 <= k < self.entries@.len() && !mkeys.take(j + 1).contains(
                                #[trigger] self.entries@[k].node@,
                            ) implies self.entries@[k].trials@.len() <= bound by {
                            assert(!mkeys.take(j as int).contains(self.entries@[k].node@)) by {
                                if mkeys.take(j as int).contains(self.entries@[k].node@) {
                                    let w = choose|w: int|
                                        0 <= w < j && mkeys.take(j as int)[w] == self.entries@[
                                        k
                                        ].node@;
                                    assert(mkeys.take(j + 1)[w] == self.entries@[k].node@);
                                }
                            }
                            if k == ix {
                                assert(mkeys.take(j + 1)[j as int] == mkeys[j as int]);
                                assert(mkeys.take(j + 1).contains(self.entries@[k].node@));
                            } else {
                                assert(self.entries@[k] == entries0[k]);
                            }
                        }
                    }
                },
                None => {
                    let ghost entries0 = self.entries@;
                    let node = mixer[j].node.clone();
                    let mut trials: Vec<ScorePoint> = Vec::new();
                    trials.push(point);
                    self.entries.push(ScoreEntry { node, trials });
                    proof {
                        assert(self.keys() =~= keys0.push(mkeys[j as int]));
                        assert(series_view(self.entries@) =~= sv0.push(
                            (mview[j as int].0, seq![(mview[j as int].2, mview[j as int].1)]),
                        )) by {
                            assert(self.entries@.last().trials@.map_values(
                                |p: ScorePoint| (p.illicit as int, p.licit as int),
                            ) =~= seq![(point.illicit as int, point.licit as int)]);
                        }
                        assert(series_add(sv0, mview, j as int) == series_add(
                            series_view(self.entries@),
                            mview,
                            j + 1,
                        ));
                        assert forall|a: int, b: int|
                            0 <= a < b < self.keys().len() implies self.keys()[a] != self.keys()[
                            b
                            ] by {
                            if b == keys0.len() {
                                assert(self.keys()[a] == keys0[a]);
                                if keys0[a] == mkeys[j as int] {
                                    assert(keys0.contains(mkeys[j as int]));
                                }
                            }
                        }
                        assert forall|k: int|
                            0 <= k < self.entries@.len() && !mkeys.take(j + 1).contains(
                                #[trigger] self.entries@[k].node@,
                            ) implies self.entries@[k].trials@.len() <= bound by {
                            if k < entries0.len() {
                                assert(self.entries@[k] == entries0[k]);
                                assert(!mkeys.take(j as int).contains(self.entries@[k].node@)) by {
                                    if mkeys.take(j as int).contains(self.entries@[k].node@) {
                                        let w = choose|w: int|
                                            0 <= w < j && mkeys.take(j as int)[w] == self.entries@[
                                            k
                                            ].node@;
                                        assert(mkeys.take(j + 1)[w] == self.entries@[k].node@);
                                    }
                                }
                            } else {
                                assert(mkeys.take(j + 1)[j as int] == self.entries@[k].node@);
                                assert(mkeys.take(j + 1).contains(self.entries@[k].node@));
                            }
                        }
                    }
                },
            }
            j = j + 1;
        }
    }
}

/// The determined count map of one trial: the interior-occurrence counts
/// over the paths the trial materializes for its start nodes and targets.
pub open spec fn trial_counts(
    g: Graph,
    tm: TimeMap,
    starts: Seq<Seq<char>>,
    targets: Seq<Seq<char>>,
) -> Seq<(Seq<char>, int)> {
    crate::score::counts_of_stream(interiors(trial_paths(g, tm, starts, targets)))
}

/// The random draws of one run: the start-node sample and target sample of
/// the illicit trial, and the same pair for the licit trial.
pub struct RunDraws {
    pub illicit_starts: Seq<Seq<char>>,
    pub illicit_targets: Seq<Seq<char>>,
    pub licit_starts: Seq<Seq<char>>,
    pub licit_targets: Seq<Seq<char>>,
}

/// The draws of one run are admissible: each start sample is drawn from
/// its label pool and each target sample from the trial pool of its start
/// sample.
pub open spec fn run_draws_ok(
    g: Graph,
    tm: TimeMap,
    lic_pool: Seq<Seq<char>>,
    ill_pool: Seq<Seq<char>>,
    d: RunDraws,
) -> bool {
    &&& sample_ok(d.illicit_starts, ill_pool, SAMPLE_SIZE as int)
    &&& sample_ok(d.licit_starts, lic_pool, SAMPLE_SIZE as int)
    &&& sample_ok(d.illicit_targets, trial_pool(g, tm, d.illicit_starts), TARGET_SAMPLE as int)
    &&& sample_ok(d.licit_targets, trial_pool(g, tm, d.licit_starts), TARGET_SAMPLE as int)
}

/// Every run of the history drew admissible samples.
pub open spec fn runs_ok(
    g: Graph,
    tm: TimeMap,
    lic_pool: Seq<Seq<char>>,
    ill_pool: Seq<Seq<char>>,
    hist: Seq<RunDraws>,
) -> bool {
    forall|q: int|
        0 <= q < hist.len() ==> run_draws_ok(g, tm, lic_pool, ill_pool, #[trigger] hist[q])
}

/// One run's mixer entries: the two trials' count maps combined.
pub open spec fn run_mixer(g: Graph, tm: TimeMap, d: RunDraws) -> Seq<(Seq<char>, int, int)> {
    crate::score::mixer_spec(
        trial_counts(g, tm, d.illicit_starts, d.illicit_targets),
        trial_counts(g, tm, d.licit_starts, d.licit_targets),
    )
}

/// Both of a run's trials can count their interior positions.
pub open spec fn run_fits(g: Graph, tm: TimeMap, d: RunDraws) -> bool {
    &&& total_interior_len(trial_paths(g, tm, d.illicit_starts, d.illicit_targets))
        <= usize::MAX as int
    &&& total_interior_len(trial_paths(g, tm, d.licit_starts, d.licit_targets))
        <= usize::MAX as int
}

/// The score series after the runs `hist[q..]` each append their mixer
/// entries to `acc`.
pub open spec fn series_of_runs(
    g: Graph,
    tm: TimeMap,
    hist: Seq<RunDraws>,
    q: int,
    acc: Seq<(Seq<char>, Seq<(int, int)>)>,
) -> Seq<(Seq<char>, Seq<(int, int)>)>
    decreases hist.len() - q,
{
    if q < 0 || q >= hist.len() {
        acc
    } else {
        series_of_runs(g, tm, hist, q + 1, series_add(acc, run_mixer(g, tm, hist[q]), 0))
    }
}

/// Appending one run to the history appends its mixer entries to the
/// folded series.
proof fn lemma_series_of_runs_push(
    g: Graph,
    tm: TimeMap,
    hist: Seq<RunDraws>,
    d: RunDraws,
    q: int,
    acc: Seq<(Seq<char>, Seq<(int, int)>)>,
)
    requires
        0 <= q <= hist.len(),
    ensures
        series_of_runs(g, tm, hist.push(d), q, acc) == series_add(
            series_of_runs(g, tm, hist, q, acc),
            run_mixer(g, tm, d),
            0,
        ),
    decreases hist.len() - q,
{
    if q == hist.len() {
        assert(hist.push(d)[q] == d);
        assert(series_of_runs(
            g,
            tm,
            hist.push(d),
            q + 1,
            series_add(acc, run_mixer(g, tm, d), 0),
        ) == series_add(acc, run_mixer(g, tm, d), 0));
        assert(series_of_runs(g, tm, hist, q, acc) == acc);
    } else {
        assert(hist.push(d)[q] == hist[q]);
        lemma_series_of_runs_push(g, tm, hist, d, q + 1, series_add(acc, run_mixer(g, tm, hist[q]), 0));
    }
}

/// Run `num_runs` independent trials: each samples start nodes from both
/// label lists, runs one randomized trial per label, combines the two
/// count maps into mixer entries, and appends each listed node's counts to
/// its score series. Whatever the random source drew, the result is the
/// fold of those per-run mixer entries over some admissible history of
/// draws; nothing is returned only when some admissible trial's interior
/// positions outgrow their counter. In every outcome each node's series
/// holds at most one point per trial.
pub fn run_mixer_analysis(
    graph: &Graph,
    timestamps: &TimeMap,
    licit_nodes: &Vec<String>,
    illicit_nodes: &Vec<String>,
    num_runs: usize,
) -> (r: Option<ScoreSeries>)
    ensures
        num_runs == 0 ==> r.is_some(),
        match r {
            Some(series) => {
                &&& series.wf(num_runs as int)
                &&& exists|hist: Seq<RunDraws>|
                    {
                        &&& #[trigger] runs_ok(
                            *graph,
                            *timestamps,
                            names(licit_nodes@),
                            names(illicit_nodes@),
                            hist,
                        )
                        &&& hist.len() == num_runs
                        &&& forall|q: int|
                            0 <= q < hist.len() ==> run_fits(
                                *graph,
                                *timestamps,
                                #[trigger] hist[q],
                            )
                        &&& series_view(series.entries@) == series_of_runs(
                            *graph,
                            *timestamps,
                            hist,
                            0,
                            Seq::empty(),
                        )
                    }
            },
            None => num_runs > 0 && exists|sv: Seq<Seq<char>>, tv: Seq<Seq<char>>|
                {
                    &&& (sample_ok(sv, names(illicit_nodes@), SAMPLE_SIZE as int) || sample_ok(
                        sv,
                        names(licit_nodes@),
                        SAMPLE_SIZE as int,
                    ))
                    &&& #[trigger] sample_ok(
                        tv,
                        trial_pool(*graph, *timestamps, sv),
                        TARGET_SAMPLE as int,
                    )
                    &&& total_interior_len(trial_paths(*graph, *timestamps, sv, tv))
                        > usize::MAX as int
                },
        },
{
    let ghost g = *graph;
    let ghost tm = *timestamps;
    let ghost lic_pool = names(licit_nodes@);
    let ghost ill_pool = names(illicit_nodes@);
    let mut series = ScoreSeries { entries: Vec::new() };
    let ghost mut hist: Seq<RunDraws> = Seq::empty();
    proof {
        assert(series.keys() =~= Seq::<Seq<char>>::empty());
        assert(series_view(series.entries@) =~= Seq::<(Seq<char>, Seq<(int, int)>)>::empty());
    }
    let mut run: usize = 0;
    while run < num_runs
        invariant
            g == *graph,
            tm == *timestamps,
            lic_pool == names(licit_nodes@),
            ill_pool == names(illicit_nodes@),
            0 <= run <= num_runs,
            series.wf(run as int),
            hist.len() == run,
            runs_ok(g, tm, lic_pool, ill_pool, hist),
            forall|q: int| 0 <= q < hist.len() ==> run_fits(g, tm, #[trigger] hist[q]),
            series_view(series.entries@) == series_of_runs(g, tm, hist, 0, Seq::empty()),
        decreases num_runs - run,
    {
        let sampled_illicit = sampler(crate::graph::clone_path(illicit_nodes), SAMPLE_SIZE);
        let sampled_licit = sampler(crate::graph::clone_path(licit_nodes), SAMPLE_SIZE);
        let ghost si = names(sampled_illicit@);
        let ghost sl = names(sampled_licit@);
        let freq_illicit = match theory_tester(graph, timestamps, &sampled_illicit) {
            Some(f) => f,
            None => {
                proof {
                    let t = choose|t: Seq<Seq<char>>|
                        #[trigger] sample_ok(t, trial_pool(g, tm, si), TARGET_SAMPLE as int)
                            && trial_result_ok(
                            None::<FreqMap>,
                            g,
                            tm,
                            si,
                            t,
                        );
                    assert(sample_ok(si, ill_pool, SAMPLE_SIZE as int));
                    assert(sample_ok(t, trial_pool(g, tm, si), TARGET_SAMPLE as int)
                        && total_interior_len(trial_paths(g, tm, si, t)) > usize::MAX as int);
                }
                return None;
            },
        };
        let freq_licit = match theory_tester(graph, timestamps, &sampled_licit) {
            Some(f) => f,
            None => {
                proof {
                    let t = choose|t: Seq<Seq<char>>|
                        #[trigger] sample_ok(t, trial_pool(g, tm, sl), TARGET_SAMPLE as int)
                            && trial_result_ok(
                            None::<FreqMap>,
                            g,
                            tm,
                            sl,
                            t,
                        );
                    assert(sample_ok(sl, lic_pool, SAMPLE_SIZE as int));
                    assert(sample_ok(t, trial_pool(g, tm, sl), TARGET_SAMPLE as int)
                        && total_interior_len(trial_paths(g, tm, sl, t)) > usize::MAX as int);
                }
                return None;
            },
        };
        let ghost ti = choose|t: Seq<Seq<char>>|
            #[trigger] sample_ok(t, trial_pool(g, tm, si), TARGET_SAMPLE as int)
                && trial_result_ok(Some(freq_illicit), g, tm, si, t);
        let ghost tl = choose|t: Seq<Seq<char>>|
            #[trigger] sample_ok(t, trial_pool(g, tm, sl), TARGET_SAMPLE as int)
                && trial_result_ok(Some(freq_licit), g, tm, sl, t);
        let ghost d = RunDraws {
            illicit_starts: si,
            illicit_targets: ti,
            licit_starts: sl,
            licit_targets: tl,
        };
        proof {
            lemma_freq_keys_distinct(
                freq_illicit,
                interiors(trial_paths(g, tm, si, ti)),
            );
            lemma_freq_keys_distinct(
                freq_licit,
                interiors(trial_paths(g, tm, sl, tl)),
            );
            lemma_freq_view_keys(freq_illicit);
            lemma_freq_view_keys(freq_licit);
            lemma_mixer_keys_distinct(freq_illicit.view_counts(), freq_licit.view_counts());
            crate::score::lemma_matches_stream_counts(
                freq_illicit,
                interiors(trial_paths(g, tm, si, ti)),
            );
            crate::score::lemma_matches_stream_counts(
                freq_licit,
                interiors(trial_paths(g, tm, sl, tl)),
            );
            assert(freq_illicit.view_counts() == trial_counts(g, tm, si, ti));
            assert(freq_licit.view_counts() == trial_counts(g, tm, sl, tl));
            assert(run_draws_ok(g, tm, lic_pool, ill_pool, d));
            assert(run_fits(g, tm, d));
        }
        let mixer = compute_mixer_data(&freq_illicit, &freq_licit);
        proof {
            assert(mixer@.map_values(|e: MixerEntry| e.node@) =~= mixer_keys(mixer_view(mixer@)));
            assert(mixer_view(mixer@) == run_mixer(g, tm, d));
        }
        let ghost sv_before = series_view(series.entries@);
        series.add_trial(&mixer, Ghost(run as int));
        proof {
            lemma_series_of_runs_push(g, tm, hist, d, 0, Seq::empty());
            assert(series_view(series.entries@) == series_of_runs(
                g,
                tm,
                hist.push(d),
                0,
                Seq::empty(),
            ));
            assert forall|q: int|
                0 <= q < hist.push(d).len() implies run_draws_ok(
                g,
                tm,
                lic_pool,
                ill_pool,
                #[trigger] hist.push(d)[q],
            ) by {
                if q < hist.len() {
                    assert(hist.push(d)[q] == hist[q]);
                } else {
                    assert(hist.push(d)[q] == d);
                }
            }
            assert forall|q: int| 0 <= q < hist.push(d).len() implies run_fits(
                g,
                tm,
                #[trigger] hist.push(d)[q],
            ) by {
                if q < hist.len() {
                    assert(hist.push(d)[q] == hist[q]);
                } else {
                    assert(hist.push(d)[q] == d);
                }
            }
            hist = hist.push(d);
        }
        run = run + 1;
    }
    Some(series)
}

/// One labeled node: a node name and its label token.
pub struct LabelEntry {
    pub node: String,
    pub label: String,
}

/// The nodes of `pairs[i..]` whose label equals `wanted`, in order.
pub open spec fn selected(
    pairs: Seq<(Seq<char>, Seq<char>)>,
    wanted: Seq<char>,
    i: int,
) -> Seq<Seq<char>>
    decreases pairs.len() - i,
{
    if i < 0 || i >= pairs.len() {
        Seq::empty()
    } else if pairs[i].1 == wanted {
        seq![pairs[i].0] + selected(pairs, wanted, i + 1)
    } else {
        selected(pairs, wanted, i + 1)
    }
}

/// The mathematical value of a label list.
pub open spec fn labels_view(v: Seq<LabelEntry>) -> Seq<(Seq<char>, Seq<char>)> {
    v.map_values(|e: LabelEntry| (e.node@, e.label@))
}

/// The nodes carrying the wanted label, in list order.
pub fn select_labeled(entries: &Vec<LabelEntry>, wanted: &String) -> (r: Vec<String>)
    ensures
        names(r@) == selected(labels_view(entries@), wanted@, 0),
{
    let ghost lv = labels_view(entries@);
    let mut r: Vec<String> = Vec::new();
    let n = entries.len();
    let mut i: usize = 0;
    while i < n
        invariant
            n == entries@.len(),
            lv == labels_view(entries@),
            0 <= i <= n,
            names(r@) + selected(lv, wanted@, i as int) == selected(lv, wanted@, 0),
        decreases n - i,
    {
        let ghost pre = names(r@);
        let ghost rest = selected(lv, wanted@, i + 1);
        proof {
            assert(lv[i as int] == (entries@[i as int].node@, entries@[i as int].label@));
        }
        if entries[i].label.eq(wanted) {
            r.push(entries[i].node.clone());
            proof {
                assert(names(r@) =~= pre + seq![lv[i as int].0]);
                assert(pre + (seq![lv[i as int].0] + rest) =~= (pre + seq![lv[i as int].0])
                    + rest);
            }
        }
        i = i + 1;
    }
    proof {
        assert(names(r@) + Seq::<Seq<char>>::empty() =~= names(r@));
    }
    r
}

} // verus!
