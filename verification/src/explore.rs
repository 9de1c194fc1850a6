//! Timestamp-constrained path exploration: reachability collection, full
//! path enumeration toward a target, and maximal-path enumeration. All
//! modes only descend an edge `u -> v` when `v` is not recorded earlier
//! than `u`, never revisit a node already on the current path, and stop at
//! a caller-supplied depth bound.

use vstd::prelude::*;

use crate::graph::Graph;
use crate::graph::TimeMap;
use crate::graph::allows_edge;
use crate::graph::clone_path;
use crate::graph::contains_name;
use crate::graph::names;
use crate::graph::paths_view;

verus! {

/// The reachable-node accumulator after exploring from `cur` at `depth`,
/// with `onpath` the nodes on the current traversal stack and `acc` the
/// nodes already collected (each node appears once, in first-visit order).
pub open spec fn reach_acc(
    g: Graph,
    tm: TimeMap,
    cur: Seq<char>,
    depth: nat,
    maxd: nat,
    onpath: Seq<Seq<char>>,
    acc: Seq<Seq<char>>,
) -> Seq<Seq<char>>
    decreases maxd - depth, 1int, 0int,
{
    if depth >= maxd || onpath.contains(cur) {
        acc
    } else {
        let acc1 = if acc.contains(cur) {
            acc
        } else {
            acc.push(cur)
        };
        reach_scan(g, tm, cur, depth, maxd, onpath.push(cur), g.succs_of(cur), 0, acc1)
    }
}

/// The accumulator after the successors `succs[i..]` of `cur` are explored
/// in order.
pub open spec fn reach_scan(
    g: Graph,
    tm: TimeMap,
    cur: Seq<char>,
    depth: nat,
    maxd: nat,
    onpath2: Seq<Seq<char>>,
    succs: Seq<Seq<char>>,
    i: int,
    acc: Seq<Seq<char>>,
) -> Seq<Seq<char>>
    decreases maxd - depth, 0int, succs.len() - i,
{
    if i < 0 || i >= succs.len() || depth >= maxd {
        acc
    } else {
        let acc2 = if tm.allows(cur, succs[i]) {
            reach_acc(g, tm, succs[i], (depth + 1) as nat, maxd, onpath2, acc)
        } else {
            acc
        };
        reach_scan(g, tm, cur, depth, maxd, onpath2, succs, i + 1, acc2)
    }
}

/// Timestamp-filtered depth-first search that accumulates every node
/// reachable from `current` within `max_depth` into `reachable` (without
/// repeats), removing traversal marks on backtrack so later explorations
/// may reach the same nodes along other branches. Terminates on every
/// finite graph, cycles included: the `decreases` clause bounds the
/// recursion by the remaining depth budget.
pub fn dfs_collect_reachable(
    graph: &Graph,
    timestamps: &TimeMap,
    current: &String,
    depth: usize,
    visited_on_path: &mut Vec<String>,
    reachable: &mut Vec<String>,
    max_depth: usize,
)
    ensures
        final(visited_on_path)@ == old(visited_on_path)@,
        names(final(reachable)@) == reach_acc(
            *graph,
            *timestamps,
            current@,
            depth as nat,
            max_depth as nat,
            names(old(visited_on_path)@),
            names(old(reachable)@),
        ),
    decreases max_depth - depth,
{
    if depth >= max_depth || contains_name(visited_on_path, current) {
        return ;
    }
    visited_on_path.push(current.clone());
    let ghost onpath2 = names(visited_on_path@);
    proof {
        assert(onpath2 =~= names(old(visited_on_path)@).push(current@));
    }
    if !contains_name(reachable, current) {
        reachable.push(current.clone());
        proof {
            assert(names(reachable@) =~= names(old(reachable)@).push(current@));
        }
    }
    let ghost acc1 = names(reachable@);
    match graph.lookup(current) {
        Some(ns) => {
            let ghost succs = names(ns@);
            let n = ns.len();
            let mut i: usize = 0;
            while i < n
                invariant
                    n == ns@.len(),
                    succs == names(ns@),
                    succs == graph.succs_of(current@),
                    0 <= i <= n,
                    depth < max_depth,
                    visited_on_path@ == old(visited_on_path)@.push(*current),
                    onpath2 == names(visited_on_path@),
                    reach_scan(
                        *graph,
                        *timestamps,
                        current@,
                        depth as nat,
                        max_depth as nat,
                        onpath2,
                        succs,
                        i as int,
                        names(reachable@),
                    ) == reach_scan(
                        *graph,
                        *timestamps,
                        current@,
                        depth as nat,
                        max_depth as nat,
                        onpath2,
                        succs,
                        0,
                        acc1,
                    ),
                decreases n - i,
            {
                proof {
                    assert(succs[i as int] == ns@[i as int]@);
                }
                if allows_edge(timestamps, current, &ns[i]) {
                    dfs_collect_reachable(
                        graph,
                        timestamps,
                        &ns[i],
                        depth + 1,
                        visited_on_path,
                        reachable,
                        max_depth,
                    );
                }
                i = i + 1;
            }
        },
        None => {
            proof {
                assert(graph.succs_of(current@) =~= Seq::<Seq<char>>::empty());
            }
        },
    }
    visited_on_path.pop();
    proof {
        assert(visited_on_path@ =~= old(visited_on_path)@);
    }
}

/// The reachable accumulator after exploring from each of `starts[i..]` in
/// turn, each from a fresh traversal stack at depth `1`.
pub open spec fn reach_list(
    g: Graph,
    tm: TimeMap,
    starts: Seq<Seq<char>>,
    maxd: nat,
    i: int,
    acc: Seq<Seq<char>>,
) -> Seq<Seq<char>>
    decreases starts.len() - i,
{
    if i < 0 || i >= starts.len() {
        acc
    } else {
        reach_list(
            g,
            tm,
            starts,
            maxd,
            i + 1,
            reach_acc(g, tm, starts[i], 1, maxd, Seq::empty(), acc),
        )
    }
}

/// Every node reachable from some node of `start_nodes` through a
/// timestamp-monotonic walk of bounded depth, each reported once in
/// first-visit order.
pub fn reachable_calculator(
    graph: &Graph,
    timestamps: &TimeMap,
    start_nodes: &Vec<String>,
    depth: usize,
) -> (r: Vec<String>)
    ensures
        names(r@) == reach_list(
            *graph,
            *timestamps,
            names(start_nodes@),
            depth as nat,
            0,
            Seq::empty(),
        ),
{
    let mut reachable: Vec<String> = Vec::new();
    let mut visited: Vec<String> = Vec::new();
    let ghost starts = names(start_nodes@);
    let n = start_nodes.len();
    let mut i: usize = 0;
    proof {
        assert(names(Seq::<String>::empty()) =~= Seq::<Seq<char>>::empty());
    }
    while i < n
        invariant
            n == start_nodes@.len(),
            starts == names(start_nodes@),
            0 <= i <= n,
            names(visited@) == Seq::<Seq<char>>::empty(),
            reach_list(*graph, *timestamps, starts, depth as nat, i as int, names(reachable@))
                == reach_list(*graph, *timestamps, starts, depth as nat, 0, Seq::empty()),
        decreases n - i,
    {
        proof {
            assert(starts[i as int] == start_nodes@[i as int]@);
        }
        dfs_collect_reachable(
            graph,
            timestamps,
            &start_nodes[i],
            1,
            &mut visited,
            &mut reachable,
            depth,
        );
        i = i + 1;
    }
    reachable
}

/// The paths recorded by a search standing at `cur` with `stack` below it:
/// a path is recorded the instant `cur` equals `target` at depth above one,
/// and exploration never continues past a match.
pub open spec fn target_paths(
    g: Graph,
    tm: TimeMap,
    target: Seq<char>,
    maxd: nat,
    stack: Seq<Seq<char>>,
    depth: nat,
    cur: Seq<char>,
) -> Seq<Seq<Seq<char>>>
    decreases maxd + 1 - depth, 1int, 0int,
{
    if depth > maxd || stack.contains(cur) {
        Seq::empty()
    } else {
        let stack2 = stack.push(cur);
        if cur == target && depth > 1 {
            seq![stack2]
        } else {
            target_scan(g, tm, target, maxd, stack2, cur, g.succs_of(cur), 0, depth)
        }
    }
}

/// The paths contributed by the successors `succs[i..]` of `cur`.
pub open spec fn target_scan(
    g: Graph,
    tm: TimeMap,
    target: Seq<char>,
    maxd: nat,
    stack2: Seq<Seq<char>>,
    cur: Seq<char>,
    succs: Seq<Seq<char>>,
    i: int,
    depth: nat,
) -> Seq<Seq<Seq<char>>>
    decreases maxd + 1 - depth, 0int, succs.len() - i,
{
    if i < 0 || i >= succs.len() || depth > maxd {
        Seq::empty()
    } else {
        let here = if tm.allows(cur, succs[i]) {
            target_paths(g, tm, target, maxd, stack2, (depth + 1) as nat, succs[i])
        } else {
            Seq::empty()
        };
        here + target_scan(g, tm, target, maxd, stack2, cur, succs, i + 1, depth)
    }
}

/// Depth-first enumeration of every timestamp-monotonic simple path from
/// `current` to `target` within `max_depth`, appended to `all_paths`. The
/// working path is restored on return. Terminates on every finite graph,
/// cycles included: the `decreases` clause bounds the recursion by the
/// remaining depth budget.
pub fn dfs_collect_paths(
    graph: &Graph,
    timestamps: &TimeMap,
    current: &String,
    target: &String,
    path: &mut Vec<String>,
    all_paths: &mut Vec<Vec<String>>,
    depth: usize,
    max_depth: usize,
)
    requires
        max_depth < usize::MAX,
    ensures
        final(path)@ == old(path)@,
        paths_view(final(all_paths)@) == paths_view(old(all_paths)@) + target_paths(
            *graph,
            *timestamps,
            target@,
            max_depth as nat,
            names(old(path)@),
            depth as nat,
            current@,
        ),
    decreases max_depth + 1 - depth,
{
    let ghost m = max_depth as nat;
    if depth > max_depth || contains_name(path, current) {
        proof {
            assert(paths_view(all_paths@) =~= paths_view(all_paths@)
                + Seq::<Seq<Seq<char>>>::empty());
        }
        return ;
    }
    path.push(current.clone());
    let ghost stack2 = names(path@);
    proof {
        assert(stack2 =~= names(old(path)@).push(current@));
    }
    if current.eq(target) && depth > 1 {
        let p = clone_path(path);
        all_paths.push(p);
        proof {
            assert(paths_view(all_paths@) =~= paths_view(old(all_paths)@) + seq![stack2]);
        }
    } else {
        match graph.lookup(current) {
            Some(ns) => {
                let ghost succs = names(ns@);
                let n = ns.len();
                let mut i: usize = 0;
                while i < n
                    invariant
                        m == max_depth as nat,
                        n == ns@.len(),
                        succs == names(ns@),
                        succs == graph.succs_of(current@),
                        0 <= i <= n,
                        depth <= max_depth < usize::MAX,
                        path@ == old(path)@.push(*current),
                        stack2 == names(path@),
                        paths_view(all_paths@) + target_scan(
                            *graph,
                            *timestamps,
                            target@,
                            m,
                            stack2,
                            current@,
                            succs,
                            i as int,
                            depth as nat,
                        ) == paths_view(old(all_paths)@) + target_scan(
                            *graph,
                            *timestamps,
                            target@,
                            m,
                            stack2,
                            current@,
                            succs,
                            0,
                            depth as nat,
                        ),
                    decreases n - i,
                {
                    let ghost pre = paths_view(all_paths@);
                    let ghost rest = target_scan(
                        *graph,
                        *timestamps,
                        target@,
                        m,
                        stack2,
                        current@,
                        succs,
                        i + 1,
                        depth as nat,
                    );
                    proof {
                        assert(succs[i as int] == ns@[i as int]@);
                    }
                    if allows_edge(timestamps, current, &ns[i]) {
                        dfs_collect_paths(
                            graph,
                            timestamps,
                            &ns[i],
                            target,
                            path,
                            all_paths,
                            depth + 1,
                            max_depth,
                        );
                        proof {
                            let here = target_paths(
                                *graph,
                                *timestamps,
                                target@,
                                m,
                                stack2,
                                (depth + 1) as nat,
                                succs[i as int],
                            );
                            assert(pre + (here + rest) =~= (pre + here) + rest);
                        }
                    } else {
                        proof {
                            assert(pre + (Seq::<Seq<Seq<char>>>::empty() + rest) =~= pre + rest);
                        }
                    }
                    i = i + 1;
                }
            },
            None => {
                proof {
                    assert(graph.succs_of(current@) =~= Seq::<Seq<char>>::empty());
                    assert(paths_view(all_paths@) =~= paths_view(old(all_paths)@) + target_scan(
                        *graph,
                        *timestamps,
                        target@,
                        m,
                        stack2,
                        current@,
                        graph.succs_of(current@),
                        0,
                        depth as nat,
                    ));
                }
            },
        }
    }
    path.pop();
    proof {
        assert(path@ =~= old(path)@);
    }
}

/// The maximal paths recorded by a search standing at `cur` with `stack`
/// below it: the extended stack itself when nothing below the depth bound
/// can extend it, and otherwise every maximal extension.
pub open spec fn max_paths(
    g: Graph,
    tm: TimeMap,
    maxd: nat,
    stack: Seq<Seq<char>>,
    cur: Seq<char>,
) -> Seq<Seq<Seq<char>>>
    decreases maxd + 2 - stack.len(), 0int, 0int,
{
    let stack2 = stack.push(cur);
    if stack2.len() > maxd {
        seq![stack2]
    } else {
        let r = max_scan(g, tm, maxd, stack2, cur, g.succs_of(cur), 0);
        if r.len() == 0 {
            seq![stack2]
        } else {
            r
        }
    }
}

/// The maximal paths contributed by the eligible, unvisited successors
/// `succs[i..]` of `cur`.
pub open spec fn max_scan(
    g: Graph,
    tm: TimeMap,
    maxd: nat,
    stack2: Seq<Seq<char>>,
    cur: Seq<char>,
    succs: Seq<Seq<char>>,
    i: int,
) -> Seq<Seq<Seq<char>>>
    decreases maxd + 2 - stack2.len(), 1int, succs.len() - i,
{
    if i < 0 || i >= succs.len() || stack2.len() > maxd {
        Seq::empty()
    } else {
        let here = if tm.allows(cur, succs[i]) && !stack2.contains(succs[i]) {
            max_paths(g, tm, maxd, stack2, succs[i])
        } else {
            Seq::empty()
        };
        here + max_scan(g, tm, maxd, stack2, cur, succs, i + 1)
    }
}

/// Every maximal path of `max_paths` holds at least the node it stands at.
proof fn lemma_max_paths_nonempty(
    g: Graph,
    tm: TimeMap,
    maxd: nat,
    stack: Seq<Seq<char>>,
    cur: Seq<char>,
)
    ensures
        max_paths(g, tm, maxd, stack, cur).len() >= 1,
{
}

/// Depth-first enumeration of the maximal timestamp-monotonic simple paths
/// out of `current`: a path is recorded exactly when no eligible unvisited
/// successor remains below the depth bound. The working path is restored on
/// return. Terminates on every finite graph, cycles included: the
/// `decreases` clause bounds the recursion by the growth of the working
/// path toward the depth bound.
pub fn dfs_maximal(
    graph: &Graph,
    timestamps: &TimeMap,
    current: &String,
    path: &mut Vec<String>,
    all_paths: &mut Vec<Vec<String>>,
    max_depth: usize,
)
    ensures
        final(path)@ == old(path)@,
        paths_view(final(all_paths)@) == paths_view(old(all_paths)@) + max_paths(
            *graph,
            *timestamps,
            max_depth as nat,
            names(old(path)@),
            current@,
        ),
    decreases max_depth + 2 - path@.len(),
{
    let ghost m = max_depth as nat;
    path.push(current.clone());
    let ghost stack2 = names(path@);
    proof {
        assert(stack2 =~= names(old(path)@).push(current@));
    }
    let ghost r0 = max_scan(*graph, *timestamps, m, stack2, current@, graph.succs_of(current@), 0);
    let mut extended = false;
    if path.len() <= max_depth {
        match graph.lookup(current) {
            Some(ns) => {
                let ghost succs = names(ns@);
                let n = ns.len();
                let mut i: usize = 0;
                while i < n
                    invariant
                        m == max_depth as nat,
                        n == ns@.len(),
                        succs == names(ns@),
                        succs == graph.succs_of(current@),
                        0 <= i <= n,
                        stack2.len() <= max_depth,
                        path@ == old(path)@.push(*current),
                        stack2 == names(path@),
                        paths_view(all_paths@).len() >= paths_view(old(all_paths)@).len(),
                        extended == (paths_view(all_paths@).len() > paths_view(
                            old(all_paths)@,
                        ).len()),
                        paths_view(all_paths@) + max_scan(
                            *graph,
                            *timestamps,
                            m,
                            stack2,
                            current@,
                            succs,
                            i as int,
                        ) == paths_view(old(all_paths)@) + max_scan(
                            *graph,
                            *timestamps,
                            m,
                            stack2,
                            current@,
                            succs,
                            0,
                        ),
                    decreases n - i,
                {
                    let ghost pre = paths_view(all_paths@);
                    let ghost rest = max_scan(
                        *graph,
                        *timestamps,
                        m,
                        stack2,
                        current@,
                        succs,
                        i + 1,
                    );
                    proof {
                        assert(succs[i as int] == ns@[i as int]@);
                    }
                    if allows_edge(timestamps, current, &ns[i]) && !contains_name(path, &ns[i]) {
                        dfs_maximal(graph, timestamps, &ns[i], path, all_paths, max_depth);
                        extended = true;
                        proof {
                            let here = max_paths(*graph, *timestamps, m, stack2, succs[i as int]);
                            lemma_max_paths_nonempty(*graph, *timestamps, m, stack2, succs[i as int]);
                            assert(pre + (here + rest) =~= (pre + here) + rest);
                        }
                    } else {
                        proof {
                            assert(pre + (Seq::<Seq<Seq<char>>>::empty() + rest) =~= pre + rest);
                        }
                    }
                    i = i + 1;
                }
                proof {
                    assert(max_scan(*graph, *timestamps, m, stack2, current@, succs, n as int)
                        == Seq::<Seq<Seq<char>>>::empty());
                    assert(paths_view(all_paths@) + Seq::<Seq<Seq<char>>>::empty() =~= paths_view(
                        all_paths@,
                    ));
                    assert(paths_view(all_paths@) == paths_view(old(all_paths)@) + r0);
                    assert(extended == (r0.len() > 0));
                }
            },
            None => {
                proof {
                    assert(graph.succs_of(current@) =~= Seq::<Seq<char>>::empty());
                    assert(r0 == Seq::<Seq<Seq<char>>>::empty());
                    assert(paths_view(all_paths@) =~= paths_view(old(all_paths)@) + r0);
                    assert(extended == (r0.len() > 0));
                }
            },
        }
    } else {
        proof {
            assert(stack2.len() > m);
            assert(r0 == Seq::<Seq<Seq<char>>>::empty());
            assert(paths_view(all_paths@) =~= paths_view(old(all_paths)@) + r0);
            assert(extended == (r0.len() > 0));
        }
    }
    if !extended {
        let p = clone_path(path);
        all_paths.push(p);
        proof {
            assert(paths_view(old(all_paths)@) + r0 =~= paths_view(old(all_paths)@));
            assert(paths_view(all_paths@) =~= paths_view(old(all_paths)@) + seq![stack2]);
        }
    }
    path.pop();
    proof {
        assert(path@ =~= old(path)@);
    }
}

/// The path is timestamp-monotonic edge by edge: every step it takes is
/// one the timestamp map allows.
pub open spec fn chain_ok(tm: TimeMap, p: Seq<Seq<char>>) -> bool {
    forall|j: int| 0 <= j < p.len() - 1 ==> #[trigger] tm.allows(p[j], p[j + 1])
}

/// Every path recorded by the targeted search below a well-formed stack is
/// simple and timestamp-monotonic.
proof fn lemma_target_paths_valid(
    g: Graph,
    tm: TimeMap,
    target: Seq<char>,
    maxd: nat,
    stack: Seq<Seq<char>>,
    depth: nat,
    cur: Seq<char>,
)
    requires
        crate::graph::distinct_seq(stack),
        chain_ok(tm, stack),
        stack.len() > 0 ==> tm.allows(stack.last(), cur),
    ensures
        forall|p: Seq<Seq<char>>|
            #[trigger] target_paths(g, tm, target, maxd, stack, depth, cur).contains(p)
                ==> crate::graph::distinct_seq(p) && chain_ok(tm, p),
    decreases maxd + 1 - depth, 1int, 0int,
{
    if !(depth > maxd || stack.contains(cur)) {
        let stack2 = stack.push(cur);
        assert(crate::graph::distinct_seq(stack2)) by {
            assert forall|a: int, b: int| 0 <= a < b < stack2.len() implies stack2[a] != stack2[
            b
            ] by {
                if b == stack.len() {
                    assert(stack2[a] == stack[a]);
                    if stack[a] == cur {
                        assert(stack.contains(cur));
                    }
                }
            }
        }
        assert(chain_ok(tm, stack2)) by {
            assert forall|j: int| 0 <= j < stack2.len() - 1 implies #[trigger] tm.allows(
                stack2[j],
                stack2[j + 1],
            ) by {
                if j < stack.len() - 1 {
                    assert(tm.allows(stack[j], stack[j + 1]));
                }
            }
        }
        if cur == target && depth > 1 {
            assert forall|p: Seq<Seq<char>>|
                #[trigger] target_paths(g, tm, target, maxd, stack, depth, cur).contains(p)
                    implies crate::graph::distinct_seq(p) && chain_ok(tm, p) by {
                assert(p == stack2);
            }
        } else {
            lemma_target_scan_valid(g, tm, target, maxd, stack2, cur, g.succs_of(cur), 0, depth);
            assert forall|p: Seq<Seq<char>>|
                #[trigger] target_paths(g, tm, target, maxd, stack, depth, cur).contains(p)
                    implies crate::graph::distinct_seq(p) && chain_ok(tm, p) by {
                assert(target_scan(
                    g,
                    tm,
                    target,
                    maxd,
                    stack2,
                    cur,
                    g.succs_of(cur),
                    0,
                    depth,
                ).contains(p));
            }
        }
    }
}

/// Every path contributed by the successors `succs[i..]` is simple and
/// timestamp-monotonic.
proof fn lemma_target_scan_valid(
    g: Graph,
    tm: TimeMap,
    target: Seq<char>,
    maxd: nat,
    stack2: Seq<Seq<char>>,
    cur: Seq<char>,
    succs: Seq<Seq<char>>,
    i: int,
    depth: nat,
)
    requires
        crate::graph::distinct_seq(stack2),
        chain_ok(tm, stack2),
        stack2.len() > 0,
        stack2.last() == cur,
    ensures
        forall|p: Seq<Seq<char>>|
            #[trigger] target_scan(g, tm, target, maxd, stack2, cur, succs, i, depth).contains(
                p,
            ) ==> crate::graph::distinct_seq(p) && chain_ok(tm, p),
    decreases maxd + 1 - depth, 0int, succs.len() - i,
{
    if !(i < 0 || i >= succs.len() || depth > maxd) {
        let here = if tm.allows(cur, succs[i]) {
            target_paths(g, tm, target, maxd, stack2, (depth + 1) as nat, succs[i])
        } else {
            Seq::<Seq<Seq<char>>>::empty()
        };
        let rest = target_scan(g, tm, target, maxd, stack2, cur, succs, i + 1, depth);
        if tm.allows(cur, succs[i]) {
            lemma_target_paths_valid(g, tm, target, maxd, stack2, (depth + 1) as nat, succs[i]);
        }
        lemma_target_scan_valid(g, tm, target, maxd, stack2, cur, succs, i + 1, depth);
        assert forall|p: Seq<Seq<char>>|
            #[trigger] target_scan(g, tm, target, maxd, stack2, cur, succs, i, depth).contains(
                p,
            ) implies crate::graph::distinct_seq(p) && chain_ok(tm, p) by {
            let w = choose|w: int| 0 <= w < (here + rest).len() && (here + rest)[w] == p;
            if w < here.len() {
                assert(here.contains(p));
            } else {
                assert(rest[w - here.len()] == p);
                assert(rest.contains(p));
            }
        }
    }
}

/// Path validity for the targeted mode: every path the enumeration from
/// `cur` returns is timestamp-monotonic edge by edge and holds no repeated
/// node.
pub proof fn lemma_path_validity(
    g: Graph,
    tm: TimeMap,
    target: Seq<char>,
    maxd: nat,
    depth: nat,
    cur: Seq<char>,
)
    ensures
        forall|p: Seq<Seq<char>>|
            #[trigger] target_paths(g, tm, target, maxd, Seq::empty(), depth, cur).contains(p)
                ==> crate::graph::distinct_seq(p) && chain_ok(tm, p),
{
    lemma_target_paths_valid(g, tm, target, maxd, Seq::empty(), depth, cur);
}

/// Every maximal path recorded below a well-formed stack is simple and
/// timestamp-monotonic.
proof fn lemma_max_paths_valid(
    g: Graph,
    tm: TimeMap,
    maxd: nat,
    stack: Seq<Seq<char>>,
    cur: Seq<char>,
)
    requires
        crate::graph::distinct_seq(stack),
        chain_ok(tm, stack),
        !stack.contains(cur),
        stack.len() > 0 ==> tm.allows(stack.last(), cur),
    ensures
        forall|p: Seq<Seq<char>>|
            #[trigger] max_paths(g, tm, maxd, stack, cur).contains(p)
                ==> crate::graph::distinct_seq(p) && chain_ok(tm, p),
    decreases maxd + 2 - stack.len(), 0int, 0int,
{
    let stack2 = stack.push(cur);
    assert(crate::graph::distinct_seq(stack2)) by {
        assert forall|a: int, b: int| 0 <= a < b < stack2.len() implies stack2[a] != stack2[
        b
        ] by {
            if b == stack.len() {
                assert(stack2[a] == stack[a]);
                if stack[a] == cur {
                    assert(stack.contains(cur));
                }
            }
        }
    }
    assert(chain_ok(tm, stack2)) by {
        assert forall|j: int| 0 <= j < stack2.len() - 1 implies #[trigger] tm.allows(
            stack2[j],
            stack2[j + 1],
        ) by {
            if j < stack.len() - 1 {
                assert(tm.allows(stack[j], stack[j + 1]));
            }
        }
    }
    if stack2.len() > maxd {
        assert forall|p: Seq<Seq<char>>|
            #[trigger] max_paths(g, tm, maxd, stack, cur).contains(p)
                implies crate::graph::distinct_seq(p) && chain_ok(tm, p) by {
            assert(p == stack2);
        }
    } else {
        lemma_max_scan_valid(g, tm, maxd, stack2, cur, g.succs_of(cur), 0);
        let r = max_scan(g, tm, maxd, stack2, cur, g.succs_of(cur), 0);
        if r.len() == 0 {
            assert forall|p: Seq<Seq<char>>|
                #[trigger] max_paths(g, tm, maxd, stack, cur).contains(p)
                    implies crate::graph::distinct_seq(p) && chain_ok(tm, p) by {
                assert(p == stack2);
            }
        }
    }
}

/// Every maximal path contributed by the successors `succs[i..]` is simple
/// and timestamp-monotonic.
proof fn lemma_max_scan_valid(
    g: Graph,
    tm: TimeMap,
    maxd: nat,
    stack2: Seq<Seq<char>>,
    cur: Seq<char>,
    succs: Seq<Seq<char>>,
    i: int,
)
    requires
        crate::graph::distinct_seq(stack2),
        chain_ok(tm, stack2),
        stack2.len() > 0,
        stack2.last() == cur,
    ensures
        forall|p: Seq<Seq<char>>|
            #[trigger] max_scan(g, tm, maxd, stack2, cur, succs, i).contains(p)
                ==> crate::graph::distinct_seq(p) && chain_ok(tm, p),
    decreases maxd + 2 - stack2.len(), 1int, succs.len() - i,
{
    if !(i < 0 || i >= succs.len() || stack2.len() > maxd) {
        let here = if tm.allows(cur, succs[i]) && !stack2.contains(succs[i]) {
            max_paths(g, tm, maxd, stack2, succs[i])
        } else {
            Seq::<Seq<Seq<char>>>::empty()
        };
        let rest = max_scan(g, tm, maxd, stack2, cur, succs, i + 1);
        if tm.allows(cur, succs[i]) && !stack2.contains(succs[i]) {
            lemma_max_paths_valid(g, tm, maxd, stack2, succs[i]);
        }
        lemma_max_scan_valid(g, tm, maxd, stack2, cur, succs, i + 1);
        assert forall|p: Seq<Seq<char>>|
            #[trigger] max_scan(g, tm, maxd, stack2, cur, succs, i).contains(p)
                implies crate::graph::distinct_seq(p) && chain_ok(tm, p) by {
            let w = choose|w: int| 0 <= w < (here + rest).len() && (here + rest)[w] == p;
            if w < here.len() {
                assert(here.contains(p));
            } else {
                assert(rest[w - here.len()] == p);
                assert(rest.contains(p));
            }
        }
    }
}

/// Path validity for the maximal mode, over a whole batch of start nodes.
proof fn lemma_max_paths_list_valid(
    g: Graph,
    tm: TimeMap,
    starts: Seq<Seq<char>>,
    maxd: nat,
    i: int,
)
    ensures
        forall|p: Seq<Seq<char>>|
            #[trigger] max_paths_list(g, tm, starts, maxd, i).contains(p)
                ==> crate::graph::distinct_seq(p) && chain_ok(tm, p),
    decreases starts.len() - i,
{
    if !(i < 0 || i >= starts.len()) {
        let here = max_paths(g, tm, maxd, Seq::empty(), starts[i]);
        let rest = max_paths_list(g, tm, starts, maxd, i + 1);
        lemma_max_paths_valid(g, tm, maxd, Seq::empty(), starts[i]);
        lemma_max_paths_list_valid(g, tm, starts, maxd, i + 1);
        assert forall|p: Seq<Seq<char>>|
            #[trigger] max_paths_list(g, tm, starts, maxd, i).contains(p)
                implies crate::graph::distinct_seq(p) && chain_ok(tm, p) by {
            let w = choose|w: int| 0 <= w < (here + rest).len() && (here + rest)[w] == p;
            if w < here.len() {
                assert(here.contains(p));
            } else {
                assert(rest[w - here.len()] == p);
                assert(rest.contains(p));
            }
        }
    }
}

/// The maximal paths found from each of `starts[i..]` in turn.
pub open spec fn max_paths_list(
    g: Graph,
    tm: TimeMap,
    starts: Seq<Seq<char>>,
    maxd: nat,
    i: int,
) -> Seq<Seq<Seq<char>>>
    decreases starts.len() - i,
{
    if i < 0 || i >= starts.len() {
        Seq::empty()
    } else {
        max_paths(g, tm, maxd, Seq::empty(), starts[i]) + max_paths_list(
            g,
            tm,
            starts,
            maxd,
            i + 1,
        )
    }
}

/// Every maximal timestamp-monotonic simple path out of each start node,
/// within `max_depth` nodes. A start with no eligible successor yields the
/// one-element path holding only itself. Every returned path is
/// timestamp-monotonic edge by edge and holds no repeated node.
pub fn collect_paths_from_list(
    graph: &Graph,
    timestamps: &TimeMap,
    start_nodes: &Vec<String>,
    max_depth: usize,
) -> (r: Vec<Vec<String>>)
    ensures
        paths_view(r@) == max_paths_list(
            *graph,
            *timestamps,
            names(start_nodes@),
            max_depth as nat,
            0,
        ),
        forall|p: Seq<Seq<char>>|
            #[trigger] paths_view(r@).contains(p) ==> crate::graph::distinct_seq(p) && chain_ok(
                *timestamps,
                p,
            ),
{
    proof {
        lemma_max_paths_list_valid(*graph, *timestamps, names(start_nodes@), max_depth as nat, 0);
    }
    let mut all_paths: Vec<Vec<String>> = Vec::new();
    let ghost starts = names(start_nodes@);
    let n = start_nodes.len();
    let mut i: usize = 0;
    while i < n
        invariant
            n == start_nodes@.len(),
            starts == names(start_nodes@),
            0 <= i <= n,
            paths_view(all_paths@) + max_paths_list(
                *graph,
                *timestamps,
                starts,
                max_depth as nat,
                i as int,
            ) == max_paths_list(*graph, *timestamps, starts, max_depth as nat, 0),
        decreases n - i,
    {
        let ghost pre = paths_view(all_paths@);
        let ghost rest = max_paths_list(*graph, *timestamps, starts, max_depth as nat, i + 1);
        let mut path: Vec<String> = Vec::new();
        proof {
            assert(names(Seq::<String>::empty()) =~= Seq::<Seq<char>>::empty());
            assert(starts[i as int] == start_nodes@[i as int]@);
        }
        dfs_maximal(graph, timestamps, &start_nodes[i], &mut path, &mut all_paths, max_depth);
        proof {
            let here = max_paths(*graph, *timestamps, max_depth as nat, Seq::empty(), starts[i as int]);
            assert(pre + (here + rest) =~= (pre + here) + rest);
        }
        i = i + 1;
    }
    proof {
        assert(paths_view(all_paths@) =~= paths_view(all_paths@) + Seq::<Seq<Seq<char>>>::empty());
    }
    all_paths
}



/// Idempotence of the explorer: two reachability results, two targeted
/// enumerations, or two maximal enumerations over the same inputs
/// coincide.
pub proof fn lemma_explorer_deterministic(
    g: Graph,
    tm: TimeMap,
    starts: Seq<Seq<char>>,
    target: Seq<char>,
    cur: Seq<char>,
    depth: nat,
    maxd: nat,
    reach1: Seq<Seq<char>>,
    reach2: Seq<Seq<char>>,
    paths1: Seq<Seq<Seq<char>>>,
    paths2: Seq<Seq<Seq<char>>>,
    maxp1: Seq<Seq<Seq<char>>>,
    maxp2: Seq<Seq<Seq<char>>>,
)
    requires
        reach1 == reach_list(g, tm, starts, maxd, 0, Seq::empty()),
        reach2 == reach_list(g, tm, starts, maxd, 0, Seq::empty()),
        paths1 == target_paths(g, tm, target, maxd, Seq::empty(), depth, cur),
        paths2 == target_paths(g, tm, target, maxd, Seq::empty(), depth, cur),
        maxp1 == max_paths_list(g, tm, starts, maxd, 0),
        maxp2 == max_paths_list(g, tm, starts, maxd, 0),
    ensures
        reach1 == reach2,
        paths1 == paths2,
        maxp1 == maxp2,
{
}

} // verus!
