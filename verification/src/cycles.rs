//! Bounded cycle detection: a depth-first search from every node that
//! reports closed walks returning to the search origin.

use vstd::prelude::*;

use crate::graph::Graph;
use crate::graph::names;
use crate::graph::paths_view;

verus! {

/// The cycles reported by a search that stands at `cur` with `stack` already
/// below it, searching for walks that close back at `origin` with at most
/// `k + 1` nodes on the stack.
pub open spec fn cycles_from(
    g: Graph,
    origin: Seq<char>,
    k: nat,
    stack: Seq<Seq<char>>,
    cur: Seq<char>,
) -> Seq<Seq<Seq<char>>>
    decreases k + 1 - stack.len(), 0int, 0int,
{
    if stack.len() > k {
        Seq::empty()
    } else {
        cycle_scan(g, origin, k, stack.push(cur), g.succs_of(cur), 0)
    }
}

/// The cycles contributed by the successors `succs[i..]` of the node on top
/// of `stack2`.
pub open spec fn cycle_scan(
    g: Graph,
    origin: Seq<char>,
    k: nat,
    stack2: Seq<Seq<char>>,
    succs: Seq<Seq<char>>,
    i: int,
) -> Seq<Seq<Seq<char>>>
    decreases k + 1 - stack2.len(), 1int, succs.len() - i,
{
    if i < 0 || i >= succs.len() || stack2.len() == 0 || stack2.len() > k + 1 {
        Seq::empty()
    } else {
        let here = if succs[i] == origin && stack2.len() > 2 {
            seq![stack2.push(origin)]
        } else {
            cycles_from(g, origin, k, stack2, succs[i])
        };
        here + cycle_scan(g, origin, k, stack2, succs, i + 1)
    }
}

/// All cycles found by searching from each graph entry `i` onward, in entry
/// order.
pub open spec fn cycles_of(g: Graph, k: nat, i: int) -> Seq<Seq<Seq<char>>>
    decreases g.entries@.len() - i,
{
    if i < 0 || i >= g.entries@.len() {
        Seq::empty()
    } else {
        cycles_from(g, g.entries@[i].node@, k, Seq::empty(), g.entries@[i].node@) + cycles_of(
            g,
            k,
            i + 1,
        )
    }
}

/// Every cycle found below `stack` closes at the origin, starts where the
/// stack starts, and holds more than three and at most `k + 2` nodes
/// (that is, at least three and at most `k + 1` edges).
proof fn lemma_cycles_from_shape(
    g: Graph,
    origin: Seq<char>,
    k: nat,
    stack: Seq<Seq<char>>,
    cur: Seq<char>,
)
    ensures
        forall|c: Seq<Seq<char>>|
            #[trigger] cycles_from(g, origin, k, stack, cur).contains(c) ==> c.len() >= 4
                && c.len() <= k + 2 && c.last() == origin && c[0] == (if stack.len() > 0 {
                stack[0]
            } else {
                cur
            }),
    decreases k + 1 - stack.len(), 0int, 0int,
{
    if !(stack.len() > k) {
        lemma_cycle_scan_shape(g, origin, k, stack.push(cur), g.succs_of(cur), 0);
        assert forall|c: Seq<Seq<char>>|
            #[trigger] cycles_from(g, origin, k, stack, cur).contains(c) implies c.len() >= 4
            && c.len() <= k + 2 && c.last() == origin && c[0] == (if stack.len() > 0 {
            stack[0]
        } else {
            cur
        }) by {
            assert(cycle_scan(g, origin, k, stack.push(cur), g.succs_of(cur), 0).contains(c));
            assert(stack.push(cur)[0] == if stack.len() > 0 {
                stack[0]
            } else {
                cur
            });
        }
    }
}

/// The same bounds for the cycles contributed by `succs[i..]`.
proof fn lemma_cycle_scan_shape(
    g: Graph,
    origin: Seq<char>,
    k: nat,
    stack2: Seq<Seq<char>>,
    succs: Seq<Seq<char>>,
    i: int,
)
    ensures
        forall|c: Seq<Seq<char>>|
            #[trigger] cycle_scan(g, origin, k, stack2, succs, i).contains(c) ==> c.len() >= 4
                && c.len() <= k + 2 && c.last() == origin && c[0] == stack2[0],
    decreases k + 1 - stack2.len(), 1int, succs.len() - i,
{
    if !(i < 0 || i >= succs.len() || stack2.len() == 0 || stack2.len() > k + 1) {
        let here = if succs[i] == origin && stack2.len() > 2 {
            seq![stack2.push(origin)]
        } else {
            cycles_from(g, origin, k, stack2, succs[i])
        };
        let rest = cycle_scan(g, origin, k, stack2, succs, i + 1);
        if !(succs[i] == origin && stack2.len() > 2) {
            lemma_cycles_from_shape(g, origin, k, stack2, succs[i]);
        }
        lemma_cycle_scan_shape(g, origin, k, stack2, succs, i + 1);
        assert forall|c: Seq<Seq<char>>|
            #[trigger] cycle_scan(g, origin, k, stack2, succs, i).contains(c) implies c.len()
            >= 4 && c.len() <= k + 2 && c.last() == origin && c[0] == stack2[0] by {
            let w = choose|w: int| 0 <= w < (here + rest).len() && (here + rest)[w] == c;
            if w < here.len() {
                if succs[i] == origin && stack2.len() > 2 {
                    assert(c == stack2.push(origin));
                } else {
                    assert(here.contains(c));
                }
            } else {
                assert(rest[w - here.len()] == c);
                assert(rest.contains(c));
            }
        }
    }
}

/// Cycle validity over a whole search: every reported cycle starts and
/// ends at the same node and spans at least three and at most `k + 1`
/// edges.
proof fn lemma_cycles_of_valid(g: Graph, k: nat, i: int)
    ensures
        forall|c: Seq<Seq<char>>|
            #[trigger] cycles_of(g, k, i).contains(c) ==> c.len() >= 4 && c.len() <= k + 2
                && c[0] == c[c.len() - 1],
    decreases g.entries@.len() - i,
{
    if !(i < 0 || i >= g.entries@.len()) {
        let origin = g.entries@[i].node@;
        let here = cycles_from(g, origin, k, Seq::empty(), origin);
        let rest = cycles_of(g, k, i + 1);
        lemma_cycles_from_shape(g, origin, k, Seq::empty(), origin);
        lemma_cycles_of_valid(g, k, i + 1);
        assert forall|c: Seq<Seq<char>>|
            #[trigger] cycles_of(g, k, i).contains(c) implies c.len() >= 4 && c.len() <= k + 2
            && c[0] == c[c.len() - 1] by {
            let w = choose|w: int| 0 <= w < (here + rest).len() && (here + rest)[w] == c;
            if w < here.len() {
                assert(here.contains(c));
            } else {
                assert(rest[w - here.len()] == c);
                assert(rest.contains(c));
            }
        }
    }
}

/// Every consecutive pair of the walk is a graph edge.
pub open spec fn edge_chain(g: Graph, p: Seq<Seq<char>>) -> bool {
    forall|j: int| 0 <= j < p.len() - 1 ==> #[trigger] g.edge(p[j], p[j + 1])
}

/// In a graph with no one-edge and no two-edge cycles, the search never
/// re-enters its origin early, so no found cycle repeats its origin
/// between its endpoints.
proof fn lemma_cycles_from_no_internal(
    g: Graph,
    origin: Seq<char>,
    k: nat,
    stack: Seq<Seq<char>>,
    cur: Seq<char>,
)
    requires
        !g.edge(origin, origin),
        forall|b: Seq<char>| #[trigger] g.edge(origin, b) ==> !g.edge(b, origin),
        stack.len() > 0 ==> stack[0] == origin,
        stack.len() == 0 ==> cur == origin,
        forall|j: int| 1 <= j < stack.len() ==> stack[j] != origin,
        stack.len() > 0 ==> cur != origin,
        edge_chain(g, stack),
        stack.len() > 0 ==> g.edge(stack.last(), cur),
    ensures
        forall|c: Seq<Seq<char>>|
            #[trigger] cycles_from(g, origin, k, stack, cur).contains(c) ==> forall|j: int|
                1 <= j <= c.len() - 2 ==> #[trigger] c[j] != origin,
    decreases k + 1 - stack.len(), 0int, 0int,
{
    if !(stack.len() > k) {
        let stack2 = stack.push(cur);
        assert(edge_chain(g, stack2)) by {
            assert forall|j: int| 0 <= j < stack2.len() - 1 implies #[trigger] g.edge(
                stack2[j],
                stack2[j + 1],
            ) by {
                if j < stack.len() - 1 {
                    assert(g.edge(stack[j], stack[j + 1]));
                }
            }
        }
        assert(forall|j: int| 1 <= j < stack2.len() ==> stack2[j] != origin);
        lemma_cycle_scan_no_internal(g, origin, k, stack2, cur, g.succs_of(cur), 0);
        assert forall|c: Seq<Seq<char>>|
            #[trigger] cycles_from(g, origin, k, stack, cur).contains(c) implies forall|j: int|
            1 <= j <= c.len() - 2 ==> #[trigger] c[j] != origin by {
            assert(cycle_scan(g, origin, k, stack2, g.succs_of(cur), 0).contains(c));
        }
    }
}

/// The same for the cycles contributed by `succs[i..]`.
proof fn lemma_cycle_scan_no_internal(
    g: Graph,
    origin: Seq<char>,
    k: nat,
    stack2: Seq<Seq<char>>,
    cur: Seq<char>,
    succs: Seq<Seq<char>>,
    i: int,
)
    requires
        !g.edge(origin, origin),
        forall|b: Seq<char>| #[trigger] g.edge(origin, b) ==> !g.edge(b, origin),
        stack2.len() > 0,
        stack2[0] == origin,
        forall|j: int| 1 <= j < stack2.len() ==> stack2[j] != origin,
        edge_chain(g, stack2),
        stack2.last() == cur,
        succs == g.succs_of(cur),
    ensures
        forall|c: Seq<Seq<char>>|
            #[trigger] cycle_scan(g, origin, k, stack2, succs, i).contains(c) ==> forall|j: int|
                1 <= j <= c.len() - 2 ==> #[trigger] c[j] != origin,
    decreases k + 1 - stack2.len(), 1int, succs.len() - i,
{
    if !(i < 0 || i >= succs.len() || stack2.len() == 0 || stack2.len() > k + 1) {
        let here = if succs[i] == origin && stack2.len() > 2 {
            seq![stack2.push(origin)]
        } else {
            cycles_from(g, origin, k, stack2, succs[i])
        };
        let rest = cycle_scan(g, origin, k, stack2, succs, i + 1);
        assert(g.edge(cur, succs[i])) by {
            assert(g.succs_of(cur)[i] == succs[i]);
            assert(g.succs_of(cur).contains(succs[i]));
        }
        if !(succs[i] == origin && stack2.len() > 2) {
            assert(succs[i] != origin) by {
                if succs[i] == origin {
                    if stack2.len() == 1 {
                        assert(cur == origin);
                        assert(g.edge(origin, origin));
                    } else {
                        assert(stack2.len() == 2);
                        assert(edge_chain(g, stack2));
                        assert(g.edge(stack2[0int], stack2[0int + 1]));
                        assert(g.edge(origin, cur));
                        assert(g.edge(cur, origin));
                    }
                }
            }
            lemma_cycles_from_no_internal(g, origin, k, stack2, succs[i]);
        }
        lemma_cycle_scan_no_internal(g, origin, k, stack2, cur, succs, i + 1);
        assert forall|c: Seq<Seq<char>>|
            #[trigger] cycle_scan(g, origin, k, stack2, succs, i).contains(c) implies forall|
            j: int,
        |
            1 <= j <= c.len() - 2 ==> #[trigger] c[j] != origin by {
            let w = choose|w: int| 0 <= w < (here + rest).len() && (here + rest)[w] == c;
            if w < here.len() {
                if succs[i] == origin && stack2.len() > 2 {
                    assert(c == stack2.push(origin));
                    assert forall|j: int| 1 <= j <= c.len() - 2 implies c[j] != origin by {
                        assert(c[j] == stack2[j]);
                    }
                } else {
                    assert(here.contains(c));
                }
            } else {
                assert(rest[w - here.len()] == c);
                assert(rest.contains(c));
            }
        }
    }
}

/// Cycle validity, final clause: in a graph with no one-edge or two-edge
/// cycles, every reported cycle holds its start node only at its two
/// endpoints. (With such short cycles present, the search may re-enter its
/// origin within its first two steps and report walks that repeat it.)
pub proof fn lemma_cycle_no_internal_origin(g: Graph, k: nat)
    requires
        forall|u: Seq<char>| !g.edge(u, u),
        forall|u: Seq<char>, v: Seq<char>| #[trigger] g.edge(u, v) ==> !g.edge(v, u),
    ensures
        forall|c: Seq<Seq<char>>|
            #[trigger] cycles_of(g, k, 0).contains(c) ==> forall|j: int|
                1 <= j <= c.len() - 2 ==> #[trigger] c[j] != c[0],
{
    lemma_cycles_no_internal_from(g, k, 0);
}

/// The final clause, over the searches from entry `i` on.
proof fn lemma_cycles_no_internal_from(g: Graph, k: nat, i: int)
    requires
        forall|u: Seq<char>| !g.edge(u, u),
        forall|u: Seq<char>, v: Seq<char>| #[trigger] g.edge(u, v) ==> !g.edge(v, u),
    ensures
        forall|c: Seq<Seq<char>>|
            #[trigger] cycles_of(g, k, i).contains(c) ==> forall|j: int|
                1 <= j <= c.len() - 2 ==> #[trigger] c[j] != c[0],
    decreases g.entries@.len() - i,
{
    if !(i < 0 || i >= g.entries@.len()) {
        let origin = g.entries@[i].node@;
        let here = cycles_from(g, origin, k, Seq::empty(), origin);
        let rest = cycles_of(g, k, i + 1);
        lemma_cycles_from_no_internal(g, origin, k, Seq::empty(), origin);
        lemma_cycles_from_shape(g, origin, k, Seq::empty(), origin);
        lemma_cycles_no_internal_from(g, k, i + 1);
        assert forall|c: Seq<Seq<char>>|
            #[trigger] cycles_of(g, k, i).contains(c) implies forall|j: int|
            1 <= j <= c.len() - 2 ==> #[trigger] c[j] != c[0] by {
            let w = choose|w: int| 0 <= w < (here + rest).len() && (here + rest)[w] == c;
            if w < here.len() {
                assert(here.contains(c));
                assert(c[0] == origin);
            } else {
                assert(rest[w - here.len()] == c);
                assert(rest.contains(c));
            }
        }
    }
}

/// Depth-first search for closed walks back to `start`, terminating on
/// every finite graph, cycles included: the `decreases` clause bounds the
/// recursion by the growth of the stack toward `k + 1`. Pushes `current`,
/// scans its successors, records the stack closed by `start` whenever a
/// successor equals `start` and more than two nodes are stacked, and
/// otherwise recurses while at most `k + 1` nodes are stacked. The stack is
/// restored on return.
pub fn dfs_loose_cycle(
    graph: &Graph,
    current: &String,
    start: &String,
    k: usize,
    path: &mut Vec<String>,
    cycles: &mut Vec<Vec<String>>,
)
    ensures
        final(path)@ == old(path)@,
        paths_view(final(cycles)@) == paths_view(old(cycles)@) + cycles_from(
            *graph,
            start@,
            k as nat,
            names(old(path)@),
            current@,
        ),
    decreases k + 1 - path@.len(),
{
    let ghost stack = names(path@);
    if path.len() > k {
        proof {
            assert(paths_view(cycles@) =~= paths_view(cycles@) + cycles_from(
                *graph,
                start@,
                k as nat,
                stack,
                current@,
            ));
        }
        return ;
    }
    path.push(current.clone());
    let ghost stack2 = names(path@);
    proof {
        assert(stack2 =~= stack.push(current@));
    }
    match graph.lookup(current) {
        Some(ns) => {
            let ghost succs = names(ns@);
            let n = ns.len();
            let mut i: usize = 0;
            proof {
                assert(paths_view(cycles@) + cycle_scan(
                    *graph,
                    start@,
                    k as nat,
                    stack2,
                    succs,
                    0,
                ) =~= paths_view(old(cycles)@) + cycle_scan(
                    *graph,
                    start@,
                    k as nat,
                    stack2,
                    succs,
                    0,
                ));
            }
            while i < n
                invariant
                    n == ns@.len(),
                    succs == names(ns@),
                    0 <= i <= n,
                    path@ == old(path)@.push(*current),
                    stack2 == names(path@),
                    stack2.len() <= k + 1,
                    succs == graph.succs_of(current@),
                    paths_view(cycles@) + cycle_scan(
                        *graph,
                        start@,
                        k as nat,
                        stack2,
                        succs,
                        i as int,
                    ) == paths_view(old(cycles)@) + cycle_scan(
                        *graph,
                        start@,
                        k as nat,
                        stack2,
                        succs,
                        0,
                    ),
                decreases n - i,
            {
                let ghost cycles_pre = paths_view(cycles@);
                proof {
                    assert(succs[i as int] == ns@[i as int]@);
                }
                if ns[i].eq(start) && path.len() > 2 {
                    let mut closed = crate::graph::clone_path(path);
                    closed.push(start.clone());
                    proof {
                        assert(names(closed@) =~= stack2.push(start@));
                    }
                    cycles.push(closed);
                    proof {
                        assert(paths_view(cycles@) =~= cycles_pre + seq![stack2.push(start@)]);
                        assert(cycles_pre + (seq![stack2.push(start@)] + cycle_scan(
                            *graph,
                            start@,
                            k as nat,
                            stack2,
                            succs,
                            i + 1,
                        )) =~= (cycles_pre + seq![stack2.push(start@)]) + cycle_scan(
                            *graph,
                            start@,
                            k as nat,
                            stack2,
                            succs,
                            i + 1,
                        ));
                    }
                } else {
                    dfs_loose_cycle(graph, &ns[i], start, k, path, cycles);
                    proof {
                        assert(cycles_pre + (cycles_from(
                            *graph,
                            start@,
                            k as nat,
                            stack2,
                            succs[i as int],
                        ) + cycle_scan(*graph, start@, k as nat, stack2, succs, i + 1)) =~= (
                        cycles_pre + cycles_from(*graph, start@, k as nat, stack2, succs[i as int]))
                            + cycle_scan(*graph, start@, k as nat, stack2, succs, i + 1));
                    }
                }
                i = i + 1;
            }
        },
        None => {
            proof {
                assert(cycle_scan(*graph, start@, k as nat, stack2, Seq::<Seq<char>>::empty(), 0)
                    =~= Seq::<Seq<Seq<char>>>::empty());
                assert(graph.succs_of(current@) =~= Seq::<Seq<char>>::empty());
                assert(paths_view(cycles@) =~= paths_view(old(cycles)@) + cycle_scan(
                    *graph,
                    start@,
                    k as nat,
                    stack2,
                    graph.succs_of(current@),
                    0,
                ));
            }
        },
    }
    path.pop();
    proof {
        assert(path@ =~= old(path)@);
    }
}

/// Search from every node of the graph for cycles of up to `k + 1` edges
/// (closed walks whose stack holds more than two and at most `k + 1`
/// nodes), reporting each closed walk found. Cycles reachable from several
/// origins within range are reported once per origin; rotations are not
/// deduplicated.
pub fn find_k_cycles(graph: &Graph, k: usize) -> (r: Vec<Vec<String>>)
    ensures
        paths_view(r@) == cycles_of(*graph, k as nat, 0),
        forall|c: Seq<Seq<char>>|
            #[trigger] paths_view(r@).contains(c) ==> c.len() >= 4 && c.len() <= k + 2 && c[0]
                == c[c.len() - 1],
{
    proof {
        lemma_cycles_of_valid(*graph, k as nat, 0);
    }
    let mut cycles: Vec<Vec<String>> = Vec::new();
    let n = graph.entries.len();
    let mut i: usize = 0;
    while i < n
        invariant
            n == graph.entries@.len(),
            0 <= i <= n,
            paths_view(cycles@) + cycles_of(*graph, k as nat, i as int) == cycles_of(
                *graph,
                k as nat,
                0,
            ),
        decreases n - i,
    {
        let ghost cycles_pre = paths_view(cycles@);
        let mut path: Vec<String> = Vec::new();
        let start = &graph.entries[i].node;
        dfs_loose_cycle(graph, start, start, k, &mut path, &mut cycles);
        proof {
            assert(names(Seq::<String>::empty()) =~= Seq::<Seq<char>>::empty());
            assert(paths_view(cycles@) =~= cycles_pre + cycles_from(
                *graph,
                start@,
                k as nat,
                Seq::empty(),
                start@,
            ));
            assert(cycles_pre + (cycles_from(*graph, start@, k as nat, Seq::empty(), start@)
                + cycles_of(*graph, k as nat, i + 1)) =~= (cycles_pre + cycles_from(
                *graph,
                start@,
                k as nat,
                Seq::empty(),
                start@,
            )) + cycles_of(*graph, k as nat, i + 1));
        }
        i = i + 1;
    }
    proof {
        assert(paths_view(cycles@) =~= paths_view(cycles@) + cycles_of(*graph, k as nat, n as int));
    }
    cycles
}

/// The name sequences of an optional path.
pub open spec fn opt_path(o: Option<Vec<String>>) -> Option<Seq<Seq<char>>> {
    match o {
        Some(v) => Some(names(v@)),
        None => None,
    }
}

/// The first-found cycle state after a search stands at `cur` with `stack`
/// below it, holding an earlier find in `prev`: an already-found cycle
/// stops descent, but a later successor equal to the origin still
/// overwrites it with the then-current stack.
pub open spec fn check_from(
    g: Graph,
    origin: Seq<char>,
    maxd: nat,
    stack: Seq<Seq<char>>,
    cur: Seq<char>,
    prev: Option<Seq<Seq<char>>>,
) -> Option<Seq<Seq<char>>>
    decreases maxd + 2 - stack.len(), 0int, 0int,
{
    if stack.len() > maxd + 1 || prev.is_some() {
        prev
    } else {
        check_scan(g, origin, maxd, stack.push(cur), g.succs_of(cur), 0, prev)
    }
}

/// The first-found cycle state after the successors `succs[i..]` are
/// scanned.
pub open spec fn check_scan(
    g: Graph,
    origin: Seq<char>,
    maxd: nat,
    stack2: Seq<Seq<char>>,
    succs: Seq<Seq<char>>,
    i: int,
    prev: Option<Seq<Seq<char>>>,
) -> Option<Seq<Seq<char>>>
    decreases maxd + 2 - stack2.len(), 1int, succs.len() - i,
{
    if i < 0 || i >= succs.len() || stack2.len() == 0 || stack2.len() > maxd + 2 {
        prev
    } else if succs[i] == origin && stack2.len() >= 2 {
        Some(stack2)
    } else {
        let r = check_from(g, origin, maxd, stack2, succs[i], prev);
        check_scan(g, origin, maxd, stack2, succs, i + 1, r)
    }
}

/// Depth-first search for one cycle through `start`: the first closed
/// walk found in successor order, of at least one edge and within the
/// depth bound, is stored in `found_cycle` as the open stack without the
/// closing step; a walk closing at the origin later in a successor list
/// replaces an earlier find. The stack is restored on return.
pub fn dfs_cycle_check(
    graph: &Graph,
    current: &String,
    start: &String,
    max_depth: usize,
    path: &mut Vec<String>,
    found_cycle: &mut Option<Vec<String>>,
)
    requires
        max_depth < usize::MAX,
    ensures
        final(path)@ == old(path)@,
        opt_path(*final(found_cycle)) == check_from(
            *graph,
            start@,
            max_depth as nat,
            names(old(path)@),
            current@,
            opt_path(*old(found_cycle)),
        ),
    decreases max_depth + 2 - path@.len(),
{
    let ghost m = max_depth as nat;
    if path.len() > max_depth + 1 || found_cycle.is_some() {
        return ;
    }
    path.push(current.clone());
    let ghost stack2 = names(path@);
    proof {
        assert(stack2 =~= names(old(path)@).push(current@));
    }
    match graph.lookup(current) {
        Some(ns) => {
            let ghost succs = names(ns@);
            let n = ns.len();
            let mut i: usize = 0;
            while i < n
                invariant_except_break
                    m == max_depth as nat,
                    max_depth < usize::MAX,
                    n == ns@.len(),
                    succs == names(ns@),
                    succs == graph.succs_of(current@),
                    0 <= i <= n,
                    path@ == old(path)@.push(*current),
                    stack2 == names(path@),
                    stack2.len() <= max_depth + 2,
                    check_scan(
                        *graph,
                        start@,
                        m,
                        stack2,
                        succs,
                        i as int,
                        opt_path(*found_cycle),
                    ) == check_scan(*graph, start@, m, stack2, succs, 0, None),
                ensures
                    path@ == old(path)@.push(*current),
                    opt_path(*found_cycle) == check_scan(*graph, start@, m, stack2, succs, 0, None),
                decreases n - i,
            {
                let ghost prev = opt_path(*found_cycle);
                proof {
                    assert(succs[i as int] == ns@[i as int]@);
                }
                if ns[i].eq(start) && path.len() >= 2 {
                    let c = crate::graph::clone_path(path);
                    *found_cycle = Some(c);
                    proof {
                        assert(opt_path(*found_cycle) == Some(stack2));
                        assert(check_scan(*graph, start@, m, stack2, succs, i as int, prev)
                            == Some(stack2));
                    }
                    break ;
                } else {
                    dfs_cycle_check(graph, &ns[i], start, max_depth, path, found_cycle);
                    proof {
                        assert(check_scan(*graph, start@, m, stack2, succs, i as int, prev)
                            == check_scan(
                            *graph,
                            start@,
                            m,
                            stack2,
                            succs,
                            i + 1,
                            check_from(*graph, start@, m, stack2, succs[i as int], prev),
                        ));
                    }
                }
                i = i + 1;
            }
        },
        None => {
            proof {
                assert(graph.succs_of(current@) =~= Seq::<Seq<char>>::empty());
            }
        },
    }
    path.pop();
    proof {
        assert(path@ =~= old(path)@);
    }
}

/// The first cycle through `start` found within the depth bound, if any.
pub fn cycle_search(start: &String, graph: &Graph, max_depth: usize) -> (r: Option<Vec<String>>)
    requires
        max_depth < usize::MAX,
    ensures
        opt_path(r) == check_from(
            *graph,
            start@,
            max_depth as nat,
            Seq::empty(),
            start@,
            None,
        ),
{
    let mut path: Vec<String> = Vec::new();
    let mut cycle: Option<Vec<String>> = None;
    proof {
        assert(names(Seq::<String>::empty()) =~= Seq::<Seq<char>>::empty());
    }
    dfs_cycle_check(graph, start, start, max_depth, &mut path, &mut cycle);
    cycle
}



/// Idempotence of the cycle finder: two results of searching the same
/// graph with the same bound coincide.
pub proof fn lemma_find_k_cycles_deterministic(
    g: Graph,
    k: nat,
    r1: Seq<Seq<Seq<char>>>,
    r2: Seq<Seq<Seq<char>>>,
)
    requires
        r1 == cycles_of(g, k, 0),
        r2 == cycles_of(g, k, 0),
    ensures
        r1 == r2,
{
}

} // verus!
