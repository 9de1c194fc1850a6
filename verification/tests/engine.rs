use txgraph::Graph;
use txgraph::TimeMap;
use txgraph::cycles::cycle_search;
use txgraph::cycles::find_k_cycles;
use txgraph::driver::rank_by_outdegree;
use txgraph::driver::run_mixer_analysis;
use txgraph::driver::sampler;
use txgraph::driver::select_labeled;
use txgraph::driver::theory_tester;
use txgraph::driver::theory_trial;
use txgraph::driver::top_outdegree_calculator;
use txgraph::driver::LabelEntry;
use txgraph::explore::collect_paths_from_list;
use txgraph::explore::dfs_collect_paths;
use txgraph::explore::reachable_calculator;
use txgraph::score::calculate_reuse_score;
use txgraph::score::compute_mixer_data;
use txgraph::summary::summarize_paths_to_targets;

fn s(x: &str) -> String {
    x.to_string()
}

fn chain_graph() -> (Graph, TimeMap) {
    let mut g = Graph::new();
    g.add_edge(s("A"), s("B"));
    g.add_edge(s("B"), s("C"));
    g.add_edge(s("C"), s("D"));
    let mut tm = TimeMap::new();
    tm.insert(s("A"), 1);
    tm.insert(s("B"), 2);
    tm.insert(s("C"), 3);
    tm.insert(s("D"), 4);
    (g, tm)
}

fn diamond_graph() -> (Graph, TimeMap) {
    let mut g = Graph::new();
    g.add_edge(s("A"), s("B"));
    g.add_edge(s("B"), s("C"));
    g.add_edge(s("B"), s("F"));
    g.add_edge(s("C"), s("F"));
    g.add_edge(s("C"), s("D"));
    g.add_edge(s("D"), s("F"));
    let mut tm = TimeMap::new();
    tm.insert(s("A"), 1);
    tm.insert(s("B"), 2);
    tm.insert(s("C"), 3);
    tm.insert(s("D"), 4);
    tm.insert(s("F"), 5);
    (g, tm)
}

#[test]
fn linear_chain_single_path() {
    let (g, tm) = chain_graph();
    let mut path: Vec<String> = Vec::new();
    let mut all_paths: Vec<Vec<String>> = Vec::new();
    dfs_collect_paths(&g, &tm, &s("A"), &s("D"), &mut path, &mut all_paths, 1, 5);
    assert_eq!(all_paths, vec![vec![s("A"), s("B"), s("C"), s("D")]]);
    assert!(path.is_empty());
}

#[test]
fn cycle_detection_triangle() {
    let mut g = Graph::new();
    g.add_edge(s("A"), s("B"));
    g.add_edge(s("B"), s("C"));
    g.add_edge(s("C"), s("A"));
    let cycles = find_k_cycles(&g, 3);
    assert_eq!(cycles.len(), 3);
    assert_eq!(cycles[0], vec![s("A"), s("B"), s("C"), s("A")]);
    assert_eq!(cycles[1], vec![s("B"), s("C"), s("A"), s("B")]);
    assert_eq!(cycles[2], vec![s("C"), s("A"), s("B"), s("C")]);
    let none = find_k_cycles(&g, 1);
    assert!(none.is_empty());
}

#[test]
fn cycle_validity_shape() {
    let mut g = Graph::new();
    g.add_edge(s("A"), s("B"));
    g.add_edge(s("B"), s("C"));
    g.add_edge(s("C"), s("A"));
    g.add_edge(s("C"), s("D"));
    g.add_edge(s("D"), s("A"));
    let cycles = find_k_cycles(&g, 4);
    assert!(!cycles.is_empty());
    for c in &cycles {
        assert!(c.len() >= 4);
        assert!(c.len() <= 4 + 2);
        assert_eq!(c.first(), c.last());
    }
}

#[test]
fn cycle_search_finds_first() {
    let mut g = Graph::new();
    g.add_edge(s("A"), s("B"));
    g.add_edge(s("B"), s("C"));
    g.add_edge(s("C"), s("A"));
    let found = cycle_search(&s("A"), &g, 7);
    assert_eq!(found, Some(vec![s("A"), s("B"), s("C")]));
    let absent = cycle_search(&s("Z"), &g, 7);
    assert_eq!(absent, None);
}

#[test]
fn test_dfs_summarize() {
    let (g, tm) = diamond_graph();
    let start_nodes = vec![s("A")];
    let end_nodes = vec![s("F")];
    let stats_test = summarize_paths_to_targets(&g, &tm, &start_nodes, &end_nodes, 15, 100);
    let result = stats_test.get(&s("A"), &s("F"));
    let (count, total_depth) = result.unwrap();
    assert_eq!(count, 3);
    assert_eq!(total_depth, 12);
}

#[test]
fn test_dfs_summarize_2() {
    let mut g = Graph::new();
    g.add_edge(s("A"), s("B"));
    g.add_edge(s("B"), s("C"));
    g.add_edge(s("B"), s("F"));
    g.add_edge(s("C"), s("F"));
    g.add_edge(s("C"), s("D"));
    g.add_edge(s("D"), s("F"));
    let mut tm = TimeMap::new();
    for node in ["A", "B", "C", "D", "F"] {
        tm.insert(s(node), 1);
    }
    let start_nodes = vec![s("A")];
    let end_nodes = vec![s("F")];
    let stats_test = summarize_paths_to_targets(&g, &tm, &start_nodes, &end_nodes, 15, 100);
    let result = stats_test.get(&s("A"), &s("F"));
    let (count, total_depth) = result.unwrap();
    assert_eq!(count, 3);
    assert_eq!(total_depth, 12);
}

#[test]
fn summarize_cap_enforced() {
    let (g, tm) = diamond_graph();
    let stats = summarize_paths_to_targets(&g, &tm, &vec![s("A")], &vec![s("F")], 15, 1);
    let (count, total_depth) = stats.get(&s("A"), &s("F")).unwrap();
    assert_eq!(count, 1);
    assert_eq!(total_depth, 4);
}

#[test]
fn summarize_missing_pair() {
    let (g, tm) = chain_graph();
    let stats = summarize_paths_to_targets(&g, &tm, &vec![s("D")], &vec![s("A")], 15, 100);
    assert!(stats.get(&s("D"), &s("A")).is_none());
}

#[test]
fn timestamps_block_backward_edges() {
    let mut g = Graph::new();
    g.add_edge(s("A"), s("B"));
    g.add_edge(s("B"), s("C"));
    let mut tm = TimeMap::new();
    tm.insert(s("A"), 2);
    tm.insert(s("B"), 1);
    let reached = reachable_calculator(&g, &tm, &vec![s("A")], 5);
    assert_eq!(reached, vec![s("A")]);
}

#[test]
fn missing_timestamps_are_permissive() {
    let mut g = Graph::new();
    g.add_edge(s("A"), s("B"));
    let tm = TimeMap::new();
    let reached = reachable_calculator(&g, &tm, &vec![s("A")], 5);
    assert_eq!(reached, vec![s("A"), s("B")]);
}

#[test]
fn maximal_paths_lone_start() {
    let g = Graph::new();
    let tm = TimeMap::new();
    let paths = collect_paths_from_list(&g, &tm, &vec![s("X")], 5);
    assert_eq!(paths, vec![vec![s("X")]]);
}

#[test]
fn maximal_paths_chain() {
    let (g, tm) = chain_graph();
    let paths = collect_paths_from_list(&g, &tm, &vec![s("A")], 10);
    assert_eq!(paths, vec![vec![s("A"), s("B"), s("C"), s("D")]]);
}

#[test]
fn reuse_score_counts_interiors() {
    let paths = vec![
        vec![s("A"), s("B"), s("C"), s("D")],
        vec![s("X"), s("B"), s("Y")],
        vec![s("A"), s("C")],
        vec![s("A")],
    ];
    let freq = calculate_reuse_score(&paths);
    assert_eq!(freq.get(&s("B")), 2);
    assert_eq!(freq.get(&s("C")), 1);
    assert_eq!(freq.get(&s("A")), 0);
    let sum: usize = freq.entries.iter().map(|e| e.count).sum();
    let expected: usize = paths.iter().map(|p| p.len().saturating_sub(2)).sum();
    assert_eq!(sum, expected);
}

#[test]
fn mixer_scores_union_of_keys() {
    let illicit_paths = vec![vec![s("A"), s("M"), s("B")], vec![s("A"), s("M"), s("C")]];
    let licit_paths = vec![vec![s("X"), s("M"), s("Y")], vec![s("X"), s("N"), s("Y")]];
    let fi = calculate_reuse_score(&illicit_paths);
    let fl = calculate_reuse_score(&licit_paths);
    let mixer = compute_mixer_data(&fi, &fl);
    assert_eq!(mixer.len(), 2);
    assert_eq!(mixer[0].node, s("M"));
    assert_eq!(mixer[0].illicit, 2);
    assert_eq!(mixer[0].licit, 1);
    assert_eq!(mixer[1].node, s("N"));
    assert_eq!(mixer[1].illicit, 0);
    assert_eq!(mixer[1].licit, 1);
}

#[test]
fn top_outdegree_ranks_by_degree() {
    let mut g = Graph::new();
    g.add_edge(s("A"), s("B"));
    g.add_edge(s("A"), s("C"));
    g.add_edge(s("A"), s("D"));
    g.add_edge(s("B"), s("C"));
    g.add_edge(s("B"), s("D"));
    g.add_edge(s("C"), s("D"));
    let top = top_outdegree_calculator(&g, 10);
    assert_eq!(top, vec![s("A"), s("B"), s("C")]);
    let top1 = top_outdegree_calculator(&g, 1);
    assert_eq!(top1, vec![s("A")]);
}

#[test]
fn rank_by_outdegree_drops_sinks() {
    let mut g = Graph::new();
    g.add_edge(s("A"), s("B"));
    g.add_edge(s("A"), s("C"));
    g.add_edge(s("B"), s("C"));
    let nodes = vec![s("C"), s("B"), s("A")];
    let ranked = rank_by_outdegree(&g, &nodes, 10);
    assert_eq!(ranked, vec![s("A"), s("B")]);
}

#[test]
fn sampler_draws_from_pool() {
    let nodes = vec![s("a"), s("b"), s("c"), s("d"), s("e")];
    let sample = sampler(nodes.clone(), 2);
    assert_eq!(sample.len(), 2);
    for x in &sample {
        assert!(nodes.contains(x));
    }
    let all = sampler(nodes.clone(), 10);
    assert_eq!(all.len(), 5);
    let mut sorted = all.clone();
    sorted.sort();
    assert_eq!(sorted, nodes);
}

#[test]
fn sampler_never_repeats_beyond_pool() {
    let nodes = vec![s("x"), s("x"), s("y")];
    let sample = sampler(nodes.clone(), 2);
    assert_eq!(sample.len(), 2);
    let xs = sample.iter().filter(|n| **n == s("x")).count();
    let ys = sample.iter().filter(|n| **n == s("y")).count();
    assert!(xs <= 2);
    assert!(ys <= 1);
}

#[test]
fn theory_trial_counts_diamond() {
    let (g, tm) = diamond_graph();
    let freq = theory_trial(&g, &tm, &vec![s("A")], &vec![s("F")]).unwrap();
    assert_eq!(freq.get(&s("B")), 3);
    assert_eq!(freq.get(&s("C")), 2);
    assert_eq!(freq.get(&s("D")), 1);
    assert_eq!(freq.get(&s("A")), 0);
    assert_eq!(freq.get(&s("F")), 0);
}

#[test]
fn theory_tester_runs() {
    let (g, tm) = diamond_graph();
    let freq = theory_tester(&g, &tm, &vec![s("A")]);
    assert!(freq.is_some());
}

#[test]
fn run_mixer_analysis_bounds_trials() {
    let (g, tm) = diamond_graph();
    let licit = vec![s("A")];
    let illicit = vec![s("B")];
    let series = run_mixer_analysis(&g, &tm, &licit, &illicit, 2).unwrap();
    for e in &series.entries {
        assert!(e.trials.len() <= 2);
    }
}

#[test]
fn select_labeled_partitions() {
    let entries = vec![
        LabelEntry { node: s("n1"), label: s("1") },
        LabelEntry { node: s("n2"), label: s("2") },
        LabelEntry { node: s("n3"), label: s("1") },
        LabelEntry { node: s("n4"), label: s("unknown") },
    ];
    assert_eq!(select_labeled(&entries, &s("1")), vec![s("n1"), s("n3")]);
    assert_eq!(select_labeled(&entries, &s("2")), vec![s("n2")]);
    assert_eq!(select_labeled(&entries, &s("3")), Vec::<String>::new());
}

#[test]
fn repeated_invocations_agree() {
    let (g, tm) = diamond_graph();
    let c1 = find_k_cycles(&g, 3);
    let c2 = find_k_cycles(&g, 3);
    assert_eq!(c1, c2);
    let p1 = collect_paths_from_list(&g, &tm, &vec![s("A")], 10);
    let p2 = collect_paths_from_list(&g, &tm, &vec![s("A")], 10);
    assert_eq!(p1, p2);
    let s1 = summarize_paths_to_targets(&g, &tm, &vec![s("A")], &vec![s("F")], 15, 100);
    let s2 = summarize_paths_to_targets(&g, &tm, &vec![s("A")], &vec![s("F")], 15, 100);
    assert_eq!(s1.get(&s("A"), &s("F")), s2.get(&s("A"), &s("F")));
    let f1 = calculate_reuse_score(&p1);
    let f2 = calculate_reuse_score(&p2);
    assert_eq!(f1.get(&s("B")), f2.get(&s("B")));
}

#[test]
fn duplicate_edges_are_ignored() {
    let mut g = Graph::new();
    g.add_edge(s("A"), s("B"));
    g.add_edge(s("A"), s("B"));
    let tm = TimeMap::new();
    let mut path: Vec<String> = Vec::new();
    let mut all_paths: Vec<Vec<String>> = Vec::new();
    dfs_collect_paths(&g, &tm, &s("A"), &s("B"), &mut path, &mut all_paths, 1, 5);
    assert_eq!(all_paths.len(), 1);
}

#[test]
fn empty_graph_yields_nothing() {
    let g = Graph::new();
    let tm = TimeMap::new();
    assert!(find_k_cycles(&g, 5).is_empty());
    assert!(top_outdegree_calculator(&g, 5).is_empty());
    let stats = summarize_paths_to_targets(&g, &tm, &vec![], &vec![], 15, 100);
    assert!(stats.entries.is_empty());
}

#[test]
fn self_loop_cycle_repeats_origin() {
    let mut g = Graph::new();
    g.add_edge(s("A"), s("A"));
    let cycles = find_k_cycles(&g, 3);
    assert_eq!(cycles, vec![vec![s("A"), s("A"), s("A"), s("A")]]);
}

#[test]
fn timestamp_insert_overwrites() {
    let mut tm = TimeMap::new();
    tm.insert(s("A"), 7);
    tm.insert(s("A"), 3);
    assert_eq!(tm.get(&s("A")), Some(3));
    assert_eq!(tm.get(&s("B")), None);
}
