use std::collections::HashSet;

use graphify_analyze::cycle::find_cycle_in_scc;
use graphify_analyze::dependency::dependencies;
use graphify_analyze::scc::tarjan_scc;
use graphify_analyze::{detect_cycles, Confidence, DependencyCycle, GraphEdge, GraphNode, KnowledgeGraph, Ratio};

fn graph(ids: &[&str], edges: &[(&str, &str, &str)]) -> KnowledgeGraph {
    let mut g = KnowledgeGraph::new();
    for id in ids {
        let node = GraphNode { id: id.to_string(), label: id.to_string(), source_file: String::new(), community: None };
        assert!(g.add_node(node).is_ok());
    }
    for (s, t, r) in edges {
        let edge = GraphEdge {
            source: s.to_string(),
            target: t.to_string(),
            relation: r.to_string(),
            confidence: Confidence::Extracted,
        };
        assert!(g.add_edge(edge).is_ok());
    }
    g
}

fn set(members: &[usize]) -> HashSet<usize> {
    members.iter().copied().collect()
}

fn triangle_and_pair() -> KnowledgeGraph {
    graph(
        &["a", "b", "c", "d", "e"],
        &[
            ("a", "b", "calls"),
            ("b", "c", "uses"),
            ("c", "a", "imports"),
            ("d", "e", "imports"),
            ("e", "d", "calls"),
        ],
    )
}

fn pairs(cycle: &DependencyCycle) -> Vec<(&str, &str)> {
    cycle.edges.iter().map(|(a, b)| (a.as_str(), b.as_str())).collect()
}

#[test]
fn tarjan_splits_a_chain() {
    let adj: Vec<Vec<usize>> = vec![vec![1], vec![2], vec![1]];
    assert_eq!(tarjan_scc(&adj, 3), vec![vec![2, 1], vec![0]]);
}

#[test]
fn tarjan_lists_what_is_left_first_in_front() {
    let adj: Vec<Vec<usize>> = vec![vec![2], vec![0], vec![]];
    assert_eq!(tarjan_scc(&adj, 3), vec![vec![2], vec![0], vec![1]]);
    let apart: Vec<Vec<usize>> = vec![vec![1], vec![0], vec![3], vec![2]];
    assert_eq!(tarjan_scc(&apart, 4), vec![vec![1, 0], vec![3, 2]]);
}

#[test]
fn tarjan_of_nothing_and_of_a_loop() {
    assert_eq!(tarjan_scc(&[], 0), Vec::<Vec<usize>>::new());
    assert_eq!(tarjan_scc(&[vec![0]], 1), vec![vec![0]]);
}

#[test]
fn tarjan_joins_nested_circles() {
    let adj: Vec<Vec<usize>> = vec![vec![1], vec![2, 3], vec![1], vec![4], vec![3, 0]];
    assert_eq!(tarjan_scc(&adj, 5), vec![vec![4, 3, 2, 1, 0]]);
}

#[test]
fn cycle_search_takes_the_first_way_back() {
    let adj: Vec<Vec<usize>> = vec![vec![1, 2], vec![2], vec![0]];
    assert_eq!(find_cycle_in_scc(&adj, &[0, 1, 2], &set(&[0, 1, 2])), Some(vec![0, 1, 2]));
    assert_eq!(find_cycle_in_scc(&adj, &[0, 2], &set(&[0, 2])), Some(vec![0, 2]));
}

#[test]
fn cycle_search_backs_out_of_dead_ends() {
    let adj: Vec<Vec<usize>> = vec![vec![1, 2], vec![], vec![0]];
    assert_eq!(find_cycle_in_scc(&adj, &[0, 1, 2], &set(&[0, 1, 2])), Some(vec![0, 2]));
}

#[test]
fn cycle_search_can_fail() {
    assert_eq!(find_cycle_in_scc(&[], &[], &set(&[])), None);
    assert_eq!(find_cycle_in_scc(&[vec![0]], &[0], &set(&[0])), None);
    let adj: Vec<Vec<usize>> = vec![vec![1], vec![2], vec![1]];
    assert_eq!(find_cycle_in_scc(&adj, &[0, 1, 2], &set(&[0, 1, 2])), None);
}

#[test]
fn dependencies_follow_directional_edges() {
    let g = graph(
        &["a", "b", "c"],
        &[("a", "c", "uses"), ("b", "a", "contains"), ("a", "b", "imports"), ("c", "c", "calls"), ("a", "c", "includes")],
    );
    assert_eq!(dependencies(&g), vec![vec![2, 1], vec![], vec![2]]);
}

#[test]
fn shorter_cycles_come_first() {
    let g = triangle_and_pair();
    let cycles = detect_cycles(&g, 10);
    assert_eq!(cycles.len(), 2);
    assert_eq!(cycles[0].nodes, vec!["e", "d"]);
    assert_eq!(pairs(&cycles[0]), vec![("e", "d"), ("d", "e")]);
    assert_eq!(cycles[0].severity, Ratio { num: 1, den: 2 });
    assert_eq!(cycles[1].nodes, vec!["c", "a", "b"]);
    assert_eq!(pairs(&cycles[1]), vec![("c", "a"), ("a", "b"), ("b", "c")]);
    assert_eq!(cycles[1].severity, Ratio { num: 1, den: 3 });
}

#[test]
fn the_first_groups_count_before_the_shortest() {
    let g = triangle_and_pair();
    let one = detect_cycles(&g, 1);
    assert_eq!(one.len(), 1);
    assert_eq!(one[0].nodes, vec!["c", "a", "b"]);
    assert!(detect_cycles(&g, 0).is_empty());
}

#[test]
fn no_node_is_on_two_reported_cycles() {
    let g = graph(
        &["a", "b", "c"],
        &[("a", "b", "calls"), ("b", "a", "calls"), ("b", "c", "calls"), ("c", "b", "calls")],
    );
    let cycles = detect_cycles(&g, 10);
    assert_eq!(cycles.len(), 1);
    assert_eq!(cycles[0].nodes, vec!["c", "b"]);
}

#[test]
fn other_relations_and_self_loops_make_no_cycles() {
    let g = graph(
        &["a", "b"],
        &[("a", "b", "calls"), ("b", "a", "contains"), ("a", "a", "calls")],
    );
    assert!(detect_cycles(&g, 10).is_empty());
}

#[test]
fn including_each_other_is_no_dependency_cycle() {
    let g = graph(&["a", "b"], &[("a", "b", "includes"), ("b", "a", "includes")]);
    assert!(detect_cycles(&g, 10).is_empty());
    assert_eq!(dependencies(&g), vec![Vec::<usize>::new(), vec![]]);
}
