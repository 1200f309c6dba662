use std::collections::HashMap;

use graphify_analyze::cohesion::compute_cohesion;
use graphify_analyze::gods::disambiguate_label;
use graphify_analyze::kinds::{is_concept_node, is_file_node, is_method_stub};
use graphify_analyze::{
    community_bridges, god_nodes, suggest_questions, surprising_connections, Confidence, GraphEdge, GraphNode, KnowledgeGraph, Ratio,
};

fn node(id: &str, label: &str, source_file: &str) -> GraphNode {
    GraphNode { id: id.into(), label: label.into(), source_file: source_file.into(), community: None }
}

fn graph(nodes: &[GraphNode], edges: &[(&str, &str, Confidence)]) -> KnowledgeGraph {
    let mut g = KnowledgeGraph::new();
    for n in nodes {
        assert!(g.add_node(n.clone()).is_ok());
    }
    for (s, t, c) in edges {
        let edge = GraphEdge { source: s.to_string(), target: t.to_string(), relation: "uses".into(), confidence: *c };
        assert!(g.add_edge(edge).is_ok());
    }
    g
}

fn plain(ids: &[&str]) -> Vec<GraphNode> {
    ids.iter().map(|id| node(id, id, "same.rs")).collect()
}

fn groups(list: &[(usize, &[&str])]) -> HashMap<usize, Vec<String>> {
    list.iter().map(|(c, ids)| (*c, ids.iter().map(|id| id.to_string()).collect())).collect()
}

const SURE: Confidence = Confidence::Extracted;

#[test]
fn generic_labels_are_told_apart() {
    assert_eq!(disambiguate_label("lib", "crates/graphify-export/src/lib.rs"), "graphify-export::lib");
    assert_eq!(disambiguate_label("mod", "src/config.rs"), "src::mod");
    assert_eq!(disambiguate_label("lib", "src/lib.rs"), "lib");
    assert_eq!(disambiguate_label("main", "main.rs"), "main");
    assert_eq!(disambiguate_label("index", "web/app/index.js"), "app::index");
    assert_eq!(disambiguate_label("init", "a/src/b/src/init.py"), "a::init");
    assert_eq!(disambiguate_label("lib", ""), "lib");
    assert_eq!(disambiguate_label("main", "/src/main.rs"), "::main");
}

#[test]
fn kinds_of_nodes() {
    let g = graph(
        &[
            node("hub", "main.rs", "src/main.rs"),
            node("dir", "b", "a/b/"),
            node("none", "", ""),
            node("fn1", "run()", "x.rs"),
            node("fn2", "go()", "x.rs"),
            node("doc", "Doc", "docs/LICENSE"),
            node("a", "a", "x.rs"),
        ],
        &[("fn1", "a", SURE), ("fn2", "a", SURE), ("fn2", "a", SURE)],
    );
    assert!(is_file_node(&g, "hub"));
    assert!(is_file_node(&g, "dir"));
    assert!(!is_file_node(&g, "none"));
    assert!(!is_file_node(&g, "nobody"));
    assert!(is_method_stub(&g, "fn1"));
    assert!(!is_method_stub(&g, "fn2"));
    assert!(!is_method_stub(&g, "a"));
    assert!(!is_method_stub(&g, "nobody"));
    assert!(is_concept_node(&g, "none"));
    assert!(is_concept_node(&g, "doc"));
    assert!(!is_concept_node(&g, "a"));
    assert!(!is_concept_node(&g, "nobody"));
}

#[test]
fn gods_come_by_degree_and_equal_ones_as_added() {
    let mut nodes = plain(&["a", "b", "c", "d"]);
    nodes[1].community = Some(4);
    let g = graph(&nodes, &[("a", "b", SURE), ("b", "c", SURE), ("c", "d", SURE)]);
    let gods = god_nodes(&g, 10);
    let seen: Vec<(&str, usize)> = gods.iter().map(|x| (x.id.as_str(), x.degree)).collect();
    assert_eq!(seen, vec![("b", 2), ("c", 2), ("a", 1), ("d", 1)]);
    assert_eq!(gods[0].community, Some(4));
    assert_eq!(gods[1].community, None);
    let two: Vec<String> = god_nodes(&g, 2).into_iter().map(|x| x.id).collect();
    assert_eq!(two, vec!["b", "c"]);
    assert!(god_nodes(&g, 0).is_empty());
}

#[test]
fn more_surprising_connections_come_first() {
    let mut nodes = plain(&["a", "b", "c", "d"]);
    nodes[3].source_file = "other.rs".into();
    let g = graph(
        &nodes,
        &[
            ("a", "b", SURE),                   // nothing
            ("a", "d", SURE),                   // files: 1
            ("a", "b", Confidence::Inferred),   // 1.5
            ("a", "c", SURE),                   // communities: 2
            ("b", "a", Confidence::Ambiguous),  // 3
            ("c", "d", Confidence::Inferred),   // communities, files, inferred: 4.5
        ],
    );
    let communities = groups(&[(0, &["a", "b", "d"]), (1, &["c"])]);
    let found: Vec<(String, String)> =
        surprising_connections(&g, &communities, 10).into_iter().map(|s| (s.source, s.target)).collect();
    let expected: Vec<(String, String)> = [("c", "d"), ("b", "a"), ("a", "c"), ("a", "b"), ("a", "d")]
        .iter()
        .map(|(s, t)| (s.to_string(), t.to_string()))
        .collect();
    assert_eq!(found, expected);
    assert_eq!(surprising_connections(&g, &communities, 2).len(), 2);
}

#[test]
fn unlisted_nodes_have_the_largest_community_number() {
    let g = graph(&plain(&["a", "b", "c"]), &[("a", "b", SURE), ("b", "c", SURE)]);
    let found = surprising_connections(&g, &groups(&[(3, &["a"])]), 10);
    assert_eq!(found.len(), 1);
    assert_eq!(found[0].source_community, 3);
    assert_eq!(found[0].target_community, usize::MAX);
    assert_eq!(found[0].relation, "uses");
}

#[test]
fn hubs_and_stubs_are_not_surprising() {
    let g = graph(
        &[node("hub", "x.rs", "x.rs"), node("stub", ".f()", "y.rs"), node("a", "a", "z.rs")],
        &[("hub", "a", Confidence::Ambiguous), ("a", "stub", Confidence::Ambiguous)],
    );
    assert!(surprising_connections(&g, &HashMap::new(), 10).is_empty());
}

#[test]
fn bridges_come_by_their_share() {
    let g = graph(
        &plain(&["a", "b", "c", "x", "lone"]),
        &[("a", "b", SURE), ("a", "c", SURE), ("a", "x", SURE), ("b", "c", SURE)],
    );
    let communities = groups(&[(5, &["a"]), (2, &["b"]), (8, &["c", "lone"])]);
    let bridges = community_bridges(&g, &communities, 10);
    let ids: Vec<&str> = bridges.iter().map(|b| b.id.as_str()).collect();
    assert_eq!(ids, vec!["b", "c", "a"]);
    assert_eq!(bridges[0].bridge_ratio, Ratio { num: 2, den: 2 });
    assert_eq!(bridges[0].communities_touched, vec![2, 5, 8]);
    assert_eq!(bridges[2].bridge_ratio, Ratio { num: 2, den: 3 });
    assert_eq!(bridges[2].cross_community_edges, 2);
    assert_eq!(bridges[2].total_edges, 3);
    assert_eq!(bridges[2].label, "a");
    assert_eq!(community_bridges(&g, &communities, 1).len(), 1);
}

#[test]
fn file_hubs_are_no_bridges() {
    let g = graph(&[node("hub", "x.rs", "x.rs"), node("a", "a", "y.rs")], &[("hub", "a", SURE)]);
    let bridges = community_bridges(&g, &groups(&[(0, &["hub"]), (1, &["a"])]), 10);
    assert_eq!(bridges.len(), 1);
    assert_eq!(bridges[0].id, "a");
}

#[test]
fn cohesion_is_edges_per_pair() {
    let g = graph(&plain(&["a", "b", "c", "d"]), &[("a", "b", SURE), ("b", "c", SURE), ("c", "d", SURE)]);
    let group: Vec<String> = ["a", "b", "c"].iter().map(|s| s.to_string()).collect();
    assert_eq!(compute_cohesion(&g, &group), Ratio { num: 2, den: 3 });
    assert_eq!(compute_cohesion(&g, &group[..1]), Ratio { num: 1, den: 1 });
    assert_eq!(compute_cohesion(&g, &[]), Ratio { num: 1, den: 1 });
    let strangers: Vec<String> = ["a", "nobody"].iter().map(|s| s.to_string()).collect();
    assert_eq!(compute_cohesion(&g, &strangers), Ratio { num: 0, den: 1 });
}

#[test]
fn all_kinds_of_questions() {
    let mut nodes = plain(&["a", "b", "c", "d", "e"]);
    nodes[4].label = "Lonely".into();
    let g = graph(&nodes, &[("a", "b", Confidence::Ambiguous), ("a", "c", Confidence::Inferred), ("a", "d", SURE)]);
    let communities = groups(&[(1, &["b", "e"]), (2, &["c"]), (3, &["d"]), (4, &["e", "x"])]);
    let labels: HashMap<usize, String> = [(1, "One".to_string()), (3, "Three".to_string())].into();
    let qs = suggest_questions(&g, &communities, &labels, 100);
    let texts: Vec<(&str, &str)> =
        qs.iter().map(|q| (q.get("category").unwrap().as_str(), q.get("question").unwrap().as_str())).collect();
    assert_eq!(
        texts,
        vec![
            ("ambiguous_relationship", "What is the exact relationship between 'a' and 'b'? (marked as uses)"),
            ("bridge_node", "How does 'a' relate to 3 different communities (One, Three)?"),
            ("verification", "Can you verify the inferred relationships of 'a' (degree 3)?"),
            ("verification", "Can you verify the inferred relationships of 'c' (degree 1)?"),
            ("isolated_node", "What role does 'Lonely' play? It has no connections in the graph."),
            ("low_cohesion", "Why is 'One' (2 nodes) loosely connected (cohesion 0.00)? Should it be split?"),
            ("low_cohesion", "Why is 'community-4' (2 nodes) loosely connected (cohesion 0.00)? Should it be split?"),
        ]
    );
    assert_eq!(qs[0].get("source").unwrap(), "a");
    assert_eq!(qs[0].get("target").unwrap(), "b");
    assert_eq!(qs[1].get("node").unwrap(), "a");
    assert_eq!(qs[4].get("node").unwrap(), "e");
    assert_eq!(qs[6].get("community").unwrap(), "4");
    let three = suggest_questions(&g, &communities, &labels, 3);
    assert_eq!(three.len(), 3);
    assert_eq!(three[2].get("question"), qs[2].get("question"));
}

#[test]
fn crossroads_without_labels() {
    let g = graph(&plain(&["a", "b", "c", "d"]), &[("a", "b", SURE), ("c", "a", SURE), ("a", "d", SURE)]);
    let communities = groups(&[(1, &["b"]), (2, &["c"]), (3, &["d"])]);
    let qs = suggest_questions(&g, &communities, &HashMap::new(), 100);
    assert_eq!(qs.len(), 1);
    assert_eq!(qs[0].get("question").unwrap(), "How does 'a' relate to 3 different communities?");
}

#[test]
fn cohesion_in_a_question_has_two_decimals() {
    let ids = ["a", "b", "c", "d", "e"];
    let g = graph(&plain(&ids), &[("a", "b", SURE), ("c", "d", SURE), ("d", "e", SURE)]);
    let all = suggest_questions(&g, &groups(&[(0, &ids)]), &HashMap::new(), 100);
    assert!(all.is_empty());
    let sparse = graph(&plain(&ids), &[("a", "b", SURE), ("c", "d", SURE), ("e", "e", SURE)]);
    let qs = suggest_questions(&sparse, &groups(&[(0, &ids)]), &HashMap::new(), 100);
    assert_eq!(qs.len(), 1);
    assert_eq!(
        qs[0].get("question").unwrap(),
        "Why is 'community-0' (5 nodes) loosely connected (cohesion 0.20)? Should it be split?"
    );
}

#[test]
fn cohesion_counts_the_edges_inside() {
    let g = graph(
        &plain(&["a", "b", "c", "d", "x"]),
        &[("a", "b", SURE), ("b", "a", SURE), ("c", "d", SURE), ("d", "x", SURE), ("x", "a", SURE)],
    );
    let group: Vec<String> = ["a", "b", "c", "d"].iter().map(|s| s.to_string()).collect();
    assert_eq!(compute_cohesion(&g, &group), Ratio { num: 3, den: 6 });
}
