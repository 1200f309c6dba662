use std::path::Path;

use graphify_analyze::kinds::is_file_node;
use graphify_analyze::{Confidence, GraphEdge, GraphError, GraphNode, KnowledgeGraph};

fn node(id: &str) -> GraphNode {
    GraphNode { id: id.into(), label: id.to_uppercase(), source_file: "x.rs".into(), community: Some(7) }
}

fn edge(s: &str, t: &str) -> GraphEdge {
    GraphEdge { source: s.into(), target: t.into(), relation: "calls".into(), confidence: Confidence::Inferred }
}

#[test]
fn an_id_can_be_added_once() {
    let mut g = KnowledgeGraph::new();
    assert!(g.add_node(node("a")).is_ok());
    let mut again = node("a");
    again.label = "other".into();
    match g.add_node(again) {
        Err(GraphError::DuplicateNode(id)) => assert_eq!(id, "a"),
        other => panic!("unexpected {other:?}"),
    }
    assert_eq!(g.node_count(), 1);
    assert_eq!(g.get_node("a").unwrap().label, "A");
}

#[test]
fn both_ends_of_an_edge_must_be_there() {
    let mut g = KnowledgeGraph::new();
    assert!(g.add_node(node("a")).is_ok());
    match g.add_edge(edge("x", "y")) {
        Err(GraphError::NodeNotFound(id)) => assert_eq!(id, "x"),
        other => panic!("unexpected {other:?}"),
    }
    match g.add_edge(edge("a", "y")) {
        Err(GraphError::NodeNotFound(id)) => assert_eq!(id, "y"),
        other => panic!("unexpected {other:?}"),
    }
    assert_eq!(g.edge_count(), 0);
    assert!(g.add_edge(edge("a", "a")).is_ok());
    assert_eq!(g.edge_count(), 1);
}

#[test]
fn neighbours_come_one_for_each_edge() {
    let mut g = KnowledgeGraph::new();
    for id in ["a", "b", "c"] {
        assert!(g.add_node(node(id)).is_ok());
    }
    for (s, t) in [("a", "b"), ("c", "a"), ("b", "a"), ("a", "a")] {
        assert!(g.add_edge(edge(s, t)).is_ok());
    }
    assert_eq!(g.node_ids(), vec!["a", "b", "c"]);
    assert_eq!(g.neighbor_ids("a"), vec!["b", "c", "b", "a"]);
    assert_eq!(g.neighbor_ids("b"), vec!["a", "a"]);
    assert_eq!(g.neighbor_ids("c"), vec!["a"]);
    assert_eq!(g.degree("a"), 4);
    assert_eq!(g.degree("nobody"), 0);
    assert!(g.neighbor_ids("nobody").is_empty());
    assert_eq!(g.links(0), &vec![1, 2, 1, 0]);
    assert_eq!(g.position("c"), Some(2));
    assert_eq!(g.position("nobody"), None);
    assert!(g.get_node("nobody").is_none());
    assert_eq!(g.nodes()[1].id, "b");
    assert_eq!(g.edges()[1].source, "c");
    assert_eq!(g.edges()[1].confidence, Confidence::Inferred);
}

#[test]
fn neighbours_are_mutual() {
    let mut g = KnowledgeGraph::new();
    for id in ["a", "b", "c"] {
        assert!(g.add_node(node(id)).is_ok());
    }
    assert!(g.add_edge(edge("a", "b")).is_ok());
    assert!(g.neighbor_ids("a").contains(&"b".to_string()));
    assert!(g.neighbor_ids("b").contains(&"a".to_string()));
    assert!(!g.neighbor_ids("c").contains(&"a".to_string()));
    assert!(!g.neighbor_ids("a").contains(&"c".to_string()));
}

#[test]
fn file_names_are_those_of_the_platform() {
    for path in [
        "src/main.rs", "main.rs", "a/b/", "a/b//", "a/./", "a/.", "./", ".", "..", "a/..", "../a", "/", "", "//x", "a/..b", "a/...",
        "é/ü.rs", "a/../b", "a/b/.", "/..", "a//b", "src\\main.rs", "C:\\src\\main.rs", "C:main.rs", "\\\\server\\share\\x.rs", "a\\..",
    ] {
        let expected = Path::new(path).file_name().map(|n| n.to_string_lossy().into_owned());
        let mut g = KnowledgeGraph::new();
        let mut hub = node("hub");
        hub.source_file = path.into();
        hub.label = expected.clone().unwrap_or_default();
        let mut other = node("other");
        other.source_file = path.into();
        other.label = format!("{}?", hub.label);
        assert!(g.add_node(hub).is_ok());
        assert!(g.add_node(other).is_ok());
        assert_eq!(g.file_name(0), expected.as_ref(), "{path}");
        assert_eq!(is_file_node(&g, "hub"), expected.is_some(), "{path}");
        assert!(!is_file_node(&g, "other"), "{path}");
    }
}

#[test]
fn portable_paths_name_what_follows_the_last_slash() {
    let mut g = KnowledgeGraph::new();
    for (id, path) in [("a", "src/main.rs"), ("b", "docs/guide/"), ("c", "x/.."), ("d", "lib.rs/.")] {
        let mut n = node(id);
        n.source_file = path.into();
        assert!(g.add_node(n).is_ok());
    }
    assert_eq!(g.file_name(0).unwrap(), "main.rs");
    assert_eq!(g.file_name(1).unwrap(), "guide");
    assert_eq!(g.file_name(2), None);
    assert_eq!(g.file_name(3).unwrap(), "lib.rs");
}
