use graphify_analyze::diff::compare_graphs;
use graphify_analyze::{graph_diff, Confidence, GraphEdge, GraphNode, KnowledgeGraph};

fn graph(ids: &[&str], edges: &[(&str, &str, &str)]) -> KnowledgeGraph {
    let mut g = KnowledgeGraph::new();
    for id in ids {
        let node = GraphNode { id: id.to_string(), label: id.to_string(), source_file: String::new(), community: None };
        assert!(g.add_node(node).is_ok());
    }
    for (s, t, r) in edges {
        let edge = GraphEdge {
            source: s.to_string(),
            target: t.to_string(),
            relation: r.to_string(),
            confidence: Confidence::Extracted,
        };
        assert!(g.add_edge(edge).is_ok());
    }
    g
}

fn before() -> KnowledgeGraph {
    graph(&["a", "b", "c"], &[("a", "b", "calls"), ("b", "c", "uses")])
}

fn after() -> KnowledgeGraph {
    graph(
        &["d", "b", "a", "e"],
        &[("a", "b", "uses"), ("a", "b", "calls"), ("d", "e", "calls"), ("d", "e", "calls")],
    )
}

#[test]
fn the_report_lists_all_changes() {
    let report = graph_diff(&before(), &after());
    let added_nodes = report.get("added_nodes").unwrap();
    assert_eq!(added_nodes.as_array().unwrap().len(), 2);
    assert_eq!(added_nodes[0], "d");
    assert_eq!(added_nodes[1], "e");
    let removed_nodes = report.get("removed_nodes").unwrap();
    assert_eq!(removed_nodes.as_array().unwrap().len(), 1);
    assert_eq!(removed_nodes[0], "c");
    let added_edges = report.get("added_edges").unwrap();
    assert_eq!(added_edges.as_array().unwrap().len(), 2);
    assert_eq!(added_edges[0].as_object().unwrap().len(), 3);
    assert_eq!(added_edges[0]["source"], "a");
    assert_eq!(added_edges[0]["target"], "b");
    assert_eq!(added_edges[0]["relation"], "uses");
    assert_eq!(added_edges[1]["source"], "d");
    let removed_edges = report.get("removed_edges").unwrap();
    assert_eq!(removed_edges.as_array().unwrap().len(), 1);
    assert_eq!(removed_edges[0]["target"], "c");
    let summary = report.get("summary").unwrap();
    assert_eq!(summary.as_object().unwrap().len(), 8);
    assert_eq!(summary["nodes_added"], 2);
    assert_eq!(summary["nodes_removed"], 1);
    assert_eq!(summary["edges_added"], 2);
    assert_eq!(summary["edges_removed"], 1);
    assert_eq!(summary["old_node_count"], 3);
    assert_eq!(summary["new_node_count"], 4);
    assert_eq!(summary["old_edge_count"], 2);
    assert_eq!(summary["new_edge_count"], 4);
    assert!(report.get("unknown").is_none());
}

#[test]
fn a_graph_does_not_differ_from_itself() {
    let d = compare_graphs(&after(), &after());
    assert!(d.added_nodes.is_empty() && d.removed_nodes.is_empty());
    assert!(d.added_edges.is_empty() && d.removed_edges.is_empty());
    let report = graph_diff(&after(), &after());
    assert!(report.get("added_edges").unwrap().as_array().unwrap().is_empty());
}

#[test]
fn changes_backwards_are_the_changes_swapped() {
    let there = graph_diff(&before(), &after());
    let back = graph_diff(&after(), &before());
    assert_eq!(there.get("added_nodes"), back.get("removed_nodes"));
    assert_eq!(there.get("removed_nodes"), back.get("added_nodes"));
    assert_eq!(there.get("added_edges"), back.get("removed_edges"));
    assert_eq!(there.get("removed_edges"), back.get("added_edges"));
    let (one, other) = (there.get("summary").unwrap(), back.get("summary").unwrap());
    for (a, b) in [
        ("nodes_added", "nodes_removed"),
        ("nodes_removed", "nodes_added"),
        ("edges_added", "edges_removed"),
        ("edges_removed", "edges_added"),
        ("old_node_count", "new_node_count"),
        ("new_node_count", "old_node_count"),
        ("old_edge_count", "new_edge_count"),
        ("new_edge_count", "old_edge_count"),
    ] {
        assert_eq!(one[a], other[b]);
    }
}

#[test]
fn node_counts_balance() {
    let d = compare_graphs(&before(), &after());
    assert_eq!(before().node_count() + d.added_nodes.len(), after().node_count() + d.removed_nodes.len());
    assert_eq!(d.added_edges[1].relation, "calls");
    assert_eq!(d.removed_edges[0].source, "b");
}
