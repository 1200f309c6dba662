use graphify_analyze::pagerank::undirected_links;
use graphify_analyze::{pagerank, Confidence, GraphEdge, GraphNode, KnowledgeGraph, PageRankNode, Score};

#[derive(Clone, Copy, Debug, PartialEq, PartialOrd)]
struct F(f64);

impl Score for F {
    fn of_count(n: usize) -> Self {
        F(n as f64)
    }

    fn plus(self, other: Self) -> Self {
        F(self.0 + other.0)
    }

    fn minus(self, other: Self) -> Self {
        F(self.0 - other.0)
    }

    fn times(self, other: Self) -> Self {
        F(self.0 * other.0)
    }

    fn over(self, other: Self) -> Self {
        F(self.0 / other.0)
    }

    fn gap(self, other: Self) -> Self {
        F((self.0 - other.0).abs())
    }

    fn below(self, other: Self) -> bool {
        self.0 < other.0
    }

    fn sort_key(self) -> u64 {
        let bits = (self.0 + 0.0).to_bits();
        if bits >> 63 == 1 {
            !bits
        } else {
            bits | (1 << 63)
        }
    }
}

fn graph(ids: &[&str], edges: &[(&str, &str)]) -> KnowledgeGraph {
    let mut g = KnowledgeGraph::new();
    for id in ids {
        let node = GraphNode { id: id.to_string(), label: format!("<{id}>"), source_file: String::new(), community: None };
        assert!(g.add_node(node).is_ok());
    }
    for (s, t) in edges {
        let edge = GraphEdge {
            source: s.to_string(),
            target: t.to_string(),
            relation: "uses".into(),
            confidence: Confidence::Extracted,
        };
        assert!(g.add_edge(edge).is_ok());
    }
    g
}

fn score_of(ranked: &[PageRankNode<F>], id: &str) -> f64 {
    ranked.iter().find(|r| r.id == id).unwrap().score.0
}

fn close(a: f64, b: f64) -> bool {
    (a - b).abs() < 1e-12
}

#[test]
fn no_rounds_leave_equal_scores() {
    let g = graph(&["a", "b", "c", "d"], &[("a", "b")]);
    let ranked = pagerank(&g, 10, F(0.85), 0);
    assert_eq!(ranked.len(), 4);
    assert!(ranked.iter().all(|r| r.score == F(0.25)));
    let ids: Vec<&str> = ranked.iter().map(|r| r.id.as_str()).collect();
    assert_eq!(ids, vec!["a", "b", "c", "d"]);
    assert_eq!(ranked[0].label, "<a>");
}

#[test]
fn one_round_on_a_path() {
    let g = graph(&["a", "b", "c"], &[("a", "b"), ("c", "b")]);
    let ranked = pagerank(&g, 10, F(0.85), 1);
    let third = 1.0 / 3.0;
    assert_eq!(ranked[0].id, "b");
    assert_eq!(ranked[0].degree, 2);
    assert!(close(score_of(&ranked, "b"), 0.05 + 0.85 * (third + third)));
    assert!(close(score_of(&ranked, "a"), 0.05 + 0.85 * (third / 2.0)));
    assert!(close(score_of(&ranked, "c"), 0.05 + 0.85 * (third / 2.0)));
}

#[test]
fn scores_of_isolated_nodes_are_spread() {
    let g = graph(&["a", "b", "c"], &[("a", "b")]);
    let ranked = pagerank(&g, 10, F(0.85), 1);
    let third = 1.0 / 3.0;
    assert!(close(score_of(&ranked, "c"), 0.05 + 0.85 * (third / 3.0)));
    assert!(close(score_of(&ranked, "a"), 0.05 + 0.85 * (third + third / 3.0)));
    assert_eq!(ranked[2].id, "c");
    assert_eq!(ranked[2].degree, 0);
}

#[test]
fn scores_sum_to_one_and_settle() {
    let g = graph(&["a", "b", "c", "d"], &[("a", "b"), ("a", "c"), ("a", "d"), ("c", "d")]);
    let long = pagerank(&g, 10, F(0.85), 1000);
    let longer = pagerank(&g, 10, F(0.85), 2000);
    let total: f64 = long.iter().map(|r| r.score.0).sum();
    assert!((total - 1.0).abs() < 1e-9);
    for r in &long {
        assert_eq!(r.score.0, score_of(&longer, &r.id));
    }
    assert_eq!(long[0].id, "a");
    assert!(long[0].score >= long[1].score && long[1].score >= long[2].score && long[2].score >= long[3].score);
}

#[test]
fn settling_ends_the_rounds() {
    let g = graph(&["a", "b", "c"], &[("a", "b"), ("b", "c")]);
    let mut rounds = 0;
    let mut before = vec![1.0 / 3.0; 3];
    loop {
        rounds += 1;
        let now: Vec<f64> = {
            let ranked = pagerank(&g, 3, F(0.85), rounds);
            ["a", "b", "c"].iter().map(|id| score_of(&ranked, id)).collect()
        };
        let delta: f64 = before.iter().zip(now.iter()).map(|(x, y)| (x - y).abs()).sum();
        before = now;
        if delta < 1e-6 {
            break;
        }
    }
    let more = pagerank(&g, 3, F(0.85), rounds + 1);
    for (i, id) in ["a", "b", "c"].iter().enumerate() {
        assert_eq!(score_of(&more, id), before[i]);
    }
}

#[test]
fn links_count_at_both_ends() {
    let g = graph(&["a", "b"], &[("a", "b"), ("a", "a")]);
    assert_eq!(undirected_links(&g), vec![vec![1, 0, 0], vec![0]]);
    let ranked = pagerank(&g, 10, F(0.85), 5);
    assert_eq!(ranked[0].id, "a");
    assert_eq!(ranked[0].degree, 3);
    assert_eq!(ranked[1].degree, 1);
}

#[test]
fn fewer_ranks_are_the_best_ones() {
    let g = graph(&["a", "b", "c"], &[("b", "a"), ("b", "c")]);
    let all = pagerank(&g, 3, F(0.85), 20);
    let one = pagerank(&g, 1, F(0.85), 20);
    assert_eq!(one.len(), 1);
    assert_eq!(one[0].id, all[0].id);
    assert_eq!(one[0].id, "b");
    assert!(pagerank(&g, 0, F(0.85), 20).is_empty());
}

#[test]
fn each_number_of_ranks_is_a_front_part_of_all() {
    let ids = ["a", "b", "c", "d", "e", "lone"];
    let edges = [("a", "b"), ("a", "c"), ("c", "c"), ("d", "a"), ("e", "b"), ("a", "b")];
    let g = graph(&ids, &edges);
    let all = pagerank(&g, usize::MAX, F(0.85), 30);
    let mut seen: Vec<&str> = all.iter().map(|r| r.id.as_str()).collect();
    seen.sort();
    assert_eq!(seen, vec!["a", "b", "c", "d", "e", "lone"]);
    for r in &all {
        let ends = edges.iter().map(|(s, t)| (*s == r.id) as usize + (*t == r.id) as usize).sum::<usize>();
        assert_eq!(r.degree, ends);
    }
    for i in 1..all.len() {
        assert!(!(all[i - 1].score < all[i].score));
    }
    for top_n in 0..8 {
        let some = pagerank(&g, top_n, F(0.85), 30);
        assert_eq!(some.len(), top_n.min(6));
        for (i, r) in some.iter().enumerate() {
            assert_eq!((&r.id, r.score, r.degree), (&all[i].id, all[i].score, all[i].degree));
        }
    }
}
