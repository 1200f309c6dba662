//! Analysis of knowledge graphs: god nodes, surprising connections, suggested questions, bridges
//! between communities, PageRank, dependency cycles and differences between snapshots.
pub mod bridges;
pub mod cohesion;
pub mod community;
pub mod cycle;
pub mod dependency;
pub mod diff;
pub mod digraph;
pub mod edge_set;
pub mod exact;
pub mod gods;
pub mod graph;
pub mod json;
pub mod kinds;
pub mod pagerank;
pub mod paths;
pub mod questions;
pub mod ranking;
pub mod scc;
pub mod sequences;
pub mod surprise;
pub mod terms;
pub mod text;
pub mod walk;

pub use bridges::{community_bridges, BridgeNode};
pub use dependency::{detect_cycles, DependencyCycle};
pub use diff::graph_diff;
pub use gods::{god_nodes, GodNode};
pub use graph::{Confidence, GraphEdge, GraphError, GraphNode, KnowledgeGraph};
pub use pagerank::{pagerank, PageRankNode, Score};
pub use questions::suggest_questions;
pub use ranking::Ratio;
pub use surprise::{surprising_connections, Surprise};
