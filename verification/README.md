# graphify-analyze

Analysis of knowledge graphs, verified with Verus.

- `src/graph.rs`: the graph, its nodes and edges; `src/paths.rs`: the file names of source files, as
  the platform reads them.
- `src/gods.rs`, `src/surprise.rs`, `src/questions.rs`, `src/bridges.rs`, `src/cohesion.rs`:
  the most connected nodes, surprising connections, suggested questions, bridges between
  communities and cohesion. `src/kinds.rs` and `src/community.rs` hold what they share.
- `src/dependency.rs`: dependency cycles, by Tarjan's algorithm (`src/scc.rs`) and a search for a
  cycle in each component (`src/cycle.rs`); `src/digraph.rs` and `src/walk.rs` hold the theory.
- `src/pagerank.rs`: PageRank over any arithmetic of scores.
- `src/diff.rs`: differences between two snapshots, as JSON values of `serde_json`
  (`src/json.rs`).
- `src/ranking.rs`, `src/sequences.rs`, `src/text.rs`, `src/edge_set.rs`: exact ratios and
  orders, sequences, text and sets of edges.
- `app/`: scores as doubles, and logging.

Every function states in its contract what it returns; the public proof functions of a module
state what holds of its results as a whole. Where scores would be fractions, the library keeps
exact ratios.
