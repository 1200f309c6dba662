//! Differences between two snapshots of a graph.
use vstd::hash_map::StringHashMap;
use vstd::prelude::*;

use crate::edge_set::{EdgeSet, KeyView};
use crate::graph::{EdgeView, GraphEdge, GraphNode, GraphView, KnowledgeGraph};
use crate::json::{count_value, json, list_value, no_entries, record_value, set_entry, text_value, Json};
use crate::sequences::are_places;
use crate::text::texts;

verus! {

/// What tells edges apart: source, target and relation.
#[derive(Debug)]
pub struct EdgeKey {
    pub source: String,
    pub target: String,
    pub relation: String,
}

impl View for EdgeKey {
    type V = KeyView;

    open spec fn view(&self) -> KeyView {
        KeyView { source: self.source@, target: self.target@, relation: self.relation@ }
    }
}

/// What edge keys say.
pub open spec fn key_views(keys: Seq<EdgeKey>) -> Seq<KeyView> {
    Seq::new(keys.len(), |i: int| keys[i]@)
}

/// The key of an edge.
pub open spec fn key_of(e: EdgeView) -> KeyView {
    KeyView { source: e.source, target: e.target, relation: e.relation }
}

/// The keys of edges.
pub open spec fn keys_of(edges: Seq<EdgeView>) -> Seq<KeyView> {
    Seq::new(edges.len(), |i: int| key_of(edges[i]))
}

/// The items of a sequence, each once, in the order of their first occurrence.
pub open spec fn distinct<T>(s: Seq<T>) -> Seq<T>
    decreases s.len(),
{
    if s.len() == 0 {
        Seq::empty()
    } else {
        let front = distinct(s.drop_last());
        if front.contains(s.last()) {
            front
        } else {
            front.push(s.last())
        }
    }
}

/// The ids of the nodes that `to` has and `from` has not.
pub open spec fn new_nodes(from: GraphView, to: GraphView) -> Seq<Seq<char>> {
    to.ids().filter(|id: Seq<char>| !from.has(id))
}

/// The keys of the edges that `to` has and `from` has not, each once.
pub open spec fn new_edges(from: GraphView, to: GraphView) -> Seq<KeyView> {
    distinct(keys_of(to.edges).filter(|k: KeyView| !keys_of(from.edges).contains(k)))
}

/// A list of texts in JSON.
pub open spec fn texts_json(items: Seq<Seq<char>>) -> Json {
    Json::List(Seq::new(items.len(), |i: int| Json::Text(items[i])))
}

/// An edge key in JSON.
pub open spec fn key_json(k: KeyView) -> Json {
    Json::Record(
        Map::empty().insert("source"@, Json::Text(k.source)).insert("target"@, Json::Text(k.target)).insert(
            "relation"@,
            Json::Text(k.relation),
        ),
    )
}

/// A list of edge keys in JSON.
pub open spec fn keys_json(keys: Seq<KeyView>) -> Json {
    Json::List(Seq::new(keys.len(), |i: int| key_json(keys[i])))
}

/// The counts of a difference in JSON.
pub open spec fn summary_json(old: GraphView, new: GraphView) -> Json {
    Json::Record(
        Map::empty().insert("nodes_added"@, Json::Count(new_nodes(old, new).len())).insert(
            "nodes_removed"@,
            Json::Count(new_nodes(new, old).len()),
        ).insert("edges_added"@, Json::Count(new_edges(old, new).len())).insert(
            "edges_removed"@,
            Json::Count(new_edges(new, old).len()),
        ).insert("old_node_count"@, Json::Count(old.nodes.len())).insert("new_node_count"@, Json::Count(new.nodes.len())).insert(
            "old_edge_count"@,
            Json::Count(old.edges.len()),
        ).insert("new_edge_count"@, Json::Count(new.edges.len())),
    )
}

/// The difference between two snapshots in JSON, field by field.
pub open spec fn diff_json(old: GraphView, new: GraphView) -> Map<Seq<char>, Json> {
    Map::empty().insert("added_nodes"@, texts_json(new_nodes(old, new))).insert(
        "removed_nodes"@,
        texts_json(new_nodes(new, old)),
    ).insert("added_edges"@, keys_json(new_edges(old, new))).insert("removed_edges"@, keys_json(new_edges(new, old))).insert(
        "summary"@,
        summary_json(old, new),
    )
}

/// The fields of a JSON report.
pub open spec fn report_view(report: StringHashMap<serde_json::Value>) -> Map<Seq<char>, Json> {
    report@.map_values(|v: serde_json::Value| json(v))
}

/// What changed between two snapshots.
#[derive(Debug)]
pub struct GraphDiff {
    pub added_nodes: Vec<String>,
    pub removed_nodes: Vec<String>,
    pub added_edges: Vec<EdgeKey>,
    pub removed_edges: Vec<EdgeKey>,
}

/// The ids of the nodes that `to` has and `from` has not.
fn find_new_nodes(from: &KnowledgeGraph, to: &KnowledgeGraph) -> (ids: Vec<String>)
    ensures
        texts(ids@) == new_nodes(from@, to@),
{
    let ghost wanted = |id: Seq<char>| !from@.has(id);
    let nodes: &Vec<GraphNode> = to.nodes();
    let ghost all = to@.ids();
    let mut ids: Vec<String> = Vec::new();
    let mut i: usize = 0;
    proof {
        crate::sequences::filter_none(all, wanted);
        assert(texts(ids@) =~= all.take(0).filter(wanted));
    }
    while i < nodes.len()
        invariant
            wanted == (|id: Seq<char>| !from@.has(id)),
            crate::graph::node_views(nodes@) == to@.nodes,
            all == to@.ids(),
            i <= nodes@.len(),
            texts(ids@) == all.take(i as int).filter(wanted),
        decreases nodes@.len() - i,
    {
        let ghost done = texts(ids@);
        proof {
            assert(to@.nodes[i as int] == nodes@[i as int]@);
            crate::sequences::filter_next(all, wanted, i as int);
        }
        match from.position(nodes[i].id.as_str()) {
            Some(_) => {},
            None => {
                ids.push(nodes[i].id.clone());
                assert(texts(ids@) =~= done.push(all[i as int]));
            },
        }
        i += 1;
    }
    assert(all.take(i as int) =~= all);
    ids
}

/// The keys of all edges of a graph, as a set.
fn collect_keys(graph: &KnowledgeGraph) -> (set: EdgeSet)
    ensures
        set.wf(),
        forall|k: KeyView| #[trigger] set@.contains(k) <==> keys_of(graph@.edges).contains(k),
{
    let edges: &Vec<GraphEdge> = graph.edges();
    let ghost keys = keys_of(graph@.edges);
    let mut set: EdgeSet = EdgeSet::new();
    let mut i: usize = 0;
    while i < edges.len()
        invariant
            crate::graph::edge_views(edges@) == graph@.edges,
            keys == keys_of(graph@.edges),
            i <= edges@.len(),
            set.wf(),
            forall|k: KeyView| #[trigger] set@.contains(k) <==> exists|q: int| 0 <= q < i && #[trigger] keys[q] == k,
        decreases edges@.len() - i,
    {
        let edge: &GraphEdge = &edges[i];
        let ghost before = set@;
        assert(graph@.edges[i as int] == edge@);
        set.insert(edge.source.as_str(), edge.target.as_str(), edge.relation.as_str());
        proof {
            assert forall|k: KeyView| #[trigger] set@.contains(k) <==> exists|q: int| 0 <= q < i + 1 && #[trigger] keys[q] == k by {
                if before.contains(k) {
                    let q = choose|q: int| 0 <= q < i && #[trigger] keys[q] == k;
                    assert(keys[q] == k);
                }
                if k == keys[i as int] {
                    assert(set@.contains(k));
                }
                if exists|q: int| 0 <= q < i + 1 && #[trigger] keys[q] == k {
                    let q = choose|q: int| 0 <= q < i + 1 && #[trigger] keys[q] == k;
                    if q < i {
                        assert(before.contains(k));
                    }
                }
            }
        }
        i += 1;
    }
    set
}

/// The keys of the edges that `to` has and `from` has not, each once.
fn find_new_edges(from: &KnowledgeGraph, to: &KnowledgeGraph) -> (found: Vec<EdgeKey>)
    ensures
        key_views(found@) == new_edges(from@, to@),
{
    let there: EdgeSet = collect_keys(from);
    let ghost wanted = |k: KeyView| !keys_of(from@.edges).contains(k);
    let edges: &Vec<GraphEdge> = to.edges();
    let ghost keys = keys_of(to@.edges);
    let mut seen: EdgeSet = EdgeSet::new();
    let mut found: Vec<EdgeKey> = Vec::new();
    let mut i: usize = 0;
    proof {
        crate::sequences::filter_none(keys, wanted);
        assert(key_views(found@) =~= distinct(keys.take(0).filter(wanted)));
    }
    while i < edges.len()
        invariant
            there.wf(),
            forall|k: KeyView| #[trigger] there@.contains(k) <==> keys_of(from@.edges).contains(k),
            wanted == (|k: KeyView| !keys_of(from@.edges).contains(k)),
            crate::graph::edge_views(edges@) == to@.edges,
            keys == keys_of(to@.edges),
            i <= edges@.len(),
            seen.wf(),
            key_views(found@) == distinct(keys.take(i as int).filter(wanted)),
            forall|k: KeyView| #[trigger] seen@.contains(k) <==> key_views(found@).contains(k),
        decreases edges@.len() - i,
    {
        let edge: &GraphEdge = &edges[i];
        let ghost key = keys[i as int];
        let ghost done = key_views(found@);
        proof {
            assert(to@.edges[i as int] == edge@);
            assert(key == (KeyView { source: edge.source@, target: edge.target@, relation: edge.relation@ }));
            crate::sequences::filter_next(keys, wanted, i as int);
            assert(there@.contains(key) <==> keys_of(from@.edges).contains(key));
            assert(seen@.contains(key) <==> done.contains(key));
        }
        let (s, t, r): (&str, &str, &str) = (edge.source.as_str(), edge.target.as_str(), edge.relation.as_str());
        if !there.contains(s, t, r) {
            let ghost longer = keys.take(i as int).filter(wanted).push(key);
            assert(longer.drop_last() =~= keys.take(i as int).filter(wanted));
            if !seen.contains(s, t, r) {
                let ghost before = seen@;
                seen.insert(s, t, r);
                found.push(EdgeKey { source: edge.source.clone(), target: edge.target.clone(), relation: edge.relation.clone() });
                proof {
                    let now = key_views(found@);
                    assert(now =~= done.push(key));
                    assert forall|k: KeyView| #[trigger] seen@.contains(k) <==> now.contains(k) by {
                        if before.contains(k) {
                            let q = choose|q: int| 0 <= q < done.len() && done[q] == k;
                            assert(now[q] == k);
                        }
                        assert(now[done.len() as int] == key);
                        if now.contains(k) && k != key {
                            let q = choose|q: int| 0 <= q < now.len() && now[q] == k;
                            assert(done[q] == k);
                            assert(done.contains(k));
                        }
                    }
                }
            }
        }
        i += 1;
    }
    assert(keys.take(i as int) =~= keys);
    found
}

/// Compares two snapshots of a graph.
pub fn compare_graphs(old: &KnowledgeGraph, new: &KnowledgeGraph) -> (d: GraphDiff)
    ensures
        texts(d.added_nodes@) == new_nodes(old@, new@),
        texts(d.removed_nodes@) == new_nodes(new@, old@),
        key_views(d.added_edges@) == new_edges(old@, new@),
        key_views(d.removed_edges@) == new_edges(new@, old@),
{
    GraphDiff {
        added_nodes: find_new_nodes(old, new),
        removed_nodes: find_new_nodes(new, old),
        added_edges: find_new_edges(old, new),
        removed_edges: find_new_edges(new, old),
    }
}

/// A list of texts in JSON.
fn texts_value(items: &Vec<String>) -> (value: serde_json::Value)
    ensures
        json(value) == texts_json(texts(items@)),
{
    let mut values: Vec<serde_json::Value> = Vec::new();
    let mut i: usize = 0;
    while i < items.len()
        invariant
            i <= items@.len(),
            values@.len() == i,
            forall|k: int| 0 <= k < i ==> json(#[trigger] values@[k]) == Json::Text(items@[k]@),
        decreases items@.len() - i,
    {
        values.push(text_value(items[i].clone()));
        i += 1;
    }
    let ghost said = crate::json::json_list(values@);
    assert(said =~= texts_json(texts(items@))->List_0);
    list_value(values)
}

/// An edge key in JSON.
fn key_value(k: &EdgeKey) -> (value: serde_json::Value)
    ensures
        json(value) == key_json(k@),
{
    let mut object: serde_json::Map<String, serde_json::Value> = no_entries();
    set_entry(&mut object, "source".to_owned(), text_value(k.source.clone()));
    set_entry(&mut object, "target".to_owned(), text_value(k.target.clone()));
    set_entry(&mut object, "relation".to_owned(), text_value(k.relation.clone()));
    record_value(object)
}

/// A list of edge keys in JSON.
fn keys_value(keys: &Vec<EdgeKey>) -> (value: serde_json::Value)
    ensures
        json(value) == keys_json(key_views(keys@)),
{
    let mut values: Vec<serde_json::Value> = Vec::new();
    let mut i: usize = 0;
    while i < keys.len()
        invariant
            i <= keys@.len(),
            values@.len() == i,
            forall|k: int| 0 <= k < i ==> json(#[trigger] values@[k]) == key_json(keys@[k]@),
        decreases keys@.len() - i,
    {
        values.push(key_value(&keys[i]));
        i += 1;
    }
    let ghost said = crate::json::json_list(values@);
    assert(said =~= keys_json(key_views(keys@))->List_0);
    list_value(values)
}

/// Sets a field of a report.
fn put(report: &mut StringHashMap<serde_json::Value>, field: &str, value: serde_json::Value)
    ensures
        report_view(*final(report)) == report_view(*old(report)).insert(field@, json(value)),
{
    report.insert(field.to_owned(), value);
    assert(report_view(*report) =~= report_view(*old(report)).insert(field@, json(value)));
}

/// Sets a count in a summary.
fn put_count(object: &mut serde_json::Map<String, serde_json::Value>, field: &str, count: usize)
    ensures
        crate::json::entries(*final(object)) == crate::json::entries(*old(object)).insert(field@, Json::Count(count as nat)),
{
    set_entry(object, field.to_owned(), count_value(count));
}

/// Compares two snapshots of a graph and reports in JSON what was added and removed: the nodes
/// by their ids, the edges by source, target and relation, and a summary of the counts.
pub fn graph_diff(old: &KnowledgeGraph, new: &KnowledgeGraph) -> (report: StringHashMap<serde_json::Value>)
    ensures
        report_view(report) == diff_json(old@, new@),
{
    let d: GraphDiff = compare_graphs(old, new);
    proof {
        assert(texts(d.added_nodes@).len() == d.added_nodes@.len());
        assert(texts(d.removed_nodes@).len() == d.removed_nodes@.len());
        assert(key_views(d.added_edges@).len() == d.added_edges@.len());
        assert(key_views(d.removed_edges@).len() == d.removed_edges@.len());
    }
    let mut summary: serde_json::Map<String, serde_json::Value> = no_entries();
    put_count(&mut summary, "nodes_added", d.added_nodes.len());
    put_count(&mut summary, "nodes_removed", d.removed_nodes.len());
    put_count(&mut summary, "edges_added", d.added_edges.len());
    put_count(&mut summary, "edges_removed", d.removed_edges.len());
    put_count(&mut summary, "old_node_count", old.node_count());
    put_count(&mut summary, "new_node_count", new.node_count());
    put_count(&mut summary, "old_edge_count", old.edge_count());
    put_count(&mut summary, "new_edge_count", new.edge_count());
    let mut report: StringHashMap<serde_json::Value> = StringHashMap::new();
    assert(report_view(report) =~= Map::empty());
    put(&mut report, "added_nodes", texts_value(&d.added_nodes));
    put(&mut report, "removed_nodes", texts_value(&d.removed_nodes));
    put(&mut report, "added_edges", keys_value(&d.added_edges));
    put(&mut report, "removed_edges", keys_value(&d.removed_edges));
    put(&mut report, "summary", record_value(summary));
    report
}

/// `distinct` keeps every item, and none twice.
pub proof fn distinct_keeps_all<T>(s: Seq<T>)
    ensures
        distinct(s).no_duplicates(),
        forall|x: T| #[trigger] distinct(s).contains(x) <==> s.contains(x),
    decreases s.len(),
{
    if s.len() > 0 {
        let front = s.drop_last();
        let kept = distinct(front);
        distinct_keeps_all(front);
        assert forall|x: T| #[trigger] distinct(s).contains(x) <==> s.contains(x) by {
            crate::sequences::pushed_contains(front, s.last(), x);
            crate::sequences::pushed_contains(kept, s.last(), x);
            assert(s =~= front.push(s.last()));
            assert(kept.contains(x) <==> front.contains(x));
        }
    }
}

/// The ids of a well-formed graph are all different, and are those of its nodes.
proof fn ids_differ(g: GraphView)
    requires
        g.wf(),
    ensures
        g.ids().no_duplicates(),
        forall|id: Seq<char>| #[trigger] g.ids().contains(id) <==> g.has(id),
{
    let ids = g.ids();
    assert forall|i: int, j: int| 0 <= i < ids.len() && 0 <= j < ids.len() && i != j implies ids[i] != ids[j] by {
        assert(g.nodes[i].id != g.nodes[j].id);
    }
    assert forall|id: Seq<char>| #[trigger] ids.contains(id) <==> g.has(id) by {
        if ids.contains(id) {
            let i = choose|i: int| 0 <= i < ids.len() && ids[i] == id;
            assert(g.nodes[i].id == id);
        }
        if g.has(id) {
            let i = choose|i: int| 0 <= i < g.nodes.len() && (#[trigger] g.nodes[i]).id == id;
            assert(ids[i] == id);
        }
    }
}

/// The nodes reported as new are those that one graph has and the other has not, each once.
pub proof fn new_nodes_are_new(from: GraphView, to: GraphView)
    requires
        to.wf(),
    ensures
        new_nodes(from, to).no_duplicates(),
        forall|id: Seq<char>| #[trigger] new_nodes(from, to).contains(id) <==> to.has(id) && !from.has(id),
{
    let wanted = |id: Seq<char>| !from.has(id);
    ids_differ(to);
    crate::sequences::filter_distinct(to.ids(), wanted);
    assert forall|id: Seq<char>| #[trigger] new_nodes(from, to).contains(id) <==> to.has(id) && !from.has(id) by {
        if new_nodes(from, to).contains(id) {
            crate::sequences::filter_keeps(to.ids(), wanted, id);
        }
        if to.has(id) && !from.has(id) {
            assert(to.ids().contains(id));
            crate::sequences::filter_takes(to.ids(), wanted, id);
        }
    }
}

/// The edges reported as new are those whose key one graph has and the other has not, each once.
pub proof fn new_edges_are_new(from: GraphView, to: GraphView)
    ensures
        new_edges(from, to).no_duplicates(),
        forall|k: KeyView| #[trigger]
            new_edges(from, to).contains(k) <==> keys_of(to.edges).contains(k) && !keys_of(from.edges).contains(k),
{
    let wanted = |k: KeyView| !keys_of(from.edges).contains(k);
    let all = keys_of(to.edges).filter(wanted);
    distinct_keeps_all(all);
    assert forall|k: KeyView| #[trigger] new_edges(from, to).contains(k) <==> keys_of(to.edges).contains(k) && !keys_of(
        from.edges,
    ).contains(k) by {
        if all.contains(k) {
            crate::sequences::filter_keeps(keys_of(to.edges), wanted, k);
        }
        if keys_of(to.edges).contains(k) && !keys_of(from.edges).contains(k) {
            crate::sequences::filter_takes(keys_of(to.edges), wanted, k);
        }
    }
}

/// A graph does not differ from itself.
pub proof fn same_graph_has_no_changes(g: GraphView)
    requires
        g.wf(),
    ensures
        new_nodes(g, g).len() == 0,
        new_edges(g, g).len() == 0,
{
    new_nodes_are_new(g, g);
    new_edges_are_new(g, g);
    if new_nodes(g, g).len() > 0 {
        assert(new_nodes(g, g).contains(new_nodes(g, g)[0]));
    }
    if new_edges(g, g).len() > 0 {
        assert(new_edges(g, g).contains(new_edges(g, g)[0]));
    }
}

/// The new snapshot has what the old one had, less what was removed, and what was added.
pub proof fn changes_lead_from_old_to_new(old: GraphView, new: GraphView)
    requires
        old.wf(),
        new.wf(),
    ensures
        forall|id: Seq<char>| #[trigger]
            new.has(id) <==> (old.has(id) && !new_nodes(new, old).contains(id)) || new_nodes(old, new).contains(id),
        forall|k: KeyView| #[trigger]
            keys_of(new.edges).contains(k) <==> (keys_of(old.edges).contains(k) && !new_edges(new, old).contains(k)) || new_edges(
                old,
                new,
            ).contains(k),
{
    new_nodes_are_new(old, new);
    new_nodes_are_new(new, old);
    new_edges_are_new(old, new);
    new_edges_are_new(new, old);
}

/// The number of nodes grows by those added and shrinks by those removed.
pub proof fn node_counts_balance(old: GraphView, new: GraphView)
    requires
        old.wf(),
        new.wf(),
    ensures
        old.nodes.len() + new_nodes(old, new).len() == new.nodes.len() + new_nodes(new, old).len(),
{
    ids_differ(old);
    ids_differ(new);
    new_nodes_are_new(old, new);
    new_nodes_are_new(new, old);
    let a = old.ids().to_set();
    let b = new.ids().to_set();
    old.ids().unique_seq_to_set();
    new.ids().unique_seq_to_set();
    new_nodes(old, new).unique_seq_to_set();
    new_nodes(new, old).unique_seq_to_set();
    assert forall|id: Seq<char>| a.contains(id) <==> old.has(id) by {
        assert(old.ids().contains(id) <==> old.has(id));
    }
    assert forall|id: Seq<char>| b.contains(id) <==> new.has(id) by {
        assert(new.ids().contains(id) <==> new.has(id));
    }
    assert forall|id: Seq<char>| new_nodes(old, new).to_set().contains(id) <==> b.difference(a).contains(id) by {
        assert(new_nodes(old, new).contains(id) <==> new.has(id) && !old.has(id));
    }
    assert forall|id: Seq<char>| new_nodes(new, old).to_set().contains(id) <==> a.difference(b).contains(id) by {
        assert(new_nodes(new, old).contains(id) <==> old.has(id) && !new.has(id));
    }
    assert(new_nodes(old, new).to_set() =~= b.difference(a));
    assert(new_nodes(new, old).to_set() =~= a.difference(b));
    vstd::set_lib::lemma_set_disjoint_lens(a, b.difference(a));
    vstd::set_lib::lemma_set_disjoint_lens(b, a.difference(b));
    assert(a + b.difference(a) =~= b + a.difference(b));
}

/// The names of the fields of a report are different.
proof fn report_fields_differ()
    ensures
        "added_nodes"@ != "removed_nodes"@,
        "added_nodes"@ != "added_edges"@,
        "added_nodes"@ != "removed_edges"@,
        "added_nodes"@ != "summary"@,
        "removed_nodes"@ != "added_edges"@,
        "removed_nodes"@ != "removed_edges"@,
        "removed_nodes"@ != "summary"@,
        "added_edges"@ != "removed_edges"@,
        "added_edges"@ != "summary"@,
        "removed_edges"@ != "summary"@,
{
    reveal_strlit("added_nodes");
    reveal_strlit("removed_nodes");
    reveal_strlit("added_edges");
    reveal_strlit("removed_edges");
    reveal_strlit("summary");
    assert("added_nodes"@.len() == 11 && "added_edges"@.len() == 11 && "removed_nodes"@.len() == 13 && "removed_edges"@.len() == 13
        && "summary"@.len() == 7);
    assert("added_nodes"@[6] != "added_edges"@[6]);
    assert("removed_nodes"@[8] != "removed_edges"@[8]);
}

/// The names of the counts of a summary are different.
proof fn summary_fields_differ()
    ensures
        seq![
            "nodes_added"@,
            "nodes_removed"@,
            "edges_added"@,
            "edges_removed"@,
            "old_node_count"@,
            "new_node_count"@,
            "old_edge_count"@,
            "new_edge_count"@,
        ].no_duplicates(),
{
    reveal_strlit("nodes_added");
    reveal_strlit("nodes_removed");
    reveal_strlit("edges_added");
    reveal_strlit("edges_removed");
    reveal_strlit("old_node_count");
    reveal_strlit("new_node_count");
    reveal_strlit("old_edge_count");
    reveal_strlit("new_edge_count");
    assert("nodes_added"@.len() == 11 && "edges_added"@.len() == 11);
    assert("nodes_removed"@.len() == 13 && "edges_removed"@.len() == 13);
    assert("old_node_count"@.len() == 14 && "new_node_count"@.len() == 14);
    assert("old_edge_count"@.len() == 14 && "new_edge_count"@.len() == 14);
    assert("nodes_added"@[0] == 'n' && "edges_added"@[0] == 'e');
    assert("nodes_removed"@[0] == 'n' && "edges_removed"@[0] == 'e');
    assert("old_node_count"@[0] == 'o' && "new_node_count"@[0] == 'n' && "old_edge_count"@[0] == 'o' && "new_edge_count"@[0] == 'n');
    assert("old_node_count"@[4] == 'n' && "new_node_count"@[4] == 'n' && "old_edge_count"@[4] == 'e' && "new_edge_count"@[4] == 'e');
}

/// The counts of a summary by name.
pub open spec fn counts(summary: Json) -> Map<Seq<char>, Json> {
    summary->Record_0
}

/// What is added in one direction is removed in the other, and the summary of one direction is
/// that of the other with added and removed, and old and new, exchanged.
pub proof fn changes_swap(old: GraphView, new: GraphView)
    ensures
        diff_json(old, new)["added_nodes"@] == diff_json(new, old)["removed_nodes"@],
        diff_json(old, new)["removed_nodes"@] == diff_json(new, old)["added_nodes"@],
        diff_json(old, new)["added_edges"@] == diff_json(new, old)["removed_edges"@],
        diff_json(old, new)["removed_edges"@] == diff_json(new, old)["added_edges"@],
        diff_json(old, new)["summary"@] is Record,
        ({
            let there = counts(diff_json(old, new)["summary"@]);
            let back = counts(diff_json(new, old)["summary"@]);
            &&& there.dom() == back.dom()
            &&& there["nodes_added"@] == back["nodes_removed"@]
            &&& there["nodes_removed"@] == back["nodes_added"@]
            &&& there["edges_added"@] == back["edges_removed"@]
            &&& there["edges_removed"@] == back["edges_added"@]
            &&& there["old_node_count"@] == back["new_node_count"@]
            &&& there["new_node_count"@] == back["old_node_count"@]
            &&& there["old_edge_count"@] == back["new_edge_count"@]
            &&& there["new_edge_count"@] == back["old_edge_count"@]
        }),
{
    report_fields_differ();
    summary_fields_differ();
    let names = seq![
        "nodes_added"@,
        "nodes_removed"@,
        "edges_added"@,
        "edges_removed"@,
        "old_node_count"@,
        "new_node_count"@,
        "old_edge_count"@,
        "new_edge_count"@,
    ];
    assert(names[0] == "nodes_added"@ && names[1] == "nodes_removed"@ && names[2] == "edges_added"@ && names[3] == "edges_removed"@);
    assert(names[4] == "old_node_count"@ && names[5] == "new_node_count"@ && names[6] == "old_edge_count"@ && names[7]
        == "new_edge_count"@);
    assert(counts(diff_json(old, new)["summary"@]).dom() =~= counts(diff_json(new, old)["summary"@]).dom());
}

/// The two edges have the same source, target and relation.
pub open spec fn are_alike(a: EdgeView, b: EdgeView) -> bool {
    a.source == b.source && a.target == b.target && a.relation == b.relation
}

/// No node of `from` has the id of the `i`-th node of `to`.
pub open spec fn is_new_node(from: GraphView, to: GraphView, i: int) -> bool {
    forall|j: int| 0 <= j < from.nodes.len() ==> (#[trigger] from.nodes[j]).id != to.nodes[i].id
}

/// No edge of `from` is like the `e`-th edge of `to`, and no earlier edge of `to` is.
pub open spec fn is_new_edge(from: GraphView, to: GraphView, e: int) -> bool {
    &&& forall|d: int| 0 <= d < from.edges.len() ==> !are_alike(#[trigger] from.edges[d], to.edges[e])
    &&& forall|d: int| 0 <= d < e ==> !are_alike(#[trigger] to.edges[d], to.edges[e])
}

/// The lists of new nodes and edges, in plain terms: `nodes` and `edges` say where they stand.
pub open spec fn are_changes(from: GraphView, to: GraphView, nodes: Seq<int>, edges: Seq<int>, node_list: Json, edge_list: Json) -> bool {
    &&& are_places(to.nodes.len(), |i: int| is_new_node(from, to, i), nodes)
    &&& are_places(to.edges.len(), |e: int| is_new_edge(from, to, e), edges)
    &&& node_list matches Json::List(items) && items.len() == nodes.len() && forall|k: int|
        0 <= k < items.len() ==> #[trigger] items[k] == Json::Text(to.nodes[nodes[k]].id)
    &&& edge_list matches Json::List(items) && items.len() == edges.len() && forall|k: int|
        0 <= k < items.len() ==> #[trigger] items[k] == Json::Record(
            map!["source"@ => Json::Text(to.edges[edges[k]].source), "target"@ => Json::Text(to.edges[edges[k]].target), "relation"@ => Json::Text(
                to.edges[edges[k]].relation,
            )],
        )
}

/// A report lists under `added_nodes` and `added_edges` what the new snapshot has and the old one
/// has not, each edge once, and under `removed_nodes` and `removed_edges` what the old one has and
/// the new one has not. Its summary counts what is in each of these lists, and the nodes and
/// edges of both snapshots. There are no other fields.
pub proof fn report_by_snapshots(old: GraphView, new: GraphView) -> (at: (Seq<int>, Seq<int>, Seq<int>, Seq<int>))
    ensures
        forall|k: Seq<char>| #[trigger]
            diff_json(old, new).contains_key(k) <==> seq![
                "added_nodes"@,
                "removed_nodes"@,
                "added_edges"@,
                "removed_edges"@,
                "summary"@,
            ].contains(k),
        are_changes(old, new, at.0, at.1, diff_json(old, new)["added_nodes"@], diff_json(old, new)["added_edges"@]),
        are_changes(new, old, at.2, at.3, diff_json(old, new)["removed_nodes"@], diff_json(old, new)["removed_edges"@]),
        diff_json(old, new)["summary"@] == Json::Record(
            map![
                "nodes_added"@ => Json::Count(at.0.len()),
                "edges_added"@ => Json::Count(at.1.len()),
                "nodes_removed"@ => Json::Count(at.2.len()),
                "edges_removed"@ => Json::Count(at.3.len()),
                "old_node_count"@ => Json::Count(old.nodes.len()),
                "new_node_count"@ => Json::Count(new.nodes.len()),
                "old_edge_count"@ => Json::Count(old.edges.len()),
                "new_edge_count"@ => Json::Count(new.edges.len())
            ],
        ),
{
    report_fields_differ();
    summary_fields_differ();
    let r = diff_json(old, new);
    let fields = seq!["added_nodes"@, "removed_nodes"@, "added_edges"@, "removed_edges"@, "summary"@];
    assert(fields[0] == "added_nodes"@ && fields[1] == "removed_nodes"@ && fields[2] == "added_edges"@ && fields[3] == "removed_edges"@
        && fields[4] == "summary"@);
    let names = seq![
        "nodes_added"@,
        "nodes_removed"@,
        "edges_added"@,
        "edges_removed"@,
        "old_node_count"@,
        "new_node_count"@,
        "old_edge_count"@,
        "new_edge_count"@,
    ];
    assert(names[0] == "nodes_added"@ && names[1] == "nodes_removed"@ && names[2] == "edges_added"@ && names[3] == "edges_removed"@);
    assert(names[4] == "old_node_count"@ && names[5] == "new_node_count"@ && names[6] == "old_edge_count"@ && names[7]
        == "new_edge_count"@);
    let (a, b) = changes_in_plain_terms(old, new);
    let (c, d) = changes_in_plain_terms(new, old);
    let plain = map![
        "nodes_added"@ => Json::Count(a.len()),
        "edges_added"@ => Json::Count(b.len()),
        "nodes_removed"@ => Json::Count(c.len()),
        "edges_removed"@ => Json::Count(d.len()),
        "old_node_count"@ => Json::Count(old.nodes.len()),
        "new_node_count"@ => Json::Count(new.nodes.len()),
        "old_edge_count"@ => Json::Count(old.edges.len()),
        "new_edge_count"@ => Json::Count(new.edges.len())
    ];
    assert(summary_json(old, new)->Record_0 =~= plain);
    (a, b, c, d)
}

/// The lists of one direction, in plain terms.
proof fn changes_in_plain_terms(from: GraphView, to: GraphView) -> (at: (Seq<int>, Seq<int>))
    ensures
        are_changes(from, to, at.0, at.1, texts_json(new_nodes(from, to)), keys_json(new_edges(from, to))),
        at.0.len() == new_nodes(from, to).len(),
        at.1.len() == new_edges(from, to).len(),
{
    let wanted = |id: Seq<char>| !from.has(id);
    let fresh = |i: int| is_new_node(from, to, i);
    assert forall|i: int| 0 <= i < to.ids().len() implies (#[trigger] fresh(i) <==> wanted(to.ids()[i])) by {
        if !fresh(i) {
            let j = choose|j: int| 0 <= j < from.nodes.len() && (#[trigger] from.nodes[j]).id == to.nodes[i].id;
            assert(from.has(to.nodes[i].id));
        }
        if from.has(to.ids()[i]) {
            let j = choose|j: int| 0 <= j < from.nodes.len() && (#[trigger] from.nodes[j]).id == to.nodes[i].id;
            assert(!fresh(i));
        }
    }
    let nodes = crate::sequences::filter_places(to.ids(), wanted, fresh);
    let edges = new_edges_in_plain_terms(from, to);
    let node_items = texts_json(new_nodes(from, to))->List_0;
    assert forall|k: int| 0 <= k < node_items.len() implies #[trigger] node_items[k] == Json::Text(to.nodes[nodes[k]].id) by {
        assert(new_nodes(from, to)[k] == to.ids()[nodes[k]]);
    }
    let edge_items = keys_json(new_edges(from, to))->List_0;
    assert forall|k: int| 0 <= k < edge_items.len() implies #[trigger] edge_items[k] == Json::Record(
        map!["source"@ => Json::Text(to.edges[edges[k]].source), "target"@ => Json::Text(to.edges[edges[k]].target), "relation"@ => Json::Text(
            to.edges[edges[k]].relation,
        )],
    ) by {
        assert(new_edges(from, to)[k] == key_of(to.edges[edges[k]]));
        assert(edge_items[k]->Record_0 =~= map!["source"@ => Json::Text(to.edges[edges[k]].source), "target"@ => Json::Text(
            to.edges[edges[k]].target,
        ), "relation"@ => Json::Text(to.edges[edges[k]].relation)]);
    }
    (nodes, edges)
}

/// The new edges are those at the places where they are new.
proof fn new_edges_in_plain_terms(from: GraphView, to: GraphView) -> (at: Seq<int>)
    ensures
        are_places(to.edges.len(), |e: int| is_new_edge(from, to, e), at),
        at.len() == new_edges(from, to).len(),
        forall|k: int| 0 <= k < at.len() ==> #[trigger] new_edges(from, to)[k] == key_of(to.edges[at[k]]),
    decreases to.edges.len(),
{
    let wanted = |k: KeyView| !keys_of(from.edges).contains(k);
    let keys = keys_of(to.edges);
    if to.edges.len() == 0 {
        crate::sequences::filter_none(keys, wanted);
        assert(keys.take(0) =~= keys);
        Seq::empty()
    } else {
        let last = to.edges.len() - 1;
        let shorter = GraphView { edges: to.edges.drop_last(), ..to };
        let before = new_edges_in_plain_terms(from, shorter);
        let kept = keys_of(shorter.edges).filter(wanted);
        assert(keys.take(last) =~= keys_of(shorter.edges));
        assert(keys.take(last + 1) =~= keys);
        crate::sequences::filter_next(keys, wanted, last);
        assert(kept.push(keys[last]).drop_last() =~= kept);
        distinct_keeps_all(kept);
        assert forall|e: int| 0 <= e < last implies (is_new_edge(from, to, e) <==> #[trigger] is_new_edge(from, shorter, e)) by {
            assert(to.edges[e] == shorter.edges[e]);
            if is_new_edge(from, to, e) {
                assert forall|d: int| 0 <= d < e implies !are_alike(#[trigger] shorter.edges[d], shorter.edges[e]) by {
                    assert(!are_alike(to.edges[d], to.edges[e]));
                }
            }
            if is_new_edge(from, shorter, e) {
                assert forall|d: int| 0 <= d < e implies !are_alike(#[trigger] to.edges[d], to.edges[e]) by {
                    assert(!are_alike(shorter.edges[d], shorter.edges[e]));
                }
            }
        }
        let fresh = wanted(keys[last]) && !distinct(kept).contains(keys[last]);
        assert(fresh <==> is_new_edge(from, to, last)) by {
            if keys_of(from.edges).contains(keys[last]) {
                let d = choose|d: int| 0 <= d < from.edges.len() && keys_of(from.edges)[d] == keys[last];
                assert(are_alike(from.edges[d], to.edges[last]));
            } else {
                assert forall|d: int| 0 <= d < from.edges.len() implies !are_alike(#[trigger] from.edges[d], to.edges[last]) by {
                    if are_alike(from.edges[d], to.edges[last]) {
                        assert(keys_of(from.edges)[d] == keys[last]);
                    }
                }
                assert(kept.contains(keys[last]) <==> exists|d: int| 0 <= d < last && are_alike(#[trigger] to.edges[d], to.edges[last])) by {
                    let all = keys_of(shorter.edges);
                    if kept.contains(keys[last]) {
                        crate::sequences::filter_keeps(all, wanted, keys[last]);
                        let d = choose|d: int| 0 <= d < all.len() && all[d] == keys[last];
                        assert(are_alike(to.edges[d], to.edges[last]));
                    }
                    if exists|d: int| 0 <= d < last && are_alike(#[trigger] to.edges[d], to.edges[last]) {
                        let d = choose|d: int| 0 <= d < last && are_alike(#[trigger] to.edges[d], to.edges[last]);
                        assert(all[d] == keys[last]);
                        assert(all.contains(keys[last]));
                        crate::sequences::filter_takes(all, wanted, keys[last]);
                    }
                }
            }
        }
        let at = if fresh {
            before.push(last)
        } else {
            before
        };
        assert forall|e: int| 0 <= e < to.edges.len() && #[trigger] is_new_edge(from, to, e) implies at.contains(e) by {
            if e < last {
                assert(is_new_edge(from, shorter, e));
                assert((|e: int| is_new_edge(from, shorter, e))(e));
                assert(before.contains(e));
                let k = choose|k: int| 0 <= k < before.len() && before[k] == e;
                assert(at[k] == e);
            } else {
                assert(at[before.len() as int] == e);
            }
        }
        assert forall|k: int| 0 <= k < at.len() implies 0 <= (#[trigger] at[k]) < to.edges.len() && is_new_edge(from, to, at[k])
            && new_edges(from, to)[k] == key_of(to.edges[at[k]]) by {
            if k < before.len() {
                assert(is_new_edge(from, shorter, before[k]));
                assert(new_edges(from, shorter)[k] == key_of(shorter.edges[before[k]]));
            }
        }
        at
    }
}

/// A report holds what its values say, field by field, and edge keys say what their fields hold.
pub proof fn diff_views(report: StringHashMap<serde_json::Value>, k: EdgeKey, keys: Seq<EdgeKey>)
    ensures
        report_view(report).dom() == report@.dom(),
        forall|f: Seq<char>| report@.contains_key(f) ==> #[trigger] report_view(report)[f] == json(report@[f]),
        k@.source == k.source@ && k@.target == k.target@ && k@.relation == k.relation@,
        key_views(keys).len() == keys.len(),
        forall|i: int| 0 <= i < keys.len() ==> #[trigger] key_views(keys)[i] == keys[i]@,
{
}

/// The changes between two snapshots, in plain terms.
pub proof fn changes_by_snapshots(from: GraphView, to: GraphView) -> (at: (Seq<int>, Seq<int>))
    ensures
        are_places(to.nodes.len(), |i: int| is_new_node(from, to, i), at.0),
        are_places(to.edges.len(), |e: int| is_new_edge(from, to, e), at.1),
        new_nodes(from, to).len() == at.0.len(),
        forall|k: int| 0 <= k < at.0.len() ==> #[trigger] new_nodes(from, to)[k] == to.nodes[at.0[k]].id,
        new_edges(from, to).len() == at.1.len(),
        forall|k: int|
            #![trigger new_edges(from, to)[k]]
            0 <= k < at.1.len() ==> new_edges(from, to)[k].source == to.edges[at.1[k]].source && new_edges(from, to)[k].target
                == to.edges[at.1[k]].target && new_edges(from, to)[k].relation == to.edges[at.1[k]].relation,
{
    let (a, b) = changes_in_plain_terms(from, to);
    let edges = new_edges_in_plain_terms(from, to);
    let items = texts_json(new_nodes(from, to))->List_0;
    assert forall|k: int| 0 <= k < a.len() implies #[trigger] new_nodes(from, to)[k] == to.nodes[a[k]].id by {
        assert(items[k] == Json::Text(to.nodes[a[k]].id));
    }
    (a, edges)
}

} // verus!
