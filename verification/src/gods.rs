//! God nodes: the most connected entities of a graph.
use vstd::prelude::*;

use crate::graph::{GraphNode, GraphView, KnowledgeGraph, NodeView};
use crate::kinds::{is_entity, is_file_node, is_method_stub};
use crate::ranking::{are_best, descending_order, is_top, Fraction, Ratio};
use crate::terms::{edges_at, is_proper};
use crate::text::{join, same_text, split, split_path, texts};

verus! {

/// A highly connected node.
#[derive(Debug)]
pub struct GodNode {
    pub id: String,
    pub label: String,
    pub degree: usize,
    pub community: Option<usize>,
}

/// What a god node says.
pub struct GodView {
    pub id: Seq<char>,
    pub label: Seq<char>,
    pub degree: nat,
    pub community: Option<usize>,
}

impl View for GodNode {
    type V = GodView;

    open spec fn view(&self) -> GodView {
        GodView { id: self.id@, label: self.label@, degree: self.degree as nat, community: self.community }
    }
}

/// What the god nodes say.
pub open spec fn god_views(gods: Seq<GodNode>) -> Seq<GodView> {
    Seq::new(gods.len(), |i: int| gods[i]@)
}

/// A label that many files share.
pub open spec fn is_generic(label: Seq<char>) -> bool {
    label == "lib"@ || label == "mod"@ || label == "main"@ || label == "index"@ || label == "init"@
}

/// `i` is the first segment named `src` that has a segment above it.
pub open spec fn is_source_root(parts: Seq<Seq<char>>, i: int) -> bool {
    &&& 0 < i < parts.len()
    &&& parts[i] == "src"@
    &&& forall|j: int| 0 < j < i ==> #[trigger] parts[j] != "src"@
}

/// A label qualified by the crate or directory it comes from.
pub open spec fn qualified(owner: Seq<char>, label: Seq<char>) -> Seq<char> {
    owner + "::"@ + label
}

/// A generic label told apart by its source file: the segment above `src` goes in front, or
/// else the directory of the file. The library file of the crate itself keeps its label.
pub open spec fn disambiguated(label: Seq<char>, source_file: Seq<char>) -> Seq<char> {
    let parts = split(source_file, '/');
    if label == "lib"@ && source_file == "src/lib.rs"@ {
        label
    } else if exists|i: int| is_source_root(parts, i) {
        let i = choose|i: int| is_source_root(parts, i);
        qualified(parts[i - 1], label)
    } else if parts.len() >= 2 {
        qualified(parts[parts.len() - 2], label)
    } else {
        label
    }
}

/// The label under which a node is reported.
pub open spec fn reported_label(n: NodeView) -> Seq<char> {
    if is_generic(n.label) {
        disambiguated(n.label, n.source_file)
    } else {
        n.label
    }
}

/// The god node that a node is reported as.
pub open spec fn god_view(g: GraphView, n: NodeView) -> GodView {
    GodView { id: n.id, label: reported_label(n), degree: g.degree(n.id), community: n.community }
}

/// The nodes that can be god nodes, in the order of the graph.
pub open spec fn entities(g: GraphView) -> Seq<NodeView> {
    g.nodes.filter(|n: NodeView| is_entity(g, n))
}

/// All candidates, as they are reported.
pub open spec fn god_candidates(g: GraphView) -> Seq<GodView> {
    Seq::new(entities(g).len(), |i: int| god_view(g, entities(g)[i]))
}

/// The degrees of the candidates.
pub open spec fn god_keys(g: GraphView) -> Seq<Fraction> {
    Seq::new(entities(g).len(), |i: int| Fraction::whole(g.degree(entities(g)[i].id)))
}

/// `owner::label`.
fn qualify(owner: &str, label: &str) -> (s: String)
    ensures
        s@ == qualified(owner@, label@),
{
    let mut s: String = owner.to_owned();
    s.append("::");
    s.append(label);
    s
}

/// Tells a generic label apart by its source file:
/// - `lib` in `crates/graphify-export/src/lib.rs` becomes `graphify-export::lib`,
/// - `mod` in `src/config.rs` becomes `src::mod`,
/// - `lib` in `src/lib.rs` stays `lib`.
pub fn disambiguate_label(label: &str, source_file: &str) -> (s: String)
    ensures
        s@ == disambiguated(label@, source_file@),
{
    if same_text(label, "lib") && same_text(source_file, "src/lib.rs") {
        return label.to_owned();
    }
    let parts: Vec<String> = split_path(source_file);
    let ghost pieces = split(source_file@, '/');
    let mut i: usize = 1;
    while i < parts.len()
        invariant
            1 <= i,
            pieces == texts(parts@),
            pieces == split(source_file@, '/'),
            !(label@ == "lib"@ && source_file@ == "src/lib.rs"@),
            forall|j: int| 0 < j < i && j < pieces.len() ==> #[trigger] pieces[j] != "src"@,
        decreases parts@.len() - i,
    {
        if same_text(parts[i].as_str(), "src") {
            proof {
                assert(is_source_root(pieces, i as int));
                let k = choose|k: int| is_source_root(pieces, k);
                assert(is_source_root(pieces, k));
                if k < i {
                    assert(pieces[k] != "src"@);
                }
                if i < k {
                    assert(pieces[i as int] != "src"@);
                }
            }
            return qualify(parts[i - 1].as_str(), label);
        }
        i += 1;
    }
    if parts.len() >= 2 {
        return qualify(parts[parts.len() - 2].as_str(), label);
    }
    label.to_owned()
}

/// Is this one of the labels that many files share?
fn is_generic_label(label: &str) -> (generic: bool)
    ensures
        generic == is_generic(label@),
{
    same_text(label, "lib") || same_text(label, "mod") || same_text(label, "main") || same_text(label, "index")
        || same_text(label, "init")
}

/// The god node that the `i`-th node is reported as.
fn report(graph: &KnowledgeGraph, i: usize) -> (god: GodNode)
    requires
        i < graph@.nodes.len(),
    ensures
        god@ == god_view(graph@, graph@.nodes[i as int]),
{
    let node: &GraphNode = &graph.nodes()[i];
    assert(node@ == graph@.nodes[i as int]);
    let label: String = if is_generic_label(node.label.as_str()) {
        disambiguate_label(node.label.as_str(), node.source_file.as_str())
    } else {
        node.label.clone()
    };
    GodNode { id: node.id.clone(), label, degree: graph.links(i).len(), community: node.community }
}

/// The positions of the nodes that are neither file hubs nor stubs.
fn entity_places(graph: &KnowledgeGraph) -> (places: Vec<usize>)
    ensures
        places@.len() == entities(graph@).len(),
        forall|k: int| 0 <= k < places@.len() ==> (#[trigger] places@[k]) < graph@.nodes.len()
            && graph@.nodes[places@[k] as int] == entities(graph@)[k],
{
    let ghost g = graph@;
    let ghost wanted = |n: NodeView| is_entity(g, n);
    let nodes: &Vec<GraphNode> = graph.nodes();
    let mut places: Vec<usize> = Vec::new();
    let mut i: usize = 0;
    proof {
        crate::sequences::filter_none(g.nodes, wanted);
    }
    while i < nodes.len()
        invariant
            g == graph@,
            g.wf(),
            wanted == (|n: NodeView| is_entity(g, n)),
            crate::graph::node_views(nodes@) == g.nodes,
            i <= nodes@.len(),
            places@.len() == g.nodes.take(i as int).filter(wanted).len(),
            forall|k: int| 0 <= k < places@.len() ==> (#[trigger] places@[k]) < g.nodes.len()
                && g.nodes[places@[k] as int] == g.nodes.take(i as int).filter(wanted)[k],
        decreases nodes@.len() - i,
    {
        proof {
            assert(g.nodes[i as int] == nodes@[i as int]@);
            crate::graph::place_of_id(g, i as int);
            crate::sequences::filter_next(g.nodes, wanted, i as int);
        }
        let id: &str = nodes[i].id.as_str();
        if !is_file_node(graph, id) && !is_method_stub(graph, id) {
            places.push(i);
        }
        i += 1;
    }
    assert(g.nodes.take(i as int) =~= g.nodes);
    places
}

/// The `top_n` most connected nodes, the most connected first, without file-level hubs and
/// method stubs. Generic labels such as `lib` are told apart by the source file.
pub fn god_nodes(graph: &KnowledgeGraph, top_n: usize) -> (gods: Vec<GodNode>)
    ensures
        is_top(god_candidates(graph@), god_keys(graph@), top_n as nat, god_views(gods@)),
{
    let places: Vec<usize> = entity_places(graph);
    let ghost g = graph@;
    let mut keys: Vec<Ratio> = Vec::new();
    let mut i: usize = 0;
    while i < places.len()
        invariant
            g == graph@,
            i <= places@.len(),
            places@.len() == entities(g).len(),
            forall|k: int| 0 <= k < places@.len() ==> (#[trigger] places@[k]) < g.nodes.len()
                && g.nodes[places@[k] as int] == entities(g)[k],
            keys@.len() == i,
            forall|k: int| 0 <= k < i ==> (#[trigger] keys@[k]).small() && keys@[k]@ == god_keys(g)[k],
        decreases places@.len() - i,
    {
        let degree: usize = graph.links(places[i]).len();
        keys.push(Ratio { num: degree as u128, den: 1 });
        i += 1;
    }
    let order: Vec<usize> = descending_order(&keys);
    assert(crate::ranking::fractions(keys@) =~= god_keys(g));
    let mut gods: Vec<GodNode> = Vec::new();
    let mut p: usize = 0;
    while p < order.len() && p < top_n
        invariant
            g == graph@,
            places@.len() == entities(g).len(),
            forall|k: int| 0 <= k < places@.len() ==> (#[trigger] places@[k]) < g.nodes.len()
                && g.nodes[places@[k] as int] == entities(g)[k],
            crate::ranking::is_order(god_keys(g), order@),
            p <= order@.len(),
            p <= top_n,
            gods@.len() == p,
            forall|k: int| 0 <= k < p ==> (#[trigger] gods@[k])@ == god_candidates(g)[order@[k] as int],
        decreases order@.len() - p,
    {
        gods.push(report(graph, places[order[p]]));
        p += 1;
    }
    assert(god_views(gods@) =~= crate::ranking::pick(god_candidates(g), order@, top_n as nat));
    gods
}

/// The nodes of a well-formed graph are all different.
proof fn nodes_differ(g: GraphView)
    requires
        g.wf(),
    ensures
        g.nodes.no_duplicates(),
{
    assert forall|i: int, j: int| 0 <= i < g.nodes.len() && 0 <= j < g.nodes.len() && i != j implies g.nodes[i] != g.nodes[j] by {
        assert(g.nodes[i].id != g.nodes[j].id);
    }
}

/// Every god node is a node that is neither a file hub nor a stub.
pub proof fn gods_are_entities(g: GraphView, top_n: nat, out: Seq<GodView>, p: int)
    requires
        is_top(god_candidates(g), god_keys(g), top_n, out),
        0 <= p < out.len(),
    ensures
        exists|i: int|
            #![trigger g.nodes[i]]
            0 <= i < g.nodes.len() && is_entity(g, g.nodes[i]) && out[p] == god_view(g, g.nodes[i]),
{
    let order = choose|order: Seq<usize>| #[trigger]
        crate::ranking::is_order(god_keys(g), order) && out == crate::ranking::pick(god_candidates(g), order, top_n);
    let n = entities(g)[order[p] as int];
    assert(entities(g).contains(n));
    crate::sequences::filter_keeps(g.nodes, |n: NodeView| is_entity(g, n), n);
    let i = choose|i: int| 0 <= i < g.nodes.len() && g.nodes[i] == n;
    assert(out[p] == god_view(g, g.nodes[i]));
}

/// God nodes come in the order of their degrees, and none comes twice.
pub proof fn gods_in_order(g: GraphView, top_n: nat, out: Seq<GodView>, p: int, q: int)
    requires
        g.wf(),
        is_top(god_candidates(g), god_keys(g), top_n, out),
        0 <= p < q < out.len(),
    ensures
        out[p].degree >= out[q].degree,
        out[p].id != out[q].id,
{
    let order = choose|order: Seq<usize>| #[trigger]
        crate::ranking::is_order(god_keys(g), order) && out == crate::ranking::pick(god_candidates(g), order, top_n);
    assert(crate::ranking::before(god_keys(g), order[p] as int, order[q] as int));
    crate::ranking::order_is_permutation(god_keys(g), order);
    let (a, b) = (order[p] as int, order[q] as int);
    let wanted = |n: NodeView| is_entity(g, n);
    nodes_differ(g);
    crate::sequences::filter_distinct(g.nodes, wanted);
    assert(a != b);
    assert(entities(g)[a] != entities(g)[b]);
    assert(entities(g).contains(entities(g)[a]) && entities(g).contains(entities(g)[b]));
    crate::sequences::filter_keeps(g.nodes, wanted, entities(g)[a]);
    crate::sequences::filter_keeps(g.nodes, wanted, entities(g)[b]);
    let i = choose|i: int| 0 <= i < g.nodes.len() && g.nodes[i] == entities(g)[a];
    let j = choose|j: int| 0 <= j < g.nodes.len() && g.nodes[j] == entities(g)[b];
    assert(i != j);
}

/// A node that could be a god node and is not among them has no more edges than those that are.
pub proof fn gods_are_the_most_connected(g: GraphView, top_n: nat, out: Seq<GodView>, i: int, p: int)
    requires
        is_top(god_candidates(g), god_keys(g), top_n, out),
        0 <= i < g.nodes.len(),
        is_entity(g, g.nodes[i]),
        forall|q: int| 0 <= q < out.len() ==> (#[trigger] out[q]).id != g.nodes[i].id,
        0 <= p < out.len(),
    ensures
        g.degree(g.nodes[i].id) <= out[p].degree,
{
    let order = choose|order: Seq<usize>| #[trigger]
        crate::ranking::is_order(god_keys(g), order) && out == crate::ranking::pick(god_candidates(g), order, top_n);
    assert(g.nodes.contains(g.nodes[i]));
    crate::sequences::filter_takes(g.nodes, |n: NodeView| is_entity(g, n), g.nodes[i]);
    let a = choose|a: int| 0 <= a < entities(g).len() && entities(g)[a] == g.nodes[i];
    let q = crate::ranking::order_finds(god_keys(g), order, a);
    if q < out.len() {
        assert(out[q].id == g.nodes[i].id);
    }
    assert(crate::ranking::before(god_keys(g), order[p] as int, order[q] as int));
}

/// A label that many files share, one of five.
pub open spec fn is_shared_label(label: Seq<char>) -> bool {
    seq!["lib"@, "mod"@, "main"@, "index"@, "init"@].contains(label)
}

/// The god nodes are the proper nodes with the most edges, the most first and of equal ones the
/// one that was added first. Each comes with its id, its community and the number of edges at it,
/// and with its label, which is told apart by the source file if many files share it.
pub proof fn gods_by_edges(g: GraphView, top_n: nat, out: Seq<GodView>) -> (best: Seq<int>)
    requires
        g.wf(),
        is_top(god_candidates(g), god_keys(g), top_n, out),
    ensures
        are_best(
            g.nodes.len(),
            |i: int| is_proper(g, i),
            |i: int| Fraction { num: edges_at(g, g.nodes[i].id), den: 1 },
            top_n,
            best,
        ),
        best.len() == out.len(),
        forall|p: int|
            #![trigger out[p]]
            0 <= p < out.len() ==> {
                let n = g.nodes[best[p]];
                &&& out[p].id == n.id
                &&& out[p].community == n.community
                &&& out[p].degree == edges_at(g, n.id)
                &&& !is_shared_label(n.label) ==> out[p].label == n.label
                &&& is_shared_label(n.label) ==> out[p].label == disambiguated(n.label, n.source_file)
            },
{
    let wanted = |i: int| is_proper(g, i);
    let key = |i: int| Fraction { num: edges_at(g, g.nodes[i].id), den: 1 };
    let kept = |n: NodeView| is_entity(g, n);
    assert forall|i: int| 0 <= i < g.nodes.len() implies (#[trigger] wanted(i) <==> kept(g.nodes[i])) by {
        crate::kinds::kinds_by_label(g, i);
    }
    let at = crate::sequences::filter_places(g.nodes, kept, wanted);
    assert forall|k: int| 0 <= k < at.len() implies #[trigger] god_keys(g)[k] == key(at[k]) by {
        assert(entities(g)[k] == g.nodes[at[k]]);
        crate::graph::neighbors_across_edges(g, g.nodes[at[k]].id);
    }
    let (best, which) = crate::ranking::top_of_places(
        god_candidates(g),
        god_keys(g),
        top_n,
        out,
        g.nodes.len(),
        wanted,
        key,
        at,
    );
    assert forall|p: int| #![trigger out[p]] 0 <= p < out.len() implies {
        let n = g.nodes[best[p]];
        &&& out[p].id == n.id
        &&& out[p].community == n.community
        &&& out[p].degree == edges_at(g, n.id)
        &&& !is_shared_label(n.label) ==> out[p].label == n.label
        &&& is_shared_label(n.label) ==> out[p].label == disambiguated(n.label, n.source_file)
    } by {
        let k = which[p];
        let n = g.nodes[best[p]];
        assert(entities(g)[k] == g.nodes[at[k]]);
        assert(out[p] == god_view(g, n));
        crate::graph::neighbors_across_edges(g, n.id);
        let shared = seq!["lib"@, "mod"@, "main"@, "index"@, "init"@];
        assert(shared[0] == "lib"@ && shared[1] == "mod"@ && shared[2] == "main"@ && shared[3] == "index"@ && shared[4] == "init"@);
    }
    best
}

/// The label `lib` of the file `src/lib.rs` stays as it is. Any other label, of a file whose path
/// is joined from `parts`, gets the part in front of the first `src` that is not the first part,
/// or else the last part but one, or else nothing, with two colons in front.
pub proof fn labels_by_path(label: Seq<char>, parts: Seq<Seq<char>>, i: int)
    requires
        parts.len() > 0,
        forall|k: int| 0 <= k < parts.len() ==> !(#[trigger] parts[k]).contains('/'),
    ensures
        disambiguated("lib"@, "src/lib.rs"@) == "lib"@,
        ({
            let path = join(parts, seq!['/']);
            let found = disambiguated(label, path);
            !(label == "lib"@ && path == "src/lib.rs"@) ==> {
                &&& 0 < i < parts.len() && parts[i] == "src"@ && (forall|j: int| 0 < j < i ==> #[trigger] parts[j] != "src"@)
                    ==> found == parts[i - 1] + "::"@ + label
                &&& (forall|j: int| 0 < j < parts.len() ==> #[trigger] parts[j] != "src"@) ==> found == if parts.len() >= 2 {
                    parts[parts.len() - 2] + "::"@ + label
                } else {
                    label
                }
            }
        }),
{
    crate::text::split_undoes_join(parts, '/');
    if 0 < i < parts.len() && parts[i] == "src"@ && (forall|j: int| 0 < j < i ==> #[trigger] parts[j] != "src"@) {
        assert(is_source_root(parts, i));
        let k = choose|k: int| is_source_root(parts, k);
        assert(is_source_root(parts, k));
        if k < i {
            assert(parts[k] != "src"@);
        }
        if i < k {
            assert(parts[i] != "src"@);
        }
    }
    if forall|j: int| 0 < j < parts.len() ==> #[trigger] parts[j] != "src"@ {
        if exists|k: int| is_source_root(parts, k) {
            let k = choose|k: int| is_source_root(parts, k);
            assert(parts[k] != "src"@);
        }
    }
}

/// A god node says what its fields hold.
pub proof fn god_node_views(n: GodNode, gods: Seq<GodNode>)
    ensures
        n@.id == n.id@ && n@.label == n.label@ && n@.degree == n.degree && n@.community == n.community,
        god_views(gods).len() == gods.len(),
        forall|i: int| 0 <= i < gods.len() ==> #[trigger] god_views(gods)[i] == gods[i]@,
{
}

} // verus!
