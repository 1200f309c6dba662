//! Questions worth asking about a graph, from its structure.
use std::collections::HashMap;

use vstd::hash_map::StringHashMap;
use vstd::prelude::*;

use crate::cohesion::{below_three_tenths, cohesion, compute_cohesion, is_low, two_decimal_text, two_decimals};
use crate::community::{ascending, community_index, community_numbers, community_of, look_up};
use crate::gods::{god_candidates, god_keys, god_nodes, GodNode, GodView};
use crate::graph::{Confidence, EdgeView, GraphEdge, GraphNode, GraphView, KnowledgeGraph, NodeView};
use crate::kinds::{is_file, is_file_node};
use crate::ranking::{is_top, top, Ratio};
use crate::sequences::{are_places, at_most};
use crate::terms::{across, belongs_to, is_at, is_hub};
use crate::text::{decimal, decimal_text, join, join_text, same_text, texts};

verus! {

broadcast use vstd::std_specs::hash::group_hash_axioms;

/// The fields of a question, by name.
pub open spec fn question_view(q: StringHashMap<String>) -> Map<Seq<char>, Seq<char>> {
    q@.map_values(|s: String| s@)
}

/// The fields of questions.
pub open spec fn question_views(qs: Seq<StringHashMap<String>>) -> Seq<Map<Seq<char>, Seq<char>>> {
    Seq::new(qs.len(), |i: int| question_view(qs[i]))
}

/// A question with its category.
pub open spec fn asked(category: Seq<char>, question: Seq<char>) -> Map<Seq<char>, Seq<char>> {
    Map::empty().insert("category"@, category).insert("question"@, question)
}

/// The question about an ambiguous edge.
pub open spec fn ambiguous_question(e: EdgeView) -> Map<Seq<char>, Seq<char>> {
    asked(
        "ambiguous_relationship"@,
        "What is the exact relationship between '"@ + e.source + "' and '"@ + e.target + "'? (marked as "@ + e.relation + ")"@,
    ).insert("source"@, e.source).insert("target"@, e.target)
}

/// One question for each ambiguous edge.
pub open spec fn ambiguous_questions(g: GraphView) -> Seq<Map<Seq<char>, Seq<char>>> {
    g.edges.filter(|e: EdgeView| e.confidence == Confidence::Ambiguous).map_values(|e: EdgeView| ambiguous_question(e))
}

/// The communities of the nodes `ids`, each once, in the order in which they are met.
pub open spec fn communities_met(communities: Map<usize, Vec<String>>, ids: Seq<Seq<char>>) -> Seq<usize>
    decreases ids.len(),
{
    if ids.len() == 0 {
        Seq::empty()
    } else {
        let front = communities_met(communities, ids.drop_last());
        match community_of(communities, ids.last()) {
            Some(c) => if front.contains(c) {
                front
            } else {
                front.push(c)
            },
            None => front,
        }
    }
}

/// The labels of those communities that have one.
pub open spec fn labels_of(labels: Map<usize, String>, numbers: Seq<usize>) -> Seq<Seq<char>>
    decreases numbers.len(),
{
    if numbers.len() == 0 {
        Seq::empty()
    } else {
        let front = labels_of(labels, numbers.drop_last());
        if labels.contains_key(numbers.last()) {
            front.push(labels[numbers.last()]@)
        } else {
            front
        }
    }
}

/// The labels in brackets, or nothing if there are none.
pub open spec fn in_brackets(names: Seq<Seq<char>>) -> Seq<char> {
    if names.len() == 0 {
        Seq::empty()
    } else {
        " ("@ + join(names, ", "@) + ")"@
    }
}

/// The node is no file hub and has neighbours in three communities or more.
pub open spec fn is_crossroads(g: GraphView, communities: Map<usize, Vec<String>>, n: NodeView) -> bool {
    !is_file(g, n) && communities_met(communities, g.neighbors(n.id)).len() >= 3
}

/// The question about a node at a crossroads of communities.
pub open spec fn crossroads_question(
    g: GraphView,
    communities: Map<usize, Vec<String>>,
    labels: Map<usize, String>,
    n: NodeView,
) -> Map<Seq<char>, Seq<char>> {
    let met = communities_met(communities, g.neighbors(n.id));
    asked(
        "bridge_node"@,
        "How does '"@ + n.id + "' relate to "@ + decimal(met.len()) + " different communities"@ + in_brackets(labels_of(labels, met)) + "?"@,
    ).insert("node"@, n.id)
}

/// One question for each node at a crossroads.
pub open spec fn crossroads_questions(
    g: GraphView,
    communities: Map<usize, Vec<String>>,
    labels: Map<usize, String>,
) -> Seq<Map<Seq<char>, Seq<char>>> {
    g.nodes.filter(|n: NodeView| is_crossroads(g, communities, n)).map_values(
        |n: NodeView| crossroads_question(g, communities, labels, n),
    )
}

/// Some edge at the node `id` is inferred.
pub open spec fn has_inferred(g: GraphView, id: Seq<char>) -> bool {
    exists|e: int|
        #![trigger g.edges[e]]
        0 <= e < g.edges.len() && (g.edges[e].source == id || g.edges[e].target == id) && g.edges[e].confidence == Confidence::Inferred
}

/// The question about a god node with inferred edges.
pub open spec fn verification_question(god: GodView) -> Map<Seq<char>, Seq<char>> {
    asked(
        "verification"@,
        "Can you verify the inferred relationships of '"@ + god.label + "' (degree "@ + decimal(god.degree) + ")?"@,
    ).insert("node"@, god.id)
}

/// One question for each of the five god nodes that has inferred edges.
pub open spec fn verification_questions(g: GraphView) -> Seq<Map<Seq<char>, Seq<char>>> {
    top(god_candidates(g), god_keys(g), 5).filter(|god: GodView| has_inferred(g, god.id)).map_values(
        |god: GodView| verification_question(god),
    )
}

/// The node is no file hub and has no edges.
pub open spec fn is_isolated(g: GraphView, n: NodeView) -> bool {
    g.degree(n.id) == 0 && !is_file(g, n)
}

/// The question about an isolated node.
pub open spec fn isolated_question(n: NodeView) -> Map<Seq<char>, Seq<char>> {
    asked(
        "isolated_node"@,
        "What role does '"@ + n.label + "' play? It has no connections in the graph."@,
    ).insert("node"@, n.id)
}

/// One question for each isolated node.
pub open spec fn isolated_questions(g: GraphView) -> Seq<Map<Seq<char>, Seq<char>>> {
    g.nodes.filter(|n: NodeView| is_isolated(g, n)).map_values(|n: NodeView| isolated_question(n))
}

/// The community has two members or more and less than three tenths of the possible edges.
pub open spec fn is_loose(g: GraphView, communities: Map<usize, Vec<String>>, c: usize) -> bool {
    communities[c]@.len() > 1 && is_low(cohesion(g, texts(communities[c]@)))
}

/// The label of a community; one without a label goes by its number.
pub open spec fn community_label(labels: Map<usize, String>, c: usize) -> Seq<char> {
    if labels.contains_key(c) {
        labels[c]@
    } else {
        "community-"@ + decimal(c as nat)
    }
}

/// The question about a loose community.
pub open spec fn loose_question(
    g: GraphView,
    communities: Map<usize, Vec<String>>,
    labels: Map<usize, String>,
    c: usize,
) -> Map<Seq<char>, Seq<char>> {
    asked(
        "low_cohesion"@,
        "Why is '"@ + community_label(labels, c) + "' ("@ + decimal(communities[c]@.len()) + " nodes) loosely connected (cohesion "@
            + two_decimals(cohesion(g, texts(communities[c]@))) + ")? Should it be split?"@,
    ).insert("community"@, decimal(c as nat))
}

/// One question for each loose community, the smallest number first.
pub open spec fn loose_questions(
    g: GraphView,
    communities: Map<usize, Vec<String>>,
    labels: Map<usize, String>,
) -> Seq<Map<Seq<char>, Seq<char>>> {
    ascending(communities.dom()).filter(|c: usize| is_loose(g, communities, c)).map_values(
        |c: usize| loose_question(g, communities, labels, c),
    )
}

/// All questions: about ambiguous edges, nodes at a crossroads of communities, god nodes with
/// inferred edges, isolated nodes and loose communities, in this order.
pub open spec fn all_questions(
    g: GraphView,
    communities: Map<usize, Vec<String>>,
    labels: Map<usize, String>,
) -> Seq<Map<Seq<char>, Seq<char>>> {
    ambiguous_questions(g) + crossroads_questions(g, communities, labels) + verification_questions(g) + isolated_questions(g)
        + loose_questions(g, communities, labels)
}

/// Sets a field of a question.
fn put(q: &mut StringHashMap<String>, field: &str, value: String)
    ensures
        question_view(*final(q)) == question_view(*old(q)).insert(field@, value@),
{
    q.insert(field.to_owned(), value);
    assert(question_view(*q) =~= question_view(*old(q)).insert(field@, value@));
}

/// A question with its category.
fn ask(category: &str, question: String) -> (q: StringHashMap<String>)
    ensures
        question_view(q) == asked(category@, question@),
{
    let mut q: StringHashMap<String> = StringHashMap::new();
    assert(question_view(q) =~= Map::empty());
    put(&mut q, "category", category.to_owned());
    put(&mut q, "question", question);
    q
}

/// One question for each ambiguous edge.
fn ask_ambiguous(graph: &KnowledgeGraph) -> (qs: Vec<StringHashMap<String>>)
    ensures
        question_views(qs@) == ambiguous_questions(graph@),
{
    let ghost g = graph@;
    let ghost wanted = |e: EdgeView| e.confidence == Confidence::Ambiguous;
    let ghost f = |e: EdgeView| ambiguous_question(e);
    let edges: &Vec<GraphEdge> = graph.edges();
    let mut qs: Vec<StringHashMap<String>> = Vec::new();
    let mut i: usize = 0;
    proof {
        crate::sequences::filter_none(g.edges, wanted);
        assert(question_views(qs@) =~= g.edges.take(0).filter(wanted).map_values(f));
    }
    while i < edges.len()
        invariant
            wanted == (|e: EdgeView| e.confidence == Confidence::Ambiguous),
            f == (|e: EdgeView| ambiguous_question(e)),
            crate::graph::edge_views(edges@) == g.edges,
            i <= edges@.len(),
            question_views(qs@) == g.edges.take(i as int).filter(wanted).map_values(f),
        decreases edges@.len() - i,
    {
        let edge: &GraphEdge = &edges[i];
        let ghost done = qs@;
        proof {
            assert(g.edges[i as int] == edge@);
            crate::sequences::filter_next(g.edges, wanted, i as int);
        }
        if edge.confidence == Confidence::Ambiguous {
            let mut text: String = "What is the exact relationship between '".to_owned();
            text.append(edge.source.as_str());
            text.append("' and '");
            text.append(edge.target.as_str());
            text.append("'? (marked as ");
            text.append(edge.relation.as_str());
            text.append(")");
            let mut q: StringHashMap<String> = ask("ambiguous_relationship", text);
            put(&mut q, "source", edge.source.clone());
            put(&mut q, "target", edge.target.clone());
            assert(question_view(q) == ambiguous_question(edge@));
            qs.push(q);
            assert(question_views(qs@) =~= question_views(done).push(ambiguous_question(edge@)));
            assert(question_views(qs@) =~= g.edges.take(i as int).filter(wanted).push(edge@).map_values(f));
        }
        i += 1;
    }
    assert(g.edges.take(i as int) =~= g.edges);
    qs
}

/// The communities of the neighbours of the `i`-th node, each once.
fn meet_communities(graph: &KnowledgeGraph, index: &StringHashMap<usize>, i: usize, Ghost(communities): Ghost<Map<usize, Vec<String>>>) -> (met: Vec<usize>)
    requires
        i < graph@.nodes.len(),
        crate::community::is_index(communities, index@),
    ensures
        met@ == communities_met(communities, graph@.neighbors(graph@.nodes[i as int].id)),
{
    let ghost nbrs = graph@.neighbors(graph@.nodes[i as int].id);
    let nodes: &Vec<GraphNode> = graph.nodes();
    let links: &Vec<usize> = graph.links(i);
    let mut seen: HashMap<usize, bool> = HashMap::new();
    let mut met: Vec<usize> = Vec::new();
    let mut k: usize = 0;
    assert(nbrs.take(0) =~= Seq::empty());
    while k < links.len()
        invariant
            crate::community::is_index(communities, index@),
            crate::graph::node_views(nodes@) == graph@.nodes,
            links@.len() == nbrs.len(),
            forall|q: int| 0 <= q < links@.len() ==> (#[trigger] links@[q]) < graph@.nodes.len()
                && graph@.nodes[links@[q] as int].id == nbrs[q],
            k <= links@.len(),
            met@ == communities_met(communities, nbrs.take(k as int)),
            forall|c: usize| #[trigger] seen@.contains_key(c) <==> met@.contains(c),
        decreases links@.len() - k,
    {
        let j: usize = links[k];
        proof {
            assert(graph@.nodes[j as int] == nodes@[j as int]@);
            assert(nbrs.take(k + 1).drop_last() =~= nbrs.take(k as int));
        }
        match look_up(index, nodes[j].id.as_str(), Ghost(communities)) {
            Some(c) => {
                if !seen.contains_key(&c) {
                    let ghost before = met@;
                    seen.insert(c, true);
                    met.push(c);
                    proof {
                        assert(met@[before.len() as int] == c);
                        assert forall|d: usize| #[trigger] seen@.contains_key(d) <==> met@.contains(d) by {
                            if before.contains(d) {
                                let q = choose|q: int| 0 <= q < before.len() && before[q] == d;
                                assert(met@[q] == d);
                            }
                            if met@.contains(d) && d != c {
                                let q = choose|q: int| 0 <= q < met@.len() && met@[q] == d;
                                assert(before[q] == d);
                                assert(before.contains(d));
                            }
                        }
                    }
                } else {
                    assert(met@.contains(c));
                }
            },
            None => {},
        }
        k += 1;
    }
    assert(nbrs.take(k as int) =~= nbrs);
    met
}

/// The labels of those communities that have one.
fn find_labels(labels: &HashMap<usize, String>, numbers: &Vec<usize>) -> (names: Vec<String>)
    ensures
        texts(names@) == labels_of(labels@, numbers@),
{
    let mut names: Vec<String> = Vec::new();
    let mut i: usize = 0;
    assert(numbers@.take(0) =~= Seq::empty());
    assert(texts(names@) =~= Seq::empty());
    while i < numbers.len()
        invariant
            i <= numbers@.len(),
            texts(names@) == labels_of(labels@, numbers@.take(i as int)),
        decreases numbers@.len() - i,
    {
        assert(numbers@.take(i + 1).drop_last() =~= numbers@.take(i as int));
        let ghost front = texts(names@);
        match labels.get(&numbers[i]) {
            Some(name) => {
                names.push(name.clone());
                assert(texts(names@) =~= front.push(name@));
            },
            None => {},
        }
        i += 1;
    }
    assert(numbers@.take(i as int) =~= numbers@);
    names
}

/// One question for each node at a crossroads of communities.
fn ask_crossroads(
    graph: &KnowledgeGraph,
    communities: &HashMap<usize, Vec<String>>,
    community_labels: &HashMap<usize, String>,
) -> (qs: Vec<StringHashMap<String>>)
    ensures
        question_views(qs@) == crossroads_questions(graph@, communities@, community_labels@),
{
    let ghost g = graph@;
    let ghost m = communities@;
    let ghost labels = community_labels@;
    let ghost wanted = |n: NodeView| is_crossroads(g, m, n);
    let ghost f = |n: NodeView| crossroads_question(g, m, labels, n);
    let index: StringHashMap<usize> = community_index(communities);
    let nodes: &Vec<GraphNode> = graph.nodes();
    let mut qs: Vec<StringHashMap<String>> = Vec::new();
    let mut i: usize = 0;
    proof {
        crate::sequences::filter_none(g.nodes, wanted);
        assert(question_views(qs@) =~= g.nodes.take(0).filter(wanted).map_values(f));
    }
    while i < nodes.len()
        invariant
            g == graph@,
            g.wf(),
            m == communities@,
            labels == community_labels@,
            crate::community::is_index(m, index@),
            wanted == (|n: NodeView| is_crossroads(g, m, n)),
            f == (|n: NodeView| crossroads_question(g, m, labels, n)),
            crate::graph::node_views(nodes@) == g.nodes,
            i <= nodes@.len(),
            question_views(qs@) == g.nodes.take(i as int).filter(wanted).map_values(f),
        decreases nodes@.len() - i,
    {
        let node: &GraphNode = &nodes[i];
        let ghost done = qs@;
        proof {
            assert(g.nodes[i as int] == node@);
            crate::graph::place_of_id(g, i as int);
            crate::sequences::filter_next(g.nodes, wanted, i as int);
        }
        if !is_file_node(graph, node.id.as_str()) {
            let met: Vec<usize> = meet_communities(graph, &index, i, Ghost(m));
            if met.len() >= 3 {
                let names: Vec<String> = find_labels(community_labels, &met);
                let mut text: String = "How does '".to_owned();
                text.append(node.id.as_str());
                text.append("' relate to ");
                text.append(decimal_text(met.len() as u128).as_str());
                text.append(" different communities");
                let ghost so_far = text@;
                if names.len() > 0 {
                    let mut brackets: String = " (".to_owned();
                    brackets.append(join_text(&names, ", ").as_str());
                    brackets.append(")");
                    text.append(brackets.as_str());
                }
                proof {
                    assert(texts(names@).len() == names@.len());
                    if names@.len() == 0 {
                        assert(so_far + in_brackets(texts(names@)) =~= so_far);
                    }
                    assert(text@ == so_far + in_brackets(texts(names@)));
                }
                text.append("?");
                let mut q: StringHashMap<String> = ask("bridge_node", text);
                put(&mut q, "node", node.id.clone());
                assert(question_view(q) == crossroads_question(g, m, labels, node@));
                qs.push(q);
                assert(question_views(qs@) =~= question_views(done).push(crossroads_question(g, m, labels, node@)));
                assert(question_views(qs@) =~= g.nodes.take(i as int).filter(wanted).push(node@).map_values(f));
            }
        }
        i += 1;
    }
    assert(g.nodes.take(i as int) =~= g.nodes);
    qs
}

/// Is some edge at the node inferred?
fn find_inferred(graph: &KnowledgeGraph, id: &str) -> (found: bool)
    ensures
        found == has_inferred(graph@, id@),
{
    let edges: &Vec<GraphEdge> = graph.edges();
    let mut i: usize = 0;
    while i < edges.len()
        invariant
            crate::graph::edge_views(edges@) == graph@.edges,
            i <= edges@.len(),
            forall|e: int|
                #![trigger graph@.edges[e]]
                0 <= e < i ==> !((graph@.edges[e].source == id@ || graph@.edges[e].target == id@) && graph@.edges[e].confidence
                    == Confidence::Inferred),
        decreases edges@.len() - i,
    {
        let edge: &GraphEdge = &edges[i];
        assert(graph@.edges[i as int] == edge@);
        if edge.confidence == Confidence::Inferred && (same_text(edge.source.as_str(), id) || same_text(edge.target.as_str(), id)) {
            return true;
        }
        i += 1;
    }
    false
}

/// One question for each of the five god nodes that has inferred edges.
fn ask_verification(graph: &KnowledgeGraph) -> (qs: Vec<StringHashMap<String>>)
    ensures
        question_views(qs@) == verification_questions(graph@),
{
    let ghost g = graph@;
    let ghost wanted = |god: GodView| has_inferred(g, god.id);
    let ghost f = |god: GodView| verification_question(god);
    let gods: Vec<GodNode> = god_nodes(graph, 5);
    let ghost views = crate::gods::god_views(gods@);
    let mut qs: Vec<StringHashMap<String>> = Vec::new();
    let mut i: usize = 0;
    proof {
        crate::ranking::top_is_list(god_candidates(g), god_keys(g), 5, views);
        crate::sequences::filter_none(views, wanted);
        assert(question_views(qs@) =~= views.take(0).filter(wanted).map_values(f));
    }
    while i < gods.len()
        invariant
            g == graph@,
            wanted == (|god: GodView| has_inferred(g, god.id)),
            f == (|god: GodView| verification_question(god)),
            views == crate::gods::god_views(gods@),
            i <= gods@.len(),
            question_views(qs@) == views.take(i as int).filter(wanted).map_values(f),
        decreases gods@.len() - i,
    {
        let god: &GodNode = &gods[i];
        let ghost done = qs@;
        proof {
            assert(views[i as int] == god@);
            crate::sequences::filter_next(views, wanted, i as int);
        }
        if find_inferred(graph, god.id.as_str()) {
            let mut text: String = "Can you verify the inferred relationships of '".to_owned();
            text.append(god.label.as_str());
            text.append("' (degree ");
            text.append(decimal_text(god.degree as u128).as_str());
            text.append(")?");
            let mut q: StringHashMap<String> = ask("verification", text);
            put(&mut q, "node", god.id.clone());
            assert(question_view(q) == verification_question(god@));
            qs.push(q);
            assert(question_views(qs@) =~= question_views(done).push(verification_question(god@)));
            assert(question_views(qs@) =~= views.take(i as int).filter(wanted).push(god@).map_values(f));
        }
        i += 1;
    }
    assert(views.take(i as int) =~= views);
    qs
}

/// One question for each isolated node.
fn ask_isolated(graph: &KnowledgeGraph) -> (qs: Vec<StringHashMap<String>>)
    ensures
        question_views(qs@) == isolated_questions(graph@),
{
    let ghost g = graph@;
    let ghost wanted = |n: NodeView| is_isolated(g, n);
    let ghost f = |n: NodeView| isolated_question(n);
    let nodes: &Vec<GraphNode> = graph.nodes();
    let mut qs: Vec<StringHashMap<String>> = Vec::new();
    let mut i: usize = 0;
    proof {
        crate::sequences::filter_none(g.nodes, wanted);
        assert(question_views(qs@) =~= g.nodes.take(0).filter(wanted).map_values(f));
    }
    while i < nodes.len()
        invariant
            g == graph@,
            g.wf(),
            wanted == (|n: NodeView| is_isolated(g, n)),
            f == (|n: NodeView| isolated_question(n)),
            crate::graph::node_views(nodes@) == g.nodes,
            i <= nodes@.len(),
            question_views(qs@) == g.nodes.take(i as int).filter(wanted).map_values(f),
        decreases nodes@.len() - i,
    {
        let node: &GraphNode = &nodes[i];
        let ghost done = qs@;
        proof {
            assert(g.nodes[i as int] == node@);
            crate::graph::place_of_id(g, i as int);
            crate::sequences::filter_next(g.nodes, wanted, i as int);
        }
        if graph.links(i).len() == 0 && !is_file_node(graph, node.id.as_str()) {
            let mut text: String = "What role does '".to_owned();
            text.append(node.label.as_str());
            text.append("' play? It has no connections in the graph.");
            let mut q: StringHashMap<String> = ask("isolated_node", text);
            put(&mut q, "node", node.id.clone());
            assert(question_view(q) == isolated_question(node@));
            qs.push(q);
            assert(question_views(qs@) =~= question_views(done).push(isolated_question(node@)));
            assert(question_views(qs@) =~= g.nodes.take(i as int).filter(wanted).push(node@).map_values(f));
        }
        i += 1;
    }
    assert(g.nodes.take(i as int) =~= g.nodes);
    qs
}

/// The label of a community; one without a label goes by its number.
fn label_community(labels: &HashMap<usize, String>, c: usize) -> (label: String)
    ensures
        label@ == community_label(labels@, c),
{
    match labels.get(&c) {
        Some(label) => label.clone(),
        None => {
            let mut label: String = "community-".to_owned();
            label.append(decimal_text(c as u128).as_str());
            label
        },
    }
}

/// One question for each loose community.
fn ask_loose(
    graph: &KnowledgeGraph,
    communities: &HashMap<usize, Vec<String>>,
    community_labels: &HashMap<usize, String>,
) -> (qs: Vec<StringHashMap<String>>)
    ensures
        question_views(qs@) == loose_questions(graph@, communities@, community_labels@),
{
    let ghost g = graph@;
    let ghost m = communities@;
    let ghost labels = community_labels@;
    let ghost wanted = |c: usize| is_loose(g, m, c);
    let ghost f = |c: usize| loose_question(g, m, labels, c);
    let numbers: Vec<usize> = community_numbers(communities);
    let mut qs: Vec<StringHashMap<String>> = Vec::new();
    let mut i: usize = 0;
    proof {
        crate::sequences::filter_none(numbers@, wanted);
        assert(question_views(qs@) =~= numbers@.take(0).filter(wanted).map_values(f));
    }
    while i < numbers.len()
        invariant
            g == graph@,
            m == communities@,
            labels == community_labels@,
            crate::community::is_ascending(m.dom(), numbers@),
            wanted == (|c: usize| is_loose(g, m, c)),
            f == (|c: usize| loose_question(g, m, labels, c)),
            i <= numbers@.len(),
            question_views(qs@) == numbers@.take(i as int).filter(wanted).map_values(f),
        decreases numbers@.len() - i,
    {
        let c: usize = numbers[i];
        let ghost done = qs@;
        proof {
            assert(numbers@.contains(c));
            crate::sequences::filter_next(numbers@, wanted, i as int);
        }
        match communities.get(&c) {
            Some(ids) => {
                if ids.len() > 1 {
                    let share: Ratio = compute_cohesion(graph, ids.as_slice());
                    if below_three_tenths(&share) {
                        let mut text: String = "Why is '".to_owned();
                        text.append(label_community(community_labels, c).as_str());
                        text.append("' (");
                        text.append(decimal_text(ids.len() as u128).as_str());
                        text.append(" nodes) loosely connected (cohesion ");
                        text.append(two_decimal_text(&share).as_str());
                        text.append(")? Should it be split?");
                        let mut q: StringHashMap<String> = ask("low_cohesion", text);
                        put(&mut q, "community", decimal_text(c as u128));
                        assert(question_view(q) == loose_question(g, m, labels, c));
                        qs.push(q);
                        assert(question_views(qs@) =~= question_views(done).push(loose_question(g, m, labels, c)));
                        assert(question_views(qs@) =~= numbers@.take(i as int).filter(wanted).push(c).map_values(f));
                    }
                }
            },
            None => {
                assert(false);
            },
        }
        i += 1;
    }
    assert(numbers@.take(i as int) =~= numbers@);
    qs
}

/// Questions that the structure of the graph raises, at most `top_n`:
/// 1. about ambiguous edges,
/// 2. about nodes with neighbours in three communities or more,
/// 3. about the inferred edges of god nodes,
/// 4. about isolated nodes,
/// 5. about communities with low cohesion.
pub fn suggest_questions(
    graph: &KnowledgeGraph,
    communities: &HashMap<usize, Vec<String>>,
    community_labels: &HashMap<usize, String>,
    top_n: usize,
) -> (questions: Vec<StringHashMap<String>>)
    ensures
        question_views(questions@) == at_most(all_questions(graph@, communities@, community_labels@), top_n as nat),
{
    let mut questions: Vec<StringHashMap<String>> = ask_ambiguous(graph);
    let mut crossroads: Vec<StringHashMap<String>> = ask_crossroads(graph, communities, community_labels);
    let mut verification: Vec<StringHashMap<String>> = ask_verification(graph);
    let mut isolated: Vec<StringHashMap<String>> = ask_isolated(graph);
    let mut loose: Vec<StringHashMap<String>> = ask_loose(graph, communities, community_labels);
    let ghost (a, b, c, d, e) = (questions@, crossroads@, verification@, isolated@, loose@);
    questions.append(&mut crossroads);
    questions.append(&mut verification);
    questions.append(&mut isolated);
    questions.append(&mut loose);
    let ghost all = questions@;
    proof {
        assert(question_views(all) =~= question_views(a) + question_views(b) + question_views(c) + question_views(d)
            + question_views(e));
    }
    questions.truncate(top_n);
    assert(question_views(questions@) =~= at_most(question_views(all), top_n as nat));
    questions
}

/// The categories of questions.
pub open spec fn is_category(category: Seq<char>) -> bool {
    category == "ambiguous_relationship"@ || category == "bridge_node"@ || category == "verification"@ || category
        == "isolated_node"@ || category == "low_cohesion"@
}

/// The question has a text and one of the categories.
pub open spec fn is_complete(q: Map<Seq<char>, Seq<char>>) -> bool {
    q.contains_key("category"@) && q.contains_key("question"@) && is_category(q["category"@])
}

/// The names of the fields of questions are different.
proof fn fields_differ()
    ensures
        "category"@ != "question"@,
        "category"@ != "source"@,
        "category"@ != "target"@,
        "category"@ != "node"@,
        "category"@ != "community"@,
{
    reveal_strlit("category");
    reveal_strlit("question");
    reveal_strlit("source");
    reveal_strlit("target");
    reveal_strlit("node");
    reveal_strlit("community");
    assert("category"@[0] != "question"@[0]);
    assert("category"@.len() == 8 && "source"@.len() == 6 && "target"@.len() == 6 && "node"@.len() == 4 && "community"@.len() == 9);
}

/// Every question has a text and one of the five categories.
pub proof fn questions_are_complete(g: GraphView, communities: Map<usize, Vec<String>>, labels: Map<usize, String>, i: int)
    requires
        0 <= i < all_questions(g, communities, labels).len(),
    ensures
        is_complete(all_questions(g, communities, labels)[i]),
{
    fields_differ();
    let (a, b, c, d, e) = (
        ambiguous_questions(g),
        crossroads_questions(g, communities, labels),
        verification_questions(g),
        isolated_questions(g),
        loose_questions(g, communities, labels),
    );
    let q = all_questions(g, communities, labels)[i];
    let (ab, abc, abcd) = ((a.len() + b.len()) as int, (a.len() + b.len() + c.len()) as int, (a.len() + b.len() + c.len() + d.len()) as int);
    if i < a.len() {
        assert(q == a[i]);
    } else if i < ab {
        assert(q == b[i - a.len()]);
    } else if i < abc {
        assert(q == c[i - ab]);
    } else if i < abcd {
        assert(q == d[i - abc]);
    } else {
        assert(q == e[i - abcd]);
    }
}

/// Asking for fewer questions gives a front part of what asking for more gives, and no more than
/// were asked for.
pub proof fn fewer_questions_are_a_front_part(
    g: GraphView,
    communities: Map<usize, Vec<String>>,
    labels: Map<usize, String>,
    fewer: nat,
    more: nat,
)
    requires
        fewer <= more,
    ensures
        at_most(all_questions(g, communities, labels), fewer).len() <= fewer,
        at_most(all_questions(g, communities, labels), fewer) == at_most(at_most(all_questions(g, communities, labels), more), fewer),
{
    let all = all_questions(g, communities, labels);
    assert(at_most(all, fewer) =~= at_most(at_most(all, more), fewer));
}

/// All questions are those about ambiguous edges, then those about nodes at a crossroads, about
/// god nodes, about isolated nodes, and about loose communities.
pub proof fn questions_in_order(g: GraphView, communities: Map<usize, Vec<String>>, labels: Map<usize, String>)
    ensures
        all_questions(g, communities, labels) == ambiguous_questions(g) + (crossroads_questions(g, communities, labels) + (
        verification_questions(g) + (isolated_questions(g) + loose_questions(g, communities, labels)))),
{
    let all = all_questions(g, communities, labels);
    assert(all =~= ambiguous_questions(g) + (crossroads_questions(g, communities, labels) + (verification_questions(g) + (
    isolated_questions(g) + loose_questions(g, communities, labels)))));
}

/// There is a question about each ambiguous edge, in the order of the edges.
pub proof fn ambiguous_edges_are_asked_about(g: GraphView) -> (at: Seq<int>)
    ensures
        are_places(g.edges.len(), |e: int| g.edges[e].confidence == Confidence::Ambiguous, at),
        ambiguous_questions(g).len() == at.len(),
        forall|k: int|
            0 <= k < at.len() ==> #[trigger] ambiguous_questions(g)[k] == map![
                "category"@ => "ambiguous_relationship"@,
                "question"@ => "What is the exact relationship between '"@ + g.edges[at[k]].source + "' and '"@ + g.edges[at[k]].target
                    + "'? (marked as "@ + g.edges[at[k]].relation + ")"@,
                "source"@ => g.edges[at[k]].source,
                "target"@ => g.edges[at[k]].target
            ],
{
    let kept = |e: EdgeView| e.confidence == Confidence::Ambiguous;
    let wanted = |e: int| g.edges[e].confidence == Confidence::Ambiguous;
    let at = crate::sequences::filter_places(g.edges, kept, wanted);
    assert forall|k: int| 0 <= k < at.len() implies #[trigger] ambiguous_questions(g)[k] == ambiguous_question(g.edges[at[k]]) by {
        assert(g.edges.filter(kept)[k] == g.edges[at[k]]);
    }
    at
}

/// Some edge at the `i`-th node leads to a node that belongs to the community `c`.
pub open spec fn reaches_community(g: GraphView, communities: Map<usize, Vec<String>>, i: int, c: usize) -> bool {
    exists|e: int| #[trigger] is_at(g, e, g.nodes[i].id) && belongs_to(communities, across(g, e, g.nodes[i].id), c)
}

/// The `i`-th node has neighbours in three different communities, or more.
pub open spec fn reaches_three(g: GraphView, communities: Map<usize, Vec<String>>, i: int) -> bool {
    exists|a: usize, b: usize, c: usize|
        a != b && b != c && a != c && #[trigger] reaches_community(g, communities, i, a) && #[trigger] reaches_community(
            g,
            communities,
            i,
            b,
        ) && #[trigger] reaches_community(g, communities, i, c)
}

/// The `k`-th of the nodes `ids` belongs to a community that none before it belongs to.
pub open spec fn is_first_of_community(communities: Map<usize, Vec<String>>, ids: Seq<Seq<char>>, k: int) -> bool {
    exists|c: usize| #[trigger] belongs_to(communities, ids[k], c) && forall|j: int| 0 <= j < k ==> !belongs_to(communities, #[trigger] ids[j], c)
}

/// The communities met are those of the nodes that are the first of a community.
pub proof fn communities_met_by_first_nodes(communities: Map<usize, Vec<String>>, ids: Seq<Seq<char>>) -> (at: Seq<int>)
    ensures
        are_places(ids.len(), |k: int| is_first_of_community(communities, ids, k), at),
        communities_met(communities, ids).len() == at.len(),
        forall|k: int| 0 <= k < at.len() ==> belongs_to(communities, ids[at[k]], #[trigger] communities_met(communities, ids)[k]),
        communities_met(communities, ids).no_duplicates(),
        forall|c: usize| #[trigger]
            communities_met(communities, ids).contains(c) <==> exists|k: int| 0 <= k < ids.len() && belongs_to(communities, #[trigger] ids[k], c),
    decreases ids.len(),
{
    if ids.len() == 0 {
        Seq::empty()
    } else {
        let last = ids.len() - 1;
        let front = ids.drop_last();
        let before = communities_met_by_first_nodes(communities, front);
        let met = communities_met(communities, front);
        let now = communities_met(communities, ids);
        crate::community::community_by_members(communities, ids[last]);
        assert forall|k: int| 0 <= k < last implies (is_first_of_community(communities, ids, k) <==> #[trigger] is_first_of_community(
            communities,
            front,
            k,
        )) by {
            assert(ids[k] == front[k]);
            if is_first_of_community(communities, ids, k) {
                let c = choose|c: usize| #[trigger] belongs_to(communities, ids[k], c) && forall|j: int|
                    0 <= j < k ==> !belongs_to(communities, #[trigger] ids[j], c);
                assert(belongs_to(communities, front[k], c));
                assert forall|j: int| 0 <= j < k implies !belongs_to(communities, #[trigger] front[j], c) by {
                    assert(front[j] == ids[j]);
                }
            }
            if is_first_of_community(communities, front, k) {
                let c = choose|c: usize| #[trigger] belongs_to(communities, front[k], c) && forall|j: int|
                    0 <= j < k ==> !belongs_to(communities, #[trigger] front[j], c);
                assert(belongs_to(communities, ids[k], c));
                assert forall|j: int| 0 <= j < k implies !belongs_to(communities, #[trigger] ids[j], c) by {
                    assert(front[j] == ids[j]);
                }
            }
        }
        let new = community_of(communities, ids[last]) is Some && !met.contains(community_of(communities, ids[last])->0);
        let mine = community_of(communities, ids[last])->0;
        assert(new <==> is_first_of_community(communities, ids, last)) by {
            if new {
                assert(belongs_to(communities, ids[last], mine));
                assert forall|j: int| 0 <= j < last implies !belongs_to(communities, #[trigger] ids[j], mine) by {
                    assert(front[j] == ids[j]);
                    assert(!met.contains(mine));
                }
            }
            if is_first_of_community(communities, ids, last) {
                let c = choose|c: usize| #[trigger] belongs_to(communities, ids[last], c) && forall|j: int|
                    0 <= j < last ==> !belongs_to(communities, #[trigger] ids[j], c);
                assert(community_of(communities, ids[last]) == Some(c));
                if met.contains(c) {
                    let k = choose|k: int| 0 <= k < front.len() && belongs_to(communities, #[trigger] front[k], c);
                    assert(ids[k] == front[k]);
                }
            }
        }
        let at = if new {
            before.push(last)
        } else {
            before
        };
        assert(now == if new { met.push(mine) } else { met });
        assert forall|k: int| 0 <= k < at.len() implies 0 <= (#[trigger] at[k]) < ids.len() && is_first_of_community(
            communities,
            ids,
            at[k],
        ) && belongs_to(communities, ids[at[k]], now[k]) by {
            if k < before.len() {
                assert(is_first_of_community(communities, front, before[k]));
                assert(belongs_to(communities, front[before[k]], met[k]));
            } else {
                assert(belongs_to(communities, ids[last], mine));
            }
        }
        assert forall|k: int| 0 <= k < ids.len() && #[trigger] is_first_of_community(communities, ids, k) implies at.contains(k) by {
            if k < last {
                assert((|k: int| is_first_of_community(communities, front, k))(k));
                assert(before.contains(k));
                let j = choose|j: int| 0 <= j < before.len() && before[j] == k;
                assert(at[j] == k);
            } else {
                assert(at[before.len() as int] == k);
            }
        }
        assert forall|c: usize| #[trigger] now.contains(c) <==> exists|k: int| 0 <= k < ids.len() && belongs_to(communities, #[trigger] ids[k], c) by {
            crate::sequences::pushed_contains(met, mine, c);
            assert(met.contains(c) <==> exists|k: int| 0 <= k < front.len() && belongs_to(communities, #[trigger] front[k], c));
            if met.contains(c) {
                let k = choose|k: int| 0 <= k < front.len() && belongs_to(communities, #[trigger] front[k], c);
                assert(ids[k] == front[k]);
            }
            if new && c == mine {
                assert(belongs_to(communities, ids[last], c));
            }
            if exists|k: int| 0 <= k < ids.len() && belongs_to(communities, #[trigger] ids[k], c) {
                let k = choose|k: int| 0 <= k < ids.len() && belongs_to(communities, #[trigger] ids[k], c);
                if k < last {
                    assert(front[k] == ids[k]);
                } else {
                    assert(community_of(communities, ids[last]) == Some(c));
                }
            }
        }
        assert(now.no_duplicates()) by {
            if new {
                assert forall|k: int| 0 <= k < met.len() implies #[trigger] met[k] != mine by {
                    assert(met.contains(met[k]));
                }
            }
        }
        at
    }
}

/// The labels of communities are those at the places of the communities that have one.
pub proof fn labels_by_places(labels: Map<usize, String>, numbers: Seq<usize>) -> (at: Seq<int>)
    ensures
        are_places(numbers.len(), |k: int| labels.contains_key(numbers[k]), at),
        labels_of(labels, numbers).len() == at.len(),
        forall|k: int| 0 <= k < at.len() ==> #[trigger] labels_of(labels, numbers)[k] == labels[numbers[at[k]]]@,
    decreases numbers.len(),
{
    if numbers.len() == 0 {
        Seq::empty()
    } else {
        let last = numbers.len() - 1;
        let front = numbers.drop_last();
        let before = labels_by_places(labels, front);
        assert forall|k: int| 0 <= k < before.len() implies 0 <= (#[trigger] before[k]) < last && labels.contains_key(numbers[before[k]])
            && numbers[before[k]] == front[before[k]] by {
            let x = before[k];
            assert(labels.contains_key(front[x]));
        }
        let at = if labels.contains_key(numbers[last]) {
            before.push(last)
        } else {
            before
        };
        let wanted = |k: int| labels.contains_key(numbers[k]);
        assert forall|k: int| 0 <= k < numbers.len() && #[trigger] wanted(k) implies at.contains(k) by {
            if k < last {
                assert((|k: int| labels.contains_key(front[k]))(k));
                assert(before.contains(k));
                let j = choose|j: int| 0 <= j < before.len() && before[j] == k;
                assert(at[j] == k);
            } else {
                assert(at[before.len() as int] == k);
            }
        }
        at
    }
}

/// There is a question about each node that is no hub and has neighbours in three communities or
/// more, in the order of the nodes. It says how many communities these are, and the labels of
/// those that have one, in the order in which the neighbours lead to them.
pub proof fn crossroads_are_asked_about(g: GraphView, communities: Map<usize, Vec<String>>, labels: Map<usize, String>) -> (at: Seq<int>)
    requires
        g.wf(),
    ensures
        are_places(g.nodes.len(), |i: int| !is_hub(g, i) && reaches_three(g, communities, i), at),
        crossroads_questions(g, communities, labels).len() == at.len(),
        forall|k: int|
            #![trigger crossroads_questions(g, communities, labels)[k]]
            0 <= k < at.len() ==> {
                let id = g.nodes[at[k]].id;
                let met = communities_met(communities, g.neighbors(id));
                let names = labels_of(labels, met);
                crossroads_questions(g, communities, labels)[k] == map![
                    "category"@ => "bridge_node"@,
                    "question"@ => "How does '"@ + id + "' relate to "@ + decimal(met.len()) + " different communities"@ + (if names.len() == 0 {
                        Seq::<char>::empty()
                    } else {
                        " ("@ + join(names, ", "@) + ")"@
                    }) + "?"@,
                    "node"@ => id
                ]
            },
{
    let kept = |n: NodeView| is_crossroads(g, communities, n);
    let wanted = |i: int| !is_hub(g, i) && reaches_three(g, communities, i);
    assert forall|i: int| 0 <= i < g.nodes.len() implies (#[trigger] wanted(i) <==> kept(g.nodes[i])) by {
        crate::kinds::kinds_by_label(g, i);
        three_communities(g, communities, i);
    }
    let at = crate::sequences::filter_places(g.nodes, kept, wanted);
    assert forall|k: int| 0 <= k < at.len() implies #[trigger] crossroads_questions(g, communities, labels)[k] == crossroads_question(
        g,
        communities,
        labels,
        g.nodes[at[k]],
    ) by {
        assert(g.nodes.filter(kept)[k] == g.nodes[at[k]]);
    }
    at
}

/// The neighbours of a node meet three communities exactly if there are three different ones
/// among them.
proof fn three_communities(g: GraphView, communities: Map<usize, Vec<String>>, i: int)
    ensures
        communities_met(communities, g.neighbors(g.nodes[i].id)).len() >= 3 <==> reaches_three(g, communities, i),
{
    let id = g.nodes[i].id;
    let nbrs = g.neighbors(id);
    let met = communities_met(communities, nbrs);
    communities_met_by_first_nodes(communities, nbrs);
    let at = crate::graph::neighbors_across_edges(g, id);
    assert forall|c: usize| #[trigger] met.contains(c) <==> reaches_community(g, communities, i, c) by {
        if met.contains(c) {
            let k = choose|k: int| 0 <= k < nbrs.len() && belongs_to(communities, #[trigger] nbrs[k], c);
            assert(is_at(g, at[k], id));
            assert(nbrs[k] == across(g, at[k], id));
        }
        if reaches_community(g, communities, i, c) {
            let e = choose|e: int| #[trigger] is_at(g, e, id) && belongs_to(communities, across(g, e, id), c);
            assert((|e: int| is_at(g, e, id))(e));
            assert(at.contains(e));
            let k = choose|k: int| 0 <= k < at.len() && at[k] == e;
            assert(nbrs[k] == across(g, e, id));
        }
    }
    if met.len() >= 3 {
        assert(met.contains(met[0]) && met.contains(met[1]) && met.contains(met[2]));
        assert(reaches_community(g, communities, i, met[0]) && reaches_community(g, communities, i, met[1]) && reaches_community(
            g,
            communities,
            i,
            met[2],
        ));
    }
    if reaches_three(g, communities, i) {
        let (a, b, c) = choose|a: usize, b: usize, c: usize|
            a != b && b != c && a != c && #[trigger] reaches_community(g, communities, i, a) && #[trigger] reaches_community(
                g,
                communities,
                i,
                b,
            ) && #[trigger] reaches_community(g, communities, i, c);
        assert(met.contains(a) && met.contains(b) && met.contains(c));
        let x = choose|x: int| 0 <= x < met.len() && met[x] == a;
        let y = choose|y: int| 0 <= y < met.len() && met[y] == b;
        let z = choose|z: int| 0 <= z < met.len() && met[z] == c;
        assert(x != y && y != z && x != z);
    }
}

/// There is a question about each of the five god nodes that has an inferred edge, in the order
/// of the god nodes.
pub proof fn inferred_edges_are_asked_about(g: GraphView, gods: Seq<GodView>) -> (at: Seq<int>)
    requires
        is_top(god_candidates(g), god_keys(g), 5, gods),
    ensures
        are_places(
            gods.len(),
            |p: int| exists|e: int| #[trigger] is_at(g, e, gods[p].id) && g.edges[e].confidence == Confidence::Inferred,
            at,
        ),
        verification_questions(g).len() == at.len(),
        forall|k: int|
            0 <= k < at.len() ==> #[trigger] verification_questions(g)[k] == map![
                "category"@ => "verification"@,
                "question"@ => "Can you verify the inferred relationships of '"@ + gods[at[k]].label + "' (degree "@ + decimal(
                    gods[at[k]].degree,
                ) + ")?"@,
                "node"@ => gods[at[k]].id
            ],
{
    crate::ranking::top_is_list(god_candidates(g), god_keys(g), 5, gods);
    let kept = |god: GodView| has_inferred(g, god.id);
    let wanted = |p: int| exists|e: int| #[trigger] is_at(g, e, gods[p].id) && g.edges[e].confidence == Confidence::Inferred;
    assert forall|p: int| 0 <= p < gods.len() implies (#[trigger] wanted(p) <==> kept(gods[p])) by {
        let id = gods[p].id;
        if wanted(p) {
            let e = choose|e: int| #[trigger] is_at(g, e, id) && g.edges[e].confidence == Confidence::Inferred;
            assert(g.edges[e].source == id || g.edges[e].target == id);
        }
        if has_inferred(g, id) {
            let e = choose|e: int|
                #![trigger g.edges[e]]
                0 <= e < g.edges.len() && (g.edges[e].source == id || g.edges[e].target == id) && g.edges[e].confidence
                    == Confidence::Inferred;
            assert(is_at(g, e, id));
        }
    }
    let at = crate::sequences::filter_places(gods, kept, wanted);
    assert forall|k: int| 0 <= k < at.len() implies #[trigger] verification_questions(g)[k] == verification_question(gods[at[k]]) by {
        assert(gods.filter(kept)[k] == gods[at[k]]);
    }
    at
}

/// There is a question about each node that is no hub and has no edges, in the order of the nodes.
pub proof fn isolated_nodes_are_asked_about(g: GraphView) -> (at: Seq<int>)
    requires
        g.wf(),
    ensures
        are_places(g.nodes.len(), |i: int| !is_hub(g, i) && forall|e: int| !#[trigger] is_at(g, e, g.nodes[i].id), at),
        isolated_questions(g).len() == at.len(),
        forall|k: int|
            0 <= k < at.len() ==> #[trigger] isolated_questions(g)[k] == map![
                "category"@ => "isolated_node"@,
                "question"@ => "What role does '"@ + g.nodes[at[k]].label + "' play? It has no connections in the graph."@,
                "node"@ => g.nodes[at[k]].id
            ],
{
    let kept = |n: NodeView| is_isolated(g, n);
    let wanted = |i: int| !is_hub(g, i) && forall|e: int| !#[trigger] is_at(g, e, g.nodes[i].id);
    assert forall|i: int| 0 <= i < g.nodes.len() implies (#[trigger] wanted(i) <==> kept(g.nodes[i])) by {
        let id = g.nodes[i].id;
        crate::kinds::kinds_by_label(g, i);
        let edges = crate::graph::neighbors_across_edges(g, id);
        if edges.len() > 0 {
            assert(is_at(g, edges[0], id));
        } else {
            assert forall|e: int| !#[trigger] is_at(g, e, id) by {
                if is_at(g, e, id) {
                    assert((|e: int| is_at(g, e, id))(e));
                    assert(edges.contains(e));
                }
            }
        }
    }
    let at = crate::sequences::filter_places(g.nodes, kept, wanted);
    assert forall|k: int| 0 <= k < at.len() implies #[trigger] isolated_questions(g)[k] == isolated_question(g.nodes[at[k]]) by {
        assert(g.nodes.filter(kept)[k] == g.nodes[at[k]]);
    }
    at
}

/// There is a question about each community of two members or more whose cohesion is less than
/// three tenths, the smallest number first. It goes by its label, or by its number.
pub proof fn loose_communities_are_asked_about(g: GraphView, communities: Map<usize, Vec<String>>, labels: Map<usize, String>) -> (at: Seq<int>)
    ensures
        are_places(
            ascending(communities.dom()).len(),
            |k: int|
                {
                    let members = communities[ascending(communities.dom())[k]]@;
                    members.len() >= 2 && 10 * cohesion(g, texts(members)).num < 3 * cohesion(g, texts(members)).den
                },
            at,
        ),
        loose_questions(g, communities, labels).len() == at.len(),
        forall|k: int|
            #![trigger loose_questions(g, communities, labels)[k]]
            0 <= k < at.len() ==> {
                let c = ascending(communities.dom())[at[k]];
                let label = if labels.contains_key(c) { labels[c]@ } else { "community-"@ + decimal(c as nat) };
                loose_questions(g, communities, labels)[k] == map![
                    "category"@ => "low_cohesion"@,
                    "question"@ => "Why is '"@ + label + "' ("@ + decimal(communities[c]@.len()) + " nodes) loosely connected (cohesion "@
                        + two_decimals(cohesion(g, texts(communities[c]@))) + ")? Should it be split?"@,
                    "community"@ => decimal(c as nat)
                ]
            },
{
    let numbers = ascending(communities.dom());
    let kept = |c: usize| is_loose(g, communities, c);
    let wanted = |k: int|
        {
            let members = communities[ascending(communities.dom())[k]]@;
            members.len() >= 2 && 10 * cohesion(g, texts(members)).num < 3 * cohesion(g, texts(members)).den
        };
    let at = crate::sequences::filter_places(numbers, kept, wanted);
    assert forall|k: int| 0 <= k < at.len() implies #[trigger] loose_questions(g, communities, labels)[k] == loose_question(
        g,
        communities,
        labels,
        numbers[at[k]],
    ) by {
        assert(numbers.filter(kept)[k] == numbers[at[k]]);
    }
    at
}

/// The categories of questions are different texts.
proof fn categories_differ()
    ensures
        "bridge_node"@ != "ambiguous_relationship"@,
        "bridge_node"@ != "verification"@,
        "bridge_node"@ != "isolated_node"@,
        "bridge_node"@ != "low_cohesion"@,
{
    reveal_strlit("bridge_node");
    reveal_strlit("ambiguous_relationship");
    reveal_strlit("verification");
    reveal_strlit("isolated_node");
    reveal_strlit("low_cohesion");
    assert("bridge_node"@.len() == 11 && "ambiguous_relationship"@.len() == 22 && "verification"@.len() == 12 && "isolated_node"@.len()
        == 13 && "low_cohesion"@.len() == 12);
}

/// Among all questions, one of the category `bridge_node` is about a node exactly if the node is
/// no hub and has neighbours in three different communities, or more.
pub proof fn bridge_questions_are_about_crossroads(
    g: GraphView,
    communities: Map<usize, Vec<String>>,
    labels: Map<usize, String>,
    id: Seq<char>,
)
    requires
        g.wf(),
    ensures
        (exists|q: int|
            0 <= q < all_questions(g, communities, labels).len() && (#[trigger] all_questions(g, communities, labels)[q])["category"@]
                == "bridge_node"@ && all_questions(g, communities, labels)[q]["node"@] == id) <==> (exists|i: int|
            0 <= i < g.nodes.len() && (#[trigger] g.nodes[i]).id == id && !is_hub(g, i) && reaches_three(g, communities, i)),
{
    let all = all_questions(g, communities, labels);
    let b = crossroads_questions(g, communities, labels);
    let a = ambiguous_questions(g);
    let at = crossroads_are_asked_about(g, communities, labels);
    fields_differ();
    categories_differ();
    questions_in_order(g, communities, labels);
    reveal_strlit("node");
    reveal_strlit("question");
    assert("node"@.len() == 4 && "question"@.len() == 8);
    if exists|q: int| 0 <= q < all.len() && (#[trigger] all[q])["category"@] == "bridge_node"@ && all[q]["node"@] == id {
        let q = choose|q: int| 0 <= q < all.len() && (#[trigger] all[q])["category"@] == "bridge_node"@ && all[q]["node"@] == id;
        let (c, d) = (verification_questions(g), isolated_questions(g));
        let e = loose_questions(g, communities, labels);
        let (ab, abc, abcd) = ((a.len() + b.len()) as int, (a.len() + b.len() + c.len()) as int, (a.len() + b.len() + c.len() + d.len()) as int);
        if q < a.len() {
            assert(all[q] == a[q]);
        } else if q < ab {
            let k = q - a.len();
            assert(all[q] == b[k]);
            assert(g.nodes[at[k]].id == id);
            assert((|i: int| !is_hub(g, i) && reaches_three(g, communities, i))(at[k]));
        } else if q < abc {
            assert(all[q] == c[q - ab]);
        } else if q < abcd {
            assert(all[q] == d[q - abc]);
        } else {
            assert(all[q] == e[q - abcd]);
        }
    }
    if exists|i: int| 0 <= i < g.nodes.len() && (#[trigger] g.nodes[i]).id == id && !is_hub(g, i) && reaches_three(g, communities, i) {
        let i = choose|i: int| 0 <= i < g.nodes.len() && (#[trigger] g.nodes[i]).id == id && !is_hub(g, i) && reaches_three(g, communities, i);
        assert((|i: int| !is_hub(g, i) && reaches_three(g, communities, i))(i));
        assert(at.contains(i));
        let k = choose|k: int| 0 <= k < at.len() && at[k] == i;
        assert(all[a.len() + k] == b[k]);
        assert(all[a.len() + k]["category"@] == "bridge_node"@);
    }
}

/// A question says what its fields hold.
pub proof fn question_field_views(q: StringHashMap<String>, all: Seq<StringHashMap<String>>)
    ensures
        question_view(q).dom() == q@.dom(),
        forall|f: Seq<char>| q@.contains_key(f) ==> #[trigger] question_view(q)[f] == q@[f]@,
        question_views(all).len() == all.len(),
        forall|i: int| 0 <= i < all.len() ==> #[trigger] question_views(all)[i] == question_view(all[i]),
{
}

} // verus!
