//! Surprising connections: edges across communities or files, and edges that are not certain.
use std::collections::HashMap;

use vstd::hash_map::StringHashMap;
use vstd::prelude::*;

use crate::community::{community_index, community_of, look_up};
use crate::graph::{Confidence, EdgeView, GraphEdge, GraphView, KnowledgeGraph, NodeView};
use crate::kinds::{is_entity, is_file_node, is_method_stub};
use crate::ranking::{are_best, descending_order, is_top, Fraction, Ratio};
use crate::terms::{belongs_to, goes_by, has_member, is_proper};
use crate::text::same_text;

verus! {

/// An edge that is surprising.
#[derive(Debug)]
pub struct Surprise {
    pub source: String,
    pub target: String,
    pub source_community: usize,
    pub target_community: usize,
    pub relation: String,
}

/// What a surprise says.
pub struct SurpriseView {
    pub source: Seq<char>,
    pub target: Seq<char>,
    pub source_community: usize,
    pub target_community: usize,
    pub relation: Seq<char>,
}

impl View for Surprise {
    type V = SurpriseView;

    open spec fn view(&self) -> SurpriseView {
        SurpriseView {
            source: self.source@,
            target: self.target@,
            source_community: self.source_community,
            target_community: self.target_community,
            relation: self.relation@,
        }
    }
}

/// What the surprises say.
pub open spec fn surprise_views(surprises: Seq<Surprise>) -> Seq<SurpriseView> {
    Seq::new(surprises.len(), |i: int| surprises[i]@)
}

/// The number of the community of a node; the largest number for a node in no community.
pub open spec fn community_number(communities: Map<usize, Vec<String>>, id: Seq<char>) -> usize {
    match community_of(communities, id) {
        Some(c) => c,
        None => usize::MAX,
    }
}

/// Both nodes have a source file, and not the same one.
pub open spec fn files_differ(a: NodeView, b: NodeView) -> bool {
    a.source_file.len() > 0 && b.source_file.len() > 0 && a.source_file != b.source_file
}

/// How surprising an edge is, in half points: two points for crossing communities, one for
/// crossing files, three if it is ambiguous and one and a half if it is inferred.
pub open spec fn surprise_score(g: GraphView, communities: Map<usize, Vec<String>>, e: EdgeView) -> nat {
    let across: nat = if community_number(communities, e.source) != community_number(communities, e.target) { 4 } else { 0 };
    let files: nat = if files_differ(g.node(e.source), g.node(e.target)) { 2 } else { 0 };
    let doubt: nat = match e.confidence {
        Confidence::Ambiguous => 6,
        Confidence::Inferred => 3,
        Confidence::Extracted => 0,
    };
    across + files + doubt
}

/// The edge joins two entities and has some score.
pub open spec fn is_surprising(g: GraphView, communities: Map<usize, Vec<String>>, e: EdgeView) -> bool {
    &&& is_entity(g, g.node(e.source))
    &&& is_entity(g, g.node(e.target))
    &&& surprise_score(g, communities, e) > 0
}

/// The surprise that an edge is reported as.
pub open spec fn surprise_view(communities: Map<usize, Vec<String>>, e: EdgeView) -> SurpriseView {
    SurpriseView {
        source: e.source,
        target: e.target,
        source_community: community_number(communities, e.source),
        target_community: community_number(communities, e.target),
        relation: e.relation,
    }
}

/// The surprising edges, in the order of the graph.
pub open spec fn surprising_edges(g: GraphView, communities: Map<usize, Vec<String>>) -> Seq<EdgeView> {
    g.edges.filter(|e: EdgeView| is_surprising(g, communities, e))
}

/// The surprising edges, as they are reported.
pub open spec fn surprise_candidates(g: GraphView, communities: Map<usize, Vec<String>>) -> Seq<SurpriseView> {
    Seq::new(
        surprising_edges(g, communities).len(),
        |i: int| surprise_view(communities, surprising_edges(g, communities)[i]),
    )
}

/// The scores of the surprising edges.
pub open spec fn surprise_keys(g: GraphView, communities: Map<usize, Vec<String>>) -> Seq<Fraction> {
    Seq::new(
        surprising_edges(g, communities).len(),
        |i: int| Fraction::whole(surprise_score(g, communities, surprising_edges(g, communities)[i])),
    )
}

/// An edge is surprising exactly if both ends are entities and it crosses communities or source
/// files or is not certain.
pub proof fn what_is_surprising(g: GraphView, communities: Map<usize, Vec<String>>, e: EdgeView)
    ensures
        is_surprising(g, communities, e) <==> {
            &&& is_entity(g, g.node(e.source)) && is_entity(g, g.node(e.target))
            &&& {
                ||| community_number(communities, e.source) != community_number(communities, e.target)
                ||| files_differ(g.node(e.source), g.node(e.target))
                ||| e.confidence != Confidence::Extracted
            }
        },
{
}

/// An ambiguous edge is more surprising than an inferred one between the same nodes, and that
/// more than an extracted one.
pub proof fn doubt_is_surprising(g: GraphView, communities: Map<usize, Vec<String>>, e: EdgeView)
    ensures
        surprise_score(g, communities, EdgeView { confidence: Confidence::Ambiguous, ..e }) > surprise_score(
            g,
            communities,
            EdgeView { confidence: Confidence::Inferred, ..e },
        ),
        surprise_score(g, communities, EdgeView { confidence: Confidence::Inferred, ..e }) > surprise_score(
            g,
            communities,
            EdgeView { confidence: Confidence::Extracted, ..e },
        ),
{
}

/// The community number of a node, from the index.
fn number_of(index: &StringHashMap<usize>, id: &str, Ghost(communities): Ghost<Map<usize, Vec<String>>>) -> (c: usize)
    requires
        crate::community::is_index(communities, index@),
    ensures
        c == community_number(communities, id@),
{
    match look_up(index, id, Ghost(communities)) {
        Some(c) => c,
        None => usize::MAX,
    }
}

/// The score of an edge in half points.
fn score(graph: &KnowledgeGraph, edge: &GraphEdge, src_comm: usize, tgt_comm: usize, Ghost(communities): Ghost<Map<usize, Vec<String>>>) -> (points: u32)
    requires
        graph@.has(edge@.source),
        graph@.has(edge@.target),
        src_comm == community_number(communities, edge@.source),
        tgt_comm == community_number(communities, edge@.target),
    ensures
        points == surprise_score(graph@, communities, edge@),
{
    let mut points: u32 = 0;
    if src_comm != tgt_comm {
        points += 4;
    }
    match (graph.get_node(edge.source.as_str()), graph.get_node(edge.target.as_str())) {
        (Some(sn), Some(tn)) => {
            if !sn.source_file.as_str().is_empty() && !tn.source_file.as_str().is_empty()
                && !same_text(sn.source_file.as_str(), tn.source_file.as_str()) {
                points += 2;
            }
        },
        _ => {
            assert(false);
        },
    }
    match edge.confidence {
        Confidence::Ambiguous => {
            points += 6;
        },
        Confidence::Inferred => {
            points += 3;
        },
        Confidence::Extracted => {},
    }
    points
}

/// The `top_n` most surprising connections, the most surprising first. A connection between two
/// nodes that are neither file hubs nor stubs is surprising if its ends lie in different
/// communities or come from different source files, or if it is ambiguous or inferred.
pub fn surprising_connections(graph: &KnowledgeGraph, communities: &HashMap<usize, Vec<String>>, top_n: usize) -> (surprises: Vec<Surprise>)
    ensures
        is_top(
            surprise_candidates(graph@, communities@),
            surprise_keys(graph@, communities@),
            top_n as nat,
            surprise_views(surprises@),
        ),
{
    let ghost g = graph@;
    let ghost m = communities@;
    let ghost wanted = |e: EdgeView| is_surprising(g, m, e);
    let index: StringHashMap<usize> = community_index(communities);
    let edges: &Vec<GraphEdge> = graph.edges();
    let mut places: Vec<usize> = Vec::new();
    let mut keys: Vec<Ratio> = Vec::new();
    let mut i: usize = 0;
    proof {
        crate::sequences::filter_none(g.edges, wanted);
    }
    while i < edges.len()
        invariant
            g == graph@,
            g.wf(),
            m == communities@,
            crate::community::is_index(m, index@),
            wanted == (|e: EdgeView| is_surprising(g, m, e)),
            crate::graph::edge_views(edges@) == g.edges,
            i <= edges@.len(),
            places@.len() == g.edges.take(i as int).filter(wanted).len(),
            keys@.len() == places@.len(),
            forall|k: int| 0 <= k < places@.len() ==> (#[trigger] places@[k]) < g.edges.len()
                && g.edges[places@[k] as int] == g.edges.take(i as int).filter(wanted)[k],
            forall|k: int| 0 <= k < keys@.len() ==> (#[trigger] keys@[k]).small()
                && keys@[k]@ == Fraction::whole(surprise_score(g, m, g.edges.take(i as int).filter(wanted)[k])),
        decreases edges@.len() - i,
    {
        let edge: &GraphEdge = &edges[i];
        proof {
            assert(g.edges[i as int] == edge@);
            crate::sequences::filter_next(g.edges, wanted, i as int);
        }
        let src: &str = edge.source.as_str();
        let tgt: &str = edge.target.as_str();
        if !is_file_node(graph, src) && !is_file_node(graph, tgt) && !is_method_stub(graph, src) && !is_method_stub(graph, tgt) {
            let src_comm: usize = number_of(&index, src, Ghost(m));
            let tgt_comm: usize = number_of(&index, tgt, Ghost(m));
            let points: u32 = score(graph, edge, src_comm, tgt_comm, Ghost(m));
            if points > 0 {
                places.push(i);
                keys.push(Ratio { num: points as u128, den: 1 });
            }
        }
        i += 1;
    }
    assert(g.edges.take(i as int) =~= g.edges);
    let order: Vec<usize> = descending_order(&keys);
    assert(crate::ranking::fractions(keys@) =~= surprise_keys(g, m));
    let mut surprises: Vec<Surprise> = Vec::new();
    let mut p: usize = 0;
    while p < order.len() && p < top_n
        invariant
            g == graph@,
            m == communities@,
            crate::community::is_index(m, index@),
            crate::graph::edge_views(edges@) == g.edges,
            places@.len() == surprising_edges(g, m).len(),
            forall|k: int| 0 <= k < places@.len() ==> (#[trigger] places@[k]) < g.edges.len()
                && g.edges[places@[k] as int] == surprising_edges(g, m)[k],
            crate::ranking::is_order(surprise_keys(g, m), order@),
            p <= order@.len(),
            p <= top_n,
            surprises@.len() == p,
            forall|k: int| 0 <= k < p ==> (#[trigger] surprises@[k])@ == surprise_candidates(g, m)[order@[k] as int],
        decreases order@.len() - p,
    {
        let place: usize = places[order[p]];
        let edge: &GraphEdge = &edges[place];
        assert(g.edges[place as int] == edge@);
        let source_community: usize = number_of(&index, edge.source.as_str(), Ghost(m));
        let target_community: usize = number_of(&index, edge.target.as_str(), Ghost(m));
        surprises.push(
            Surprise {
                source: edge.source.clone(),
                target: edge.target.clone(),
                source_community,
                target_community,
                relation: edge.relation.clone(),
            },
        );
        p += 1;
    }
    assert(surprise_views(surprises@) =~= crate::ranking::pick(surprise_candidates(g, m), order@, top_n as nat));
    surprises
}

/// `from` holds the edges that are reported, the most surprising first, and no other surprising
/// edge has a higher score.
pub open spec fn are_most_surprising(g: GraphView, communities: Map<usize, Vec<String>>, from: Seq<EdgeView>) -> bool {
    &&& forall|p: int| 0 <= p < from.len() ==> g.edges.contains(#[trigger] from[p]) && is_surprising(g, communities, from[p])
    &&& forall|p: int, q: int|
        0 <= p < q < from.len() ==> surprise_score(g, communities, #[trigger] from[p]) >= surprise_score(
            g,
            communities,
            #[trigger] from[q],
        )
    &&& forall|e: int, p: int|
        0 <= e < g.edges.len() && is_surprising(g, communities, g.edges[e]) && !from.contains(#[trigger] g.edges[e]) && 0 <= p
            < from.len() ==> surprise_score(g, communities, g.edges[e]) <= surprise_score(g, communities, #[trigger] from[p])
}

/// The connections that are reported are the most surprising edges of the graph.
pub proof fn surprises_are_the_most_surprising(g: GraphView, communities: Map<usize, Vec<String>>, top_n: nat, out: Seq<SurpriseView>)
    requires
        is_top(surprise_candidates(g, communities), surprise_keys(g, communities), top_n, out),
    ensures
        exists|from: Seq<EdgeView>| #[trigger]
            are_most_surprising(g, communities, from) && out == Seq::new(from.len(), |p: int| surprise_view(communities, from[p])),
{
    let keys = surprise_keys(g, communities);
    let all = surprising_edges(g, communities);
    let wanted = |e: EdgeView| is_surprising(g, communities, e);
    let order = choose|order: Seq<usize>| #[trigger]
        crate::ranking::is_order(keys, order) && out == crate::ranking::pick(surprise_candidates(g, communities), order, top_n);
    let from = Seq::new(out.len(), |p: int| all[order[p] as int]);
    assert forall|p: int| 0 <= p < from.len() implies g.edges.contains(#[trigger] from[p]) && is_surprising(g, communities, from[p]) by {
        assert(all.contains(from[p]));
        crate::sequences::filter_keeps(g.edges, wanted, from[p]);
    }
    assert forall|p: int, q: int| 0 <= p < q < from.len() implies surprise_score(g, communities, #[trigger] from[p]) >= surprise_score(
        g,
        communities,
        #[trigger] from[q],
    ) by {
        assert(crate::ranking::before(keys, order[p] as int, order[q] as int));
        assert(keys[order[p] as int] == Fraction::whole(surprise_score(g, communities, from[p])));
        assert(keys[order[q] as int] == Fraction::whole(surprise_score(g, communities, from[q])));
    }
    assert forall|e: int, p: int|
        0 <= e < g.edges.len() && is_surprising(g, communities, g.edges[e]) && !from.contains(#[trigger] g.edges[e]) && 0 <= p
            < from.len() implies surprise_score(g, communities, g.edges[e]) <= surprise_score(g, communities, #[trigger] from[p]) by {
        assert(g.edges.contains(g.edges[e]));
        crate::sequences::filter_takes(g.edges, wanted, g.edges[e]);
        let a = choose|a: int| 0 <= a < all.len() && all[a] == g.edges[e];
        let q = crate::ranking::order_finds(keys, order, a);
        if q < out.len() {
            assert(from[q] == g.edges[e]);
        }
        assert(crate::ranking::before(keys, order[p] as int, order[q] as int));
        assert(keys[order[p] as int] == Fraction::whole(surprise_score(g, communities, from[p])));
        assert(keys[a] == Fraction::whole(surprise_score(g, communities, g.edges[e])));
    }
    assert(are_most_surprising(g, communities, from));
    assert(out =~= Seq::new(from.len(), |p: int| surprise_view(communities, from[p])));
}

/// The points of an edge, in halves: two points if its ends go by different numbers, one if they
/// come from different files, three if it is ambiguous and one and a half if it is inferred.
pub open spec fn half_points(g: GraphView, communities: Map<usize, Vec<String>>, e: EdgeView) -> int {
    let (a, b) = (g.nodes[g.place(e.source)].source_file, g.nodes[g.place(e.target)].source_file);
    (if exists|n: usize| #[trigger] goes_by(communities, e.source, n) && goes_by(communities, e.target, n) { 0int } else { 4 }) + (
    if a.len() > 0 && b.len() > 0 && a != b { 2int } else { 0 }) + (if e.confidence == Confidence::Ambiguous {
        6int
    } else if e.confidence == Confidence::Inferred {
        3
    } else {
        0
    })
}

/// The surprising connections are the edges between proper nodes that have points, those with the
/// most points first and of equal ones the one that was added first. Each comes with its ends,
/// its relation and the numbers that its ends go by.
pub proof fn surprises_by_points(g: GraphView, communities: Map<usize, Vec<String>>, top_n: nat, out: Seq<SurpriseView>) -> (best: Seq<int>)
    requires
        g.wf(),
        is_top(surprise_candidates(g, communities), surprise_keys(g, communities), top_n, out),
    ensures
        are_best(
            g.edges.len(),
            |e: int|
                is_proper(g, g.place(g.edges[e].source)) && is_proper(g, g.place(g.edges[e].target)) && half_points(
                    g,
                    communities,
                    g.edges[e],
                ) > 0,
            |e: int| Fraction { num: half_points(g, communities, g.edges[e]) as nat, den: 1 },
            top_n,
            best,
        ),
        best.len() == out.len(),
        forall|p: int|
            #![trigger out[p]]
            0 <= p < out.len() ==> {
                let e = g.edges[best[p]];
                &&& out[p].source == e.source
                &&& out[p].target == e.target
                &&& out[p].relation == e.relation
                &&& goes_by(communities, e.source, out[p].source_community)
                &&& goes_by(communities, e.target, out[p].target_community)
            },
{
    let wanted = |e: int|
        is_proper(g, g.place(g.edges[e].source)) && is_proper(g, g.place(g.edges[e].target)) && half_points(
            g,
            communities,
            g.edges[e],
        ) > 0;
    let key = |e: int| Fraction { num: half_points(g, communities, g.edges[e]) as nat, den: 1 };
    let kept = |e: EdgeView| is_surprising(g, communities, e);
    assert forall|e: int| 0 <= e < g.edges.len() implies surprise_score(g, communities, #[trigger] g.edges[e]) == half_points(
        g,
        communities,
        g.edges[e],
    ) && half_points(g, communities, g.edges[e]) >= 0 by {
        points_of_edge(g, communities, g.edges[e]);
    }
    assert forall|e: int| 0 <= e < g.edges.len() implies (#[trigger] wanted(e) <==> kept(g.edges[e])) by {
        let edge = g.edges[e];
        assert(g.has(edge.source) && g.has(edge.target));
        assert(g.nodes[g.place(edge.source)].id == edge.source && g.nodes[g.place(edge.target)].id == edge.target);
        crate::kinds::kinds_by_label(g, g.place(edge.source));
        crate::kinds::kinds_by_label(g, g.place(edge.target));
        assert(surprise_score(g, communities, g.edges[e]) == half_points(g, communities, g.edges[e]));
    }
    let at = crate::sequences::filter_places(g.edges, kept, wanted);
    let all = surprising_edges(g, communities);
    assert forall|k: int| 0 <= k < at.len() implies #[trigger] surprise_keys(g, communities)[k] == key(at[k]) by {
        assert(all[k] == g.edges[at[k]]);
        assert(surprise_score(g, communities, g.edges[at[k]]) == half_points(g, communities, g.edges[at[k]]));
    }
    let (best, which) = crate::ranking::top_of_places(
        surprise_candidates(g, communities),
        surprise_keys(g, communities),
        top_n,
        out,
        g.edges.len(),
        wanted,
        key,
        at,
    );
    assert forall|p: int| #![trigger out[p]] 0 <= p < out.len() implies {
        let e = g.edges[best[p]];
        &&& out[p].source == e.source
        &&& out[p].target == e.target
        &&& out[p].relation == e.relation
        &&& goes_by(communities, e.source, out[p].source_community)
        &&& goes_by(communities, e.target, out[p].target_community)
    } by {
        let e = g.edges[best[p]];
        assert(all[which[p]] == g.edges[at[which[p]]]);
        assert(out[p] == surprise_view(communities, e));
        number_of_node(communities, e.source);
        number_of_node(communities, e.target);
    }
    best
}

/// A node goes by one number.
proof fn number_of_node(communities: Map<usize, Vec<String>>, id: Seq<char>)
    ensures
        forall|n: usize| #[trigger] goes_by(communities, id, n) <==> n == community_number(communities, id),
{
    crate::community::community_by_members(communities, id);
    assert forall|n: usize| #[trigger] goes_by(communities, id, n) <==> n == community_number(communities, id) by {
        match community_of(communities, id) {
            Some(c) => {
                assert(belongs_to(communities, id, c));
                assert(has_member(communities, c, id));
                assert(community_of(communities, id) == Some(n) <==> belongs_to(communities, id, n));
            },
            None => {
                assert(community_of(communities, id) == Some(n) <==> belongs_to(communities, id, n));
            },
        }
    }
}

/// The score of an edge is the number of its points, in halves.
pub proof fn points_of_edge(g: GraphView, communities: Map<usize, Vec<String>>, e: EdgeView)
    ensures
        surprise_score(g, communities, e) == half_points(g, communities, e),
{
    number_of_node(communities, e.source);
    number_of_node(communities, e.target);
    let n = community_number(communities, e.source);
    assert(goes_by(communities, e.source, n));
}

/// A surprise says what its fields hold.
pub proof fn surprise_node_views(s: Surprise, all: Seq<Surprise>)
    ensures
        s@.source == s.source@ && s@.target == s.target@ && s@.relation == s.relation@,
        s@.source_community == s.source_community && s@.target_community == s.target_community,
        surprise_views(all).len() == all.len(),
        forall|i: int| 0 <= i < all.len() ==> #[trigger] surprise_views(all)[i] == all[i]@,
{
}

} // verus!
