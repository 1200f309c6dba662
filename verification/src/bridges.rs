//! Community bridges: nodes with edges into other communities.
use std::collections::{HashMap, HashSet};

use vstd::hash_map::StringHashMap;
use vstd::prelude::*;

use crate::community::{ascending, community_index, community_of, look_up, sort_ascending};
use crate::graph::{EdgeView, GraphNode, GraphView, KnowledgeGraph, NodeView};
use crate::kinds::{is_file, is_file_node};
use crate::ranking::{are_best, descending_order, is_top, Fraction, Ratio};
use crate::terms::{across, are_apart, belongs_to, edges_at, edges_away, is_at, is_hub, leads_away};

verus! {

broadcast use vstd::std_specs::hash::group_hash_axioms;

/// A node that joins communities.
#[derive(Debug)]
pub struct BridgeNode {
    pub id: String,
    pub label: String,
    pub total_edges: usize,
    pub cross_community_edges: usize,
    pub bridge_ratio: Ratio,
    pub communities_touched: Vec<usize>,
}

/// What a bridge says.
pub struct BridgeView {
    pub id: Seq<char>,
    pub label: Seq<char>,
    pub total_edges: nat,
    pub cross_community_edges: nat,
    pub bridge_ratio: Fraction,
    pub communities_touched: Seq<usize>,
}

impl View for BridgeNode {
    type V = BridgeView;

    open spec fn view(&self) -> BridgeView {
        BridgeView {
            id: self.id@,
            label: self.label@,
            total_edges: self.total_edges as nat,
            cross_community_edges: self.cross_community_edges as nat,
            bridge_ratio: self.bridge_ratio@,
            communities_touched: self.communities_touched@,
        }
    }
}

/// What the bridges say.
pub open spec fn bridge_views(bridges: Seq<BridgeNode>) -> Seq<BridgeView> {
    Seq::new(bridges.len(), |i: int| bridges[i]@)
}

/// The node `id` is in a community other than `mine`.
pub open spec fn is_elsewhere(communities: Map<usize, Vec<String>>, mine: usize, id: Seq<char>) -> bool {
    community_of(communities, id) is Some && community_of(communities, id) != Some(mine)
}

/// The neighbours of a node that are in a community other than `mine`, one for each edge.
pub open spec fn crossings(communities: Map<usize, Vec<String>>, mine: usize, neighbors: Seq<Seq<char>>) -> Seq<Seq<char>> {
    neighbors.filter(|id: Seq<char>| is_elsewhere(communities, mine, id))
}

/// The community `mine` and the communities of the neighbours.
pub open spec fn touched(communities: Map<usize, Vec<String>>, mine: usize, neighbors: Seq<Seq<char>>) -> Set<usize> {
    Set::new(
        |c: usize|
            c == mine || exists|k: int| 0 <= k < neighbors.len() && community_of(communities, #[trigger] neighbors[k]) == Some(c),
    )
}

/// The community of a node that has one.
pub open spec fn home(communities: Map<usize, Vec<String>>, n: NodeView) -> usize {
    community_of(communities, n.id)->0
}

/// The node is in a community, has an edge into another one, and is no file hub.
pub open spec fn is_bridge(g: GraphView, communities: Map<usize, Vec<String>>, n: NodeView) -> bool {
    &&& !is_file(g, n)
    &&& community_of(communities, n.id) is Some
    &&& crossings(communities, home(communities, n), g.neighbors(n.id)).len() > 0
}

/// The share of the edges of a node that lead into other communities.
pub open spec fn bridge_share(g: GraphView, communities: Map<usize, Vec<String>>, n: NodeView) -> Fraction {
    Fraction {
        num: crossings(communities, home(communities, n), g.neighbors(n.id)).len(),
        den: g.degree(n.id),
    }
}

/// The bridge that a node is reported as.
pub open spec fn bridge_view(g: GraphView, communities: Map<usize, Vec<String>>, n: NodeView) -> BridgeView {
    BridgeView {
        id: n.id,
        label: n.label,
        total_edges: g.degree(n.id),
        cross_community_edges: crossings(communities, home(communities, n), g.neighbors(n.id)).len(),
        bridge_ratio: bridge_share(g, communities, n),
        communities_touched: ascending(touched(communities, home(communities, n), g.neighbors(n.id))),
    }
}

/// The bridges among the nodes, in the order of the graph.
pub open spec fn bridging(g: GraphView, communities: Map<usize, Vec<String>>) -> Seq<NodeView> {
    g.nodes.filter(|n: NodeView| is_bridge(g, communities, n))
}

/// All bridges, as they are reported.
pub open spec fn bridge_candidates(g: GraphView, communities: Map<usize, Vec<String>>) -> Seq<BridgeView> {
    Seq::new(bridging(g, communities).len(), |i: int| bridge_view(g, communities, bridging(g, communities)[i]))
}

/// The shares by which the bridges are ordered.
pub open spec fn bridge_keys(g: GraphView, communities: Map<usize, Vec<String>>) -> Seq<Fraction> {
    Seq::new(bridging(g, communities).len(), |i: int| bridge_share(g, communities, bridging(g, communities)[i]))
}

/// The number of edges of the `i`-th node that lead out of the community `mine`, and the
/// communities that it touches.
fn survey(
    graph: &KnowledgeGraph,
    index: &StringHashMap<usize>,
    i: usize,
    mine: usize,
    Ghost(communities): Ghost<Map<usize, Vec<String>>>,
) -> (seen: (usize, Vec<usize>))
    requires
        i < graph@.nodes.len(),
        crate::community::is_index(communities, index@),
    ensures
        seen.0 == crossings(communities, mine, graph@.neighbors(graph@.nodes[i as int].id)).len(),
        seen.0 <= graph@.degree(graph@.nodes[i as int].id),
        seen.1@.no_duplicates(),
        seen.1@.to_set() == touched(communities, mine, graph@.neighbors(graph@.nodes[i as int].id)),
{
    let ghost nbrs = graph@.neighbors(graph@.nodes[i as int].id);
    let ghost wanted = |id: Seq<char>| is_elsewhere(communities, mine, id);
    let nodes: &Vec<GraphNode> = graph.nodes();
    let links: &Vec<usize> = graph.links(i);
    let mut met: HashSet<usize> = HashSet::new();
    let mut numbers: Vec<usize> = Vec::new();
    met.insert(mine);
    numbers.push(mine);
    let mut cross: usize = 0;
    let mut k: usize = 0;
    proof {
        crate::sequences::filter_none(nbrs, wanted);
        assert(numbers@[0] == mine);
        assert(numbers@.contains(mine));
        assert(forall|c: usize| numbers@.contains(c) ==> c == mine);
    }
    while k < links.len()
        invariant
            crate::community::is_index(communities, index@),
            crate::graph::node_views(nodes@) == graph@.nodes,
            wanted == (|id: Seq<char>| is_elsewhere(communities, mine, id)),
            links@.len() == nbrs.len(),
            forall|q: int| 0 <= q < links@.len() ==> (#[trigger] links@[q]) < graph@.nodes.len()
                && graph@.nodes[links@[q] as int].id == nbrs[q],
            k <= links@.len(),
            cross <= k,
            cross == nbrs.take(k as int).filter(wanted).len(),
            numbers@.no_duplicates(),
            forall|c: usize| #[trigger] numbers@.contains(c) <==> met@.contains(c),
            forall|c: usize| #[trigger] met@.contains(c) <==> c == mine || exists|q: int| 0 <= q < k && community_of(communities, #[trigger] nbrs[q]) == Some(c),
        decreases links@.len() - k,
    {
        let j: usize = links[k];
        assert(graph@.nodes[j as int] == nodes@[j as int]@);
        proof {
            crate::sequences::filter_next(nbrs, wanted, k as int);
        }
        let there: Option<usize> = look_up(index, nodes[j].id.as_str(), Ghost(communities));
        let ghost before = met@;
        let ghost listed = numbers@;
        match there {
            Some(c) => {
                if c != mine {
                    cross += 1;
                    if !met.contains(&c) {
                        met.insert(c);
                        numbers.push(c);
                        proof {
                            assert(numbers@[listed.len() as int] == c);
                            assert forall|d: usize| #[trigger] numbers@.contains(d) <==> met@.contains(d) by {
                                if listed.contains(d) {
                                    let q = choose|q: int| 0 <= q < listed.len() && listed[q] == d;
                                    assert(numbers@[q] == d);
                                }
                                if numbers@.contains(d) && d != c {
                                    let q = choose|q: int| 0 <= q < numbers@.len() && numbers@[q] == d;
                                    assert(listed[q] == d);
                                    assert(listed.contains(d));
                                }
                            }
                            assert(!listed.contains(c));
                        }
                    }
                }
            },
            None => {},
        }
        proof {
            assert forall|c: usize| #[trigger] met@.contains(c) <==> c == mine || exists|q: int| 0 <= q < k + 1 && community_of(communities, #[trigger] nbrs[q]) == Some(c) by {
                if met@.contains(c) && c != mine {
                    if before.contains(c) {
                        let q = choose|q: int| 0 <= q < k && community_of(communities, #[trigger] nbrs[q]) == Some(c);
                        assert(community_of(communities, nbrs[q]) == Some(c));
                    } else {
                        assert(community_of(communities, nbrs[k as int]) == Some(c));
                    }
                }
                if exists|q: int| 0 <= q < k + 1 && community_of(communities, #[trigger] nbrs[q]) == Some(c) {
                    let q = choose|q: int| 0 <= q < k + 1 && community_of(communities, #[trigger] nbrs[q]) == Some(c);
                    if q < k {
                        assert(before.contains(c));
                    }
                }
            }
        }
        k += 1;
    }
    assert(nbrs.take(k as int) =~= nbrs);
    assert(numbers@.to_set() =~= touched(communities, mine, nbrs));
    (cross, numbers)
}

/// The `top_n` nodes that bridge communities, the largest share of edges into other communities
/// first.
pub fn community_bridges(graph: &KnowledgeGraph, communities: &HashMap<usize, Vec<String>>, top_n: usize) -> (bridges: Vec<BridgeNode>)
    ensures
        is_top(
            bridge_candidates(graph@, communities@),
            bridge_keys(graph@, communities@),
            top_n as nat,
            bridge_views(bridges@),
        ),
{
    let ghost g = graph@;
    let ghost m = communities@;
    let ghost wanted = |n: NodeView| is_bridge(g, m, n);
    let index: StringHashMap<usize> = community_index(communities);
    let nodes: &Vec<GraphNode> = graph.nodes();
    let mut places: Vec<usize> = Vec::new();
    let mut homes: Vec<usize> = Vec::new();
    let mut keys: Vec<Ratio> = Vec::new();
    let mut i: usize = 0;
    proof {
        crate::sequences::filter_none(g.nodes, wanted);
    }
    while i < nodes.len()
        invariant
            g == graph@,
            g.wf(),
            m == communities@,
            crate::community::is_index(m, index@),
            wanted == (|n: NodeView| is_bridge(g, m, n)),
            crate::graph::node_views(nodes@) == g.nodes,
            i <= nodes@.len(),
            places@.len() == g.nodes.take(i as int).filter(wanted).len(),
            keys@.len() == places@.len(),
            homes@.len() == places@.len(),
            forall|k: int| 0 <= k < places@.len() ==> (#[trigger] places@[k]) < g.nodes.len()
                && g.nodes[places@[k] as int] == g.nodes.take(i as int).filter(wanted)[k],
            forall|k: int| 0 <= k < homes@.len() ==> community_of(m, g.nodes.take(i as int).filter(wanted)[k].id) == Some(#[trigger] homes@[k]),
            forall|k: int| 0 <= k < keys@.len() ==> (#[trigger] keys@[k]).small()
                && keys@[k]@ == bridge_share(g, m, g.nodes.take(i as int).filter(wanted)[k]),
        decreases nodes@.len() - i,
    {
        let node: &GraphNode = &nodes[i];
        proof {
            assert(g.nodes[i as int] == node@);
            crate::graph::place_of_id(g, i as int);
            crate::sequences::filter_next(g.nodes, wanted, i as int);
        }
        if !is_file_node(graph, node.id.as_str()) {
            match look_up(&index, node.id.as_str(), Ghost(m)) {
                Some(mine) => {
                    let (cross, _) = survey(graph, &index, i, mine, Ghost(m));
                    let total: usize = graph.links(i).len();
                    if cross > 0 {
                        places.push(i);
                        homes.push(mine);
                        keys.push(Ratio { num: cross as u128, den: total as u128 });
                    }
                },
                None => {},
            }
        }
        i += 1;
    }
    assert(g.nodes.take(i as int) =~= g.nodes);
    let order: Vec<usize> = descending_order(&keys);
    assert(crate::ranking::fractions(keys@) =~= bridge_keys(g, m));
    let mut bridges: Vec<BridgeNode> = Vec::new();
    let mut p: usize = 0;
    while p < order.len() && p < top_n
        invariant
            g == graph@,
            g.wf(),
            m == communities@,
            crate::community::is_index(m, index@),
            crate::graph::node_views(nodes@) == g.nodes,
            places@.len() == bridging(g, m).len(),
            homes@.len() == places@.len(),
            keys@.len() == places@.len(),
            forall|k: int| 0 <= k < places@.len() ==> (#[trigger] places@[k]) < g.nodes.len()
                && g.nodes[places@[k] as int] == bridging(g, m)[k],
            forall|k: int| 0 <= k < homes@.len() ==> community_of(m, bridging(g, m)[k].id) == Some(#[trigger] homes@[k]),
            forall|k: int| 0 <= k < keys@.len() ==> (#[trigger] keys@[k])@ == bridge_share(g, m, bridging(g, m)[k]),
            crate::ranking::is_order(bridge_keys(g, m), order@),
            p <= order@.len(),
            p <= top_n,
            bridges@.len() == p,
            forall|k: int| 0 <= k < p ==> (#[trigger] bridges@[k])@ == bridge_candidates(g, m)[order@[k] as int],
        decreases order@.len() - p,
    {
        let at: usize = order[p];
        let place: usize = places[at];
        let node: &GraphNode = &nodes[place];
        assert(g.nodes[place as int] == node@);
        let (cross, numbers) = survey(graph, &index, place, homes[at], Ghost(m));
        let total: usize = graph.links(place).len();
        let bridge: BridgeNode = BridgeNode {
            id: node.id.clone(),
            label: node.label.clone(),
            total_edges: total,
            cross_community_edges: cross,
            bridge_ratio: keys[at],
            communities_touched: sort_ascending(&numbers),
        };
        assert(bridge@ == bridge_view(g, m, bridging(g, m)[at as int]));
        bridges.push(bridge);
        p += 1;
    }
    assert(bridge_views(bridges@) =~= crate::ranking::pick(bridge_candidates(g, m), order@, top_n as nat));
    bridges
}

/// Every bridge that is reported is a node of the graph that is a bridge.
pub proof fn reported_bridges_are_bridges(g: GraphView, communities: Map<usize, Vec<String>>, top_n: nat, out: Seq<BridgeView>, p: int)
    requires
        is_top(bridge_candidates(g, communities), bridge_keys(g, communities), top_n, out),
        0 <= p < out.len(),
    ensures
        exists|i: int|
            #![trigger g.nodes[i]]
            0 <= i < g.nodes.len() && is_bridge(g, communities, g.nodes[i]) && out[p] == bridge_view(g, communities, g.nodes[i]),
{
    let order = choose|order: Seq<usize>| #[trigger]
        crate::ranking::is_order(bridge_keys(g, communities), order) && out == crate::ranking::pick(
            bridge_candidates(g, communities),
            order,
            top_n,
        );
    let n = bridging(g, communities)[order[p] as int];
    assert(bridging(g, communities).contains(n));
    crate::sequences::filter_keeps(g.nodes, |n: NodeView| is_bridge(g, communities, n), n);
    let i = choose|i: int| 0 <= i < g.nodes.len() && g.nodes[i] == n;
    assert(out[p] == bridge_view(g, communities, g.nodes[i]));
}

/// Bridges with a larger share of edges into other communities come first.
pub proof fn bridges_in_order(g: GraphView, communities: Map<usize, Vec<String>>, top_n: nat, out: Seq<BridgeView>, p: int, q: int)
    requires
        is_top(bridge_candidates(g, communities), bridge_keys(g, communities), top_n, out),
        0 <= p < q < out.len(),
    ensures
        !out[q].bridge_ratio.above(out[p].bridge_ratio),
{
    let order = choose|order: Seq<usize>| #[trigger]
        crate::ranking::is_order(bridge_keys(g, communities), order) && out == crate::ranking::pick(
            bridge_candidates(g, communities),
            order,
            top_n,
        );
    assert(crate::ranking::before(bridge_keys(g, communities), order[p] as int, order[q] as int));
}

/// A bridge has edges into other communities, no more of them than edges, and touches its own
/// community and at least one other.
pub proof fn bridge_joins_communities(g: GraphView, communities: Map<usize, Vec<String>>, n: NodeView)
    requires
        is_bridge(g, communities, n),
    ensures
        0 < bridge_view(g, communities, n).cross_community_edges <= bridge_view(g, communities, n).total_edges,
        bridge_view(g, communities, n).communities_touched.contains(home(communities, n)),
        bridge_view(g, communities, n).communities_touched.len() >= 2,
{
    let mine = home(communities, n);
    let nbrs = g.neighbors(n.id);
    let wanted = |id: Seq<char>| is_elsewhere(communities, mine, id);
    let over = crossings(communities, mine, nbrs);
    nbrs.lemma_filter_len(wanted);
    let all = touched(communities, mine, nbrs);
    let keys = ascending(all);
    crate::community::ascending_lists_all(all);
    assert(over.contains(over[0]));
    crate::sequences::filter_keeps(nbrs, wanted, over[0]);
    let k = choose|k: int| 0 <= k < nbrs.len() && nbrs[k] == over[0];
    let c = community_of(communities, nbrs[k])->0;
    assert(community_of(communities, nbrs[k]) == Some(c));
    assert(all.contains(mine) && all.contains(c));
    assert(keys.contains(mine) && keys.contains(c));
    let i = choose|i: int| 0 <= i < keys.len() && keys[i] == mine;
    let j = choose|j: int| 0 <= j < keys.len() && keys[j] == c;
    assert(i != j);
}

/// With a single community there are no bridges.
pub proof fn single_community_has_no_bridges(g: GraphView, communities: Map<usize, Vec<String>>, top_n: nat, out: Seq<BridgeView>)
    requires
        forall|c: usize, d: usize| #[trigger] communities.contains_key(c) && #[trigger] communities.contains_key(d) ==> c == d,
        is_top(bridge_candidates(g, communities), bridge_keys(g, communities), top_n, out),
    ensures
        out.len() == 0,
{
    if out.len() > 0 {
        reported_bridges_are_bridges(g, communities, top_n, out, 0);
        let i = choose|i: int|
            #![trigger g.nodes[i]]
            0 <= i < g.nodes.len() && is_bridge(g, communities, g.nodes[i]) && out[0] == bridge_view(g, communities, g.nodes[i]);
        let n = g.nodes[i];
        let mine = home(communities, n);
        let over = crossings(communities, mine, g.neighbors(n.id));
        assert(over.contains(over[0]));
        crate::sequences::filter_keeps(g.neighbors(n.id), |id: Seq<char>| is_elsewhere(communities, mine, id), over[0]);
        crate::community::community_is_listed(communities, n.id);
        crate::community::community_is_listed(communities, over[0]);
    }
}

/// The bridges are the nodes, other than hubs, that belong to a community and have edges to nodes
/// of other communities: those with the most such edges per edge first, and of equal ones the one
/// that was added first. Each comes with its id and label, the number of edges at it, the number
/// of those that lead away, the one divided by the other, and in ascending order its community
/// and those of its neighbours.
pub proof fn bridges_by_edges(g: GraphView, communities: Map<usize, Vec<String>>, top_n: nat, out: Seq<BridgeView>) -> (best: Seq<int>)
    requires
        g.wf(),
        is_top(bridge_candidates(g, communities), bridge_keys(g, communities), top_n, out),
    ensures
        are_best(
            g.nodes.len(),
            |i: int| !is_hub(g, i) && edges_away(g, communities, g.nodes[i].id) > 0,
            |i: int| Fraction { num: edges_away(g, communities, g.nodes[i].id), den: edges_at(g, g.nodes[i].id) },
            top_n,
            best,
        ),
        best.len() == out.len(),
        forall|p: int|
            #![trigger out[p]]
            0 <= p < out.len() ==> {
                let n = g.nodes[best[p]];
                &&& out[p].id == n.id
                &&& out[p].label == n.label
                &&& out[p].total_edges == edges_at(g, n.id)
                &&& out[p].cross_community_edges == edges_away(g, communities, n.id)
                &&& out[p].bridge_ratio.num == out[p].cross_community_edges
                &&& out[p].bridge_ratio.den == out[p].total_edges
                &&& forall|i: int, j: int|
                    0 <= i < j < out[p].communities_touched.len() ==> (#[trigger] out[p].communities_touched[i]) < (
                    #[trigger] out[p].communities_touched[j])
                &&& forall|c: usize| #[trigger]
                    out[p].communities_touched.contains(c) <==> belongs_to(communities, n.id, c) || exists|e: int| #[trigger]
                        is_at(g, e, n.id) && belongs_to(communities, across(g, e, n.id), c)
            },
{
    let wanted = |i: int| !is_hub(g, i) && edges_away(g, communities, g.nodes[i].id) > 0;
    let key = |i: int| Fraction { num: edges_away(g, communities, g.nodes[i].id), den: edges_at(g, g.nodes[i].id) };
    let kept = |n: NodeView| is_bridge(g, communities, n);
    assert forall|i: int| 0 <= i < g.nodes.len() implies (#[trigger] wanted(i) <==> kept(g.nodes[i])) by {
        crate::kinds::kinds_by_label(g, i);
        count_away(g, communities, g.nodes[i].id);
    }
    let at = crate::sequences::filter_places(g.nodes, kept, wanted);
    let all = bridging(g, communities);
    assert forall|k: int| 0 <= k < at.len() implies #[trigger] bridge_keys(g, communities)[k] == key(at[k]) by {
        assert(all[k] == g.nodes[at[k]]);
        assert(wanted(at[k]));
        count_away(g, communities, all[k].id);
        crate::graph::neighbors_across_edges(g, all[k].id);
    }
    let (best, which) = crate::ranking::top_of_places(
        bridge_candidates(g, communities),
        bridge_keys(g, communities),
        top_n,
        out,
        g.nodes.len(),
        wanted,
        key,
        at,
    );
    assert forall|p: int| #![trigger out[p]] 0 <= p < out.len() implies {
        let n = g.nodes[best[p]];
        &&& out[p].id == n.id
        &&& out[p].label == n.label
        &&& out[p].total_edges == edges_at(g, n.id)
        &&& out[p].cross_community_edges == edges_away(g, communities, n.id)
        &&& out[p].bridge_ratio.num == out[p].cross_community_edges
        &&& out[p].bridge_ratio.den == out[p].total_edges
        &&& forall|i: int, j: int|
            0 <= i < j < out[p].communities_touched.len() ==> (#[trigger] out[p].communities_touched[i]) < (
            #[trigger] out[p].communities_touched[j])
        &&& forall|c: usize| #[trigger]
            out[p].communities_touched.contains(c) <==> belongs_to(communities, n.id, c) || exists|e: int| #[trigger]
                is_at(g, e, n.id) && belongs_to(communities, across(g, e, n.id), c)
    } by {
        let n = g.nodes[best[p]];
        assert(all[which[p]] == g.nodes[at[which[p]]]);
        assert(wanted(best[p]));
        assert(out[p] == bridge_view(g, communities, n));
        count_away(g, communities, n.id);
        let places = crate::graph::neighbors_across_edges(g, n.id);
        let mine = home(communities, n);
        let nbrs = g.neighbors(n.id);
        let set = touched(communities, mine, nbrs);
        crate::community::ascending_lists_all(set);
        crate::community::community_by_members(communities, n.id);
        assert(out[p].communities_touched == ascending(set));
        assert forall|c: usize| #[trigger] ascending(set).contains(c) <==> belongs_to(communities, n.id, c) || exists|e: int| #[trigger]
            is_at(g, e, n.id) && belongs_to(communities, across(g, e, n.id), c) by {
            assert(ascending(set).contains(c) <==> set.contains(c));
            assert(community_of(communities, n.id) == Some(c) <==> belongs_to(communities, n.id, c));
            if exists|k: int| 0 <= k < nbrs.len() && community_of(communities, #[trigger] nbrs[k]) == Some(c) {
                let k = choose|k: int| 0 <= k < nbrs.len() && community_of(communities, #[trigger] nbrs[k]) == Some(c);
                crate::community::community_by_members(communities, nbrs[k]);
                assert(belongs_to(communities, nbrs[k], c));
                assert(is_at(g, places[k], n.id));
                assert(across(g, places[k], n.id) == nbrs[k]);
            }
            if exists|e: int| #[trigger] is_at(g, e, n.id) && belongs_to(communities, across(g, e, n.id), c) {
                let e = choose|e: int| #[trigger] is_at(g, e, n.id) && belongs_to(communities, across(g, e, n.id), c);
                assert((|e: int| is_at(g, e, n.id))(e));
                assert(places.contains(e));
                let k = choose|k: int| 0 <= k < places.len() && places[k] == e;
                assert(nbrs[k] == across(g, e, n.id));
                crate::community::community_by_members(communities, nbrs[k]);
                assert(community_of(communities, nbrs[k]) == Some(c));
            }
        }
    }
    best
}

/// The neighbours in other communities are as many as the edges that lead away; without a
/// community no edge leads away.
proof fn count_away(g: GraphView, communities: Map<usize, Vec<String>>, id: Seq<char>)
    ensures
        community_of(communities, id) matches Some(mine) ==> crossings(communities, mine, g.neighbors(id)).len() == edges_away(
            g,
            communities,
            id,
        ),
        community_of(communities, id) is None ==> edges_away(g, communities, id) == 0,
    decreases g.edges.len(),
{
    let away = |e: EdgeView| leads_away(communities, e, id);
    let mine = community_of(communities, id)->0;
    let other = |x: Seq<char>| is_elsewhere(communities, mine, x);
    if g.edges.len() == 0 {
        crate::sequences::filter_none(g.edges, away);
        assert(g.edges.take(0) =~= g.edges);
        crate::sequences::filter_none(g.neighbors(id), other);
        assert(g.neighbors(id).take(0) =~= g.neighbors(id));
    } else {
        let last = g.edges.len() - 1;
        let e = g.edges[last];
        let shorter = GraphView { edges: g.edges.drop_last(), ..g };
        count_away(shorter, communities, id);
        crate::sequences::filter_next(g.edges, away, last);
        assert(g.edges.take(last + 1) =~= g.edges);
        assert(g.edges.take(last) =~= shorter.edges);
        apart_is_elsewhere(communities, id, e.source);
        apart_is_elsewhere(communities, id, e.target);
        let (now, before) = (g.neighbors(id), shorter.neighbors(id));
        if now.len() > before.len() {
            crate::sequences::filter_next(now, other, before.len() as int);
            assert(now.take((before.len() + 1) as int) =~= now);
            assert(now.take(before.len() as int) =~= before);
        }
    }
}

/// A node is apart from another exactly if it has a community and the other is elsewhere.
proof fn apart_is_elsewhere(communities: Map<usize, Vec<String>>, id: Seq<char>, x: Seq<char>)
    ensures
        are_apart(communities, id, x) <==> community_of(communities, id) is Some && is_elsewhere(
            communities,
            community_of(communities, id)->0,
            x,
        ),
{
    crate::community::community_by_members(communities, id);
    crate::community::community_by_members(communities, x);
    if community_of(communities, id) is Some && is_elsewhere(communities, community_of(communities, id)->0, x) {
        let c = community_of(communities, id)->0;
        let d = community_of(communities, x)->0;
        assert(belongs_to(communities, id, c) && belongs_to(communities, x, d));
    }
    if are_apart(communities, id, x) {
        let (c, d) = choose|c: usize, d: usize| #[trigger] belongs_to(communities, id, c) && #[trigger] belongs_to(communities, x, d) && c
            != d;
        assert(community_of(communities, id) == Some(c) && community_of(communities, x) == Some(d));
    }
}

/// A bridge says what its fields hold.
pub proof fn bridge_node_views(b: BridgeNode, all: Seq<BridgeNode>)
    ensures
        b@.id == b.id@ && b@.label == b.label@,
        b@.total_edges == b.total_edges && b@.cross_community_edges == b.cross_community_edges,
        b@.bridge_ratio == b.bridge_ratio@ && b@.communities_touched == b.communities_touched@,
        bridge_views(all).len() == all.len(),
        forall|i: int| 0 <= i < all.len() ==> #[trigger] bridge_views(all)[i] == all[i]@,
{
}

} // verus!
