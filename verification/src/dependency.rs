//! Dependency cycles between the nodes of a graph.
use std::collections::HashSet;

use vstd::prelude::*;

use crate::cycle::{
    circles_back, connects_within, find_cycle_in_scc, first_cycle, first_cycle_is_soonest, is_cycle, is_round_trip, members_in_range,
    parts_sooner, reach_within,
};
use crate::digraph::{connects, edge, lists, mutual, path_prefix, path_suffix, reach, reach_transitive, step, vertices_in_range};
use crate::graph::{EdgeView, GraphEdge, GraphNode, GraphView, KnowledgeGraph};
use crate::ranking::{are_best, descending_order, is_top, Fraction, Ratio};
use crate::scc::{component_of, component_order_is_unique, components_are_apart, in_walk_order, is_scc_order, tarjan_scc};
use crate::sequences::{are_places, at_most};
use crate::text::{same_text, texts};
use crate::walk::full_walk;

verus! {

broadcast use vstd::std_specs::hash::group_hash_axioms;

/// A cycle of dependencies; the shorter, the more severe.
#[derive(Debug)]
pub struct DependencyCycle {
    pub nodes: Vec<String>,
    pub edges: Vec<(String, String)>,
    pub severity: Ratio,
}

/// What a dependency cycle says.
pub struct CycleView {
    pub nodes: Seq<Seq<char>>,
    pub edges: Seq<(Seq<char>, Seq<char>)>,
    pub severity: Fraction,
}

/// The pairs of texts that pairs of strings hold.
pub open spec fn text_pairs(v: Seq<(String, String)>) -> Seq<(Seq<char>, Seq<char>)> {
    Seq::new(v.len(), |i: int| (v[i].0@, v[i].1@))
}

impl View for DependencyCycle {
    type V = CycleView;

    open spec fn view(&self) -> CycleView {
        CycleView { nodes: texts(self.nodes@), edges: text_pairs(self.edges@), severity: self.severity@ }
    }
}

/// What the cycles say.
pub open spec fn cycle_views(cycles: Seq<DependencyCycle>) -> Seq<CycleView> {
    Seq::new(cycles.len(), |i: int| cycles[i]@)
}

/// A relation by which the source depends on the target.
pub open spec fn is_directional(relation: Seq<char>) -> bool {
    relation == "imports"@ || relation == "uses"@ || relation == "calls"@
}

/// The positions of the nodes that the node `id` depends on, one for each edge.
pub open spec fn targets(g: GraphView, edges: Seq<EdgeView>, id: Seq<char>) -> Seq<usize>
    decreases edges.len(),
{
    if edges.len() == 0 {
        Seq::empty()
    } else {
        let front = targets(g, edges.drop_last(), id);
        let e = edges.last();
        if is_directional(e.relation) && e.source == id {
            front.push(g.place(e.target) as usize)
        } else {
            front
        }
    }
}

/// For each node the positions of the nodes that it depends on.
pub open spec fn dependency_lists(g: GraphView) -> Seq<Seq<usize>> {
    Seq::new(g.nodes.len(), |i: int| targets(g, g.edges, g.nodes[i].id))
}

/// The components of more than one vertex, in order.
pub open spec fn nontrivial(comps: Seq<Seq<usize>>) -> Seq<Seq<usize>> {
    comps.filter(|c: Seq<usize>| c.len() > 1)
}

/// `c` is a cycle inside the component that starts at its first vertex, the one that a
/// depth-first search finds first.
pub open spec fn is_loop_in(deps: Seq<Seq<usize>>, comp: Seq<usize>, c: Seq<usize>) -> bool {
    &&& is_cycle(deps, comp.to_set(), c)
    &&& c[0] == comp[0]
    &&& first_cycle(deps, comp.to_set(), comp[0]) == Some(c)
}

/// `loops` holds for each component the cycle that is found in it.
pub open spec fn are_loops(deps: Seq<Seq<usize>>, comps: Seq<Seq<usize>>, loops: Seq<Seq<usize>>) -> bool {
    &&& loops.len() == comps.len()
    &&& forall|i: int| 0 <= i < loops.len() ==> is_loop_in(deps, comps[i], #[trigger] loops[i])
}

/// The vertex that follows the `i`-th on a cycle.
pub open spec fn following(c: Seq<usize>, i: int) -> usize {
    if i + 1 < c.len() {
        c[i + 1]
    } else {
        c[0]
    }
}

/// A cycle of positions, as it is reported.
pub open spec fn cycle_view(g: GraphView, c: Seq<usize>) -> CycleView {
    CycleView {
        nodes: Seq::new(c.len(), |i: int| g.nodes[c[i] as int].id),
        edges: Seq::new(c.len(), |i: int| (g.nodes[c[i] as int].id, g.nodes[following(c, i) as int].id)),
        severity: Fraction { num: 1, den: c.len() },
    }
}

/// Cycles of positions, as they are reported.
pub open spec fn reported(g: GraphView, loops: Seq<Seq<usize>>) -> Seq<CycleView> {
    Seq::new(loops.len(), |i: int| cycle_view(g, loops[i]))
}

/// The severities of cycles.
pub open spec fn severities(loops: Seq<Seq<usize>>) -> Seq<Fraction> {
    Seq::new(loops.len(), |i: int| Fraction { num: 1, den: loops[i].len() })
}

/// `comps` lists the components of the dependencies in the order of a depth-first walk. The first
/// `max_cycles` components of several nodes are reported by one cycle each, the most severe first.
pub open spec fn is_detection(
    g: GraphView,
    max_cycles: nat,
    comps: Seq<Seq<usize>>,
    loops: Seq<Seq<usize>>,
    out: Seq<CycleView>,
) -> bool {
    &&& is_scc_order(dependency_lists(g), g.nodes.len(), comps)
    &&& in_walk_order(full_walk(dependency_lists(g), g.nodes.len()), comps)
    &&& are_loops(dependency_lists(g), at_most(nontrivial(comps), max_cycles), loops)
    &&& is_top(reported(g, loops), severities(loops), max_cycles, out)
}

/// Is this one of the relations by which the source depends on the target?
fn is_dependency(relation: &str) -> (yes: bool)
    ensures
        yes == is_directional(relation@),
{
    same_text(relation, "imports") || same_text(relation, "uses") || same_text(relation, "calls")
}

/// The dependency lists name only nodes of the graph.
proof fn targets_in_range(g: GraphView, edges: Seq<EdgeView>, id: Seq<char>)
    requires
        g.nodes.len() <= usize::MAX,
        forall|e: int| #![trigger edges[e]] 0 <= e < edges.len() ==> g.has(edges[e].target),
    ensures
        forall|k: int| 0 <= k < targets(g, edges, id).len() ==> (#[trigger] targets(g, edges, id)[k]) < g.nodes.len(),
    decreases edges.len(),
{
    if edges.len() > 0 {
        assert(g.has(edges[edges.len() - 1].target));
        let t = g.place(edges.last().target);
        assert(0 <= t < g.nodes.len() && g.nodes[t].id == edges.last().target);
        let front = targets(g, edges.drop_last(), id);
        targets_in_range(g, edges.drop_last(), id);
        assert forall|k: int| 0 <= k < targets(g, edges, id).len() implies (#[trigger] targets(g, edges, id)[k]) < g.nodes.len() by {
            if k < front.len() {
                assert(front[k] < g.nodes.len());
            }
        }
    }
}

/// The vertices of the dependency lists are the positions of the nodes.
proof fn dependencies_in_range(g: GraphView)
    requires
        g.wf(),
        g.nodes.len() <= usize::MAX,
    ensures
        vertices_in_range(dependency_lists(g), g.nodes.len()),
{
    let deps = dependency_lists(g);
    assert forall|u: int, k: int| 0 <= u < g.nodes.len() && 0 <= k < deps[u].len() implies (#[trigger] deps[u][k]) < g.nodes.len() by {
        assert forall|e: int| #![trigger g.edges[e]] 0 <= e < g.edges.len() implies g.has(g.edges[e].target) by {}
        targets_in_range(g, g.edges, g.nodes[u].id);
    }
}

/// For each node the positions of the nodes that it depends on.
pub fn dependencies(graph: &KnowledgeGraph) -> (adj: Vec<Vec<usize>>)
    ensures
        lists(adj@) == dependency_lists(graph@),
        vertices_in_range(lists(adj@), graph@.nodes.len()),
{
    let ghost g = graph@;
    let n: usize = graph.node_count();
    let edges: &Vec<GraphEdge> = graph.edges();
    let mut adj: Vec<Vec<usize>> = Vec::new();
    let mut i: usize = 0;
    while i < n
        invariant
            i <= n,
            adj@.len() == i,
            forall|k: int| 0 <= k < i ==> (#[trigger] adj@[k])@ == Seq::<usize>::empty(),
        decreases n - i,
    {
        let none: Vec<usize> = Vec::new();
        adj.push(none);
        i += 1;
    }
    let mut e: usize = 0;
    assert(g.edges.take(0) =~= Seq::empty());
    while e < edges.len()
        invariant
            g == graph@,
            g.wf(),
            n == g.nodes.len(),
            crate::graph::edge_views(edges@) == g.edges,
            e <= edges@.len(),
            adj@.len() == n,
            forall|k: int| 0 <= k < n ==> (#[trigger] adj@[k])@ == targets(g, g.edges.take(e as int), g.nodes[k].id),
        decreases edges@.len() - e,
    {
        let edge: &GraphEdge = &edges[e];
        let ghost old_adj = adj@;
        proof {
            assert(g.edges[e as int] == edge@);
            assert(g.has(g.edges[e as int].source) && g.has(g.edges[e as int].target));
            assert(g.edges.take(e + 1).drop_last() =~= g.edges.take(e as int));
        }
        if is_dependency(edge.relation.as_str()) {
            match (graph.position(edge.source.as_str()), graph.position(edge.target.as_str())) {
                (Some(si), Some(ti)) => {
                    adj[si].push(ti);
                    proof {
                        assert forall|k: int| 0 <= k < n implies (#[trigger] adj@[k])@ == targets(g, g.edges.take(e + 1), g.nodes[k].id) by {
                            assert(old_adj[k]@ == targets(g, g.edges.take(e as int), g.nodes[k].id));
                            if k != si {
                                assert(g.nodes[k].id != g.nodes[si as int].id);
                            }
                        }
                    }
                },
                _ => {
                    assert(false);
                },
            }
        }
        e += 1;
    }
    proof {
        assert(g.edges.take(e as int) =~= g.edges);
        assert(lists(adj@) =~= dependency_lists(g));
        dependencies_in_range(g);
    }
    adj
}

/// A path from a vertex in range stays in range.
proof fn path_in_range(g: Seq<Seq<usize>>, n: nat, p: Seq<usize>, u: usize, v: usize, i: int)
    requires
        vertices_in_range(g, n),
        connects(g, p, u, v),
        u < n,
        0 <= i < p.len(),
    ensures
        p[i] < n,
    decreases i,
{
    if i > 0 {
        path_in_range(g, n, p, u, v, i - 1);
        assert(step(g, p, i - 1));
        let out = g[p[i - 1] as int];
        let k = choose|k: int| 0 <= k < out.len() && out[k] == p[i];
        assert(g[p[i - 1] as int][k] < n);
    }
}

/// Two vertices of a component are joined by a path inside the component.
proof fn joined_within(g: Seq<Seq<usize>>, n: nat, comps: Seq<Seq<usize>>, c: int, a: usize, b: usize)
    requires
        vertices_in_range(g, n),
        is_scc_order(g, n, comps),
        0 <= c < comps.len(),
        comps[c].contains(a),
        comps[c].contains(b),
    ensures
        reach_within(g, comps[c].to_set(), a, b),
{
    assert(a < n && b < n);
    assert(mutual(g, a, b));
    reveal(reach);
    let p = choose|p: Seq<usize>| #[trigger] connects(g, p, a, b);
    assert forall|i: int| 0 <= i < p.len() implies comps[c].to_set().contains(#[trigger] p[i]) by {
        path_in_range(g, n, p, a, b, i);
        path_prefix(g, p, a, b, i);
        path_suffix(g, p, a, b, i);
        assert(reach(g, a, p[i]));
        assert(reach(g, p[i], b));
        reach_transitive(g, p[i], b, a);
        assert(comps[c].contains(p[i]));
    }
    assert(connects_within(g, comps[c].to_set(), p, a, b));
}

/// In a component of several vertices each one circles back.
proof fn component_circles_back(g: Seq<Seq<usize>>, n: nat, comps: Seq<Seq<usize>>, c: int)
    requires
        vertices_in_range(g, n),
        is_scc_order(g, n, comps),
        0 <= c < comps.len(),
        comps[c].len() > 1,
    ensures
        circles_back(g, comps[c].to_set(), comps[c][0]),
{
    let a = comps[c][0];
    let b = comps[c][1];
    assert(comps[c].no_duplicates());
    assert(comps[c].contains(a) && comps[c].contains(b));
    joined_within(g, n, comps, c, a, b);
    joined_within(g, n, comps, c, b, a);
}

/// The positions of a component as a set.
fn position_set(positions: &Vec<usize>) -> (set: HashSet<usize>)
    ensures
        set@ == positions@.to_set(),
{
    let mut set: HashSet<usize> = HashSet::new();
    let mut i: usize = 0;
    while i < positions.len()
        invariant
            i <= positions@.len(),
            set@ == positions@.take(i as int).to_set(),
        decreases positions@.len() - i,
    {
        set.insert(positions[i]);
        proof {
            let front = positions@.take(i as int);
            let next = positions@.take(i + 1);
            assert(next =~= front.push(positions@[i as int]));
            assert forall|x: usize| next.contains(x) <==> front.contains(x) || x == positions@[i as int] by {
                if front.contains(x) {
                    let k = choose|k: int| 0 <= k < front.len() && front[k] == x;
                    assert(next[k] == x);
                }
                assert(next[i as int] == positions@[i as int]);
                if next.contains(x) {
                    let k = choose|k: int| 0 <= k < next.len() && next[k] == x;
                    if k < i {
                        assert(front[k] == x);
                    }
                }
            }
            assert(set@ =~= next.to_set());
        }
        i += 1;
    }
    assert(positions@.take(i as int) =~= positions@);
    set
}

/// A cycle of positions, as it is reported.
fn report_cycle(graph: &KnowledgeGraph, c: &Vec<usize>) -> (cycle: DependencyCycle)
    requires
        c@.len() > 0,
        forall|i: int| 0 <= i < c@.len() ==> (#[trigger] c@[i]) < graph@.nodes.len(),
    ensures
        cycle@ == cycle_view(graph@, c@),
{
    let graph_nodes: &Vec<GraphNode> = graph.nodes();
    let mut nodes: Vec<String> = Vec::new();
    let mut edges: Vec<(String, String)> = Vec::new();
    let mut i: usize = 0;
    while i < c.len()
        invariant
            c@.len() > 0,
            forall|i: int| 0 <= i < c@.len() ==> (#[trigger] c@[i]) < graph@.nodes.len(),
            crate::graph::node_views(graph_nodes@) == graph@.nodes,
            i <= c@.len(),
            nodes@.len() == i,
            edges@.len() == i,
            forall|k: int| 0 <= k < i ==> (#[trigger] nodes@[k])@ == graph@.nodes[c@[k] as int].id,
            forall|k: int| 0 <= k < i ==> (#[trigger] edges@[k]).0@ == graph@.nodes[c@[k] as int].id
                && edges@[k].1@ == graph@.nodes[following(c@, k) as int].id,
        decreases c@.len() - i,
    {
        let here: usize = c[i];
        let next: usize = if i + 1 < c.len() { c[i + 1] } else { c[0] };
        assert(next == following(c@, i as int));
        assert(graph@.nodes[here as int] == graph_nodes@[here as int]@);
        assert(graph@.nodes[next as int] == graph_nodes@[next as int]@);
        nodes.push(graph_nodes[here].id.clone());
        edges.push((graph_nodes[here].id.clone(), graph_nodes[next].id.clone()));
        i += 1;
    }
    let cycle: DependencyCycle = DependencyCycle { nodes, edges, severity: Ratio { num: 1, den: c.len() as u128 } };
    assert(cycle@.nodes =~= cycle_view(graph@, c@).nodes);
    assert(cycle@.edges =~= cycle_view(graph@, c@).edges);
    cycle
}

/// Finds dependency cycles: for each of the first `max_cycles` groups of nodes that depend on
/// each other, as Tarjan's algorithm finds them, one cycle. Only the relations `imports`, `uses`
/// and `calls` count. Shorter cycles are more severe and come first.
pub fn detect_cycles(graph: &KnowledgeGraph, max_cycles: usize) -> (cycles: Vec<DependencyCycle>)
    ensures
        exists|comps: Seq<Seq<usize>>, loops: Seq<Seq<usize>>| #[trigger]
            is_detection(graph@, max_cycles as nat, comps, loops, cycle_views(cycles@)),
{
    let ghost g = graph@;
    let adj: Vec<Vec<usize>> = dependencies(graph);
    let ghost deps = dependency_lists(g);
    let n: usize = graph.node_count();
    let sccs: Vec<Vec<usize>> = tarjan_scc(adj.as_slice(), n);
    let ghost comps = lists(sccs@);
    let ghost wanted = |c: Seq<usize>| c.len() > 1;
    let mut loops: Vec<Vec<usize>> = Vec::new();
    let mut keys: Vec<Ratio> = Vec::new();
    let mut i: usize = 0;
    proof {
        crate::sequences::filter_none(comps, wanted);
        assert(lists(loops@) =~= Seq::empty());
    }
    while i < sccs.len()
        invariant
            g == graph@,
            deps == dependency_lists(g),
            lists(adj@) == deps,
            vertices_in_range(deps, g.nodes.len()),
            deps.len() == g.nodes.len(),
            comps == lists(sccs@),
            is_scc_order(deps, g.nodes.len(), comps),
            in_walk_order(full_walk(deps, g.nodes.len()), comps),
            wanted == (|c: Seq<usize>| c.len() > 1),
            i <= sccs@.len(),
            loops@.len() <= max_cycles,
            are_loops(deps, at_most(comps.take(i as int).filter(wanted), max_cycles as nat), lists(loops@)),
            keys@.len() == loops@.len(),
            forall|k: int| 0 <= k < keys@.len() ==> (#[trigger] keys@[k]).small() && keys@[k]@ == (Fraction {
                num: 1,
                den: loops@[k]@.len(),
            }),
        decreases sccs@.len() - i,
    {
        let scc: &Vec<usize> = &sccs[i];
        let ghost kept = comps.take(i as int).filter(wanted);
        let ghost old_loops = lists(loops@);
        proof {
            assert(comps[i as int] == scc@);
            crate::sequences::filter_next(comps, wanted, i as int);
        }
        if scc.len() > 1 && loops.len() < max_cycles {
            let scc_set: HashSet<usize> = position_set(scc);
            proof {
                assert(scc@.contains(scc@[0]));
                assert(members_in_range(deps, scc_set@));
                component_circles_back(deps, g.nodes.len(), comps, i as int);
            }
            match find_cycle_in_scc(adj.as_slice(), scc.as_slice(), &scc_set) {
                Some(c) => {
                    keys.push(Ratio { num: 1, den: c.len() as u128 });
                    let ghost found = c@;
                    loops.push(c);
                    proof {
                        assert(kept.len() < max_cycles);
                        assert(lists(loops@) =~= old_loops.push(found));
                        let now = kept.push(scc@);
                        assert forall|k: int| 0 <= k < lists(loops@).len() implies is_loop_in(deps, now[k], #[trigger] lists(loops@)[k]) by {
                            if k < old_loops.len() {
                                assert(lists(loops@)[k] == old_loops[k]);
                                assert(now[k] == kept[k]);
                            }
                        }
                    }
                },
                None => {
                    assert(false);
                },
            }
        } else if scc.len() > 1 {
            proof {
                assert(at_most(kept.push(scc@), max_cycles as nat) =~= at_most(kept, max_cycles as nat));
            }
        }
        i += 1;
    }
    let ghost found = lists(loops@);
    proof {
        assert(comps.take(i as int) =~= comps);
        assert(crate::ranking::fractions(keys@) =~= severities(found));
    }
    let order: Vec<usize> = descending_order(&keys);
    let mut cycles: Vec<DependencyCycle> = Vec::new();
    let mut p: usize = 0;
    while p < order.len() && p < max_cycles
        invariant
            g == graph@,
            deps == dependency_lists(g),
            is_scc_order(deps, g.nodes.len(), comps),
            in_walk_order(full_walk(deps, g.nodes.len()), comps),
            found == lists(loops@),
            are_loops(deps, at_most(nontrivial(comps), max_cycles as nat), found),
            crate::ranking::is_order(severities(found), order@),
            p <= order@.len(),
            p <= max_cycles,
            cycles@.len() == p,
            forall|k: int| 0 <= k < p ==> (#[trigger] cycles@[k])@ == reported(g, found)[order@[k] as int],
        decreases order@.len() - p,
    {
        let at: usize = order[p];
        let c: &Vec<usize> = &loops[at];
        proof {
            assert(found[at as int] == c@);
            loop_in_range(g, comps, max_cycles as nat, found, at as int);
        }
        cycles.push(report_cycle(graph, c));
        p += 1;
    }
    proof {
        assert(cycle_views(cycles@) =~= crate::ranking::pick(reported(g, found), order@, max_cycles as nat));
        assert(is_detection(g, max_cycles as nat, comps, found, cycle_views(cycles@)));
    }
    cycles
}

/// The vertices of the cycles that are found are positions of nodes.
proof fn loop_in_range(g: GraphView, comps: Seq<Seq<usize>>, max_cycles: nat, loops: Seq<Seq<usize>>, i: int)
    requires
        is_scc_order(dependency_lists(g), g.nodes.len(), comps),
        are_loops(dependency_lists(g), at_most(nontrivial(comps), max_cycles), loops),
        0 <= i < loops.len(),
    ensures
        loops[i].len() >= 2,
        forall|k: int| 0 <= k < loops[i].len() ==> (#[trigger] loops[i][k]) < g.nodes.len(),
{
    let wanted = |c: Seq<usize>| c.len() > 1;
    let used = at_most(nontrivial(comps), max_cycles);
    let c = used[i];
    assert(nontrivial(comps)[i] == c);
    assert(nontrivial(comps).contains(c));
    crate::sequences::filter_keeps(comps, wanted, c);
    let d = choose|d: int| 0 <= d < comps.len() && comps[d] == c;
    assert(is_cycle(dependency_lists(g), c.to_set(), loops[i]));
    assert forall|k: int| 0 <= k < loops[i].len() implies (#[trigger] loops[i][k]) < g.nodes.len() by {
        assert(c.to_set().contains(loops[i][k]));
        assert(comps[d].contains(loops[i][k]));
    }
}

/// The relation is `imports`, `uses` or `calls`.
pub open spec fn is_counted(relation: Seq<char>) -> bool {
    seq!["imports"@, "uses"@, "calls"@].contains(relation)
}

/// The relations that count as dependencies are `imports`, `uses` and `calls`, and no others.
pub proof fn relations_that_count(relation: Seq<char>)
    ensures
        is_directional(relation) <==> is_counted(relation),
{
    let names = seq!["imports"@, "uses"@, "calls"@];
    assert(names[0] == "imports"@ && names[1] == "uses"@ && names[2] == "calls"@);
}

/// By some edge of the graph the node `from` depends on the node `to`.
pub open spec fn depends_on(g: GraphView, from: Seq<char>, to: Seq<char>) -> bool {
    exists|e: int|
        #![trigger g.edges[e]]
        0 <= e < g.edges.len() && is_counted(g.edges[e].relation) && g.edges[e].source == from && g.edges[e].target == to
}

/// What the edges say of dependencies is in the lists of targets, and nothing else is.
proof fn targets_by_edges(g: GraphView, edges: Seq<EdgeView>, id: Seq<char>, v: usize)
    requires
        g.wf(),
        g.nodes.len() <= usize::MAX,
        v < g.nodes.len(),
        forall|e: int| #![trigger edges[e]] 0 <= e < edges.len() ==> g.has(edges[e].target),
    ensures
        targets(g, edges, id).contains(v) <==> exists|e: int|
            #![trigger edges[e]]
            0 <= e < edges.len() && is_counted(edges[e].relation) && edges[e].source == id && edges[e].target == g.nodes[v as int].id,
    decreases edges.len(),
{
    if edges.len() > 0 {
        let front = edges.drop_last();
        let last = edges[edges.len() - 1];
        relations_that_count(last.relation);
        assert forall|e: int| #![trigger front[e]] 0 <= e < front.len() implies g.has(front[e].target) by {
            assert(g.has(edges[e].target));
        }
        targets_by_edges(g, front, id, v);
        assert(g.has(last.target));
        let t = g.place(last.target);
        assert(0 <= t < g.nodes.len() && g.nodes[t].id == last.target);
        assert(t == v <==> last.target == g.nodes[v as int].id);
        let before = targets(g, front, id);
        let now = targets(g, edges, id);
        if before.contains(v) {
            let k = choose|k: int| 0 <= k < before.len() && before[k] == v;
            assert(now[k] == v);
            let e = choose|e: int|
                #![trigger front[e]]
                0 <= e < front.len() && is_counted(front[e].relation) && front[e].source == id && front[e].target == g.nodes[v as int].id;
            assert(edges[e] == front[e]);
        }
        if now.contains(v) && !before.contains(v) {
            let k = choose|k: int| 0 <= k < now.len() && now[k] == v;
            if k < before.len() {
                assert(before[k] == v);
            }
            assert(edges[edges.len() - 1] == last);
        }
        if exists|e: int|
            #![trigger edges[e]]
            0 <= e < edges.len() && is_counted(edges[e].relation) && edges[e].source == id && edges[e].target == g.nodes[v as int].id {
            let e = choose|e: int|
                #![trigger edges[e]]
                0 <= e < edges.len() && is_counted(edges[e].relation) && edges[e].source == id && edges[e].target == g.nodes[v as int].id;
            if e < front.len() {
                assert(front[e] == edges[e]);
            } else {
                assert(now[before.len() as int] == v);
            }
        }
    }
}

/// The dependency lists lead from one node to another exactly if an edge with a directional
/// relation does.
pub proof fn lists_follow_edges(g: GraphView, u: usize, v: usize)
    requires
        g.wf(),
        g.nodes.len() <= usize::MAX,
        u < g.nodes.len(),
        v < g.nodes.len(),
    ensures
        edge(dependency_lists(g), u, v) <==> depends_on(g, g.nodes[u as int].id, g.nodes[v as int].id),
{
    assert forall|e: int| #![trigger g.edges[e]] 0 <= e < g.edges.len() implies g.has(g.edges[e].target) by {}
    targets_by_edges(g, g.edges, g.nodes[u as int].id, v);
}

/// Every reported cycle is one: its two or more nodes are different, each depends on the next by
/// an edge of the graph and the last on the first, and these edges are the ones reported with it.
pub proof fn reported_cycles_are_cycles(
    g: GraphView,
    max_cycles: nat,
    comps: Seq<Seq<usize>>,
    loops: Seq<Seq<usize>>,
    out: Seq<CycleView>,
    i: int,
)
    requires
        g.wf(),
        g.nodes.len() <= usize::MAX,
        is_detection(g, max_cycles, comps, loops, out),
        0 <= i < out.len(),
    ensures
        out[i].nodes.len() >= 2,
        out[i].nodes.no_duplicates(),
        out[i].edges.len() == out[i].nodes.len(),
        forall|k: int| 0 <= k < out[i].edges.len() ==> {
            let next = if k + 1 < out[i].nodes.len() { k + 1 } else { 0 };
            &&& (#[trigger] out[i].edges[k]) == (out[i].nodes[k], out[i].nodes[next])
            &&& depends_on(g, out[i].nodes[k], out[i].nodes[next])
        },
        out[i].severity == (Fraction { num: 1, den: out[i].nodes.len() }),
{
    let deps = dependency_lists(g);
    let order = choose|order: Seq<usize>| #[trigger]
        crate::ranking::is_order(severities(loops), order) && out == crate::ranking::pick(reported(g, loops), order, max_cycles);
    let at = order[i] as int;
    let c = loops[at];
    assert(out[i] == cycle_view(g, c));
    loop_in_range(g, comps, max_cycles, loops, at);
    assert(is_cycle(deps, at_most(nontrivial(comps), max_cycles)[at].to_set(), c));
    let nodes = out[i].nodes;
    assert forall|a: int, b: int| 0 <= a < nodes.len() && 0 <= b < nodes.len() && a != b implies nodes[a] != nodes[b] by {
        assert(c[a] != c[b]);
        assert(g.nodes[c[a] as int].id != g.nodes[c[b] as int].id);
    }
    assert forall|k: int| 0 <= k < out[i].edges.len() implies {
        let next = if k + 1 < out[i].nodes.len() { k + 1 } else { 0 };
        &&& (#[trigger] out[i].edges[k]) == (out[i].nodes[k], out[i].nodes[next])
        &&& depends_on(g, out[i].nodes[k], out[i].nodes[next])
    } by {
        let next = if k + 1 < out[i].nodes.len() { k + 1 } else { 0 };
        assert(following(c, k) == c[next]);
        if k + 1 < c.len() {
            assert(step(deps, c, k));
        }
        assert(edge(deps, c[k], c[next]));
        assert(c[k] < g.nodes.len() && c[next] < g.nodes.len());
        lists_follow_edges(g, c[k], c[next]);
    }
}

/// Shorter cycles are reported first.
pub proof fn shorter_cycles_first(
    g: GraphView,
    max_cycles: nat,
    comps: Seq<Seq<usize>>,
    loops: Seq<Seq<usize>>,
    out: Seq<CycleView>,
    i: int,
    j: int,
)
    requires
        is_detection(g, max_cycles, comps, loops, out),
        0 <= i < j < out.len(),
    ensures
        out[i].nodes.len() <= out[j].nodes.len(),
{
    let order = choose|order: Seq<usize>| #[trigger]
        crate::ranking::is_order(severities(loops), order) && out == crate::ranking::pick(reported(g, loops), order, max_cycles);
    assert(crate::ranking::before(severities(loops), order[i] as int, order[j] as int));
}

/// The components that are used, by their positions among all.
proof fn used_components(comps: Seq<Seq<usize>>, max_cycles: nat, a: int) -> (c: int)
    requires
        0 <= a < at_most(nontrivial(comps), max_cycles).len(),
    ensures
        0 <= c < comps.len(),
        comps[c] == at_most(nontrivial(comps), max_cycles)[a],
        comps[c].len() > 1,
{
    let used = at_most(nontrivial(comps), max_cycles);
    assert(nontrivial(comps)[a] == used[a]);
    assert(nontrivial(comps).contains(used[a]));
    crate::sequences::filter_keeps(comps, |c: Seq<usize>| c.len() > 1, used[a]);
    choose|c: int| 0 <= c < comps.len() && comps[c] == used[a]
}

/// The components of a graph are all different.
proof fn components_differ(g: Seq<Seq<usize>>, n: nat, comps: Seq<Seq<usize>>)
    requires
        is_scc_order(g, n, comps),
    ensures
        comps.no_duplicates(),
{
    assert forall|c: int, d: int| 0 <= c < comps.len() && 0 <= d < comps.len() && c != d implies comps[c] != comps[d] by {
        let v = comps[c][0];
        assert(comps[c].contains(v));
        if comps[c] == comps[d] {
            components_are_apart(g, n, comps, c, d, v);
        }
    }
}

/// No node is on two reported cycles.
pub proof fn reported_cycles_are_apart(
    g: GraphView,
    max_cycles: nat,
    comps: Seq<Seq<usize>>,
    loops: Seq<Seq<usize>>,
    out: Seq<CycleView>,
    i: int,
    j: int,
    id: Seq<char>,
)
    requires
        g.wf(),
        is_detection(g, max_cycles, comps, loops, out),
        0 <= i < out.len(),
        0 <= j < out.len(),
        out[i].nodes.contains(id),
        out[j].nodes.contains(id),
    ensures
        i == j,
{
    let deps = dependency_lists(g);
    let n = g.nodes.len();
    let used = at_most(nontrivial(comps), max_cycles);
    let order = choose|order: Seq<usize>| #[trigger]
        crate::ranking::is_order(severities(loops), order) && out == crate::ranking::pick(reported(g, loops), order, max_cycles);
    crate::ranking::order_is_permutation(severities(loops), order);
    let (a, b) = (order[i] as int, order[j] as int);
    loop_in_range(g, comps, max_cycles, loops, a);
    loop_in_range(g, comps, max_cycles, loops, b);
    assert(is_cycle(deps, used[a].to_set(), loops[a]));
    assert(is_cycle(deps, used[b].to_set(), loops[b]));
    let p = choose|p: int| 0 <= p < out[i].nodes.len() && out[i].nodes[p] == id;
    let q = choose|q: int| 0 <= q < out[j].nodes.len() && out[j].nodes[q] == id;
    let v = loops[a][p];
    assert(loops[a][p] < n && loops[b][q] < n);
    assert(g.nodes[v as int].id == g.nodes[loops[b][q] as int].id);
    assert(loops[b][q] == v);
    let c = used_components(comps, max_cycles, a);
    let d = used_components(comps, max_cycles, b);
    assert(used[a].to_set().contains(v) && used[b].to_set().contains(v));
    components_are_apart(deps, n, comps, c, d, v);
    components_differ(deps, n, comps);
    crate::sequences::filter_distinct(comps, |c: Seq<usize>| c.len() > 1);
    assert(nontrivial(comps)[a] == nontrivial(comps)[b]);
    assert(a == b);
}

/// `ids` are two or more different nodes of which each depends on the next, and the last on the
/// first.
pub open spec fn is_dependency_cycle(g: GraphView, ids: Seq<Seq<char>>) -> bool {
    &&& ids.len() >= 2
    &&& ids.no_duplicates()
    &&& forall|k: int| 0 <= k < ids.len() - 1 ==> #[trigger] leads_on(g, ids, k)
    &&& depends_on(g, ids[ids.len() - 1], ids[0])
}

/// The `k`-th of the nodes depends on the one behind it.
pub open spec fn leads_on(g: GraphView, ids: Seq<Seq<char>>, k: int) -> bool {
    depends_on(g, ids[k], ids[k + 1])
}

/// What is reported is determined by the graph and `max_cycles`.
pub proof fn detection_is_unique(
    g: GraphView,
    max_cycles: nat,
    comps: Seq<Seq<usize>>,
    loops: Seq<Seq<usize>>,
    out: Seq<CycleView>,
    other_comps: Seq<Seq<usize>>,
    other_loops: Seq<Seq<usize>>,
    other_out: Seq<CycleView>,
)
    requires
        is_detection(g, max_cycles, comps, loops, out),
        is_detection(g, max_cycles, other_comps, other_loops, other_out),
    ensures
        out == other_out,
{
    let deps = dependency_lists(g);
    let n = g.nodes.len();
    crate::walk::full_walk_is_sound(deps, n);
    component_order_is_unique(deps, n, full_walk(deps, n), comps, other_comps);
    let used = at_most(nontrivial(comps), max_cycles);
    assert forall|i: int| 0 <= i < loops.len() implies loops[i] == other_loops[i] by {
        assert(is_loop_in(deps, used[i], loops[i]));
        assert(is_loop_in(deps, used[i], other_loops[i]));
    }
    assert(loops =~= other_loops);
    crate::ranking::top_is_unique(reported(g, loops), severities(loops), max_cycles, out, other_out);
}

/// For each component of several nodes a cycle is reported, up to `max_cycles`.
pub proof fn number_of_cycles(g: GraphView, max_cycles: nat, comps: Seq<Seq<usize>>, loops: Seq<Seq<usize>>, out: Seq<CycleView>)
    requires
        is_detection(g, max_cycles, comps, loops, out),
    ensures
        out.len() == if nontrivial(comps).len() <= max_cycles { nontrivial(comps).len() } else { max_cycles },
{
    crate::ranking::top_length(reported(g, loops), severities(loops), max_cycles, out);
}

/// Both nodes of a dependency are nodes of the graph.
proof fn dependency_of_nodes(g: GraphView, from: Seq<char>, to: Seq<char>)
    requires
        g.wf(),
        depends_on(g, from, to),
    ensures
        g.has(from),
        g.has(to),
{
    let e = choose|e: int|
        #![trigger g.edges[e]]
        0 <= e < g.edges.len() && is_counted(g.edges[e].relation) && g.edges[e].source == from && g.edges[e].target == to;
    assert(g.has(g.edges[e].source) && g.has(g.edges[e].target));
}

/// The first node of a dependency cycle is in a component of several nodes.
proof fn cycle_in_component(g: GraphView, comps: Seq<Seq<usize>>, ids: Seq<Seq<char>>) -> (c: int)
    requires
        g.wf(),
        g.nodes.len() <= usize::MAX,
        is_scc_order(dependency_lists(g), g.nodes.len(), comps),
        is_dependency_cycle(g, ids),
    ensures
        g.has(ids[0]),
        0 <= c < comps.len(),
        comps[c].len() > 1,
        comps[c].contains(g.place(ids[0]) as usize),
{
    let deps = dependency_lists(g);
    let n = g.nodes.len();
    dependencies_in_range(g);
    let c = Seq::new(ids.len(), |k: int| g.place(ids[k]) as usize);
    assert forall|k: int| 0 <= k < ids.len() implies g.has(#[trigger] ids[k]) && c[k] < n && g.nodes[c[k] as int].id == ids[k] by {
        if k + 1 < ids.len() {
            assert(leads_on(g, ids, k));
            dependency_of_nodes(g, ids[k], ids[k + 1]);
        } else {
            dependency_of_nodes(g, ids[k], ids[0]);
        }
        let p = g.place(ids[k]);
        assert(0 <= p < n && g.nodes[p].id == ids[k]);
    }
    let all = Set::<usize>::full();
    assert forall|k: int| 0 <= k < c.len() - 1 implies #[trigger] step(deps, c, k) by {
        assert(leads_on(g, ids, k));
        assert(g.has(ids[k]) && g.has(ids[k + 1]));
        lists_follow_edges(g, c[k], c[k + 1]);
    }
    assert(edge(deps, c[c.len() - 1], c[0])) by {
        assert(g.has(ids[ids.len() - 1]) && g.has(ids[0]));
        lists_follow_edges(g, c[c.len() - 1], c[0]);
    }
    assert(c.no_duplicates()) by {
        assert forall|i: int, j: int| 0 <= i < c.len() && 0 <= j < c.len() && i != j implies c[i] != c[j] by {
            assert(g.has(ids[i]) && g.has(ids[j]));
            assert(ids[i] != ids[j]);
        }
    }
    assert(is_cycle(deps, all, c));
    crate::cycle::cycle_circles_back(deps, all, c);
    assert(g.has(ids[0]));
    let u = c[0];
    let v = choose|v: usize| v != u && #[trigger] reach_within(deps, all, u, v) && reach_within(deps, all, v, u);
    let p = choose|p: Seq<usize>| #[trigger] connects_within(deps, all, p, u, v);
    let q = choose|q: Seq<usize>| #[trigger] connects_within(deps, all, q, v, u);
    path_in_range(deps, n, p, u, v, p.len() - 1);
    assert(mutual(deps, u, v)) by {
        reveal(reach);
        assert(connects(deps, p, u, v));
        assert(connects(deps, q, v, u));
    }
    assert(component_of(comps, u));
    let at = choose|at: int| 0 <= at < comps.len() && #[trigger] comps[at].contains(u);
    assert(comps[at].contains(v));
    let i = choose|i: int| 0 <= i < comps[at].len() && comps[at][i] == u;
    let j = choose|j: int| 0 <= j < comps[at].len() && comps[at][j] == v;
    assert(i != j);
    at
}

/// A cycle is reported exactly if the graph has a dependency cycle.
pub proof fn cycles_reported_where_there_are_any(
    g: GraphView,
    max_cycles: nat,
    comps: Seq<Seq<usize>>,
    loops: Seq<Seq<usize>>,
    out: Seq<CycleView>,
)
    requires
        g.wf(),
        g.nodes.len() <= usize::MAX,
        max_cycles > 0,
        is_detection(g, max_cycles, comps, loops, out),
    ensures
        out.len() > 0 <==> exists|ids: Seq<Seq<char>>| #[trigger] is_dependency_cycle(g, ids),
{
    number_of_cycles(g, max_cycles, comps, loops, out);
    if out.len() > 0 {
        reported_cycles_are_cycles(g, max_cycles, comps, loops, out, 0);
        let ids = out[0].nodes;
        assert forall|k: int| 0 <= k < ids.len() - 1 implies #[trigger] leads_on(g, ids, k) by {
            assert(out[0].edges[k] == (ids[k], ids[k + 1]));
        }
        assert(out[0].edges[ids.len() - 1] == (ids[ids.len() - 1], ids[0]));
        assert(is_dependency_cycle(g, ids));
    }
    if exists|ids: Seq<Seq<char>>| #[trigger] is_dependency_cycle(g, ids) {
        let ids = choose|ids: Seq<Seq<char>>| #[trigger] is_dependency_cycle(g, ids);
        let c = cycle_in_component(g, comps, ids);
        crate::sequences::filter_takes(comps, |c: Seq<usize>| c.len() > 1, comps[c]);
        assert(nontrivial(comps).contains(comps[c]));
    }
}

/// As long as `max_cycles` leaves room, no dependency cycle is missed: some reported cycle lies in
/// the same group, with a node such that it and the first node of the cycle depend on each other,
/// directly or not.
pub proof fn no_cycle_is_missed(
    g: GraphView,
    max_cycles: nat,
    comps: Seq<Seq<usize>>,
    loops: Seq<Seq<usize>>,
    out: Seq<CycleView>,
    ids: Seq<Seq<char>>,
)
    requires
        g.wf(),
        g.nodes.len() <= usize::MAX,
        is_detection(g, max_cycles, comps, loops, out),
        out.len() < max_cycles,
        is_dependency_cycle(g, ids),
    ensures
        exists|i: int, w: usize|
            0 <= i < out.len() && w < g.nodes.len() && #[trigger] out[i].nodes.contains(g.nodes[w as int].id) && mutual(
                dependency_lists(g),
                g.place(ids[0]) as usize,
                w,
            ),
{
    let deps = dependency_lists(g);
    number_of_cycles(g, max_cycles, comps, loops, out);
    let c = cycle_in_component(g, comps, ids);
    let u = g.place(ids[0]) as usize;
    crate::sequences::filter_takes(comps, |c: Seq<usize>| c.len() > 1, comps[c]);
    let used = at_most(nontrivial(comps), max_cycles);
    assert(used == nontrivial(comps));
    let a = choose|a: int| 0 <= a < used.len() && used[a] == comps[c];
    assert(is_cycle(deps, used[a].to_set(), loops[a]));
    let order = choose|order: Seq<usize>| #[trigger]
        crate::ranking::is_order(severities(loops), order) && out == crate::ranking::pick(reported(g, loops), order, max_cycles);
    assert(loops.len() <= max_cycles);
    loop_in_range(g, comps, max_cycles, loops, a);
    let place = crate::ranking::order_finds(severities(loops), order, a);
    assert(out[place] == cycle_view(g, loops[a]));
    let w = loops[a][0];
    assert(used[a].to_set().contains(w));
    assert(comps[c].contains(w));
    assert(out[place].nodes[0] == g.nodes[w as int].id);
    assert(out[place].nodes.contains(g.nodes[w as int].id));
}

/// The list of a node names, in the order of the edges, the positions of the targets of its edges
/// with one of the relations that count.
pub proof fn lists_by_edges(g: GraphView, u: int) -> (at: Seq<int>)
    requires
        g.wf(),
        g.nodes.len() <= usize::MAX,
        0 <= u < g.nodes.len(),
    ensures
        dependency_lists(g).len() == g.nodes.len(),
        are_places(g.edges.len(), |e: int| is_counted(g.edges[e].relation) && g.edges[e].source == g.nodes[u].id, at),
        dependency_lists(g)[u].len() == at.len(),
        forall|k: int|
            0 <= k < at.len() ==> (#[trigger] dependency_lists(g)[u][k]) < g.nodes.len() && g.nodes[dependency_lists(g)[u][k] as int].id
                == g.edges[at[k]].target,
{
    assert forall|e: int| #![trigger g.edges[e]] 0 <= e < g.edges.len() implies g.has(g.edges[e].target) by {}
    targets_by_places(g, g.edges, g.nodes[u].id)
}

proof fn targets_by_places(g: GraphView, edges: Seq<EdgeView>, id: Seq<char>) -> (at: Seq<int>)
    requires
        g.nodes.len() <= usize::MAX,
        forall|e: int| #![trigger edges[e]] 0 <= e < edges.len() ==> g.has(edges[e].target),
    ensures
        are_places(edges.len(), |e: int| is_counted(edges[e].relation) && edges[e].source == id, at),
        targets(g, edges, id).len() == at.len(),
        forall|k: int|
            0 <= k < at.len() ==> (#[trigger] targets(g, edges, id)[k]) < g.nodes.len() && g.nodes[targets(g, edges, id)[k] as int].id
                == edges[at[k]].target,
    decreases edges.len(),
{
    if edges.len() == 0 {
        Seq::empty()
    } else {
        let last = edges.len() - 1;
        let front = edges.drop_last();
        assert forall|e: int| #![trigger front[e]] 0 <= e < front.len() implies g.has(front[e].target) by {
            assert(g.has(edges[e].target));
        }
        let before = targets_by_places(g, front, id);
        relations_that_count(edges[last].relation);
        assert(g.has(edges[last].target));
        let t = g.place(edges[last].target);
        assert(0 <= t < g.nodes.len() && g.nodes[t].id == edges[last].target);
        let wanted = |e: int| is_counted(edges[e].relation) && edges[e].source == id;
        let at = if wanted(last) {
            before.push(last)
        } else {
            before
        };
        let (list, old_list) = (targets(g, edges, id), targets(g, front, id));
        assert forall|k: int| 0 <= k < at.len() implies 0 <= (#[trigger] at[k]) < edges.len() && wanted(at[k]) && list[k] < g.nodes.len()
            && g.nodes[list[k] as int].id == edges[at[k]].target by {
            if k < before.len() {
                let x = before[k];
                assert(front[x] == edges[x]);
                assert(old_list[k] < g.nodes.len());
                assert(list[k] == old_list[k]);
            }
        }
        assert forall|e: int| 0 <= e < edges.len() && #[trigger] wanted(e) implies at.contains(e) by {
            if e < last {
                assert(front[e] == edges[e]);
                assert((|e: int| is_counted(front[e].relation) && front[e].source == id)(e));
                assert(before.contains(e));
                let k = choose|k: int| 0 <= k < before.len() && before[k] == e;
                assert(at[k] == e);
            } else {
                assert(at[before.len() as int] == e);
            }
        }
        at
    }
}

/// A graph without an edge of one of the relations that count has no dependency cycles.
pub proof fn no_counted_edges_no_cycles(g: GraphView, max_cycles: nat, comps: Seq<Seq<usize>>, loops: Seq<Seq<usize>>, out: Seq<CycleView>)
    requires
        g.wf(),
        g.nodes.len() <= usize::MAX,
        is_detection(g, max_cycles, comps, loops, out),
        forall|e: int|
            0 <= e < g.edges.len() ==> (#[trigger] g.edges[e]).relation != "imports"@ && g.edges[e].relation != "uses"@ && g.edges[e].relation
                != "calls"@,
    ensures
        out.len() == 0,
{
    if out.len() > 0 {
        reported_cycles_are_cycles(g, max_cycles, comps, loops, out, 0);
        assert(out[0].edges[0] == (out[0].nodes[0], out[0].nodes[1]));
        assert(depends_on(g, out[0].nodes[0], out[0].nodes[1]));
        let e = choose|e: int|
            #![trigger g.edges[e]]
            0 <= e < g.edges.len() && is_counted(g.edges[e].relation) && g.edges[e].source == out[0].nodes[0] && g.edges[e].target
                == out[0].nodes[1];
        let names = seq!["imports"@, "uses"@, "calls"@];
        let k = choose|k: int| 0 <= k < names.len() && names[k] == g.edges[e].relation;
        assert(names[0] == "imports"@ && names[1] == "uses"@ && names[2] == "calls"@);
    }
}

/// The components of two nodes or more are taken in their order, up to `max_cycles`. Each gives
/// the round trip from its first vertex that, where it parts from any other, takes the edge in
/// front. They are reported the shortest first, and of equally long ones the one that was taken
/// first: by the ids of their nodes, the pairs of these from each to the next and from the last to
/// the first, and one divided by their length.
pub proof fn cycles_by_components(
    g: GraphView,
    max_cycles: nat,
    comps: Seq<Seq<usize>>,
    loops: Seq<Seq<usize>>,
    out: Seq<CycleView>,
) -> (found: (Seq<int>, Seq<int>))
    requires
        g.wf(),
        g.nodes.len() <= usize::MAX,
        is_detection(g, max_cycles, comps, loops, out),
    ensures
        is_scc_order(dependency_lists(g), g.nodes.len(), comps),
        in_walk_order(full_walk(dependency_lists(g), g.nodes.len()), comps),
        are_places(comps.len(), |c: int| comps[c].len() >= 2, found.0),
        loops.len() == if found.0.len() < max_cycles { found.0.len() } else { max_cycles },
        forall|k: int|
            #![trigger loops[k]]
            0 <= k < loops.len() ==> {
                let comp = comps[found.0[k]];
                &&& is_round_trip(dependency_lists(g), comp.to_set(), comp[0], loops[k])
                &&& forall|d: Seq<usize>| #[trigger]
                    is_round_trip(dependency_lists(g), comp.to_set(), comp[0], d) ==> d == loops[k] || parts_sooner(
                        dependency_lists(g),
                        loops[k],
                        d,
                    )
            },
        are_best(loops.len(), |k: int| true, |k: int| Fraction { num: 1, den: loops[k].len() }, max_cycles, found.1),
        out.len() == found.1.len(),
        forall|p: int|
            #![trigger out[p]]
            0 <= p < out.len() ==> {
                let c = loops[found.1[p]];
                &&& out[p].nodes.len() == c.len()
                &&& out[p].edges.len() == c.len()
                &&& forall|x: int| 0 <= x < c.len() ==> #[trigger] out[p].nodes[x] == g.nodes[c[x] as int].id
                &&& forall|x: int|
                    0 <= x < c.len() ==> (#[trigger] out[p].edges[x]).0 == out[p].nodes[x] && out[p].edges[x].1 == out[p].nodes[if x + 1
                        == c.len() {
                        0
                    } else {
                        x + 1
                    }]
                &&& out[p].severity.num == 1 && out[p].severity.den == c.len()
            },
{
    let deps = dependency_lists(g);
    let n = g.nodes.len();
    dependencies_in_range(g);
    let kept = |c: Seq<usize>| c.len() > 1;
    let several = |c: int| comps[c].len() >= 2;
    let at = crate::sequences::filter_places(comps, kept, several);
    let used = at_most(nontrivial(comps), max_cycles);
    crate::sequences::front_part(nontrivial(comps), max_cycles);
    assert forall|k: int| #![trigger loops[k]] 0 <= k < loops.len() implies {
        let comp = comps[at[k]];
        &&& is_round_trip(deps, comp.to_set(), comp[0], loops[k])
        &&& forall|d: Seq<usize>| #[trigger]
            is_round_trip(deps, comp.to_set(), comp[0], d) ==> d == loops[k] || parts_sooner(deps, loops[k], d)
    } by {
        let comp = comps[at[k]];
        assert(used[k] == nontrivial(comps)[k]);
        assert(nontrivial(comps)[k] == comp);
        assert(is_loop_in(deps, comp, loops[k]));
        assert(several(at[k]));
        assert(comp.contains(comp[0]));
        assert(members_in_range(deps, comp.to_set())) by {
            assert forall|u: int, q: int| 0 <= u < deps.len() && 0 <= q < deps[u].len() && comp.to_set().contains(#[trigger] deps[u][q]) implies deps[u][q]
                < deps.len() by {}
        }
        first_cycle_is_soonest(deps, comp.to_set(), comp[0]);
    }
    let all = |k: int| true;
    let key = |k: int| Fraction { num: 1, den: loops[k].len() };
    let every = Seq::new(loops.len(), |k: int| k);
    assert(are_places(loops.len(), all, every)) by {
        assert forall|i: int| 0 <= i < loops.len() && #[trigger] all(i) implies every.contains(i) by {
            assert(every[i] == i);
        }
    }
    let (best, which) = crate::ranking::top_of_places(
        reported(g, loops),
        severities(loops),
        max_cycles,
        out,
        loops.len(),
        all,
        key,
        every,
    );
    assert forall|p: int| #![trigger out[p]] 0 <= p < out.len() implies {
        let c = loops[best[p]];
        &&& out[p].nodes.len() == c.len()
        &&& out[p].edges.len() == c.len()
        &&& forall|x: int| 0 <= x < c.len() ==> #[trigger] out[p].nodes[x] == g.nodes[c[x] as int].id
        &&& forall|x: int|
            0 <= x < c.len() ==> (#[trigger] out[p].edges[x]).0 == out[p].nodes[x] && out[p].edges[x].1 == out[p].nodes[if x + 1 == c.len() {
                0
            } else {
                x + 1
            }]
        &&& out[p].severity.num == 1 && out[p].severity.den == c.len()
    } by {
        let c = loops[best[p]];
        assert(best[p] == which[p]);
        assert(out[p] == cycle_view(g, c));
    }
    (at, best)
}

/// A dependency cycle says what its fields hold.
pub proof fn dependency_cycle_views(c: DependencyCycle, all: Seq<DependencyCycle>)
    ensures
        c@.nodes.len() == c.nodes@.len() && c@.edges.len() == c.edges@.len() && c@.severity == c.severity@,
        forall|i: int| 0 <= i < c.nodes@.len() ==> #[trigger] c@.nodes[i] == c.nodes@[i]@,
        forall|i: int| 0 <= i < c.edges@.len() ==> (#[trigger] c@.edges[i]).0 == c.edges@[i].0@ && c@.edges[i].1 == c.edges@[i].1@,
        cycle_views(all).len() == all.len(),
        forall|i: int| 0 <= i < all.len() ==> #[trigger] cycle_views(all)[i] == all[i]@,
{
}

} // verus!
