//! Simple cycles inside a set of vertices of a directed graph.
use std::collections::HashSet;

use vstd::prelude::*;

use crate::digraph::{bounded_set, connects, edge, lists, path_leaves, step};

verus! {

broadcast use vstd::std_specs::hash::group_hash_axioms;

/// `c` lists the two or more different vertices of a cycle in the order of its edges, all of
/// them in `s`.
pub open spec fn is_cycle(g: Seq<Seq<usize>>, s: Set<usize>, c: Seq<usize>) -> bool {
    &&& c.len() >= 2
    &&& c.no_duplicates()
    &&& forall|i: int| 0 <= i < c.len() ==> s.contains(#[trigger] c[i])
    &&& forall|i: int| 0 <= i < c.len() - 1 ==> #[trigger] step(g, c, i)
    &&& edge(g, c[c.len() - 1], c[0])
}

/// `p` goes from `u` to `v` without leaving `s`.
pub open spec fn connects_within(g: Seq<Seq<usize>>, s: Set<usize>, p: Seq<usize>, u: usize, v: usize) -> bool {
    connects(g, p, u, v) && forall|i: int| 0 <= i < p.len() ==> s.contains(#[trigger] p[i])
}

/// Some path inside `s` leads from `u` to `v`.
pub open spec fn reach_within(g: Seq<Seq<usize>>, s: Set<usize>, u: usize, v: usize) -> bool {
    exists|p: Seq<usize>| #[trigger] connects_within(g, s, p, u, v)
}

/// Inside `s`, `u` reaches some other vertex and is reached from it.
pub open spec fn circles_back(g: Seq<Seq<usize>>, s: Set<usize>, u: usize) -> bool {
    exists|v: usize| v != u && #[trigger] reach_within(g, s, u, v) && reach_within(g, s, v, u)
}

/// A vertex lies on a cycle inside a set exactly if it circles back there: the half that reads
/// it off the cycle.
pub proof fn cycle_circles_back(g: Seq<Seq<usize>>, s: Set<usize>, c: Seq<usize>)
    requires
        is_cycle(g, s, c),
    ensures
        circles_back(g, s, c[0]),
{
    let there = c.take(2);
    assert(step(g, c, 0));
    assert(step(g, there, 0));
    assert(connects_within(g, s, there, c[0], c[1]));
    let back = c.drop_first().push(c[0]);
    assert forall|i: int| 0 <= i < back.len() - 1 implies #[trigger] step(g, back, i) by {
        if i < back.len() - 2 {
            assert(step(g, c, i + 1));
        }
    }
    assert(connects_within(g, s, back, c[1], c[0]));
    assert(reach_within(g, s, c[0], c[1]));
}

/// The adjacency lists name no vertex of `s` that has none itself.
pub open spec fn members_in_range(g: Seq<Seq<usize>>, s: Set<usize>) -> bool {
    forall|u: int, k: int|
        0 <= u < g.len() && 0 <= k < g[u].len() && s.contains(#[trigger] g[u][k]) ==> g[u][k] < g.len()
}

/// How far a search for a way back has come: the way, once there is one, and what was visited.
pub struct Quest {
    pub way: Option<Seq<usize>>,
    pub visited: Set<usize>,
}

/// The search, after coming along `path`, goes on to `node` and from there, depth first, along
/// the edges inside `s`. It goes no deeper than `depth`; as deep as there are vertices is deep
/// enough.
pub open spec fn seek(g: Seq<Seq<usize>>, s: Set<usize>, start: usize, path: Seq<usize>, visited: Set<usize>, node: usize, depth: nat) -> Quest
    decreases depth, 0nat,
{
    if depth == 0 {
        Quest { way: None, visited }
    } else {
        seek_along(g, s, start, path.push(node), visited.insert(node), g[node as int], g[node as int].len(), (depth - 1) as nat)
    }
}

/// The search at the end of `path` tries the first `k` of the targets: the first that is `start`
/// ends it, and one not visited yet is searched from.
pub open spec fn seek_along(
    g: Seq<Seq<usize>>,
    s: Set<usize>,
    start: usize,
    path: Seq<usize>,
    visited: Set<usize>,
    targets: Seq<usize>,
    k: nat,
    depth: nat,
) -> Quest
    decreases depth, k,
{
    if k == 0 {
        Quest { way: None, visited }
    } else {
        let so_far = seek_along(g, s, start, path, visited, targets, (k - 1) as nat, depth);
        let next = targets[k - 1];
        if so_far.way is Some || !s.contains(next) {
            so_far
        } else if next == start && path.len() > 1 {
            Quest { way: Some(path), visited: so_far.visited }
        } else if so_far.visited.contains(next) {
            so_far
        } else {
            seek(g, s, start, path, so_far.visited, next, depth)
        }
    }
}

/// The cycle inside `s` that a depth-first search from `start` finds first.
pub open spec fn first_cycle(g: Seq<Seq<usize>>, s: Set<usize>, start: usize) -> Option<Seq<usize>> {
    seek(g, s, start, Seq::empty(), Set::empty(), start, g.len()).way
}

/// A search that has found a way back tries no more targets.
proof fn found_is_final(
    g: Seq<Seq<usize>>,
    s: Set<usize>,
    start: usize,
    path: Seq<usize>,
    visited: Set<usize>,
    targets: Seq<usize>,
    k: nat,
    more: nat,
    depth: nat,
)
    requires
        k <= more,
        seek_along(g, s, start, path, visited, targets, k, depth).way is Some,
    ensures
        seek_along(g, s, start, path, visited, targets, more, depth) == seek_along(g, s, start, path, visited, targets, k, depth),
    decreases more,
{
    if k < more {
        found_is_final(g, s, start, path, visited, targets, k, (more - 1) as nat, depth);
    }
}

/// `p` is a path from `start` that meets no vertex twice and runs inside `s` after its start.
spec fn trail(g: Seq<Seq<usize>>, s: Set<usize>, start: usize, p: Seq<usize>) -> bool {
    &&& p.len() > 0
    &&& p[0] == start
    &&& p.no_duplicates()
    &&& forall|i: int| 0 < i < p.len() ==> s.contains(#[trigger] p[i])
    &&& forall|i: int| 0 <= i < p.len() - 1 ==> #[trigger] step(g, p, i)
}

/// What was visited since `before` leads, inside `s`, only to visited vertices, and not back to
/// `start`.
spec fn exhausted(g: Seq<Seq<usize>>, s: Set<usize>, start: usize, before: Set<usize>, now: Set<usize>) -> bool {
    &&& forall|x: usize, y: usize|
        now.contains(x) && !before.contains(x) && s.contains(y) && #[trigger] edge(g, x, y) ==> now.contains(y)
    &&& forall|x: usize|
        #[trigger] now.contains(x) && !before.contains(x) && x != start && s.contains(start) ==> !edge(g, x, start)
}

/// Searches depth first from `node`, the next vertex of `path`, for a way back to `start`.
fn dfs_cycle(
    node: usize,
    start: usize,
    adj: &[Vec<usize>],
    scc_set: &HashSet<usize>,
    visited: &mut HashSet<usize>,
    path: &mut Vec<usize>,
    Ghost(depth): Ghost<nat>,
) -> (found: bool)
    requires
        members_in_range(lists(adj@), scc_set@),
        node < adj@.len(),
        !old(visited)@.contains(node),
        forall|x: usize| #[trigger] old(visited)@.contains(x) ==> x < adj@.len(),
        forall|i: int| 0 <= i < old(path)@.len() ==> old(visited)@.contains(#[trigger] old(path)@[i]),
        trail(lists(adj@), scc_set@, start, old(path)@.push(node)),
        depth + old(visited)@.len() >= adj@.len(),
    ensures
        ({
            let quest = seek(lists(adj@), scc_set@, start, old(path)@, old(visited)@, node, depth);
            if found {
                quest.way == Some(final(path)@)
            } else {
                quest == (Quest { way: None, visited: final(visited)@ })
            }
        }),
        found ==> is_cycle(lists(adj@), scc_set@, final(path)@) && final(path)@[0] == start,
        !found ==> {
            &&& final(path)@ == old(path)@
            &&& old(visited)@.subset_of(final(visited)@)
            &&& final(visited)@.contains(node)
            &&& forall|x: usize| #[trigger] final(visited)@.contains(x) ==> x < adj@.len()
            &&& exhausted(lists(adj@), scc_set@, start, old(visited)@, final(visited)@)
        },
    decreases adj@.len() - old(visited)@.len(),
{
    let ghost g = lists(adj@);
    let ghost before = visited@;
    let ghost way = path@;
    proof {
        bounded_set(before, g.len());
    }
    path.push(node);
    visited.insert(node);
    assert(way.push(node)[way.len() as int] == node);
    proof {
        let inside = before.insert(node);
        assert forall|x: usize| #[trigger] inside.contains(x) implies x < g.len() by {}
        bounded_set(inside, g.len());
        assert(inside.len() == before.len() + 1);
    }
    let ghost deeper = (depth - 1) as nat;
    let ghost targets = g[node as int];
    let ghost inside = before.insert(node);
    let mut k: usize = 0;
    while k < adj[node].len()
        invariant
            g == lists(adj@),
            node < adj@.len(),
            adj@[node as int]@ == g[node as int],
            before == old(visited)@,
            before.finite(),
            way == old(path)@,
            targets == g[node as int],
            inside == before.insert(node),
            depth > 0,
            deeper == depth - 1,
            deeper + inside.len() >= adj@.len(),
            seek_along(g, scc_set@, start, path@, inside, targets, k as nat, deeper) == (Quest { way: None, visited: visited@ }),
            seek(g, scc_set@, start, way, before, node, depth) == seek_along(
                g,
                scc_set@,
                start,
                path@,
                inside,
                targets,
                targets.len(),
                deeper,
            ),
            k <= g[node as int].len(),
            members_in_range(g, scc_set@),
            path@ == way.push(node),
            trail(g, scc_set@, start, path@),
            forall|i: int| 0 <= i < path@.len() ==> visited@.contains(#[trigger] path@[i]),
            forall|x: usize| #[trigger] visited@.contains(x) ==> x < adj@.len(),
            !before.contains(node),
            before.insert(node).subset_of(visited@),
            exhausted(g, scc_set@, start, before.insert(node), visited@),
            forall|q: int| 0 <= q < k && scc_set@.contains(#[trigger] g[node as int][q]) ==> visited@.contains(g[node as int][q]),
            forall|q: int| 0 <= q < k && scc_set@.contains(start) && node != start ==> #[trigger] g[node as int][q] != start,
        decreases g[node as int].len() - k,
    {
        let next: usize = adj[node][k];
        assert(next == g[node as int][k as int]);
        assert(edge(g, node, next));
        let ghost last = path@.len() - 1;
        let ghost here = path@;
        let ghost tried = visited@;
        let ghost next_quest = seek_along(g, scc_set@, start, here, inside, targets, (k + 1) as nat, deeper);
        assert(next_quest == if !scc_set@.contains(next) {
            Quest { way: None, visited: tried }
        } else if next == start && here.len() > 1 {
            Quest { way: Some(here), visited: tried }
        } else if tried.contains(next) {
            Quest { way: None, visited: tried }
        } else {
            seek(g, scc_set@, start, here, tried, next, deeper)
        });
        if scc_set.contains(&next) {
            if next == start && path.len() > 1 {
                assert(is_cycle(g, scc_set@, path@)) by {
                    assert forall|i: int| 0 <= i < path@.len() implies scc_set@.contains(#[trigger] path@[i]) by {}
                }
                proof {
                    found_is_final(g, scc_set@, start, here, inside, targets, (k + 1) as nat, targets.len(), deeper);
                }
                return true;
            }
            if !visited.contains(&next) {
                let ghost mid = visited@;
                let ghost longer = path@.push(next);
                proof {
                    assert(trail(g, scc_set@, start, longer)) by {
                        assert forall|i: int| 0 <= i < longer.len() - 1 implies #[trigger] step(g, longer, i) by {
                            if i < last {
                                assert(step(g, path@, i));
                            }
                        }
                        assert forall|i: int| 0 <= i < path@.len() implies #[trigger] path@[i] != next by {
                            assert(visited@.contains(path@[i]));
                        }
                    }
                    bounded_set(mid, g.len());
                    vstd::set_lib::lemma_len_subset(before.insert(node), mid);
                }
                if dfs_cycle(next, start, adj, scc_set, visited, path, Ghost(deeper)) {
                    proof {
                        found_is_final(g, scc_set@, start, here, inside, targets, (k + 1) as nat, targets.len(), deeper);
                    }
                    return true;
                }
                proof {
                    assert forall|x: usize, y: usize|
                        visited@.contains(x) && !before.insert(node).contains(x) && scc_set@.contains(y) && #[trigger] edge(g, x, y)
                            implies visited@.contains(y) by {
                        if mid.contains(x) {
                            assert(mid.contains(y));
                        }
                    }
                    assert forall|x: usize|
                        #[trigger] visited@.contains(x) && !before.insert(node).contains(x) && x != start && scc_set@.contains(start)
                            implies !edge(g, x, start) by {
                        if mid.contains(x) {
                            assert(!edge(g, x, start));
                        }
                    }
                }
            }
        }
        proof {
            if next == start && scc_set@.contains(start) && node != start {
                assert(path@[0] == start);
                assert(path@[last] == node);
                assert(false);
            }
        }
        k += 1;
    }
    proof {
        assert forall|x: usize, y: usize|
            visited@.contains(x) && !before.contains(x) && scc_set@.contains(y) && #[trigger] edge(g, x, y)
                implies visited@.contains(y) by {
            if x == node {
                let q = choose|q: int| 0 <= q < g[node as int].len() && g[node as int][q] == y;
                assert(visited@.contains(g[node as int][q]));
            }
        }
        assert forall|x: usize|
            #[trigger] visited@.contains(x) && !before.contains(x) && x != start && scc_set@.contains(start)
                implies !edge(g, x, start) by {
            if x == node && edge(g, node, start) {
                let q = choose|q: int| 0 <= q < g[node as int].len() && g[node as int][q] == start;
                assert(g[node as int][q] != start);
            }
        }
    }
    path.pop();
    assert(path@ =~= way);
    false
}

/// If the search from `start` visited all it could and found no way back, `start` does not
/// circle back.
proof fn no_way_back(g: Seq<Seq<usize>>, s: Set<usize>, start: usize, visited: Set<usize>)
    requires
        visited.contains(start),
        exhausted(g, s, start, Set::empty(), visited),
    ensures
        !circles_back(g, s, start),
{
    if circles_back(g, s, start) {
        let v = choose|v: usize| v != start && #[trigger] reach_within(g, s, start, v) && reach_within(g, s, v, start);
        let there = choose|p: Seq<usize>| #[trigger] connects_within(g, s, p, start, v);
        let back = choose|p: Seq<usize>| #[trigger] connects_within(g, s, p, v, start);
        if !visited.contains(v) {
            let i = path_leaves(g, there, start, v, visited);
            assert(s.contains(there[i + 1]));
        }
        let away = Set::new(|x: usize| visited.contains(x) && x != start);
        let i = path_leaves(g, back, v, start, away);
        assert(s.contains(back[i + 1]));
        assert(visited.contains(back[i + 1]));
        assert(back[i + 1] == start);
    }
}

/// A simple cycle inside `scc_set` that starts at the first vertex of `scc`: the one that a
/// depth-first search finds first.
pub fn find_cycle_in_scc(adj: &[Vec<usize>], scc: &[usize], scc_set: &HashSet<usize>) -> (found: Option<Vec<usize>>)
    requires
        members_in_range(lists(adj@), scc_set@),
        scc@.len() > 0 ==> scc@[0] < adj@.len(),
    ensures
        found is Some <==> scc@.len() > 0 && circles_back(lists(adj@), scc_set@, scc@[0]),
        found matches Some(c) ==> is_cycle(lists(adj@), scc_set@, c@) && c@[0] == scc@[0] && first_cycle(
            lists(adj@),
            scc_set@,
            scc@[0],
        ) == Some(c@),
{
    if scc.len() == 0 {
        return None;
    }
    let start: usize = scc[0];
    let mut visited: HashSet<usize> = HashSet::new();
    let mut path: Vec<usize> = Vec::new();
    assert(path@.push(start) =~= seq![start]);
    if dfs_cycle(start, start, adj, scc_set, &mut visited, &mut path, Ghost(adj@.len())) {
        proof {
            cycle_circles_back(lists(adj@), scc_set@, path@);
        }
        Some(path)
    } else {
        proof {
            no_way_back(lists(adj@), scc_set@, start, visited@);
        }
        None
    }
}

/// `c` is a list of two or more different vertices of `s` that begins with `start`, with an edge
/// from each to the next and from the last to the first.
pub open spec fn is_round_trip(g: Seq<Seq<usize>>, s: Set<usize>, start: usize, c: Seq<usize>) -> bool {
    &&& c.len() >= 2
    &&& c[0] == start
    &&& forall|i: int, j: int| 0 <= i < j < c.len() ==> #[trigger] c[i] != #[trigger] c[j]
    &&& forall|i: int| 0 <= i < c.len() ==> s.contains(#[trigger] c[i]) && c[i] < g.len()
    &&& forall|i: int| 0 <= i < c.len() - 1 ==> g[(#[trigger] c[i]) as int].contains(c[i + 1])
    &&& g[c[c.len() - 1] as int].contains(c[0])
}

/// In the list, `a` is found before any `b`.
pub open spec fn comes_sooner(list: Seq<usize>, a: usize, b: usize) -> bool {
    exists|x: int| 0 <= x < list.len() && #[trigger] list[x] == a && forall|z: int| 0 <= z <= x ==> #[trigger] list[z] != b
}

/// Where the two round trips part, the edge that `c` takes stands in front of the one that `d`
/// takes.
pub open spec fn parts_sooner(g: Seq<Seq<usize>>, c: Seq<usize>, d: Seq<usize>) -> bool {
    exists|i: int|
        0 <= i < c.len() && i < d.len() && (forall|x: int| 0 <= x <= i ==> #[trigger] c[x] == d[x]) && #[trigger] comes_sooner(
            g[c[i] as int],
            c.push(c[0])[i + 1],
            d.push(d[0])[i + 1],
        )
}

/// Cycles are round trips.
proof fn cycles_are_round_trips(g: Seq<Seq<usize>>, s: Set<usize>, c: Seq<usize>)
    requires
        c.len() > 0,
    ensures
        is_cycle(g, s, c) <==> is_round_trip(g, s, c[0], c),
{
    if is_cycle(g, s, c) {
        assert forall|i: int| 0 <= i < c.len() implies s.contains(#[trigger] c[i]) && c[i] < g.len() by {
            if i < c.len() - 1 {
                assert(step(g, c, i));
            }
        }
        assert forall|i: int| 0 <= i < c.len() - 1 implies g[(#[trigger] c[i]) as int].contains(c[i + 1]) by {
            assert(step(g, c, i));
        }
    }
    if is_round_trip(g, s, c[0], c) {
        assert forall|i: int| 0 <= i < c.len() - 1 implies #[trigger] step(g, c, i) by {
            assert(g[c[i] as int].contains(c[i + 1]));
        }
        assert(c[c.len() - 1] < g.len());
    }
}

/// `p` is a front part of `d`.
spec fn is_front(p: Seq<usize>, d: Seq<usize>) -> bool {
    p.len() <= d.len() && forall|i: int| 0 <= i < p.len() ==> #[trigger] p[i] == d[i]
}

/// What was visited off the path leads, inside `s`, only to what was visited, and not to `start`.
spec fn is_dead(g: Seq<Seq<usize>>, s: Set<usize>, start: usize, p: Seq<usize>, visited: Set<usize>) -> bool {
    &&& visited.finite()
    &&& forall|x: usize| #[trigger] visited.contains(x) ==> x < g.len()
    &&& forall|i: int| 0 <= i < p.len() ==> visited.contains(#[trigger] p[i])
    &&& forall|x: usize, y: usize|
        visited.contains(x) && !p.contains(x) && x != start && s.contains(y) && #[trigger] edge(g, x, y) ==> visited.contains(y) && y != start
}

/// No cycle goes on from the path to a vertex that was visited.
proof fn dead_end(g: Seq<Seq<usize>>, s: Set<usize>, start: usize, p: Seq<usize>, visited: Set<usize>, d: Seq<usize>, i: int)
    requires
        is_dead(g, s, start, p, visited),
        is_cycle(g, s, d),
        d[0] == start,
        p.len() > 0,
        is_front(p, d),
        p.len() <= i < d.len(),
    ensures
        !visited.contains(d[i]),
    decreases d.len() - i,
{
    assert(!p.contains(d[i])) by {
        if p.contains(d[i]) {
            let k = choose|k: int| 0 <= k < p.len() && p[k] == d[i];
            assert(d[k] == d[i]);
        }
    }
    assert(d[i] != d[0]);
    if i + 1 < d.len() {
        assert(step(g, d, i));
        assert(s.contains(d[i + 1]));
        assert(edge(g, d[i], d[i + 1]));
        dead_end(g, s, start, p, visited, d, i + 1);
    } else {
        assert(s.contains(d[0]));
        assert(edge(g, d[i], start));
    }
}

/// `c` is a cycle that goes on from `p`, and where another such cycle parts from it, `c` takes the
/// edge in front.
spec fn is_soonest(g: Seq<Seq<usize>>, s: Set<usize>, start: usize, p: Seq<usize>, c: Seq<usize>) -> bool {
    &&& is_cycle(g, s, c)
    &&& c[0] == start
    &&& is_front(p, c)
    &&& forall|d: Seq<usize>| #[trigger] is_cycle(g, s, d) && d[0] == start && is_front(p, d) ==> d == c || parts_sooner(g, c, d)
}

proof fn seek_finds_soonest(g: Seq<Seq<usize>>, s: Set<usize>, start: usize, path: Seq<usize>, visited: Set<usize>, node: usize, depth: nat)
    requires
        members_in_range(g, s),
        node < g.len(),
        !visited.contains(node),
        is_dead(g, s, start, path, visited),
        trail(g, s, start, path.push(node)),
        depth + visited.len() >= g.len(),
    ensures
        ({
            let quest = seek(g, s, start, path, visited, node, depth);
            match quest.way {
                Some(c) => is_soonest(g, s, start, path.push(node), c),
                None => is_dead(g, s, start, path, quest.visited) && visited.insert(node).subset_of(quest.visited) && forall|d: Seq<usize>|
                    !(#[trigger] is_cycle(g, s, d) && d[0] == start && is_front(path.push(node), d)),
            }
        }),
    decreases depth, 0nat,
{
    let p = path.push(node);
    let inside = visited.insert(node);
    let targets = g[node as int];
    assert forall|x: usize| #[trigger] inside.contains(x) implies x < g.len() by {}
    bounded_set(inside, g.len());
    assert(inside.len() == visited.len() + 1);
    assert(depth > 0);
    assert(p[path.len() as int] == node);
    assert(is_dead(g, s, start, p, inside)) by {
        assert forall|x: usize| inside.contains(x) && !p.contains(x) implies visited.contains(x) && !path.contains(x) by {
            if x == node {
                assert(p.contains(node));
            }
            if path.contains(x) {
                let k = choose|k: int| 0 <= k < path.len() && path[k] == x;
                assert(p[k] == x);
            }
        }
        assert forall|i: int| 0 <= i < p.len() implies inside.contains(#[trigger] p[i]) by {
            if i < path.len() {
                assert(visited.contains(path[i]));
            }
        }
    }
    seek_along_finds_soonest(g, s, start, p, inside, node, targets.len(), (depth - 1) as nat);
    let quest = seek(g, s, start, path, visited, node, depth);
    assert(quest == seek_along(g, s, start, p, inside, targets, targets.len(), (depth - 1) as nat));
    if quest.way is None {
        assert(is_dead(g, s, start, path, quest.visited)) by {
            assert forall|i: int| 0 <= i < path.len() implies quest.visited.contains(#[trigger] path[i]) by {
                assert(p[i] == path[i]);
                assert(quest.visited.contains(p[i]));
            }
            assert forall|x: usize, y: usize|
                quest.visited.contains(x) && !path.contains(x) && x != start && s.contains(y) && #[trigger] edge(g, x, y)
                    implies quest.visited.contains(y) && y != start by {
                if x == node {
                    let k = choose|k: int| 0 <= k < targets.len() && targets[k] == y;
                    assert(quest.visited.contains(targets[k]));
                    assert(p[0] == start);
                    assert(p.len() > 1);
                } else if p.contains(x) {
                    let k = choose|k: int| 0 <= k < p.len() && p[k] == x;
                    assert(path[k] == x);
                }
            }
        }
        assert forall|d: Seq<usize>| !(#[trigger] is_cycle(g, s, d) && d[0] == start && is_front(p, d)) by {
            if is_cycle(g, s, d) && d[0] == start && is_front(p, d) {
                let i = p.len() - 1;
                assert(d[i] == p[i]);
                if d.len() > p.len() {
                    assert(step(g, d, i));
                    let k = choose|k: int| 0 <= k < targets.len() && targets[k] == d[i + 1];
                    assert(s.contains(d[i + 1]));
                    assert(quest.visited.contains(targets[k]));
                    dead_end(g, s, start, p, quest.visited, d, i + 1);
                } else {
                    let k = choose|k: int| 0 <= k < targets.len() && targets[k] == start;
                    assert(s.contains(d[0]));
                    assert(targets[k] != start);
                }
            }
        }
    }
}

proof fn seek_along_finds_soonest(
    g: Seq<Seq<usize>>,
    s: Set<usize>,
    start: usize,
    p: Seq<usize>,
    inside: Set<usize>,
    node: usize,
    k: nat,
    depth: nat,
)
    requires
        members_in_range(g, s),
        node < g.len(),
        k <= g[node as int].len(),
        p.len() > 0,
        p[p.len() - 1] == node,
        is_dead(g, s, start, p, inside),
        trail(g, s, start, p),
        depth + inside.len() >= g.len(),
    ensures
        ({
            let targets = g[node as int];
            let quest = seek_along(g, s, start, p, inside, targets, k, depth);
            match quest.way {
                Some(c) => is_soonest(g, s, start, p, c),
                None => {
                    &&& is_dead(g, s, start, p, quest.visited)
                    &&& inside.subset_of(quest.visited)
                    &&& forall|q: int| 0 <= q < k && s.contains(#[trigger] targets[q]) ==> quest.visited.contains(targets[q])
                    &&& forall|q: int| 0 <= q < k && s.contains(start) && p.len() > 1 ==> #[trigger] targets[q] != start
                },
            }
        }),
    decreases depth, k,
{
    let targets = g[node as int];
    if k > 0 {
        let so_far = seek_along(g, s, start, p, inside, targets, (k - 1) as nat, depth);
        seek_along_finds_soonest(g, s, start, p, inside, node, (k - 1) as nat, depth);
        let next = targets[k - 1];
        let last = p.len() - 1;
        if so_far.way is None && s.contains(next) {
            let seen = so_far.visited;
            assert(edge(g, node, next));
            assert(g[node as int][k - 1] < g.len());
            if next == start && p.len() > 1 {
                assert(is_cycle(g, s, p)) by {
                    assert forall|i: int| 0 <= i < p.len() implies s.contains(#[trigger] p[i]) by {}
                }
                assert forall|d: Seq<usize>| #[trigger] is_cycle(g, s, d) && d[0] == start && is_front(p, d) implies d == p || parts_sooner(
                    g,
                    p,
                    d,
                ) by {
                    if d.len() == p.len() {
                        assert(d =~= p);
                    } else {
                        goes_later(g, s, start, p, seen, node, (k - 1) as nat, d);
                        let y = d[last + 1];
                        assert(d[last + 1] != d[0]);
                        assert forall|z: int| 0 <= z <= k - 1 implies #[trigger] targets[z] != y by {}
                        assert(targets[k - 1] == start);
                        assert(comes_sooner(g[p[last] as int], p.push(p[0])[last + 1], d.push(d[0])[last + 1]));
                    }
                }
            } else if !seen.contains(next) {
                let longer = p.push(next);
                assert(trail(g, s, start, longer)) by {
                    assert forall|i: int| 0 <= i < longer.len() - 1 implies #[trigger] step(g, longer, i) by {
                        if i < last {
                            assert(step(g, p, i));
                        }
                    }
                    assert forall|i: int| 0 <= i < p.len() implies #[trigger] p[i] != next by {
                        assert(seen.contains(p[i]));
                    }
                }
                vstd::set_lib::lemma_len_subset(inside, seen);
                seek_finds_soonest(g, s, start, p, seen, next, depth);
                let quest = seek(g, s, start, p, seen, next, depth);
                if quest.way is Some {
                    let c = quest.way->0;
                    assert(longer[p.len() as int] == next);
                    assert(c[last + 1] == longer[last + 1]);
                    assert forall|i: int| 0 <= i < p.len() implies #[trigger] p[i] == c[i] by {
                        assert(longer[i] == c[i]);
                    }
                    assert forall|d: Seq<usize>| #[trigger] is_cycle(g, s, d) && d[0] == start && is_front(p, d) implies d == c || parts_sooner(
                        g,
                        c,
                        d,
                    ) by {
                        let y = d.push(d[0])[last + 1];
                        if d.len() > p.len() && d[last + 1] == next {
                            assert forall|i: int| 0 <= i < longer.len() implies #[trigger] longer[i] == d[i] by {
                                if i < p.len() {
                                    assert(p[i] == d[i]);
                                }
                            }
                            assert(is_front(longer, d));
                        } else {
                            goes_later(g, s, start, p, seen, node, (k - 1) as nat, d);
                            assert(y != next);
                            assert forall|z: int| 0 <= z <= k - 1 implies #[trigger] targets[z] != y by {}
                            assert(c.push(c[0])[last + 1] == next);
                            assert(c[last] == p[last]);
                            assert forall|x: int| 0 <= x <= last implies #[trigger] c[x] == d[x] by {
                                assert(p[x] == c[x] && p[x] == d[x]);
                            }
                            assert(comes_sooner(g[c[last] as int], c.push(c[0])[last + 1], d.push(d[0])[last + 1]));
                        }
                    }
                } else {
                    assert(inside.subset_of(quest.visited));
                    assert forall|q: int| 0 <= q < k && s.contains(#[trigger] targets[q]) implies quest.visited.contains(targets[q]) by {
                        if q < k - 1 {
                            assert(seen.contains(targets[q]));
                        }
                    }
                    assert forall|q: int| 0 <= q < k && s.contains(start) && p.len() > 1 implies #[trigger] targets[q] != start by {
                        if q < k - 1 {
                            assert(targets[q] != start);
                        }
                    }
                }
            } else {
                assert forall|q: int| 0 <= q < k && s.contains(start) && p.len() > 1 implies #[trigger] targets[q] != start by {
                    if q < k - 1 {
                        assert(targets[q] != start);
                    }
                }
            }
        }
    }
}

/// A cycle that goes on from the path takes none of the edges that were tried.
proof fn goes_later(g: Seq<Seq<usize>>, s: Set<usize>, start: usize, p: Seq<usize>, seen: Set<usize>, node: usize, k: nat, d: Seq<usize>)
    requires
        node < g.len(),
        k <= g[node as int].len(),
        p.len() > 0,
        is_dead(g, s, start, p, seen),
        forall|q: int| 0 <= q < k && s.contains(#[trigger] g[node as int][q]) ==> seen.contains(g[node as int][q]),
        forall|q: int| 0 <= q < k && s.contains(start) && p.len() > 1 ==> #[trigger] g[node as int][q] != start,
        is_cycle(g, s, d),
        d[0] == start,
        is_front(p, d),
    ensures
        forall|z: int| 0 <= z < k ==> #[trigger] g[node as int][z] != d.push(d[0])[p.len() as int],
{
    let y = d.push(d[0])[p.len() as int];
    assert forall|z: int| 0 <= z < k implies #[trigger] g[node as int][z] != y by {
        if g[node as int][z] == y {
            if d.len() > p.len() {
                assert(y == d[p.len() as int]);
                assert(s.contains(d[p.len() as int]));
                assert(seen.contains(g[node as int][z]));
                dead_end(g, s, start, p, seen, d, p.len() as int);
            } else {
                assert(d.len() == p.len());
                assert(s.contains(d[0]));
            }
        }
    }
}

/// The cycle that is found first is a round trip from `start` inside `s`, and where any other such
/// round trip parts from it, it takes the edge that stands in front. None is found only if there
/// is no round trip.
pub proof fn first_cycle_is_soonest(g: Seq<Seq<usize>>, s: Set<usize>, start: usize)
    requires
        members_in_range(g, s),
        start < g.len(),
    ensures
        match first_cycle(g, s, start) {
            Some(c) => is_round_trip(g, s, start, c) && forall|d: Seq<usize>| #[trigger]
                is_round_trip(g, s, start, d) ==> d == c || parts_sooner(g, c, d),
            None => forall|d: Seq<usize>| !#[trigger] is_round_trip(g, s, start, d),
        },
{
    let none = Seq::<usize>::empty();
    assert(none.push(start) =~= seq![start]);
    assert(trail(g, s, start, none.push(start)));
    seek_finds_soonest(g, s, start, none, Set::empty(), start, g.len());
    assert forall|d: Seq<usize>| #[trigger] is_round_trip(g, s, start, d) implies is_cycle(g, s, d) && d[0] == start && is_front(
        none.push(start),
        d,
    ) by {
        cycles_are_round_trips(g, s, d);
    }
    match first_cycle(g, s, start) {
        Some(c) => {
            cycles_are_round_trips(g, s, c);
        },
        None => {
            assert forall|d: Seq<usize>| !#[trigger] is_round_trip(g, s, start, d) by {
                if is_round_trip(g, s, start, d) {
                    assert(is_cycle(g, s, d) && d[0] == start && is_front(none.push(start), d));
                }
            }
        },
    }
}

/// A vertex circles back inside a set exactly if there is a round trip from it there.
pub proof fn circling_is_a_round_trip(g: Seq<Seq<usize>>, s: Set<usize>, start: usize)
    requires
        members_in_range(g, s),
        start < g.len(),
    ensures
        circles_back(g, s, start) <==> exists|c: Seq<usize>| #[trigger] is_round_trip(g, s, start, c),
{
    first_cycle_is_soonest(g, s, start);
    if exists|c: Seq<usize>| #[trigger] is_round_trip(g, s, start, c) {
        let c = choose|c: Seq<usize>| #[trigger] is_round_trip(g, s, start, c);
        cycles_are_round_trips(g, s, c);
        cycle_circles_back(g, s, c);
    }
    if circles_back(g, s, start) && first_cycle(g, s, start) is None {
        let none = Seq::<usize>::empty();
        assert(none.push(start) =~= seq![start]);
        assert(trail(g, s, start, none.push(start)));
        let visited = seek(g, s, start, none, Set::empty(), start, g.len()).visited;
        seek_finds_soonest(g, s, start, none, Set::empty(), start, g.len());
        let v = choose|v: usize| v != start && #[trigger] reach_within(g, s, start, v) && reach_within(g, s, v, start);
        let there = choose|p: Seq<usize>| #[trigger] connects_within(g, s, p, start, v);
        let back = choose|p: Seq<usize>| #[trigger] connects_within(g, s, p, v, start);
        start_is_explored(g, s, start);
        if !visited.contains(v) {
            let i = path_leaves(g, there, start, v, visited);
            assert(s.contains(there[i + 1]));
            assert(edge(g, there[i], there[i + 1]));
        }
        let away = Set::new(|x: usize| visited.contains(x) && x != start);
        let i = path_leaves(g, back, v, start, away);
        assert(s.contains(back[i + 1]));
        assert(edge(g, back[i], back[i + 1]));
    }
}

/// A search that finds nothing has visited what the edges of its start lead to.
proof fn start_is_explored(g: Seq<Seq<usize>>, s: Set<usize>, start: usize)
    requires
        members_in_range(g, s),
        start < g.len(),
        first_cycle(g, s, start) is None,
    ensures
        ({
            let visited = seek(g, s, start, Seq::empty(), Set::empty(), start, g.len()).visited;
            &&& visited.contains(start)
            &&& forall|y: usize| s.contains(y) && #[trigger] edge(g, start, y) ==> visited.contains(y)
        }),
{
    let none = Seq::<usize>::empty();
    let p = none.push(start);
    let inside = Set::<usize>::empty().insert(start);
    assert(p =~= seq![start]);
    assert(p[0] == start);
    assert(is_dead(g, s, start, p, inside)) by {
        assert forall|x: usize| inside.contains(x) implies x == start by {}
    }
    assert(inside.len() == 1);
    let targets = g[start as int];
    seek_along_finds_soonest(g, s, start, p, inside, start, targets.len(), (g.len() - 1) as nat);
    let quest = seek(g, s, start, none, Set::empty(), start, g.len());
    assert(quest == seek_along(g, s, start, p, inside, targets, targets.len(), (g.len() - 1) as nat));
    assert(inside.contains(start));
    assert forall|y: usize| s.contains(y) && #[trigger] edge(g, start, y) implies quest.visited.contains(y) by {
        let k = choose|k: int| 0 <= k < targets.len() && targets[k] == y;
        assert(quest.visited.contains(targets[k]));
    }
}

} // verus!
