//! Depth-first walks through a directed graph.
use vstd::prelude::*;

use crate::digraph::{distinct_below, edge, reach, reach_reflexive, reach_then_edge, reach_transitive, vertices_in_range};
use crate::sequences::pushed_contains;

verus! {

/// A depth-first walk so far: the vertices in the order in which they were met, and in the order
/// in which they were left for good.
pub struct Walk {
    pub met: Seq<usize>,
    pub left: Seq<usize>,
}

/// The walk goes on to `v`: if it is new, the walk meets it, follows its edges and leaves it.
/// The walk goes no deeper than `depth`; as deep as there are vertices is deep enough.
pub open spec fn walk_to(g: Seq<Seq<usize>>, w: Walk, v: usize, depth: nat) -> Walk
    decreases depth, 0nat,
{
    if depth == 0 || w.met.contains(v) {
        w
    } else {
        let entered = Walk { met: w.met.push(v), left: w.left };
        let inner = walk_along(g, entered, g[v as int], g[v as int].len(), (depth - 1) as nat);
        Walk { met: inner.met, left: inner.left.push(v) }
    }
}

/// The walk goes on to the first `k` of the targets, one after another.
pub open spec fn walk_along(g: Seq<Seq<usize>>, w: Walk, targets: Seq<usize>, k: nat, depth: nat) -> Walk
    decreases depth, k,
{
    if k == 0 {
        w
    } else {
        walk_to(g, walk_along(g, w, targets, (k - 1) as nat, depth), targets[k - 1], depth)
    }
}

/// The numbers below `n`.
pub open spec fn numbers_below(n: nat) -> Seq<usize> {
    Seq::new(n, |i: int| i as usize)
}

/// The walk before its first step.
pub open spec fn no_walk() -> Walk {
    Walk { met: Seq::empty(), left: Seq::empty() }
}

/// The walk through the first `n` vertices that starts anew at the smallest number not yet met.
pub open spec fn full_walk(g: Seq<Seq<usize>>, n: nat) -> Walk {
    walk_along(g, no_walk(), numbers_below(n), n, n)
}

/// `a` stands in front of `b`.
pub open spec fn in_front(s: Seq<usize>, a: usize, b: usize) -> bool {
    exists|i: int, j: int| 0 <= i < j < s.len() && #[trigger] s[i] == a && #[trigger] s[j] == b
}

/// No vertex is met or left twice, and only vertices that were met are left.
pub open spec fn is_sound(w: Walk) -> bool {
    &&& w.met.no_duplicates()
    &&& w.left.no_duplicates()
    &&& forall|v: usize| #[trigger] w.left.contains(v) ==> w.met.contains(v)
}

/// `later` goes on from `w`: nothing met is forgotten, and what is left since was new.
spec fn goes_on(w: Walk, later: Walk) -> bool {
    &&& is_sound(later)
    &&& forall|v: usize| #[trigger] w.met.contains(v) ==> later.met.contains(v)
    &&& forall|v: usize| #[trigger] later.left.contains(v) ==> w.left.contains(v) || !w.met.contains(v)
}

proof fn push_contains(s: Seq<usize>, x: usize)
    ensures
        forall|y: usize| #[trigger] s.push(x).contains(y) <==> s.contains(y) || x == y,
        s.no_duplicates() && !s.contains(x) ==> s.push(x).no_duplicates(),
{
    assert forall|y: usize| #[trigger] s.push(x).contains(y) <==> s.contains(y) || x == y by {
        pushed_contains(s, x, y);
    }
}

proof fn walk_to_goes_on(g: Seq<Seq<usize>>, w: Walk, v: usize, depth: nat)
    requires
        is_sound(w),
    ensures
        goes_on(w, walk_to(g, w, v, depth)),
    decreases depth, 0nat,
{
    if depth > 0 && !w.met.contains(v) {
        let entered = Walk { met: w.met.push(v), left: w.left };
        push_contains(w.met, v);
        assert(is_sound(entered));
        let inner = walk_along(g, entered, g[v as int], g[v as int].len(), (depth - 1) as nat);
        walk_along_goes_on(g, entered, g[v as int], g[v as int].len(), (depth - 1) as nat);
        push_contains(inner.left, v);
        assert(entered.met.contains(v));
        assert(!inner.left.contains(v)) by {
            assert(!w.left.contains(v));
        }
        let later = walk_to(g, w, v, depth);
        assert(later == (Walk { met: inner.met, left: inner.left.push(v) }));
        assert forall|x: usize| #[trigger] w.met.contains(x) implies later.met.contains(x) by {
            assert(entered.met.contains(x));
        }
        assert forall|x: usize| #[trigger] later.left.contains(x) implies (w.left.contains(x) || !w.met.contains(x))
            && later.met.contains(x) by {
            if x != v {
                assert(inner.left.contains(x));
                assert(entered.met.contains(x) <==> w.met.contains(x));
            }
        }
    }
}

proof fn walk_along_goes_on(g: Seq<Seq<usize>>, w: Walk, targets: Seq<usize>, k: nat, depth: nat)
    requires
        is_sound(w),
    ensures
        goes_on(w, walk_along(g, w, targets, k, depth)),
    decreases depth, k,
{
    if k > 0 {
        let before = walk_along(g, w, targets, (k - 1) as nat, depth);
        walk_along_goes_on(g, w, targets, (k - 1) as nat, depth);
        walk_to_goes_on(g, before, targets[k - 1], depth);
    }
}

/// The walk through a graph meets no vertex twice and leaves none twice.
pub proof fn full_walk_is_sound(g: Seq<Seq<usize>>, n: nat)
    ensures
        is_sound(full_walk(g, n)),
{
    walk_along_goes_on(g, no_walk(), numbers_below(n), n, n);
}

/// In a list without repetitions, standing in front goes one way only.
pub proof fn in_front_one_way(s: Seq<usize>, a: usize, b: usize)
    requires
        s.no_duplicates(),
        in_front(s, a, b),
    ensures
        !in_front(s, b, a),
{
    let (i, j) = choose|i: int, j: int| 0 <= i < j < s.len() && #[trigger] s[i] == a && #[trigger] s[j] == b;
    if in_front(s, b, a) {
        let (p, q) = choose|p: int, q: int| 0 <= p < q < s.len() && #[trigger] s[p] == b && #[trigger] s[q] == a;
        assert(i == q && j == p);
    }
}

/// `v` is not among the first `i` that were met.
pub open spec fn is_unmet(met: Seq<usize>, i: int, v: usize) -> bool {
    forall|x: int| 0 <= x < i ==> #[trigger] met[x] != v
}

/// When `i` vertices were met, all edges of the `j`-th lead to some of them.
pub open spec fn is_done(g: Seq<Seq<usize>>, met: Seq<usize>, i: int, j: int) -> bool {
    forall|k: int| 0 <= k < g[met[j] as int].len() ==> !is_unmet(met, i, #[trigger] g[met[j] as int][k])
}

/// The `i`-th vertex is met from the `j`-th, by its `k`-th edge: the first that leads to a vertex
/// not met yet, from the last vertex that has such edges.
pub open spec fn is_met_from(g: Seq<Seq<usize>>, met: Seq<usize>, i: int, j: int, k: int) -> bool {
    &&& 0 <= j < i
    &&& 0 <= k < g[met[j] as int].len()
    &&& g[met[j] as int][k] == met[i]
    &&& is_unmet(met, i, met[i])
    &&& forall|q: int| 0 <= q < k ==> !is_unmet(met, i, #[trigger] g[met[j] as int][q])
    &&& forall|later: int| j < later < i ==> #[trigger] is_done(g, met, i, later)
}

/// The `i`-th vertex is met anew: no edge leads on, and it is the smallest number not met yet.
pub open spec fn is_met_anew(g: Seq<Seq<usize>>, met: Seq<usize>, i: int) -> bool {
    &&& forall|j: int| 0 <= j < i ==> #[trigger] is_done(g, met, i, j)
    &&& is_unmet(met, i, met[i])
    &&& forall|v: usize| v < met[i] ==> !#[trigger] is_unmet(met, i, v)
}

/// `before` is the beginning of `now`.
spec fn is_begun(before: Seq<usize>, now: Seq<usize>) -> bool {
    before.len() <= now.len() && forall|x: int| 0 <= x < before.len() ==> #[trigger] now[x] == before[x]
}

/// From the vertex at `base` on, every vertex behind the first `from` is met from one at `base`
/// or behind.
spec fn is_met_below(g: Seq<Seq<usize>>, met: Seq<usize>, base: int, from: int) -> bool {
    forall|i: int| from <= i < met.len() ==> #[trigger] is_met_behind(g, met, base, i)
}

/// The `i`-th vertex is met from one at `base` or behind.
spec fn is_met_behind(g: Seq<Seq<usize>>, met: Seq<usize>, base: int, i: int) -> bool {
    exists|j: int, k: int| base <= j && #[trigger] is_met_from(g, met, i, j, k)
}

spec fn are_done_behind(g: Seq<Seq<usize>>, met: Seq<usize>, from: int) -> bool {
    forall|j: int| from <= j < met.len() ==> #[trigger] is_done(g, met, met.len() as int, j)
}

/// All were met once, are in range, and the depth is enough for the rest.
spec fn has_depth(n: nat, w: Walk, depth: nat) -> bool {
    &&& is_sound(w)
    &&& forall|x: int| 0 <= x < w.met.len() ==> (#[trigger] w.met[x]) < n
    &&& depth + w.met.len() >= n
}

/// What is met stays met, and what is done stays done, as more is met.
proof fn stays_met(g: Seq<Seq<usize>>, before: Seq<usize>, now: Seq<usize>, i: int)
    requires
        is_begun(before, now),
        0 <= i <= before.len(),
    ensures
        forall|v: usize| #[trigger] is_unmet(before, i, v) <==> is_unmet(now, i, v),
        forall|m: int, v: usize| i <= m && #[trigger] is_unmet(now, m, v) ==> is_unmet(before, i, v),
        forall|j: int| 0 <= j < before.len() ==> (#[trigger] is_done(g, before, i, j) <==> is_done(g, now, i, j)),
        forall|m: int, j: int| i <= m && 0 <= j < before.len() && is_done(g, before, i, j) ==> #[trigger] is_done(g, now, m, j),
{
    assert forall|v: usize| #[trigger] is_unmet(before, i, v) <==> is_unmet(now, i, v) by {
        if is_unmet(before, i, v) {
            assert forall|x: int| 0 <= x < i implies #[trigger] now[x] != v by {
                assert(before[x] != v);
            }
        }
        if is_unmet(now, i, v) {
            assert forall|x: int| 0 <= x < i implies #[trigger] before[x] != v by {
                assert(now[x] != v);
            }
        }
    }
    assert forall|m: int, v: usize| i <= m && #[trigger] is_unmet(now, m, v) implies is_unmet(before, i, v) by {
        assert forall|x: int| 0 <= x < i implies #[trigger] before[x] != v by {
            assert(now[x] != v);
        }
    }
    assert forall|j: int| 0 <= j < before.len() implies (#[trigger] is_done(g, before, i, j) <==> is_done(g, now, i, j)) by {
        assert(now[j] == before[j]);
        let out = g[before[j] as int];
        if is_done(g, before, i, j) {
            assert forall|k: int| 0 <= k < out.len() implies !is_unmet(now, i, #[trigger] out[k]) by {
                assert(!is_unmet(before, i, g[before[j] as int][k]));
            }
        }
        if is_done(g, now, i, j) {
            assert forall|k: int| 0 <= k < out.len() implies !is_unmet(before, i, #[trigger] out[k]) by {
                assert(!is_unmet(now, i, g[now[j] as int][k]));
            }
        }
    }
    assert forall|m: int, j: int| i <= m && 0 <= j < before.len() && is_done(g, before, i, j) implies #[trigger] is_done(g, now, m, j) by {
        assert(now[j] == before[j]);
        let out = g[now[j] as int];
        assert forall|k: int| 0 <= k < out.len() implies !is_unmet(now, m, #[trigger] out[k]) by {
            assert(!is_unmet(before, i, g[before[j] as int][k]));
        }
    }
}

/// How a vertex was met does not change as more is met.
proof fn stays_met_from(g: Seq<Seq<usize>>, before: Seq<usize>, now: Seq<usize>, i: int, j: int, k: int)
    requires
        is_begun(before, now),
        0 <= i < before.len(),
        is_met_from(g, before, i, j, k),
    ensures
        is_met_from(g, now, i, j, k),
{
    stays_met(g, before, now, i);
    assert(now[i] == before[i] && now[j] == before[j]);
    assert forall|later: int| j < later < i implies #[trigger] is_done(g, now, i, later) by {
        assert(is_done(g, before, i, later));
    }
    assert forall|q: int| 0 <= q < k implies !is_unmet(now, i, #[trigger] g[now[j] as int][q]) by {
        assert(!is_unmet(before, i, g[before[j] as int][q]));
    }
}

proof fn walk_to_meets(g: Seq<Seq<usize>>, n: nat, w: Walk, v: usize, depth: nat)
    requires
        vertices_in_range(g, n),
        has_depth(n, w, depth),
        v < n,
    ensures
        ({
            let later = walk_to(g, w, v, depth);
            &&& has_depth(n, later, depth)
            &&& is_begun(w.met, later.met)
            &&& w.met.contains(v) ==> later == w
            &&& !w.met.contains(v) ==> {
                &&& later.met.len() > w.met.len()
                &&& later.met[w.met.len() as int] == v
                &&& is_met_below(g, later.met, w.met.len() as int, (w.met.len() + 1) as int)
                &&& are_done_behind(g, later.met, w.met.len() as int)
            }
        }),
    decreases depth, 0nat,
{
    let later = walk_to(g, w, v, depth);
    walk_to_goes_on(g, w, v, depth);
    if !w.met.contains(v) {
        let entered = Walk { met: w.met.push(v), left: w.left };
        push_contains(w.met, v);
        distinct_below(entered.met, n);
        assert(depth > 0);
        let base = w.met.len() as int;
        let targets = g[v as int];
        walk_along_meets(g, n, entered, base, targets.len(), (depth - 1) as nat);
        let inner = walk_along(g, entered, targets, targets.len(), (depth - 1) as nat);
        assert(later.met == inner.met);
        assert forall|x: int| 0 <= x < w.met.len() implies #[trigger] later.met[x] == w.met[x] by {
            assert(inner.met[x] == entered.met[x]);
        }
        assert(later.met[base] == entered.met[base]);
        assert forall|j: int| base <= j < later.met.len() implies #[trigger] is_done(g, later.met, later.met.len() as int, j) by {
            if j == base {
                assert forall|k: int| 0 <= k < g[later.met[j] as int].len() implies !is_unmet(
                    later.met,
                    later.met.len() as int,
                    #[trigger] g[later.met[j] as int][k],
                ) by {
                    assert(!is_unmet(inner.met, inner.met.len() as int, targets[k]));
                }
            }
        }
    }
}

/// The walk along the edges of the vertex at `base`, which was met last before them.
proof fn walk_along_meets(g: Seq<Seq<usize>>, n: nat, w: Walk, base: int, k: nat, depth: nat)
    requires
        vertices_in_range(g, n),
        has_depth(n, w, depth),
        base == w.met.len() - 1,
        0 <= base,
        k <= g[w.met[base] as int].len(),
    ensures
        ({
            let targets = g[w.met[base] as int];
            let later = walk_along(g, w, targets, k, depth);
            &&& has_depth(n, later, depth)
            &&& is_begun(w.met, later.met)
            &&& is_met_below(g, later.met, base, base + 1)
            &&& are_done_behind(g, later.met, base + 1)
            &&& forall|q: int| 0 <= q < k ==> !is_unmet(later.met, later.met.len() as int, #[trigger] targets[q])
        }),
    decreases depth, k,
{
    let targets = g[w.met[base] as int];
    if k > 0 {
        let before = walk_along(g, w, targets, (k - 1) as nat, depth);
        walk_along_meets(g, n, w, base, (k - 1) as nat, depth);
        let t = targets[k - 1];
        assert(w.met[base] < n);
        assert(g[w.met[base] as int][k - 1] < n);
        walk_to_meets(g, n, before, t, depth);
        let later = walk_along(g, w, targets, k, depth);
        assert(later == walk_to(g, before, t, depth));
        let m = before.met.len() as int;
        stays_met(g, before.met, later.met, m);
        assert(before.met[base] == w.met[base]);
        assert(later.met[base] == w.met[base]);
        assert forall|x: int| 0 <= x < w.met.len() implies #[trigger] later.met[x] == w.met[x] by {
            assert(before.met[x] == w.met[x]);
        }
        if before.met.contains(t) {
            let x = choose|x: int| 0 <= x < before.met.len() && before.met[x] == t;
            assert(!is_unmet(later.met, later.met.len() as int, targets[k - 1]));
        } else {
            assert(later.met[m] == t);
            assert(is_unmet(before.met, m, t));
            assert(is_unmet(later.met, m, t));
            assert forall|q: int| 0 <= q < k - 1 implies !is_unmet(later.met, m, #[trigger] g[later.met[base] as int][q]) by {
                assert(!is_unmet(before.met, m, targets[q]));
            }
            assert forall|j: int| base < j < m implies #[trigger] is_done(g, later.met, m, j) by {
                assert(is_done(g, before.met, m, j));
            }
            assert(is_met_from(g, later.met, m, base, k - 1));
            assert forall|i: int| base + 1 <= i < later.met.len() implies #[trigger] is_met_behind(g, later.met, base, i) by {
                if i < m {
                    assert(is_met_behind(g, before.met, base, i));
                    let (j, q) = choose|j: int, q: int| base <= j && #[trigger] is_met_from(g, before.met, i, j, q);
                    stays_met_from(g, before.met, later.met, i, j, q);
                } else if i > m {
                    assert(is_met_behind(g, later.met, m, i));
                    let (j, q) = choose|j: int, q: int| m <= j && #[trigger] is_met_from(g, later.met, i, j, q);
                    assert(base <= j);
                }
            }
            assert forall|j: int| base + 1 <= j < later.met.len() implies #[trigger] is_done(g, later.met, later.met.len() as int, j) by {
                if j < m {
                    assert(is_done(g, before.met, m, j));
                }
            }
            assert(later.met[m] == targets[k - 1]);
        }
        assert forall|q: int| 0 <= q < k implies !is_unmet(later.met, later.met.len() as int, #[trigger] targets[q]) by {
            if q < k - 1 {
                assert(!is_unmet(before.met, m, targets[q]));
            }
        }
    }
}

proof fn full_walk_meets(g: Seq<Seq<usize>>, n: nat, k: nat)
    requires
        vertices_in_range(g, n),
        n <= usize::MAX + 1,
        k <= n,
    ensures
        ({
            let w = walk_along(g, no_walk(), numbers_below(n), k, n);
            &&& has_depth(n, w, n)
            &&& forall|i: int| 0 <= i < w.met.len() ==> #[trigger] is_met_anew(g, w.met, i) || exists|j: int, q: int| #[trigger]
                is_met_from(g, w.met, i, j, q)
            &&& are_done_behind(g, w.met, 0)
            &&& forall|v: usize| v < k ==> !#[trigger] is_unmet(w.met, w.met.len() as int, v)
        }),
    decreases k,
{
    let w = walk_along(g, no_walk(), numbers_below(n), k, n);
    if k == 0 {
        assert(is_sound(no_walk()));
    } else {
        let before = walk_along(g, no_walk(), numbers_below(n), (k - 1) as nat, n);
        full_walk_meets(g, n, (k - 1) as nat);
        let t = (k - 1) as usize;
        assert(numbers_below(n)[k - 1] == t);
        walk_to_meets(g, n, before, t, n);
        assert(w == walk_to(g, before, t, n));
        let m = before.met.len() as int;
        stays_met(g, before.met, w.met, m);
        if before.met.contains(t) {
            let x = choose|x: int| 0 <= x < before.met.len() && before.met[x] == t;
            assert(!is_unmet(w.met, m, t));
        } else {
            assert(w.met[m] == t);
            assert(is_unmet(before.met, m, t));
            assert forall|j: int| 0 <= j < m implies #[trigger] is_done(g, w.met, m, j) by {
                assert(is_done(g, before.met, m, j));
            }
            assert forall|v: usize| v < t implies !#[trigger] is_unmet(w.met, m, v) by {
                assert(!is_unmet(before.met, m, v));
            }
            assert(is_met_anew(g, w.met, m));
            assert forall|i: int| 0 <= i < w.met.len() implies #[trigger] is_met_anew(g, w.met, i) || exists|j: int, q: int| #[trigger]
                is_met_from(g, w.met, i, j, q) by {
                if i < m {
                    if is_met_anew(g, before.met, i) {
                        stays_met(g, before.met, w.met, i);
                        assert(w.met[i] == before.met[i]);
                        assert forall|j: int| 0 <= j < i implies #[trigger] is_done(g, w.met, i, j) by {
                            assert(is_done(g, before.met, i, j));
                        }
                        assert forall|v: usize| v < w.met[i] implies !#[trigger] is_unmet(w.met, i, v) by {
                            assert(!is_unmet(before.met, i, v));
                        }
                        assert(is_met_anew(g, w.met, i));
                    } else {
                        let (j, q) = choose|j: int, q: int| #[trigger] is_met_from(g, before.met, i, j, q);
                        stays_met_from(g, before.met, w.met, i, j, q);
                    }
                } else if i > m {
                    assert(is_met_behind(g, w.met, m, i));
                    let (j, q) = choose|j: int, q: int| m <= j && #[trigger] is_met_from(g, w.met, i, j, q);
                }
            }
            assert forall|j: int| 0 <= j < w.met.len() implies #[trigger] is_done(g, w.met, w.met.len() as int, j) by {
                if j < m {
                    assert(is_done(g, before.met, m, j));
                }
            }
        }
        assert forall|v: usize| v < k implies !#[trigger] is_unmet(w.met, w.met.len() as int, v) by {
            if v < t {
                assert(!is_unmet(before.met, m, v));
            } else if !before.met.contains(t) {
                assert(w.met[m] == t);
            }
        }
    }
}

/// The walk meets each of the first `n` vertices once. Each is met from the last vertex that has
/// an edge to one not met yet, by the first such edge; and if no vertex has one, it is the
/// smallest number not met yet.
pub proof fn walk_goes_depth_first(g: Seq<Seq<usize>>, n: nat)
    requires
        vertices_in_range(g, n),
        n <= usize::MAX + 1,
    ensures
        ({
            let met = full_walk(g, n).met;
            &&& met.len() == n
            &&& forall|i: int, j: int| 0 <= i < j < met.len() ==> #[trigger] met[i] != #[trigger] met[j]
            &&& forall|i: int| 0 <= i < met.len() ==> (#[trigger] met[i]) < n
            &&& forall|v: usize| v < n ==> #[trigger] met.contains(v)
            &&& forall|i: int| 0 <= i < met.len() ==> #[trigger] is_met_anew(g, met, i) || exists|j: int, k: int| #[trigger] is_met_from(g, met, i, j, k)
        }),
{
    full_walk_meets(g, n, n);
    let met = full_walk(g, n).met;
    assert forall|v: usize| v < n implies #[trigger] met.contains(v) by {
        assert(!is_unmet(met, met.len() as int, v));
    }
    distinct_below(met, n);
    all_numbers(met, n);
}

/// A list without repetitions that has all numbers below `n` is that long.
proof fn all_numbers(s: Seq<usize>, n: nat)
    requires
        s.no_duplicates(),
        n <= usize::MAX + 1,
        forall|v: usize| v < n ==> #[trigger] s.contains(v),
    ensures
        s.len() >= n,
    decreases n,
{
    if n > 0 {
        let v = (n - 1) as usize;
        assert(s.contains(v));
        let k = choose|k: int| 0 <= k < s.len() && #[trigger] s[k] == v;
        let t = s.remove(k);
        assert forall|u: usize| u < n - 1 implies #[trigger] t.contains(u) by {
            assert(s.contains(u));
            let i = choose|i: int| 0 <= i < s.len() && #[trigger] s[i] == u;
            assert(i != k);
            let j = if i < k { i } else { i - 1 };
            assert(t[j] == u);
        }
        assert(t.no_duplicates()) by {
            assert forall|i: int, j: int| 0 <= i < t.len() && 0 <= j < t.len() && i != j implies t[i] != t[j] by {
                let a = if i < k { i } else { i + 1 };
                let b = if j < k { j } else { j + 1 };
                assert(t[i] == s[a] && t[j] == s[b]);
            }
        }
        all_numbers(t, (n - 1) as nat);
    }
}

/// A vertex that is met after another and left before it can be reached from it.
spec fn is_nested(g: Seq<Seq<usize>>, w: Walk) -> bool {
    forall|u: usize, v: usize| #[trigger] in_front(w.met, u, v) && #[trigger] in_front(w.left, v, u) ==> reach(g, u, v)
}

/// `later` goes on from `w` with the same beginnings, and what is new can be reached from `v`.
spec fn leads_from(g: Seq<Seq<usize>>, w: Walk, later: Walk, v: usize) -> bool {
    &&& is_begun(w.met, later.met)
    &&& is_begun(w.left, later.left)
    &&& forall|x: usize| #[trigger] later.met.contains(x) && !w.met.contains(x) ==> reach(g, v, x)
}

proof fn walk_to_nests(g: Seq<Seq<usize>>, n: nat, w: Walk, v: usize, depth: nat)
    requires
        vertices_in_range(g, n),
        v < n,
        is_sound(w),
        is_nested(g, w),
    ensures
        is_nested(g, walk_to(g, w, v, depth)),
        leads_from(g, w, walk_to(g, w, v, depth), v),
    decreases depth, 0nat,
{
    let later = walk_to(g, w, v, depth);
    walk_to_goes_on(g, w, v, depth);
    if depth > 0 && !w.met.contains(v) {
        let entered = Walk { met: w.met.push(v), left: w.left };
        push_contains(w.met, v);
        let base = w.met.len() as int;
        let targets = g[v as int];
        assert(is_nested(g, entered)) by {
            assert forall|a: usize, b: usize| #[trigger] in_front(entered.met, a, b) && #[trigger] in_front(entered.left, b, a) implies reach(
                g,
                a,
                b,
            ) by {
                let (i, j) = choose|i: int, j: int| 0 <= i < j < entered.met.len() && #[trigger] entered.met[i] == a && #[trigger] entered.met[j] == b;
                let (p, q) = choose|p: int, q: int| 0 <= p < q < w.left.len() && #[trigger] w.left[p] == b && #[trigger] w.left[q] == a;
                assert(w.left.contains(w.left[p]));
                assert(w.met.contains(b));
                assert(j < base);
                assert(w.met[i] == a && w.met[j] == b);
                assert(in_front(w.met, a, b));
                assert(in_front(w.left, b, a));
            }
        }
        walk_along_nests(g, n, entered, v, targets.len(), (depth - 1) as nat);
        let inner = walk_along(g, entered, targets, targets.len(), (depth - 1) as nat);
        walk_along_goes_on(g, entered, targets, targets.len(), (depth - 1) as nat);
        assert(entered.met.contains(v));
        assert(later.met == inner.met && later.left == inner.left.push(v));
        reach_reflexive(g, v);
        assert forall|x: usize| #[trigger] later.met.contains(x) && !w.met.contains(x) implies reach(g, v, x) by {
            if x != v {
                assert(!entered.met.contains(x));
            }
        }
        assert forall|x: int| 0 <= x < w.met.len() implies #[trigger] later.met[x] == w.met[x] by {
            assert(inner.met[x] == entered.met[x]);
        }
        assert forall|x: int| 0 <= x < w.left.len() implies #[trigger] later.left[x] == w.left[x] by {
            assert(inner.left[x] == entered.left[x]);
        }
        assert forall|a: usize, b: usize| #[trigger] in_front(later.met, a, b) && #[trigger] in_front(later.left, b, a) implies reach(g, a, b) by {
            let (i, j) = choose|i: int, j: int| 0 <= i < j < later.met.len() && #[trigger] later.met[i] == a && #[trigger] later.met[j] == b;
            let (p, q) = choose|p: int, q: int| 0 <= p < q < later.left.len() && #[trigger] later.left[p] == b && #[trigger] later.left[q] == a;
            assert(inner.left[p] == b);
            if q < inner.left.len() {
                assert(inner.left[q] == a);
                assert(in_front(inner.left, b, a));
                assert(in_front(inner.met, a, b));
            } else {
                assert(a == v);
                assert(later.met[base] == v) by {
                    assert(inner.met[base] == entered.met[base]);
                }
                assert(i == base);
                assert(!w.met.contains(b)) by {
                    if w.met.contains(b) {
                        let y = choose|y: int| 0 <= y < w.met.len() && w.met[y] == b;
                        assert(later.met[y] == b);
                    }
                }
                assert(later.met.contains(b));
            }
        }
    }
}

proof fn walk_along_nests(g: Seq<Seq<usize>>, n: nat, w: Walk, v: usize, k: nat, depth: nat)
    requires
        vertices_in_range(g, n),
        v < n,
        k <= g[v as int].len(),
        is_sound(w),
        is_nested(g, w),
    ensures
        is_nested(g, walk_along(g, w, g[v as int], k, depth)),
        leads_from(g, w, walk_along(g, w, g[v as int], k, depth), v),
    decreases depth, k,
{
    let targets = g[v as int];
    if k > 0 {
        let before = walk_along(g, w, targets, (k - 1) as nat, depth);
        walk_along_nests(g, n, w, v, (k - 1) as nat, depth);
        walk_along_goes_on(g, w, targets, (k - 1) as nat, depth);
        let t = targets[k - 1];
        assert(g[v as int][k - 1] < n);
        walk_to_nests(g, n, before, t, depth);
        let later = walk_along(g, w, targets, k, depth);
        assert(later == walk_to(g, before, t, depth));
        assert forall|x: usize| #[trigger] later.met.contains(x) && !w.met.contains(x) implies reach(g, v, x) by {
            if !before.met.contains(x) {
                reach_reflexive(g, v);
                assert(edge(g, v, t));
                reach_then_edge(g, v, v, t);
                reach_transitive(g, v, t, x);
            }
        }
        assert forall|x: int| 0 <= x < w.met.len() implies #[trigger] later.met[x] == w.met[x] by {
            assert(before.met[x] == w.met[x]);
        }
        assert forall|x: int| 0 <= x < w.left.len() implies #[trigger] later.left[x] == w.left[x] by {
            assert(before.left[x] == w.left[x]);
        }
    }
}

proof fn full_walk_nests(g: Seq<Seq<usize>>, n: nat, k: nat)
    requires
        vertices_in_range(g, n),
        n <= usize::MAX + 1,
        k <= n,
    ensures
        is_nested(g, walk_along(g, no_walk(), numbers_below(n), k, n)),
    decreases k,
{
    if k > 0 {
        full_walk_nests(g, n, (k - 1) as nat);
        let before = walk_along(g, no_walk(), numbers_below(n), (k - 1) as nat, n);
        walk_along_goes_on(g, no_walk(), numbers_below(n), (k - 1) as nat, n);
        assert(numbers_below(n)[k - 1] == (k - 1) as usize);
        walk_to_nests(g, n, before, (k - 1) as usize, n);
    }
}

/// A vertex that the walk meets after another, at `i` and `j`, and leaves before it, can be
/// reached from it.
pub proof fn left_sooner_is_reached(g: Seq<Seq<usize>>, n: nat, i: int, j: int, p: int, q: int)
    requires
        vertices_in_range(g, n),
        n <= usize::MAX + 1,
        0 <= i < j < full_walk(g, n).met.len(),
        0 <= p < q < full_walk(g, n).left.len(),
        full_walk(g, n).left[p] == full_walk(g, n).met[j],
        full_walk(g, n).left[q] == full_walk(g, n).met[i],
    ensures
        reach(g, full_walk(g, n).met[i], full_walk(g, n).met[j]),
{
    full_walk_nests(g, n, n);
    let w = full_walk(g, n);
    assert(in_front(w.met, w.met[i], w.met[j]));
    assert(in_front(w.left, w.met[j], w.met[i]));
}

} // verus!
