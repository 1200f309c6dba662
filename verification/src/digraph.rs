//! Directed graphs given by adjacency lists: edges, paths and reachability.
use vstd::prelude::*;

verus! {

/// The adjacency lists that a slice of vectors holds.
pub open spec fn lists(adj: Seq<Vec<usize>>) -> Seq<Seq<usize>> {
    Seq::new(adj.len(), |i: int| adj[i]@)
}

/// The first `n` vertices have adjacency lists, and those lists name only the first `n` vertices.
pub open spec fn vertices_in_range(g: Seq<Seq<usize>>, n: nat) -> bool {
    &&& n <= g.len()
    &&& forall|u: int, k: int|
        0 <= u < n && 0 <= k < g[u].len() ==> (#[trigger] g[u][k]) < n
}

/// There is an edge from `u` to `v`.
pub open spec fn edge(g: Seq<Seq<usize>>, u: usize, v: usize) -> bool {
    u < g.len() && g[u as int].contains(v)
}

/// The `i`-th step of `p` goes along an edge.
pub open spec fn step(g: Seq<Seq<usize>>, p: Seq<usize>, i: int) -> bool {
    edge(g, p[i], p[i + 1])
}

/// `p` goes from `u` to `v` along edges; a single vertex is a path to itself.
pub open spec fn connects(g: Seq<Seq<usize>>, p: Seq<usize>, u: usize, v: usize) -> bool {
    &&& p.len() > 0
    &&& p[0] == u
    &&& p[p.len() - 1] == v
    &&& forall|i: int| 0 <= i < p.len() - 1 ==> #[trigger] step(g, p, i)
}

/// Some path leads from `u` to `v`.
#[verifier::opaque]
pub open spec fn reach(g: Seq<Seq<usize>>, u: usize, v: usize) -> bool {
    exists|p: Seq<usize>| #[trigger] connects(g, p, u, v)
}

/// `u` and `v` lie on a common closed walk: each can be reached from the other.
pub open spec fn mutual(g: Seq<Seq<usize>>, u: usize, v: usize) -> bool {
    reach(g, u, v) && reach(g, v, u)
}

/// Every vertex reaches itself.
pub proof fn reach_reflexive(g: Seq<Seq<usize>>, u: usize)
    ensures
        reach(g, u, u),
{
    reveal(reach);
    assert(connects(g, seq![u], u, u));
}

/// Reachability extends along an edge.
pub proof fn reach_then_edge(g: Seq<Seq<usize>>, u: usize, v: usize, w: usize)
    requires
        reach(g, u, v),
        edge(g, v, w),
    ensures
        reach(g, u, w),
{
    reveal(reach);
    let p = choose|p: Seq<usize>| #[trigger] connects(g, p, u, v);
    let q = p.push(w);
    assert forall|i: int| 0 <= i < q.len() - 1 implies #[trigger] step(g, q, i) by {
        if i < p.len() - 1 {
            assert(step(g, p, i));
        }
    }
    assert(connects(g, q, u, w));
}

/// Reachability is transitive.
pub proof fn reach_transitive(g: Seq<Seq<usize>>, u: usize, v: usize, w: usize)
    requires
        reach(g, u, v),
        reach(g, v, w),
    ensures
        reach(g, u, w),
{
    reveal(reach);
    let p = choose|p: Seq<usize>| #[trigger] connects(g, p, u, v);
    let q = choose|q: Seq<usize>| #[trigger] connects(g, q, v, w);
    let r = p + q.drop_first();
    assert forall|i: int| 0 <= i < r.len() - 1 implies #[trigger] step(g, r, i) by {
        if i < p.len() - 1 {
            assert(step(g, p, i));
        } else {
            assert(step(g, q, i - (p.len() - 1)));
        }
    }
    assert(connects(g, r, u, w));
}

/// A path that starts inside a set and ends outside it has a step that leaves the set.
pub proof fn path_leaves(g: Seq<Seq<usize>>, p: Seq<usize>, u: usize, v: usize, s: Set<usize>) -> (i: int)
    requires
        connects(g, p, u, v),
        s.contains(u),
        !s.contains(v),
    ensures
        0 <= i < p.len() - 1,
        s.contains(p[i]),
        !s.contains(p[i + 1]),
        edge(g, p[i], p[i + 1]),
    decreases p.len(),
{
    let last: int = p.len() - 2;
    assert(p.len() > 1);
    assert(step(g, p, last));
    if s.contains(p[last]) {
        last
    } else {
        let q = p.drop_last();
        assert forall|i: int| 0 <= i < q.len() - 1 implies #[trigger] step(g, q, i) by {
            assert(step(g, p, i));
        }
        path_leaves(g, q, u, p[last], s)
    }
}

/// If `u` inside a set reaches `v` outside it, some edge on the way leaves the set.
pub proof fn reach_leaves(g: Seq<Seq<usize>>, u: usize, v: usize, s: Set<usize>) -> (out: (usize, usize))
    requires
        reach(g, u, v),
        s.contains(u),
        !s.contains(v),
    ensures
        s.contains(out.0),
        !s.contains(out.1),
        edge(g, out.0, out.1),
        reach(g, out.1, v),
{
    reveal(reach);
    let p = choose|p: Seq<usize>| #[trigger] connects(g, p, u, v);
    let i = path_leaves(g, p, u, v, s);
    path_suffix(g, p, u, v, i + 1);
    (p[i], p[i + 1])
}

/// A set that no edge leaves holds all that its members reach.
pub proof fn closed_under_reach(g: Seq<Seq<usize>>, u: usize, v: usize, s: Set<usize>)
    requires
        reach(g, u, v),
        s.contains(u),
        forall|a: usize, b: usize| s.contains(a) && #[trigger] edge(g, a, b) ==> s.contains(b),
    ensures
        s.contains(v),
{
    if !s.contains(v) {
        let out = reach_leaves(g, u, v, s);
        assert(edge(g, out.0, out.1));
    }
}

/// The part of a path behind its `i`-th vertex is a path.
pub proof fn path_suffix(g: Seq<Seq<usize>>, p: Seq<usize>, u: usize, v: usize, i: int)
    requires
        connects(g, p, u, v),
        0 <= i < p.len(),
    ensures
        connects(g, p.skip(i), p[i], v),
{
    let q = p.skip(i);
    assert forall|k: int| 0 <= k < q.len() - 1 implies #[trigger] step(g, q, k) by {
        assert(step(g, p, k + i));
    }
}

/// The part of a path up to its `i`-th vertex is a path.
pub proof fn path_prefix(g: Seq<Seq<usize>>, p: Seq<usize>, u: usize, v: usize, i: int)
    requires
        connects(g, p, u, v),
        0 <= i < p.len(),
    ensures
        connects(g, p.take(i + 1), u, p[i]),
{
    let q = p.take(i + 1);
    assert forall|k: int| 0 <= k < q.len() - 1 implies #[trigger] step(g, q, k) by {
        assert(step(g, p, k));
    }
}

/// Distinct numbers below `n` are at most `n` many.
pub proof fn distinct_below(s: Seq<usize>, n: nat)
    requires
        s.no_duplicates(),
        forall|i: int| 0 <= i < s.len() ==> #[trigger] s[i] < n,
    ensures
        s.len() <= n,
    decreases n,
{
    if s.len() > 0 {
        if n == 0 {
            assert(s[0] < 0);
        }
        let m = (n - 1) as nat;
        if exists|i: int| 0 <= i < s.len() && s[i] == m {
            let k = choose|i: int| 0 <= i < s.len() && s[i] == m;
            let t = s.remove(k);
            assert forall|i: int| 0 <= i < t.len() implies #[trigger] t[i] < m by {
                let j = if i < k { i } else { i + 1 };
                assert(t[i] == s[j]);
                assert(s[j] < n);
            }
            assert(t.no_duplicates()) by {
                assert forall|i: int, j: int|
                    0 <= i < t.len() && 0 <= j < t.len() && i != j implies t[i] != t[j] by {
                    let a = if i < k { i } else { i + 1 };
                    let b = if j < k { j } else { j + 1 };
                    assert(t[i] == s[a] && t[j] == s[b]);
                }
            }
            distinct_below(t, m);
        } else {
            assert forall|i: int| 0 <= i < s.len() implies #[trigger] s[i] < m by {
                assert(s[i] < n);
            }
            distinct_below(s, m);
        }
    }
}

/// A set of numbers below `n` has at most `n` members.
pub proof fn bounded_set(s: Set<usize>, n: nat)
    requires
        forall|x: usize| #[trigger] s.contains(x) ==> x < n,
    ensures
        s.finite(),
        s.len() <= n,
    decreases n,
{
    if n == 0 {
        assert(s =~= Set::empty());
    } else {
        let m = (n - 1) as nat;
        let t = s.remove(m as usize);
        assert forall|x: usize| #[trigger] t.contains(x) implies x < m by {
            assert(s.contains(x));
        }
        bounded_set(t, m);
        if s.contains(m as usize) {
            assert(s =~= t.insert(m as usize));
        } else {
            assert(s =~= t);
        }
    }
}

/// A vertex reaches another exactly if there is a list of vertices that begins with the one, ends
/// with the other, and names after each vertex one that its adjacency list names.
pub proof fn reach_by_path(g: Seq<Seq<usize>>, u: usize, v: usize)
    ensures
        reach(g, u, v) <==> exists|p: Seq<usize>| #[trigger] is_path(g, p, u, v),
        mutual(g, u, v) <==> reach(g, u, v) && reach(g, v, u),
{
    reveal(reach);
    assert forall|p: Seq<usize>| #[trigger] is_path(g, p, u, v) <==> connects(g, p, u, v) by {
        if connects(g, p, u, v) {
            assert forall|i: int| 0 <= i < p.len() - 1 implies (#[trigger] p[i]) < g.len() && g[p[i] as int].contains(p[i + 1]) by {
                assert(step(g, p, i));
            }
        }
        if is_path(g, p, u, v) {
            assert forall|i: int| 0 <= i < p.len() - 1 implies #[trigger] step(g, p, i) by {
                assert(p[i] < g.len());
            }
        }
    }
    if reach(g, u, v) {
        let p = choose|p: Seq<usize>| #[trigger] connects(g, p, u, v);
        assert(is_path(g, p, u, v));
    }
    if exists|p: Seq<usize>| #[trigger] is_path(g, p, u, v) {
        let p = choose|p: Seq<usize>| #[trigger] is_path(g, p, u, v);
        assert(connects(g, p, u, v));
    }
}

/// `p` begins with `u`, ends with `v`, and names after each vertex one that its list names.
pub open spec fn is_path(g: Seq<Seq<usize>>, p: Seq<usize>, u: usize, v: usize) -> bool {
    &&& p.len() > 0
    &&& p[0] == u
    &&& p[p.len() - 1] == v
    &&& forall|i: int| 0 <= i < p.len() - 1 ==> (#[trigger] p[i]) < g.len() && g[p[i] as int].contains(p[i + 1])
}

/// Lists hold what their vectors hold.
pub proof fn lists_of_vectors(adj: Seq<Vec<usize>>)
    ensures
        lists(adj).len() == adj.len(),
        forall|i: int| 0 <= i < adj.len() ==> #[trigger] lists(adj)[i] == adj[i]@,
{
}

} // verus!
