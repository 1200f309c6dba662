//! Strongly connected components by Tarjan's algorithm.
use vstd::prelude::*;

use crate::digraph::{
    closed_under_reach, distinct_below, edge, is_path, lists, mutual, reach, reach_by_path, reach_leaves, reach_reflexive, reach_then_edge, reach_transitive,
    vertices_in_range,
};
use crate::sequences::ordered_is_unique;
use crate::walk::{full_walk, full_walk_is_sound, in_front, in_front_one_way, is_sound, no_walk, numbers_below, walk_along, walk_to, Walk};

verus! {

/// `comps` lists the strongly connected components of the first `n` vertices, each once, and
/// no vertex of a component reaches one of a later component.
pub open spec fn is_scc_order(g: Seq<Seq<usize>>, n: nat, comps: Seq<Seq<usize>>) -> bool {
    &&& forall|c: int| #![trigger comps[c]] 0 <= c < comps.len() ==> comps[c].len() > 0 && comps[c].no_duplicates()
    &&& forall|c: int, v: usize| 0 <= c < comps.len() && #[trigger] comps[c].contains(v) ==> v < n
    &&& forall|v: usize| v < n ==> #[trigger] component_of(comps, v)
    &&& forall|c: int, u: usize, v: usize|
        0 <= c < comps.len() && #[trigger] comps[c].contains(u) && v < n ==> (
            #[trigger] comps[c].contains(v) <==> mutual(g, u, v))
    &&& forall|c: int, d: int, u: usize, v: usize|
        0 <= c < d < comps.len() && #[trigger] comps[c].contains(u) && #[trigger] comps[d].contains(v)
            ==> !reach(g, u, v)
}

/// Some component holds `v`.
pub open spec fn component_of(comps: Seq<Seq<usize>>, v: usize) -> bool {
    exists|c: int| 0 <= c < comps.len() && #[trigger] comps[c].contains(v)
}

/// The components are listed as the walk `w` leaves them: in the order in which it leaves the
/// vertex of each that it met first, and each with the vertices that were met last in front.
pub open spec fn in_walk_order(w: Walk, comps: Seq<Seq<usize>>) -> bool {
    &&& forall|c: int, i: int, j: int|
        0 <= c < comps.len() && 0 <= i < j < comps[c].len() ==> in_front(w.met, #[trigger] comps[c][j], #[trigger] comps[c][i])
    &&& forall|c: int, d: int|
        0 <= c < d < comps.len() ==> in_front(w.left, (#[trigger] comps[c]).last(), (#[trigger] comps[d]).last())
}

/// What the search knows: `index` numbers the vertices in the order of their discovery
/// (`usize::MAX` for those not met yet), `low` holds the low links, `stack` the vertices met but
/// not yet in a component. `order` undoes `index`; `gray` is the chain of open calls. `left`
/// lists the vertices whose calls are over, and `ends` says where it lists the last vertex of
/// each component.
struct Search {
    counter: usize,
    stack: Vec<usize>,
    on_stack: Vec<bool>,
    index: Vec<usize>,
    low: Vec<usize>,
    comps: Vec<Vec<usize>>,
    order: Ghost<Seq<usize>>,
    gray: Ghost<Seq<usize>>,
    left: Ghost<Seq<usize>>,
    ends: Ghost<Seq<int>>,
}

impl Search {
    spec fn n(self) -> nat {
        self.index@.len()
    }

    spec fn seen(self, v: usize) -> bool {
        v < self.n() && self.index@[v as int] != usize::MAX
    }

    spec fn open(self, v: usize) -> bool {
        v < self.n() && self.on_stack@[v as int]
    }

    spec fn num(self, v: usize) -> int {
        self.index@[v as int] as int
    }

    spec fn done(self, v: usize) -> bool {
        component_of(lists(self.comps@), v)
    }

    spec fn shape(self) -> bool {
        &&& self.on_stack@.len() == self.n()
        &&& self.low@.len() == self.n()
        &&& self.counter == self.order@.len()
        &&& forall|i: int|
            0 <= i < self.order@.len() ==> (#[trigger] self.order@[i]) < self.n() && self.index@[self.order@[i] as int] == i
        &&& forall|v: usize| #[trigger]
            self.seen(v) ==> self.num(v) < self.counter && self.order@[self.num(v)] == v
    }

    /// The walk that the search has made.
    spec fn walk(self) -> Walk {
        Walk { met: self.order@, left: self.left@ }
    }

    /// The components are listed in the order of the walk.
    spec fn tidy(self) -> bool {
        let comps = lists(self.comps@);
        &&& self.ends@.len() == comps.len()
        &&& forall|c: int|
            0 <= c < comps.len() ==> 0 <= (#[trigger] self.ends@[c]) < self.left@.len() && comps[c].len() > 0
                && self.left@[self.ends@[c]] == comps[c].last()
        &&& forall|c: int, d: int| 0 <= c < d < comps.len() ==> (#[trigger] self.ends@[c]) < (#[trigger] self.ends@[d])
        &&& forall|c: int, i: int, j: int|
            0 <= c < comps.len() && 0 <= i < j < comps[c].len() ==> self.num(#[trigger] comps[c][j]) < self.num(#[trigger] comps[c][i])
    }

    spec fn stack_ok(self) -> bool {
        &&& forall|i: int| 0 <= i < self.stack@.len() ==> self.open(#[trigger] self.stack@[i])
        &&& forall|v: usize| #[trigger] self.open(v) ==> self.stack@.contains(v) && self.seen(v)
        &&& forall|i: int, j: int|
            0 <= i < j < self.stack@.len() ==> self.num(#[trigger] self.stack@[i]) < self.num(#[trigger] self.stack@[j])
    }

    spec fn gray_ok(self, g: Seq<Seq<usize>>) -> bool {
        &&& forall|i: int| 0 <= i < self.gray@.len() ==> self.open(#[trigger] self.gray@[i])
        &&& forall|i: int, j: int|
            0 <= i < j < self.gray@.len() ==> self.num(#[trigger] self.gray@[i]) < self.num(#[trigger] self.gray@[j])
        &&& forall|i: int, y: usize|
            0 <= i < self.gray@.len() && #[trigger] self.open(y) && self.num(self.gray@[i]) <= self.num(y)
                ==> reach(g, #[trigger] self.gray@[i], y)
        &&& forall|y: usize| #[trigger] self.open(y) ==> self.falls_back(g, y)
        &&& forall|v: usize, w: usize|
            self.seen(v) && !self.gray@.contains(v) && #[trigger] edge(g, v, w) ==> self.seen(w)
    }

    /// From `y` the search can come back to an open call no younger than `y`.
    #[verifier::opaque]
    spec fn falls_back(self, g: Seq<Seq<usize>>, y: usize) -> bool {
        exists|i: int| 0 <= i < self.gray@.len() && self.num(#[trigger] self.gray@[i]) <= self.num(y) && reach(g, y, self.gray@[i])
    }

    spec fn comps_ok(self, g: Seq<Seq<usize>>) -> bool {
        let comps = lists(self.comps@);
        &&& forall|c: int| #![trigger comps[c]] 0 <= c < comps.len() ==> comps[c].len() > 0 && comps[c].no_duplicates()
        &&& forall|c: int, v: usize|
            0 <= c < comps.len() && #[trigger] comps[c].contains(v) ==> self.seen(v) && !self.open(v)
        &&& forall|v: usize| #[trigger] self.seen(v) && !self.open(v) ==> self.done(v)
        &&& forall|c: int, u: usize, v: usize|
            0 <= c < comps.len() && #[trigger] comps[c].contains(u) && v < self.n() ==> (
            #[trigger] comps[c].contains(v) <==> mutual(g, u, v))
        &&& forall|u: usize, v: usize| self.done(u) && #[trigger] edge(g, u, v) ==> self.done(v)
        &&& forall|c: int, d: int, u: usize, v: usize|
            0 <= c < d < comps.len() && #[trigger] comps[c].contains(u) && #[trigger] comps[d].contains(v)
                ==> !reach(g, u, v)
    }

    spec fn inv(self, g: Seq<Seq<usize>>) -> bool {
        &&& vertices_in_range(g, self.n())
        &&& self.shape()
        &&& self.stack_ok()
        &&& self.gray_ok(g)
        &&& self.comps_ok(g)
    }

    /// `later` comes from `self` by discovering more: the open calls are the same and nothing
    /// known has changed.
    spec fn grows(self, later: Search) -> bool {
        &&& later.n() == self.n()
        &&& later.gray@ == self.gray@
        &&& self.counter <= later.counter
        &&& forall|u: usize| #[trigger] self.seen(u) ==> later.seen(u) && later.index@[u as int] == self.index@[u as int]
            && later.low@[u as int] == self.low@[u as int]
        &&& self.stack@.len() <= later.stack@.len()
        &&& self.stack@ == later.stack@.take(self.stack@.len() as int)
    }

    /// The low link of `v` is the number of an open vertex that `v` reaches.
    spec fn low_reached(self, g: Seq<Seq<usize>>, v: usize) -> bool {
        exists|y: usize| #[trigger] self.open(y) && reach(g, v, y) && self.num(y) == self.low@[v as int]
    }

    /// Edges from the stack at height `from` and above to the stack below height `h` end at
    /// vertices numbered at least `low`.
    spec fn bounded(self, g: Seq<Seq<usize>>, from: int, h: int, low: int) -> bool {
        forall|j: int, i: int|
            from <= j < self.stack@.len() && 0 <= i < h && edge(g, #[trigger] self.stack@[j], #[trigger] self.stack@[i])
                ==> low <= self.num(self.stack@[i])
    }
}

/// The open call that `y` can come back to.
proof fn fall_back_to(g: Seq<Seq<usize>>, s: Search, y: usize) -> (i: int)
    requires
        s.falls_back(g, y),
    ensures
        0 <= i < s.gray@.len(),
        s.num(s.gray@[i]) <= s.num(y),
        reach(g, y, s.gray@[i]),
{
    reveal(Search::falls_back);
    choose|i: int| 0 <= i < s.gray@.len() && s.num(#[trigger] s.gray@[i]) <= s.num(y) && reach(g, y, s.gray@[i])
}

/// An open call shows that `y` can come back.
proof fn fall_back_by(g: Seq<Seq<usize>>, s: Search, y: usize, i: int)
    requires
        0 <= i < s.gray@.len(),
        s.num(s.gray@[i]) <= s.num(y),
        reach(g, y, s.gray@[i]),
    ensures
        s.falls_back(g, y),
{
    reveal(Search::falls_back);
}

/// `post` is `pre` with the unseen vertex `v` numbered, pushed and opened.
spec fn entered(pre: Search, post: Search, v: usize) -> bool {
    &&& v < pre.n()
    &&& !pre.seen(v)
    &&& pre.counter < usize::MAX
    &&& post.counter == pre.counter + 1
    &&& post.index@ == pre.index@.update(v as int, pre.counter)
    &&& post.low@ == pre.low@.update(v as int, pre.counter)
    &&& post.stack@ == pre.stack@.push(v)
    &&& post.on_stack@ == pre.on_stack@.update(v as int, true)
    &&& post.comps@ == pre.comps@
    &&& post.order@ == pre.order@.push(v)
    &&& post.gray@ == pre.gray@.push(v)
    &&& post.left@ == pre.left@
    &&& post.ends@ == pre.ends@
}

proof fn enter_basics(pre: Search, post: Search, v: usize)
    requires
        pre.shape(),
        pre.stack_ok(),
        entered(pre, post, v),
    ensures
        post.shape(),
        post.seen(v),
        post.open(v),
        !pre.open(v),
        post.num(v) == pre.counter,
        forall|u: usize| #[trigger] pre.seen(u) ==> u != v && post.num(u) == pre.num(u) && pre.num(u) < pre.counter,
        forall|u: usize| #[trigger] post.seen(u) <==> u == v || pre.seen(u),
        forall|u: usize| #[trigger] post.open(u) <==> u == v || pre.open(u),
{
    assert forall|u: usize| #[trigger] post.seen(u) implies post.num(u) < post.counter && post.order@[post.num(u)] == u by {
        if u != v {
            assert(pre.seen(u));
        }
    }
    assert forall|i: int| 0 <= i < post.order@.len() implies (#[trigger] post.order@[i]) < post.n() && post.index@[post.order@[i] as int] == i by {
        if i < pre.order@.len() {
            assert(pre.order@[i] < pre.n());
            assert(pre.seen(pre.order@[i]));
        }
    }
}

proof fn enter_stack(pre: Search, post: Search, v: usize)
    requires
        pre.shape(),
        pre.stack_ok(),
        entered(pre, post, v),
    ensures
        post.stack_ok(),
{
    enter_basics(pre, post, v);
    assert(post.stack@[pre.stack@.len() as int] == v);
    assert forall|u: usize| #[trigger] post.open(u) implies post.stack@.contains(u) && post.seen(u) by {
        if u != v {
            assert(pre.open(u));
            let k = choose|k: int| 0 <= k < pre.stack@.len() && pre.stack@[k] == u;
            assert(post.stack@[k] == u);
        }
    }
    assert forall|i: int| 0 <= i < post.stack@.len() implies post.open(#[trigger] post.stack@[i]) by {
        if i < pre.stack@.len() {
            assert(pre.open(pre.stack@[i]));
        }
    }
    assert forall|i: int, j: int| 0 <= i < j < post.stack@.len() implies
        post.num(#[trigger] post.stack@[i]) < post.num(#[trigger] post.stack@[j]) by {
        assert(pre.open(pre.stack@[i]));
        assert(pre.seen(pre.stack@[i]));
        if j < pre.stack@.len() {
            assert(pre.open(pre.stack@[j]));
            assert(pre.seen(pre.stack@[j]));
        }
    }
}

proof fn enter_gray(g: Seq<Seq<usize>>, pre: Search, post: Search, v: usize)
    requires
        pre.shape(),
        pre.stack_ok(),
        pre.gray_ok(g),
        entered(pre, post, v),
        forall|i: int| 0 <= i < pre.gray@.len() ==> reach(g, #[trigger] pre.gray@[i], v),
    ensures
        post.gray_ok(g),
{
    enter_basics(pre, post, v);
    assert(post.gray@[pre.gray@.len() as int] == v);
    reach_reflexive(g, v);
    assert forall|i: int| 0 <= i < post.gray@.len() implies post.open(#[trigger] post.gray@[i]) by {
        if i < pre.gray@.len() {
            assert(pre.open(pre.gray@[i]));
        }
    }
    assert forall|i: int, j: int| 0 <= i < j < post.gray@.len() implies
        post.num(#[trigger] post.gray@[i]) < post.num(#[trigger] post.gray@[j]) by {
        assert(pre.open(pre.gray@[i]));
        assert(pre.seen(pre.gray@[i]));
        if j < pre.gray@.len() {
            assert(pre.open(pre.gray@[j]));
            assert(pre.seen(pre.gray@[j]));
        }
    }
    assert forall|i: int, y: usize|
        0 <= i < post.gray@.len() && #[trigger] post.open(y) && post.num(post.gray@[i]) <= post.num(y)
            implies reach(g, #[trigger] post.gray@[i], y) by {
        if i < pre.gray@.len() {
            assert(post.gray@[i] == pre.gray@[i]);
            assert(pre.open(pre.gray@[i]));
            assert(pre.seen(pre.gray@[i]));
            if y != v {
                assert(pre.open(y));
                assert(pre.seen(y));
            } else {
                assert(reach(g, pre.gray@[i], v));
            }
        } else if y != v {
            assert(pre.open(y));
            assert(pre.seen(y));
        }
    }
    assert forall|y: usize| #[trigger] post.open(y) implies post.falls_back(g, y) by {
        if y == v {
            fall_back_by(g, post, y, pre.gray@.len() as int);
        } else {
            assert(pre.open(y));
            assert(pre.seen(y));
            let i = fall_back_to(g, pre, y);
            assert(pre.open(pre.gray@[i]));
            assert(pre.seen(pre.gray@[i]));
            assert(post.gray@[i] == pre.gray@[i]);
            fall_back_by(g, post, y, i);
        }
    }
    assert forall|a: usize, w: usize|
        post.seen(a) && !post.gray@.contains(a) && #[trigger] edge(g, a, w) implies post.seen(w) by {
        if pre.gray@.contains(a) {
            let k = choose|k: int| 0 <= k < pre.gray@.len() && pre.gray@[k] == a;
            assert(post.gray@[k] == a);
        }
        assert(pre.seen(a));
        assert(pre.seen(w));
    }
}

proof fn enter_comps(g: Seq<Seq<usize>>, pre: Search, post: Search, v: usize)
    requires
        pre.shape(),
        pre.stack_ok(),
        pre.comps_ok(g),
        entered(pre, post, v),
    ensures
        post.comps_ok(g),
{
    enter_basics(pre, post, v);
    assert(lists(post.comps@) == lists(pre.comps@));
    let comps = lists(post.comps@);
    assert forall|u: usize| #[trigger] post.seen(u) && !post.open(u) implies post.done(u) by {
        assert(pre.seen(u));
        assert(pre.done(u));
    }
    assert forall|c: int, u: usize| 0 <= c < comps.len() && #[trigger] comps[c].contains(u) implies post.seen(u) && !post.open(u) by {
        assert(pre.seen(u));
    }
    assert forall|a: usize, b: usize| post.done(a) && #[trigger] edge(g, a, b) implies post.done(b) by {
        assert(pre.done(a));
        assert(pre.done(b));
    }
}

proof fn enter(g: Seq<Seq<usize>>, pre: Search, post: Search, v: usize)
    requires
        pre.inv(g),
        entered(pre, post, v),
        forall|i: int| 0 <= i < pre.gray@.len() ==> reach(g, #[trigger] pre.gray@[i], v),
    ensures
        post.inv(g),
        post.low_reached(g, v),
{
    enter_basics(pre, post, v);
    enter_stack(pre, post, v);
    enter_gray(g, pre, post, v);
    enter_comps(g, pre, post, v);
    reach_reflexive(g, v);
    assert(post.open(v) && reach(g, v, v));
}

proof fn enter_tidy(g: Seq<Seq<usize>>, pre: Search, post: Search, v: usize)
    requires
        pre.comps_ok(g),
        pre.tidy(),
        entered(pre, post, v),
    ensures
        post.tidy(),
{
    let comps = lists(post.comps@);
    assert(comps == lists(pre.comps@));
    assert forall|c: int, i: int, j: int| 0 <= c < comps.len() && 0 <= i < j < comps[c].len() implies
        post.num(#[trigger] comps[c][j]) < post.num(#[trigger] comps[c][i]) by {
        assert(comps[c].contains(comps[c][i]) && comps[c].contains(comps[c][j]));
        assert(pre.seen(comps[c][i]) && pre.seen(comps[c][j]));
        assert(pre.num(comps[c][j]) < pre.num(comps[c][i]));
    }
}

/// The vertices met are the vertices seen.
proof fn met_is_seen(s: Search, v: usize)
    requires
        s.shape(),
    ensures
        s.walk().met.contains(v) <==> s.seen(v),
{
    if s.order@.contains(v) {
        let i = choose|i: int| 0 <= i < s.order@.len() && s.order@[i] == v;
        assert(s.index@[s.order@[i] as int] == i);
    }
    if s.seen(v) {
        assert(s.order@[s.num(v)] == v);
    }
}

/// The call on `v` is over: `v` stands at height `h` of the stack and all its edges are explored.
spec fn closing(g: Seq<Seq<usize>>, s: Search, v: usize, h: int) -> bool {
    &&& s.inv(g)
    &&& s.gray@.len() > 0
    &&& s.gray@[s.gray@.len() - 1] == v
    &&& 0 <= h < s.stack@.len()
    &&& s.stack@[h] == v
    &&& forall|w: usize| #[trigger] edge(g, v, w) ==> s.seen(w)
    &&& s.bounded(g, h, h, s.low@[v as int] as int)
}

/// Everything on the stack from `v` upwards is strongly connected with `v`.
proof fn above_is_mutual(g: Seq<Seq<usize>>, s: Search, v: usize, h: int, y: usize)
    requires
        closing(g, s, v, h),
        s.open(y),
        s.num(v) <= s.num(y),
    ensures
        mutual(g, v, y),
{
    let top = s.gray@.len() - 1;
    assert(s.open(s.stack@[h]));
    assert(reach(g, s.gray@[top], y));
    assert(s.falls_back(g, y));
    let i = fall_back_to(g, s, y);
    if i < top {
        assert(s.num(s.gray@[i]) < s.num(s.gray@[top]));
    }
    assert(reach(g, s.gray@[i], v));
    reach_transitive(g, y, s.gray@[i], v);
}

/// An edge from the part of the stack at or above `v` ends at a vertex that is seen.
proof fn above_is_explored(g: Seq<Seq<usize>>, s: Search, v: usize, h: int, a: usize, b: usize)
    requires
        closing(g, s, v, h),
        s.open(a),
        s.num(v) <= s.num(a),
        edge(g, a, b),
    ensures
        s.seen(b),
{
    let top = s.gray@.len() - 1;
    if a != v && s.gray@.contains(a) {
        let k = choose|k: int| 0 <= k < s.gray@.len() && s.gray@[k] == a;
        assert(k < top);
        assert(s.num(s.gray@[k]) < s.num(s.gray@[top]));
    }
    assert(s.seen(a));
}

/// If the low link of `v` is its own number, edges from the part of the stack at or above `v`
/// stay there or lead into finished components.
proof fn above_is_closed(g: Seq<Seq<usize>>, s: Search, v: usize, h: int, a: usize, b: usize)
    requires
        closing(g, s, v, h),
        s.low@[v as int] == s.index@[v as int],
        s.open(a),
        s.num(v) <= s.num(a),
        edge(g, a, b),
    ensures
        s.done(b) || (s.open(b) && s.num(v) <= s.num(b)),
{
    above_is_explored(g, s, v, h, a, b);
    if s.open(b) {
        let i = choose|i: int| 0 <= i < s.stack@.len() && s.stack@[i] == b;
        let j = choose|j: int| 0 <= j < s.stack@.len() && s.stack@[j] == a;
        if j < h {
            assert(s.num(s.stack@[j]) < s.num(s.stack@[h]));
        }
        if i < h {
            assert(edge(g, s.stack@[j], s.stack@[i]));
            assert(s.num(s.stack@[i]) < s.num(s.stack@[h]));
        } else if i > h {
            assert(s.num(s.stack@[h]) < s.num(s.stack@[i]));
        }
    }
}

/// If the low link of `v` is its own number, what is strongly connected with `v` stands on the
/// stack at or above `v`.
proof fn mutual_is_above(g: Seq<Seq<usize>>, s: Search, v: usize, h: int, b: usize)
    requires
        closing(g, s, v, h),
        s.low@[v as int] == s.index@[v as int],
        mutual(g, v, b),
    ensures
        s.open(b) && s.num(v) <= s.num(b),
{
    let above = Set::new(|x: usize| s.open(x) && s.num(v) <= s.num(x));
    let finished = Set::new(|x: usize| s.done(x));
    assert(s.open(s.stack@[h]));
    if !above.contains(b) {
        let out = reach_leaves(g, v, b, above);
        above_is_closed(g, s, v, h, out.0, out.1);
        reach_transitive(g, out.1, b, v);
        assert(finished.contains(out.1));
        closed_under_reach(g, out.1, v, finished);
        assert(s.done(v));
    }
}

/// `post` is `pre` with the stack from height `h` on moved into the new component `comp`, and
/// the youngest open call closed.
spec fn popped(pre: Search, post: Search, h: int, comp: Seq<usize>) -> bool {
    &&& post.counter == pre.counter
    &&& post.index@ == pre.index@
    &&& post.low@ == pre.low@
    &&& post.order@ == pre.order@
    &&& post.gray@ == pre.gray@.drop_last()
    &&& post.stack@ == pre.stack@.take(h)
    &&& post.on_stack@.len() == pre.on_stack@.len()
    &&& forall|u: usize| #[trigger] post.open(u) <==> pre.open(u) && !comp.contains(u)
    &&& comp.no_duplicates()
    &&& forall|u: usize| #[trigger] comp.contains(u) <==> pre.stack@.skip(h).contains(u)
    &&& lists(post.comps@) == lists(pre.comps@).push(comp)
}

proof fn pop_basics(g: Seq<Seq<usize>>, pre: Search, post: Search, v: usize, h: int, comp: Seq<usize>)
    requires
        closing(g, pre, v, h),
        popped(pre, post, h, comp),
    ensures
        post.shape(),
        comp.contains(v),
        forall|u: usize| #[trigger] pre.seen(u) <==> post.seen(u),
        forall|u: usize| pre.num(u) == post.num(u),
        forall|u: usize| #[trigger] comp.contains(u) <==> pre.open(u) && pre.num(v) <= pre.num(u),
        forall|u: usize| #[trigger] post.open(u) <==> pre.open(u) && pre.num(u) < pre.num(v),
        post.stack_ok(),
{
    let tail = pre.stack@.skip(h);
    assert(tail[0] == v);
    assert(tail.contains(v));
    assert(pre.open(pre.stack@[h]));
    assert forall|u: usize| #[trigger] pre.seen(u) <==> post.seen(u) by {}
    assert forall|u: usize| #[trigger] comp.contains(u) implies pre.open(u) && pre.num(v) <= pre.num(u) by {
        let k = choose|k: int| 0 <= k < tail.len() && tail[k] == u;
        assert(pre.stack@[h + k] == u);
        assert(pre.open(pre.stack@[h + k]));
        if k > 0 {
            assert(pre.num(pre.stack@[h]) < pre.num(pre.stack@[h + k]));
        }
    }
    assert forall|u: usize| pre.open(u) && pre.num(v) <= pre.num(u) implies #[trigger] comp.contains(u) by {
        let k = choose|k: int| 0 <= k < pre.stack@.len() && pre.stack@[k] == u;
        if k < h {
            assert(pre.num(pre.stack@[k]) < pre.num(pre.stack@[h]));
        }
        assert(tail[k - h] == u);
    }
    assert forall|i: int| 0 <= i < post.stack@.len() implies post.open(#[trigger] post.stack@[i]) by {
        assert(post.stack@[i] == pre.stack@[i]);
        assert(pre.open(pre.stack@[i]));
        assert(pre.num(pre.stack@[i]) < pre.num(pre.stack@[h]));
    }
    assert forall|u: usize| #[trigger] post.open(u) implies post.stack@.contains(u) && post.seen(u) by {
        assert(pre.open(u));
        let k = choose|k: int| 0 <= k < pre.stack@.len() && pre.stack@[k] == u;
        if k >= h {
            assert(tail[k - h] == u);
            assert(comp.contains(u));
        }
        assert(post.stack@[k] == u);
    }
    assert forall|u: usize| #[trigger] post.seen(u) implies post.num(u) < post.counter && post.order@[post.num(u)] == u by {
        assert(pre.seen(u));
    }
    assert forall|i: int, j: int| 0 <= i < j < post.stack@.len() implies
        post.num(#[trigger] post.stack@[i]) < post.num(#[trigger] post.stack@[j]) by {
        assert(pre.num(pre.stack@[i]) < pre.num(pre.stack@[j]));
    }
}

proof fn pop_gray(g: Seq<Seq<usize>>, pre: Search, post: Search, v: usize, h: int, comp: Seq<usize>)
    requires
        closing(g, pre, v, h),
        popped(pre, post, h, comp),
    ensures
        post.gray_ok(g),
{
    pop_basics(g, pre, post, v, h, comp);
    let top = pre.gray@.len() - 1;
    assert forall|i: int| 0 <= i < post.gray@.len() implies post.open(#[trigger] post.gray@[i]) by {
        assert(post.gray@[i] == pre.gray@[i]);
        assert(pre.open(pre.gray@[i]));
        assert(pre.num(pre.gray@[i]) < pre.num(pre.gray@[top]));
    }
    assert forall|i: int, j: int| 0 <= i < j < post.gray@.len() implies
        post.num(#[trigger] post.gray@[i]) < post.num(#[trigger] post.gray@[j]) by {
        assert(pre.num(pre.gray@[i]) < pre.num(pre.gray@[j]));
    }
    assert forall|i: int, y: usize|
        0 <= i < post.gray@.len() && #[trigger] post.open(y) && post.num(post.gray@[i]) <= post.num(y)
            implies reach(g, #[trigger] post.gray@[i], y) by {
        assert(pre.open(y));
        assert(post.gray@[i] == pre.gray@[i]);
        assert(reach(g, pre.gray@[i], y));
    }
    assert forall|y: usize| #[trigger] post.open(y) implies post.falls_back(g, y) by {
        assert(pre.open(y));
        assert(pre.falls_back(g, y));
        let i = fall_back_to(g, pre, y);
        assert(i < top);
        assert(post.gray@[i] == pre.gray@[i]);
        fall_back_by(g, post, y, i);
    }
    assert forall|a: usize, w: usize|
        post.seen(a) && !post.gray@.contains(a) && #[trigger] edge(g, a, w) implies post.seen(w) by {
        assert(pre.seen(a));
        if a != v {
            if pre.gray@.contains(a) {
                let k = choose|k: int| 0 <= k < pre.gray@.len() && pre.gray@[k] == a;
                assert(post.gray@[k] == a);
            }
        }
        assert(pre.seen(w));
    }
}

proof fn pop_comps(g: Seq<Seq<usize>>, pre: Search, post: Search, v: usize, h: int, comp: Seq<usize>)
    requires
        closing(g, pre, v, h),
        pre.low@[v as int] == pre.index@[v as int],
        popped(pre, post, h, comp),
    ensures
        post.comps_ok(g),
{
    pop_basics(g, pre, post, v, h, comp);
    let old_comps = lists(pre.comps@);
    let comps = lists(post.comps@);
    let m = old_comps.len() as int;
    assert(comps[m] == comp);
    assert(comp.len() > 0);
    assert forall|c: int| 0 <= c < m implies comps[c] == old_comps[c] by {}
    assert forall|u: usize| #[trigger] post.done(u) <==> pre.done(u) || comp.contains(u) by {
        if pre.done(u) {
            let c = choose|c: int| 0 <= c < old_comps.len() && #[trigger] old_comps[c].contains(u);
            assert(comps[c].contains(u));
        }
        if comp.contains(u) {
            assert(comps[m].contains(u));
        }
        if post.done(u) {
            let c = choose|c: int| 0 <= c < comps.len() && #[trigger] comps[c].contains(u);
            if c < m {
                assert(old_comps[c].contains(u));
            }
        }
    }
    assert forall|c: int, u: usize| 0 <= c < comps.len() && #[trigger] comps[c].contains(u) implies post.seen(u) && !post.open(u) by {
        if c < m {
            assert(old_comps[c].contains(u));
        } else {
            assert(pre.open(u));
        }
        assert(pre.seen(u));
    }
    assert forall|u: usize| #[trigger] post.seen(u) && !post.open(u) implies post.done(u) by {
        assert(pre.seen(u));
        if pre.open(u) {
            assert(comp.contains(u));
        } else {
            assert(pre.done(u));
        }
    }
    assert forall|c: int, u: usize, x: usize|
        0 <= c < comps.len() && #[trigger] comps[c].contains(u) && x < post.n() implies (
        #[trigger] comps[c].contains(x) <==> mutual(g, u, x)) by {
        if c < m {
            assert(old_comps[c].contains(u));
            assert(old_comps[c].contains(x) <==> mutual(g, u, x));
        } else {
            above_is_mutual(g, pre, v, h, u);
            if comp.contains(x) {
                above_is_mutual(g, pre, v, h, x);
                reach_transitive(g, u, v, x);
                reach_transitive(g, x, v, u);
            }
            if mutual(g, u, x) {
                reach_transitive(g, v, u, x);
                reach_transitive(g, x, u, v);
                mutual_is_above(g, pre, v, h, x);
            }
        }
    }
    assert forall|a: usize, b: usize| post.done(a) && #[trigger] edge(g, a, b) implies post.done(b) by {
        if comp.contains(a) {
            above_is_closed(g, pre, v, h, a, b);
            if pre.open(b) && pre.num(v) <= pre.num(b) {
                assert(comp.contains(b));
            }
        } else {
            assert(pre.done(a));
            assert(pre.done(b));
        }
    }
    let finished = Set::new(|x: usize| pre.done(x));
    assert forall|c: int, d: int, u: usize, x: usize|
        0 <= c < d < comps.len() && #[trigger] comps[c].contains(u) && #[trigger] comps[d].contains(x)
            implies !reach(g, u, x) by {
        assert(old_comps[c].contains(u));
        if d < m {
            assert(old_comps[d].contains(x));
        } else if reach(g, u, x) {
            assert(finished.contains(u));
            closed_under_reach(g, u, x, finished);
            assert(pre.done(x));
            assert(pre.open(x));
        }
    }
}

/// The low link of `v` is smaller than its number: `v` stays on the stack, its call is closed.
proof fn keep(g: Seq<Seq<usize>>, pre: Search, post: Search, v: usize, h: int)
    requires
        closing(g, pre, v, h),
        pre.low_reached(g, v),
        pre.low@[v as int] < pre.index@[v as int],
        post == (Search { gray: post.gray, left: post.left, ..pre }),
        post.gray@ == pre.gray@.drop_last(),
    ensures
        post.inv(g),
{
    let top = pre.gray@.len() - 1;
    assert(forall|u: usize| #[trigger] post.seen(u) == pre.seen(u));
    assert(forall|u: usize| #[trigger] post.open(u) == pre.open(u));
    assert(forall|u: usize| #[trigger] post.done(u) == pre.done(u));
    assert(post.shape());
    assert(post.stack_ok());
    assert(pre.open(pre.stack@[h]));
    let low = choose|y: usize| #[trigger] pre.open(y) && reach(g, v, y) && pre.num(y) == pre.low@[v as int];
    assert(post.gray_ok(g)) by {
        assert forall|y: usize| #[trigger] post.open(y) implies post.falls_back(g, y) by {
            assert(pre.open(y));
            assert(pre.falls_back(g, y));
            assert(pre.falls_back(g, low));
            let z = if pre.num(v) <= pre.num(y) { low } else { y };
            if pre.num(v) <= pre.num(y) {
                above_is_mutual(g, pre, v, h, y);
                reach_transitive(g, y, v, low);
            } else {
                reach_reflexive(g, y);
            }
            let i = fall_back_to(g, pre, z);
            assert(i < top);
            assert(post.gray@[i] == pre.gray@[i]);
            reach_transitive(g, y, z, pre.gray@[i]);
            fall_back_by(g, post, y, i);
        }
        assert forall|i: int| 0 <= i < post.gray@.len() implies post.open(#[trigger] post.gray@[i]) by {
            assert(pre.open(pre.gray@[i]));
        }
        assert forall|i: int, y: usize|
            0 <= i < post.gray@.len() && #[trigger] post.open(y) && post.num(post.gray@[i]) <= post.num(y)
                implies reach(g, #[trigger] post.gray@[i], y) by {
            assert(pre.open(y));
            assert(reach(g, pre.gray@[i], y));
        }
        assert forall|a: usize, w: usize|
            post.seen(a) && !post.gray@.contains(a) && #[trigger] edge(g, a, w) implies post.seen(w) by {
            assert(pre.seen(a));
            if a != v && pre.gray@.contains(a) {
                let k = choose|k: int| 0 <= k < pre.gray@.len() && pre.gray@[k] == a;
                assert(post.gray@[k] == a);
            }
            assert(pre.seen(w));
        }
    }
    assert(post.comps_ok(g));
}

/// A new component, taken off the stack from its top down to `v`, comes last in order.
proof fn pop_tidy(g: Seq<Seq<usize>>, pre: Search, post: Search, v: usize, h: int, comp: Seq<usize>)
    requires
        closing(g, pre, v, h),
        pre.tidy(),
        popped(pre, post, h, comp),
        comp.len() == pre.stack@.len() - h,
        forall|i: int| 0 <= i < comp.len() ==> #[trigger] comp[i] == pre.stack@[pre.stack@.len() - 1 - i],
        post.left@ == pre.left@.push(v),
        post.ends@ == pre.ends@.push(pre.left@.len() as int),
    ensures
        post.tidy(),
{
    let old_comps = lists(pre.comps@);
    let comps = lists(post.comps@);
    let m = old_comps.len() as int;
    assert(comps[m] == comp);
    assert forall|c: int| 0 <= c < comps.len() implies 0 <= (#[trigger] post.ends@[c]) < post.left@.len() && comps[c].len() > 0
        && post.left@[post.ends@[c]] == comps[c].last() by {
        if c < m {
            assert(comps[c] == old_comps[c]);
            assert(0 <= pre.ends@[c] < pre.left@.len());
        }
    }
    assert forall|c: int, d: int| 0 <= c < d < comps.len() implies (#[trigger] post.ends@[c]) < (#[trigger] post.ends@[d]) by {
        assert(0 <= pre.ends@[c] < pre.left@.len());
        if d < m {
            assert(pre.ends@[c] < pre.ends@[d]);
        }
    }
    assert forall|c: int, i: int, j: int| 0 <= c < comps.len() && 0 <= i < j < comps[c].len() implies
        post.num(#[trigger] comps[c][j]) < post.num(#[trigger] comps[c][i]) by {
        if c < m {
            assert(comps[c] == old_comps[c]);
            assert(pre.num(old_comps[c][j]) < pre.num(old_comps[c][i]));
        } else {
            let len = pre.stack@.len();
            assert(pre.num(pre.stack@[len - 1 - j]) < pre.num(pre.stack@[len - 1 - i]));
        }
    }
}

/// Before an unseen vertex is numbered, a number is left for it.
proof fn number_left(s: Search, v: usize)
    requires
        s.shape(),
        v < s.n(),
        !s.seen(v),
    ensures
        s.counter < s.n(),
{
    let all = s.order@.push(v);
    assert forall|i: int| 0 <= i < s.order@.len() implies s.seen(#[trigger] s.order@[i]) by {
        assert(s.order@[i] < s.n());
        assert(s.index@[s.order@[i] as int] == i);
    }
    assert forall|i: int, j: int| 0 <= i < all.len() && 0 <= j < all.len() && i != j implies all[i] != all[j] by {
        if i < s.order@.len() {
            assert(s.seen(s.order@[i]));
        }
        if j < s.order@.len() {
            assert(s.seen(s.order@[j]));
        }
    }
    distinct_below(all, s.n());
}

/// The state while the edges of `v` are scanned: `pre` is the state before the call on `v`,
/// `h` the height of its stack, and the first `k` edges are explored.
spec fn scanning(g: Seq<Seq<usize>>, pre: Search, s: Search, v: usize, h: int, k: int) -> bool {
    &&& h == pre.stack@.len()
    &&& v < pre.n()
    &&& pre.stack_ok()
    &&& s.inv(g)
    &&& s.n() == pre.n()
    &&& s.gray@ == pre.gray@.push(v)
    &&& s.counter > pre.counter
    &&& s.open(v)
    &&& s.index@[v as int] == pre.counter
    &&& forall|u: usize| #[trigger] pre.seen(u) ==> s.seen(u) && u != v && s.index@[u as int] == pre.index@[u as int]
        && s.low@[u as int] == pre.low@[u as int]
    &&& s.stack@.len() > h
    &&& s.stack@.take(h + 1) == pre.stack@.push(v)
    &&& s.low@[v as int] <= s.index@[v as int]
    &&& s.low_reached(g, v)
    &&& forall|q: int| 0 <= q < k ==> s.seen(#[trigger] g[v as int][q])
    &&& s.bounded(g, h + 1, h, s.low@[v as int] as int)
    &&& forall|q: int, i: int|
        0 <= q < k && 0 <= i < h && (#[trigger] g[v as int][q]) == (#[trigger] s.stack@[i])
            ==> s.low@[v as int] <= s.num(s.stack@[i])
}

/// The invariant does not speak of the low links.
proof fn low_is_free(g: Seq<Seq<usize>>, pre: Search, post: Search)
    requires
        pre.inv(g),
        post == (Search { low: post.low, ..pre }),
        post.low@.len() == pre.low@.len(),
    ensures
        post.inv(g),
{
    assert(forall|u: usize| #[trigger] post.seen(u) == pre.seen(u));
    assert(forall|u: usize| #[trigger] post.open(u) == pre.open(u));
    assert(forall|u: usize| #[trigger] post.done(u) == pre.done(u));
    assert(post.gray_ok(g)) by {
        assert forall|y: usize| #[trigger] post.open(y) implies post.falls_back(g, y) by {
            assert(pre.open(y));
            let i = fall_back_to(g, pre, y);
            fall_back_by(g, post, y, i);
        }
    }
}

/// One more edge of `v` is explored: it led to an unseen vertex `w`, on which the call was made.
proof fn explored(g: Seq<Seq<usize>>, pre: Search, mid: Search, back: Search, post: Search, v: usize, w: usize, h: int, k: int)
    requires
        scanning(g, pre, mid, v, h, k),
        0 <= k < g[v as int].len(),
        g[v as int][k] == w,
        w < mid.n(),
        !mid.seen(w),
        back.inv(g),
        mid.grows(back),
        back.seen(w),
        back.index@[w as int] == mid.counter,
        back.low@[w as int] <= back.index@[w as int],
        back.open(w) ==> back.low_reached(g, w),
        !back.open(w) ==> back.low@[w as int] == back.index@[w as int],
        back.bounded(g, mid.stack@.len() as int, mid.stack@.len() as int, back.low@[w as int] as int),
        post == (Search { low: post.low, ..back }),
        post.low@ == back.low@.update(v as int, if back.low@[w as int] < back.low@[v as int] { back.low@[w as int] } else { back.low@[v as int] }),
    ensures
        scanning(g, pre, post, v, h, k + 1),
{
    low_is_free(g, back, post);
    assert(mid.seen(v));
    assert(v != w);
    assert(edge(g, v, w));
    assert(forall|u: usize| #[trigger] post.seen(u) == back.seen(u));
    assert(forall|u: usize| #[trigger] post.open(u) == back.open(u));
    assert forall|u: usize| #[trigger] pre.seen(u) implies post.seen(u) && u != v && post.index@[u as int] == pre.index@[u as int]
        && post.low@[u as int] == pre.low@[u as int] by {
        assert(mid.seen(u));
    }
    let m = mid.stack@.len() as int;
    assert forall|i: int| 0 <= i < m implies #[trigger] post.stack@[i] == mid.stack@[i] by {
        assert(mid.stack@[i] == back.stack@.take(m)[i]);
    }
    assert(post.stack@.take(h + 1) =~= mid.stack@.take(h + 1));
    assert(mid.stack@[h] == mid.stack@.take(h + 1)[h]);
    assert(post.stack@[h] == v);
    assert(back.open(back.stack@[h]));
    assert(post.low_reached(g, v)) by {
        if back.low@[w as int] < back.low@[v as int] {
            assert(back.open(w));
            let y = choose|y: usize| #[trigger] back.open(y) && reach(g, w, y) && back.num(y) == back.low@[w as int];
            reach_reflexive(g, v);
            reach_then_edge(g, v, v, w);
            reach_transitive(g, v, w, y);
            assert(post.open(y));
        } else {
            let y = choose|y: usize| #[trigger] mid.open(y) && reach(g, v, y) && mid.num(y) == mid.low@[v as int];
            assert(mid.seen(y));
            let i = choose|i: int| 0 <= i < mid.stack@.len() && mid.stack@[i] == y;
            assert(post.stack@[i] == y);
            assert(post.open(post.stack@[i]));
        }
    }
    assert forall|q: int| 0 <= q < k + 1 implies post.seen(#[trigger] g[v as int][q]) by {
        if q < k {
            assert(mid.seen(g[v as int][q]));
        }
    }
    assert forall|j: int, i: int|
        h + 1 <= j < post.stack@.len() && 0 <= i < h && edge(g, #[trigger] post.stack@[j], #[trigger] post.stack@[i])
            implies post.low@[v as int] <= post.num(post.stack@[i]) by {
        assert(post.stack@[i] == mid.stack@[i]);
        assert(mid.open(mid.stack@[i]));
        assert(mid.seen(mid.stack@[i]));
        if j < m {
            assert(post.stack@[j] == mid.stack@[j]);
            assert(mid.low@[v as int] <= mid.num(mid.stack@[i]));
        } else {
            assert(back.low@[w as int] <= back.num(back.stack@[i]));
        }
    }
    assert forall|q: int, i: int|
        0 <= q < k + 1 && 0 <= i < h && (#[trigger] g[v as int][q]) == (#[trigger] post.stack@[i])
            implies post.low@[v as int] <= post.num(post.stack@[i]) by {
        assert(post.stack@[i] == mid.stack@[i]);
        assert(mid.open(mid.stack@[i]));
        assert(mid.seen(mid.stack@[i]));
    }
}

/// One more edge of `v` is explored: it led to the seen vertex `w`, and the low link of `v`
/// counts it if it is on the stack.
proof fn met(g: Seq<Seq<usize>>, pre: Search, mid: Search, post: Search, v: usize, w: usize, h: int, k: int)
    requires
        scanning(g, pre, mid, v, h, k),
        0 <= k < g[v as int].len(),
        g[v as int][k] == w,
        mid.seen(w),
        post == (Search { low: post.low, ..mid }),
        post.low@ == mid.low@.update(
            v as int,
            if mid.open(w) && mid.index@[w as int] < mid.low@[v as int] { mid.index@[w as int] } else { mid.low@[v as int] },
        ),
    ensures
        scanning(g, pre, post, v, h, k + 1),
{
    low_is_free(g, mid, post);
    assert(edge(g, v, w));
    assert(forall|u: usize| #[trigger] post.seen(u) == mid.seen(u));
    assert(forall|u: usize| #[trigger] post.open(u) == mid.open(u));
    assert(mid.seen(v));
    assert forall|u: usize| #[trigger] pre.seen(u) implies post.seen(u) && u != v && post.index@[u as int] == pre.index@[u as int]
        && post.low@[u as int] == pre.low@[u as int] by {
        assert(mid.seen(u));
    }
    assert(post.low_reached(g, v)) by {
        if mid.open(w) && mid.index@[w as int] < mid.low@[v as int] {
            reach_reflexive(g, v);
            reach_then_edge(g, v, v, w);
            assert(post.open(w));
        } else {
            let y = choose|y: usize| #[trigger] mid.open(y) && reach(g, v, y) && mid.num(y) == mid.low@[v as int];
            assert(post.open(y));
        }
    }
    assert forall|j: int, i: int|
        h + 1 <= j < post.stack@.len() && 0 <= i < h && edge(g, #[trigger] post.stack@[j], #[trigger] post.stack@[i])
            implies post.low@[v as int] <= post.num(post.stack@[i]) by {
        assert(mid.low@[v as int] <= mid.num(mid.stack@[i]));
    }
    assert forall|q: int, i: int|
        0 <= q < k + 1 && 0 <= i < h && (#[trigger] g[v as int][q]) == (#[trigger] post.stack@[i])
            implies post.low@[v as int] <= post.num(post.stack@[i]) by {
        if q < k {
            assert(mid.low@[v as int] <= mid.num(mid.stack@[i]));
        } else {
            assert(mid.open(mid.stack@[i]));
        }
    }
}

/// All edges of `v` are explored.
proof fn scanned(g: Seq<Seq<usize>>, pre: Search, s: Search, v: usize, h: int)
    requires
        scanning(g, pre, s, v, h, g[v as int].len() as int),
        v < g.len(),
    ensures
        closing(g, s, v, h),
{
    assert(s.stack@[h] == s.stack@.take(h + 1)[h]);
    assert forall|w: usize| #[trigger] edge(g, v, w) implies s.seen(w) by {
        let q = choose|q: int| 0 <= q < g[v as int].len() && g[v as int][q] == w;
        assert(s.seen(g[v as int][q]));
    }
    assert forall|j: int, i: int|
        h <= j < s.stack@.len() && 0 <= i < h && edge(g, #[trigger] s.stack@[j], #[trigger] s.stack@[i])
            implies s.low@[v as int] <= s.num(s.stack@[i]) by {
        if j == h {
            let q = choose|q: int| 0 <= q < g[v as int].len() && g[v as int][q] == s.stack@[i];
            assert(g[v as int][q] == s.stack@[i]);
        }
    }
}

/// Explores everything that can be reached from the unseen vertex `v`.
fn strongconnect(v: usize, adj: &[Vec<usize>], s: &mut Search, Ghost(depth): Ghost<nat>)
    requires
        old(s).inv(lists(adj@)),
        old(s).tidy(),
        depth + old(s).counter >= old(s).n(),
        v < old(s).n(),
        !old(s).seen(v),
        forall|i: int| 0 <= i < old(s).gray@.len() ==> reach(lists(adj@), #[trigger] old(s).gray@[i], v),
    ensures
        final(s).inv(lists(adj@)),
        final(s).tidy(),
        final(s).walk() == walk_to(lists(adj@), old(s).walk(), v, depth),
        old(s).grows(*final(s)),
        final(s).seen(v),
        final(s).index@[v as int] == old(s).counter,
        final(s).low@[v as int] <= final(s).index@[v as int],
        final(s).open(v) ==> final(s).low_reached(lists(adj@), v),
        !final(s).open(v) ==> final(s).low@[v as int] == final(s).index@[v as int],
        final(s).bounded(lists(adj@), old(s).stack@.len() as int, old(s).stack@.len() as int, final(s).low@[v as int] as int),
    decreases old(s).n() - old(s).counter,
{
    let ghost g = lists(adj@);
    let ghost pre = *s;
    let ghost h = s.stack@.len() as int;
    proof {
        number_left(pre, v);
        assert(s.index.len() == pre.n());
    }
    let number: usize = s.counter;
    s.index[v] = number;
    s.low[v] = number;
    s.counter = number + 1;
    s.stack.push(v);
    s.on_stack[v] = true;
    s.order = Ghost(pre.order@.push(v));
    s.gray = Ghost(pre.gray@.push(v));
    proof {
        enter(g, pre, *s, v);
        enter_basics(pre, *s, v);
        enter_tidy(g, pre, *s, v);
        met_is_seen(pre, v);
        assert(s.stack@.take(h + 1) =~= pre.stack@.push(v));
        assert(scanning(g, pre, *s, v, h, 0));
        assert(adj@[v as int]@ == g[v as int]);
    }
    let ghost first = s.walk();
    let mut k: usize = 0;
    while k < adj[v].len()
        invariant
            pre == *old(s),
            depth + pre.counter >= pre.n(),
            s.tidy(),
            s.walk() == walk_along(g, first, g[v as int], k as nat, (depth - 1) as nat),
            g == lists(adj@),
            v < adj@.len(),
            adj@[v as int]@ == g[v as int],
            pre.counter < pre.n(),
            k <= g[v as int].len(),
            scanning(g, pre, *s, v, h, k as int),
        decreases g[v as int].len() - k,
    {
        let w: usize = adj[v][k];
        let ghost mid = *s;
        assert(edge(g, v, w));
        assert(g[v as int][k as int] < s.n());
        if s.index[w] == usize::MAX {
            assert forall|i: int| 0 <= i < s.gray@.len() implies reach(g, #[trigger] s.gray@[i], w) by {
                let top = pre.gray@.len() as int;
                assert(s.gray@[top] == v);
                if i < top {
                    assert(s.num(s.gray@[i]) < s.num(s.gray@[top]));
                }
                assert(reach(g, s.gray@[i], v));
                reach_then_edge(g, s.gray@[i], v, w);
            }
            proof {
                number_left(mid, w);
            }
            strongconnect(w, adj, s, Ghost((depth - 1) as nat));
            let ghost back = *s;
            if s.low[w] < s.low[v] {
                let low: usize = s.low[w];
                s.low[v] = low;
            }
            proof {
                if back.low@[v as int] <= back.low@[w as int] {
                    assert(s.low@ =~= back.low@.update(v as int, back.low@[v as int]));
                }
                explored(g, pre, mid, back, *s, v, w, h, k as int);
            }
        } else {
            if s.on_stack[w] {
                if s.index[w] < s.low[v] {
                    let low: usize = s.index[w];
                    s.low[v] = low;
                }
            }
            proof {
                if !(mid.open(w) && mid.index@[w as int] < mid.low@[v as int]) {
                    assert(s.low@ =~= mid.low@.update(v as int, mid.low@[v as int]));
                }
                met(g, pre, mid, *s, v, w, h, k as int);
                met_is_seen(mid, w);
            }
        }
        assert(s.walk() == walk_to(g, mid.walk(), w, (depth - 1) as nat));
        assert(walk_along(g, first, g[v as int], (k + 1) as nat, (depth - 1) as nat) == walk_to(
            g,
            walk_along(g, first, g[v as int], k as nat, (depth - 1) as nat),
            g[v as int][k as int],
            (depth - 1) as nat,
        ));
        k += 1;
    }
    let ghost full = *s;
    proof {
        scanned(g, pre, full, v, h);
        assert(pre.stack@ =~= full.stack@.take(h + 1).take(h));
        assert(full.stack@.take(h + 1).take(h) =~= full.stack@.take(h));
    }
    if s.low[v] == s.index[v] {
        let component: Vec<usize> = pop_component(v, s, Ghost(h));
        let ghost comp = component@;
        let ghost cut = *s;
        s.comps.push(component);
        s.gray = Ghost(pre.gray@);
        s.left = Ghost(full.left@.push(v));
        s.ends = Ghost(full.ends@.push(full.left@.len() as int));
        proof {
            assert(full.gray@.drop_last() =~= pre.gray@);
            assert(lists(s.comps@) =~= lists(full.comps@).push(comp));
            assert(forall|u: usize| #[trigger] s.open(u) == cut.open(u));
            pop_basics(g, full, *s, v, h, comp);
            pop_gray(g, full, *s, v, h, comp);
            pop_comps(g, full, *s, v, h, comp);
            pop_tidy(g, full, *s, v, h, comp);
        }
    } else {
        s.gray = Ghost(pre.gray@);
        s.left = Ghost(full.left@.push(v));
        proof {
            assert(full.gray@.drop_last() =~= pre.gray@);
            keep(g, full, *s, v, h);
            let y = choose|y: usize| #[trigger] full.open(y) && reach(g, v, y) && full.num(y) == full.low@[v as int];
            assert(s.open(y));
        }
    }
    proof {
        assert forall|u: usize| #[trigger] pre.seen(u) implies s.seen(u) && s.index@[u as int] == pre.index@[u as int]
            && s.low@[u as int] == pre.low@[u as int] by {
            assert(full.seen(u));
        }
        assert(s.stack@.take(h) =~= pre.stack@);
    }
}

/// Takes the stack from height `h` on, where `v` stands, off the stack.
fn pop_component(v: usize, s: &mut Search, Ghost(h): Ghost<int>) -> (component: Vec<usize>)
    requires
        old(s).shape(),
        old(s).stack_ok(),
        0 <= h < old(s).stack@.len(),
        old(s).stack@[h] == v,
    ensures
        *final(s) == (Search { stack: final(s).stack, on_stack: final(s).on_stack, ..*old(s) }),
        final(s).stack@ == old(s).stack@.take(h),
        final(s).on_stack@.len() == old(s).on_stack@.len(),
        forall|u: usize| #[trigger] final(s).open(u) <==> old(s).open(u) && !component@.contains(u),
        component@.len() == old(s).stack@.len() - h,
        forall|i: int| 0 <= i < component@.len() ==> #[trigger] component@[i] == old(s).stack@[old(s).stack@.len() - 1 - i],
        component@.no_duplicates(),
        forall|u: usize| #[trigger] component@.contains(u) <==> old(s).stack@.skip(h).contains(u),
{
    let ghost pre = *s;
    let ghost len = s.stack@.len() as int;
    let mut component: Vec<usize> = Vec::new();
    loop
        invariant_except_break
            h < s.stack@.len(),
        invariant
            pre.shape(),
            pre.stack_ok(),
            0 <= h < len,
            len == pre.stack@.len(),
            pre.stack@[h] == v,
            *s == (Search { stack: s.stack, on_stack: s.on_stack, ..pre }),
            h <= s.stack@.len() <= len,
            s.stack@ == pre.stack@.take(s.stack@.len() as int),
            s.on_stack@.len() == pre.on_stack@.len(),
            component@.len() == len - s.stack@.len(),
            forall|i: int| 0 <= i < component@.len() ==> #[trigger] component@[i] == pre.stack@[len - 1 - i],
            forall|u: usize| #[trigger] s.open(u) <==> pre.open(u) && !component@.contains(u),
        ensures
            s.stack@.len() == h,
        decreases s.stack@.len(),
    {
        let ghost before = *s;
        let ghost taken = component@;
        match s.stack.pop() {
            Some(w) => {
                let ghost m = s.stack@.len() as int;
                assert(before.stack@[m] == pre.stack@.take(m + 1)[m]);
                assert(pre.open(pre.stack@[m]));
                s.on_stack[w] = false;
                component.push(w);
                proof {
                    assert(s.stack@ =~= pre.stack@.take(m));
                    assert forall|u: usize| #[trigger] s.open(u) <==> pre.open(u) && !component@.contains(u) by {
                        assert(before.open(u) <==> pre.open(u) && !taken.contains(u));
                        if taken.contains(u) {
                            let i = choose|i: int| 0 <= i < taken.len() && taken[i] == u;
                            assert(component@[i] == u);
                        }
                        assert(component@[taken.len() as int] == w);
                        if component@.contains(u) && u != w {
                            let i = choose|i: int| 0 <= i < component@.len() && component@[i] == u;
                            assert(taken[i] == u);
                        }
                    }
                    if w == v && m > h {
                        assert(pre.num(pre.stack@[h]) < pre.num(pre.stack@[m]));
                    }
                }
                if w == v {
                    break;
                }
            },
            None => {
                assert(false);
                break;
            },
        }
    }
    proof {
        let tail = pre.stack@.skip(h);
        assert forall|u: usize| #[trigger] component@.contains(u) <==> tail.contains(u) by {
            if component@.contains(u) {
                let i = choose|i: int| 0 <= i < component@.len() && component@[i] == u;
                assert(tail[len - 1 - i - h] == u);
            }
            if tail.contains(u) {
                let i = choose|i: int| 0 <= i < tail.len() && tail[i] == u;
                assert(component@[len - 1 - h - i] == u);
            }
        }
        assert forall|i: int, j: int| 0 <= i < component@.len() && 0 <= j < component@.len() && i != j implies component@[i] != component@[j] by {
            let a = len - 1 - i;
            let b = len - 1 - j;
            if a < b {
                assert(pre.num(pre.stack@[a]) < pre.num(pre.stack@[b]));
            } else {
                assert(pre.num(pre.stack@[b]) < pre.num(pre.stack@[a]));
            }
        }
    }
    component
}

/// Components that are listed in the order of the search are listed in the order of its walk.
proof fn listed_in_walk_order(g: Seq<Seq<usize>>, s: Search)
    requires
        s.inv(g),
        s.tidy(),
    ensures
        in_walk_order(s.walk(), lists(s.comps@)),
{
    let comps = lists(s.comps@);
    assert forall|c: int, i: int, j: int| 0 <= c < comps.len() && 0 <= i < j < comps[c].len() implies
        in_front(s.walk().met, #[trigger] comps[c][j], #[trigger] comps[c][i]) by {
        assert(comps[c].contains(comps[c][i]) && comps[c].contains(comps[c][j]));
        assert(s.seen(comps[c][i]) && s.seen(comps[c][j]));
        assert(s.order@[s.num(comps[c][j])] == comps[c][j]);
        assert(s.order@[s.num(comps[c][i])] == comps[c][i]);
    }
    assert forall|c: int, d: int| 0 <= c < d < comps.len() implies
        in_front(s.walk().left, (#[trigger] comps[c]).last(), (#[trigger] comps[d]).last()) by {
        assert(s.ends@[c] < s.ends@[d]);
        assert(s.left@[s.ends@[c]] == comps[c].last());
        assert(s.left@[s.ends@[d]] == comps[d].last());
    }
}

/// The strongly connected components of the graph on the vertices `0..n` with the adjacency
/// lists `adj`, by Tarjan's algorithm, in the order in which a depth-first walk leaves them.
pub fn tarjan_scc(adj: &[Vec<usize>], n: usize) -> (comps: Vec<Vec<usize>>)
    requires
        vertices_in_range(lists(adj@), n as nat),
    ensures
        is_scc_order(lists(adj@), n as nat, lists(comps@)),
        in_walk_order(full_walk(lists(adj@), n as nat), lists(comps@)),
{
    let ghost g = lists(adj@);
    let mut s = Search {
        counter: 0,
        stack: Vec::new(),
        on_stack: vec![false; n],
        index: vec![usize::MAX; n],
        low: vec![0usize; n],
        comps: Vec::new(),
        order: Ghost(Seq::empty()),
        gray: Ghost(Seq::empty()),
        left: Ghost(Seq::empty()),
        ends: Ghost(Seq::empty()),
    };
    assert(s.inv(g)) by {
        assert(forall|u: usize| !#[trigger] s.seen(u));
        assert(forall|u: usize| !#[trigger] s.open(u));
        assert(forall|u: usize| !#[trigger] s.done(u));
    }
    let mut v: usize = 0;
    while v < n
        invariant
            v <= n,
            s.n() == n,
            s.inv(g),
            s.tidy(),
            s.walk() == walk_along(g, no_walk(), numbers_below(n as nat), v as nat, n as nat),
            g == lists(adj@),
            s.gray@.len() == 0,
            forall|u: usize| u < v ==> #[trigger] s.seen(u),
        decreases n - v,
    {
        let ghost before = s;
        if s.index[v] == usize::MAX {
            strongconnect(v, adj, &mut s, Ghost(n as nat));
            proof {
                assert forall|u: usize| u < v + 1 implies #[trigger] s.seen(u) by {
                    if u < v {
                        assert(before.seen(u));
                    }
                }
            }
        } else {
            proof {
                assert(s.seen(v));
                met_is_seen(s, v);
            }
        }
        assert(s.walk() == walk_to(g, before.walk(), v, n as nat));
        assert(numbers_below(n as nat)[v as int] == v);
        v += 1;
    }
    proof {
        assert forall|u: usize| u < n implies #[trigger] component_of(lists(s.comps@), u) by {
            assert(s.seen(u));
            if s.open(u) {
                let i = fall_back_to(g, s, u);
            }
            assert(s.done(u));
        }
        let comps = lists(s.comps@);
        assert forall|c: int, u: usize| 0 <= c < comps.len() && #[trigger] comps[c].contains(u) implies u < n by {
            assert(s.seen(u));
        }
        listed_in_walk_order(g, s);
    }
    s.comps
}

/// Two components have no vertex in common.
pub proof fn components_are_apart(g: Seq<Seq<usize>>, n: nat, comps: Seq<Seq<usize>>, c: int, d: int, v: usize)
    requires
        is_scc_order(g, n, comps),
        0 <= c < comps.len(),
        0 <= d < comps.len(),
        comps[c].contains(v),
        comps[d].contains(v),
    ensures
        c == d,
{
    reach_reflexive(g, v);
}

/// A component of one list is a component of the other.
proof fn component_in_both(g: Seq<Seq<usize>>, n: nat, w: Walk, one: Seq<Seq<usize>>, other: Seq<Seq<usize>>, c: int) -> (d: int)
    requires
        w.met.no_duplicates(),
        is_scc_order(g, n, one),
        is_scc_order(g, n, other),
        in_walk_order(w, one),
        in_walk_order(w, other),
        0 <= c < one.len(),
    ensures
        0 <= d < other.len(),
        one[c] == other[d],
{
    let v = one[c][0];
    assert(one[c].contains(v));
    assert(component_of(other, v));
    let d = choose|d: int| 0 <= d < other.len() && #[trigger] other[d].contains(v);
    let later = |a: usize, b: usize| in_front(w.met, b, a);
    assert forall|a: usize, b: usize| #[trigger] later(a, b) implies !later(b, a) by {
        in_front_one_way(w.met, b, a);
    }
    assert forall|x: usize| #[trigger] one[c].contains(x) <==> other[d].contains(x) by {
        if one[c].contains(x) {
            assert(x < n);
        }
        if other[d].contains(x) {
            assert(x < n);
        }
    }
    ordered_is_unique(one[c], other[d], later);
    d
}

/// The components of a graph have only one order in which a walk without repetitions lists them.
pub proof fn component_order_is_unique(g: Seq<Seq<usize>>, n: nat, w: Walk, one: Seq<Seq<usize>>, other: Seq<Seq<usize>>)
    requires
        is_sound(w),
        is_scc_order(g, n, one),
        is_scc_order(g, n, other),
        in_walk_order(w, one),
        in_walk_order(w, other),
    ensures
        one == other,
{
    let sooner = |a: Seq<usize>, b: Seq<usize>| in_front(w.left, a.last(), b.last());
    assert forall|a: Seq<usize>, b: Seq<usize>| #[trigger] sooner(a, b) implies !sooner(b, a) by {
        in_front_one_way(w.left, a.last(), b.last());
    }
    assert forall|x: Seq<usize>| #[trigger] one.contains(x) <==> other.contains(x) by {
        if one.contains(x) {
            let c = choose|c: int| 0 <= c < one.len() && one[c] == x;
            let d = component_in_both(g, n, w, one, other, c);
            assert(other[d] == x);
        }
        if other.contains(x) {
            let c = choose|c: int| 0 <= c < other.len() && other[c] == x;
            let d = component_in_both(g, n, w, other, one, c);
            assert(one[d] == x);
        }
    }
    ordered_is_unique(one, other, sooner);
}

/// `a` stands somewhere in the list, and `b` behind it.
pub open spec fn is_earlier(list: Seq<usize>, a: usize, b: usize) -> bool {
    exists|x: int, y: int| 0 <= x < y < list.len() && #[trigger] list[x] == a && #[trigger] list[y] == b
}

/// One of the lists names `v`.
pub open spec fn is_listed(comps: Seq<Seq<usize>>, v: usize) -> bool {
    exists|c: int| 0 <= c < comps.len() && #[trigger] comps[c].contains(v)
}

/// The components, in plain terms. Every vertex below `n` is in just one of them. Two vertices are
/// in the same one exactly if there are paths from each to the other. In a component the vertex
/// that the walk met last stands in front. No path leads from a component to a later one; and if
/// none leads back either, the one whose first vertex was met sooner comes first.
pub proof fn components_by_paths(g: Seq<Seq<usize>>, n: nat, comps: Seq<Seq<usize>>)
    requires
        vertices_in_range(g, n),
        n <= usize::MAX + 1,
        is_scc_order(g, n, comps),
        in_walk_order(full_walk(g, n), comps),
    ensures
        forall|v: usize| v < n <==> #[trigger] is_listed(comps, v),
        forall|c: int, d: int, v: usize|
            0 <= c < d < comps.len() && #[trigger] comps[c].contains(v) ==> !#[trigger] comps[d].contains(v),
        forall|c: int, u: usize, v: usize|
            0 <= c < comps.len() && #[trigger] comps[c].contains(u) && v < n ==> (#[trigger] comps[c].contains(v) <==> (
            exists|p: Seq<usize>| #[trigger] is_path(g, p, u, v)) && (exists|p: Seq<usize>| #[trigger] is_path(g, p, v, u))),
        forall|c: int, i: int, j: int|
            0 <= c < comps.len() && 0 <= i < j < comps[c].len() ==> is_earlier(
                full_walk(g, n).met,
                #[trigger] comps[c][j],
                #[trigger] comps[c][i],
            ),
        forall|c: int, d: int, u: usize, v: usize, p: Seq<usize>|
            0 <= c < d < comps.len() && #[trigger] comps[c].contains(u) && #[trigger] comps[d].contains(v) ==> !#[trigger] is_path(g, p, u, v),
        forall|c: int, d: int|
            0 <= c < d < comps.len() ==> (exists|p: Seq<usize>| #[trigger] is_path(g, p, comps[d].last(), comps[c].last())) || is_earlier(
                full_walk(g, n).met,
                (#[trigger] comps[c]).last(),
                (#[trigger] comps[d]).last(),
            ),
{
    let w = full_walk(g, n);
    crate::walk::walk_goes_depth_first(g, n);
    full_walk_is_sound(g, n);
    assert forall|v: usize| v < n <==> #[trigger] is_listed(comps, v) by {
        if v < n {
            assert(component_of(comps, v));
        }
    }
    assert forall|c: int, d: int, v: usize| 0 <= c < d < comps.len() && #[trigger] comps[c].contains(v) implies !#[trigger] comps[d].contains(v) by {
        if comps[d].contains(v) {
            components_are_apart(g, n, comps, c, d, v);
        }
    }
    assert forall|c: int, u: usize, v: usize| 0 <= c < comps.len() && #[trigger] comps[c].contains(u) && v < n implies (
    #[trigger] comps[c].contains(v) <==> (exists|p: Seq<usize>| #[trigger] is_path(g, p, u, v)) && (exists|p: Seq<usize>| #[trigger]
        is_path(g, p, v, u))) by {
        reach_by_path(g, u, v);
        reach_by_path(g, v, u);
        assert(comps[c].contains(v) <==> mutual(g, u, v));
    }
    assert forall|c: int, i: int, j: int| 0 <= c < comps.len() && 0 <= i < j < comps[c].len() implies is_earlier(w.met, #[trigger] comps[c][j], #[trigger] comps[c][i]) by {
        assert(in_front(w.met, comps[c][j], comps[c][i]));
        let (x, y) = choose|x: int, y: int| 0 <= x < y < w.met.len() && #[trigger] w.met[x] == comps[c][j] && #[trigger] w.met[y] == comps[c][i];
        assert(w.met[x] == comps[c][j] && w.met[y] == comps[c][i]);
    }
    assert forall|c: int, d: int, u: usize, v: usize, p: Seq<usize>|
        0 <= c < d < comps.len() && #[trigger] comps[c].contains(u) && #[trigger] comps[d].contains(v) implies !#[trigger] is_path(g, p, u, v) by {
        reach_by_path(g, u, v);
    }
    assert forall|c: int, d: int| 0 <= c < d < comps.len() implies (exists|p: Seq<usize>| #[trigger]
        is_path(g, p, comps[d].last(), comps[c].last())) || is_earlier(w.met, (#[trigger] comps[c]).last(), (#[trigger] comps[d]).last()) by {
        let (a, b) = (comps[c].last(), comps[d].last());
        assert(comps[c].contains(comps[c][comps[c].len() - 1]) && comps[d].contains(comps[d][comps[d].len() - 1]));
        assert(in_front(w.left, a, b));
        let (p, q) = choose|p: int, q: int| 0 <= p < q < w.left.len() && #[trigger] w.left[p] == a && #[trigger] w.left[q] == b;
        assert(a < n && b < n);
        assert(w.met.contains(a) && w.met.contains(b));
        let x = choose|x: int| 0 <= x < w.met.len() && #[trigger] w.met[x] == a;
        let y = choose|y: int| 0 <= y < w.met.len() && #[trigger] w.met[y] == b;
        if y < x {
            crate::walk::left_sooner_is_reached(g, n, y, x, p, q);
            reach_by_path(g, b, a);
        } else {
            assert(x != y);
        }
    }
}

} // verus!
