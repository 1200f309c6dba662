//! PageRank in exact arithmetic: what the rounds come to where no operation rounds.
use vstd::prelude::*;

use crate::graph::{EdgeView, GraphView};
use crate::pagerank::{
    adds, are_gaps, are_partial_sums, are_passed_on, dangling, is_base, is_limit, is_mixed, is_next, is_round, is_run, is_share, is_start,
    is_sum, is_test, link_lists, linked, round_at, test_at, Score,
};

verus! {

/// A whole number among the reals.
pub open spec fn number(n: int) -> real {
    n as real
}

/// How far two numbers are apart.
pub open spec fn distance(a: real, b: real) -> real {
    if a < b {
        b - a
    } else {
        a - b
    }
}

/// The sum of the first `n` values of `f`.
pub open spec fn total(f: spec_fn(int) -> real, n: int) -> real
    decreases n,
{
    if n <= 0 {
        number(0)
    } else {
        total(f, n - 1) + f(n - 1)
    }
}

/// `value` takes the operations on scores to those on numbers, with nothing lost.
pub open spec fn is_exact<S: Score>(value: spec_fn(S) -> real) -> bool {
    &&& forall|n: usize, x: S| #[trigger] call_ensures(S::of_count, (n,), x) ==> value(x) == number(n as int)
    &&& forall|a: S, b: S, x: S| #[trigger] call_ensures(S::plus, (a, b), x) ==> value(x) == value(a) + value(b)
    &&& forall|a: S, b: S, x: S| #[trigger] call_ensures(S::minus, (a, b), x) ==> value(x) == value(a) - value(b)
    &&& forall|a: S, b: S, x: S| #[trigger] call_ensures(S::times, (a, b), x) ==> value(x) == value(a) * value(b)
    &&& forall|a: S, b: S, x: S| #[trigger]
        call_ensures(S::over, (a, b), x) && value(b) != number(0) ==> value(x) == value(a) / value(b)
    &&& forall|a: S, b: S, x: S| #[trigger] call_ensures(S::gap, (a, b), x) ==> value(x) == distance(value(a), value(b))
    &&& forall|a: S, b: S, x: bool| #[trigger] call_ensures(S::below, (a, b), x) ==> (x <==> value(a) < value(b))
}

/// Every list names vertices of which each has links itself, and its length can be counted.
pub open spec fn are_links(adj: Seq<Seq<usize>>) -> bool {
    &&& adj.len() <= usize::MAX
    &&& forall|v: int| 0 <= v < adj.len() ==> (#[trigger] adj[v]).len() <= usize::MAX
    &&& forall|v: int, k: int|
        0 <= v < adj.len() && 0 <= k < adj[v].len() ==> (#[trigger] adj[v][k]) < adj.len() && adj[adj[v][k] as int].len() > 0
}

/// What the link at place `k` of `v` passes on: the score at its other end divided by the number
/// of links there.
pub open spec fn passed<S>(value: spec_fn(S) -> real, adj: Seq<Seq<usize>>, rank: Seq<S>, v: int, k: int) -> real {
    value(rank[adj[v][k] as int]) / number(adj[adj[v][k] as int].len() as int)
}

/// The score of `u` if it has no links.
pub open spec fn unlinked<S>(value: spec_fn(S) -> real, adj: Seq<Seq<usize>>, rank: Seq<S>, u: int) -> real {
    if adj[u].len() == 0 {
        value(rank[u])
    } else {
        number(0)
    }
}

/// The PageRank of `v` after a round: `(1 - d) / n`, and `d` times what its links pass on and an
/// `n`-th of the scores of all vertices without links.
pub open spec fn new_score<S>(value: spec_fn(S) -> real, adj: Seq<Seq<usize>>, damping: S, rank: Seq<S>, v: int) -> real {
    let n = number(rank.len() as int);
    (number(1) - value(damping)) / n + value(damping) * (total(|k: int| passed(value, adj, rank, v, k), adj[v].len() as int) + total(
        |u: int| unlinked(value, adj, rank, u),
        rank.len() as int,
    ) / n)
}

/// How far the scores moved in all.
pub open spec fn change<S>(value: spec_fn(S) -> real, rank: Seq<S>, next: Seq<S>) -> real {
    total(|i: int| distance(value(rank[i]), value(next[i])), rank.len() as int)
}

proof fn totals_agree(f: spec_fn(int) -> real, g: spec_fn(int) -> real, n: int)
    requires
        forall|i: int| 0 <= i < n ==> #[trigger] f(i) == g(i),
    ensures
        total(f, n) == total(g, n),
    decreases n,
{
    if n > 0 {
        totals_agree(f, g, n - 1);
        assert(f(n - 1) == g(n - 1));
    }
}

/// What adding up scores comes to.
proof fn sum_is_total<S: Score>(value: spec_fn(S) -> real, terms: Seq<S>, sum: S)
    requires
        is_exact(value),
        is_sum(terms, sum),
    ensures
        value(sum) == total(|i: int| value(terms[i]), terms.len() as int),
{
    let parts = choose|parts: Seq<S>| #[trigger] are_partial_sums(terms, parts) && parts[parts.len() - 1] == sum;
    part_is_total(value, terms, parts, terms.len() as int);
}

proof fn part_is_total<S: Score>(value: spec_fn(S) -> real, terms: Seq<S>, parts: Seq<S>, n: int)
    requires
        is_exact(value),
        are_partial_sums(terms, parts),
        0 <= n <= terms.len(),
    ensures
        value(parts[n]) == total(|i: int| value(terms[i]), n),
    decreases n,
{
    if n > 0 {
        part_is_total(value, terms, parts, n - 1);
        assert(adds(terms, parts, n - 1));
    }
}

proof fn share_is_quotient<S: Score>(value: spec_fn(S) -> real, score: S, count: usize, quotient: S)
    requires
        is_exact(value),
        is_share(score, count, quotient),
        count > 0,
    ensures
        value(quotient) == value(score) / number(count as int),
{
    let c = choose|c: S| #[trigger] call_ensures(S::of_count, (count,), c) && call_ensures(S::over, (score, c), quotient);
    assert(value(c) == number(count as int));
    assert(number(count as int) != number(0));
}

proof fn dangling_is_unlinked<S: Score>(value: spec_fn(S) -> real, adj: Seq<Seq<usize>>, rank: Seq<S>, i: nat)
    ensures
        total(|k: int| value(dangling(adj, rank, i)[k]), dangling(adj, rank, i).len() as int) == total(
            |u: int| unlinked(value, adj, rank, u),
            i as int,
        ),
    decreases i,
{
    if i > 0 {
        dangling_is_unlinked(value, adj, rank, (i - 1) as nat);
        let front = dangling(adj, rank, (i - 1) as nat);
        let all = dangling(adj, rank, i);
        totals_agree(|k: int| value(front[k]), |k: int| value(all[k]), front.len() as int);
    }
}

/// After a round each vertex has its new score.
pub proof fn round_gives_new_scores<S: Score>(value: spec_fn(S) -> real, adj: Seq<Seq<usize>>, damping: S, rank: Seq<S>, next: Seq<S>)
    requires
        is_exact(value),
        are_links(adj),
        rank.len() == adj.len(),
        is_round(adj, damping, rank, next),
    ensures
        next.len() == rank.len(),
        forall|v: int| 0 <= v < next.len() ==> value(#[trigger] next[v]) == new_score(value, adj, damping, rank, v),
{
    let n = rank.len();
    let (teleport, share) = choose|teleport: S, share: S| #[trigger]
        is_base(adj, damping, rank, teleport, share) && next.len() == rank.len() && forall|v: int|
            0 <= v < next.len() ==> is_next(adj, damping, rank, teleport, share, v, #[trigger] next[v]);
    let (one, rest, lost) = choose|one: S, rest: S, lost: S|
        #![trigger call_ensures(S::minus, (one, damping), rest), is_sum(dangling(adj, rank, rank.len()), lost)]
        call_ensures(S::of_count, (1usize,), one) && call_ensures(S::minus, (one, damping), rest) && is_share(
            rest,
            rank.len() as usize,
            teleport,
        ) && is_sum(dangling(adj, rank, rank.len()), lost) && is_share(lost, rank.len() as usize, share);
    assert forall|v: int| 0 <= v < next.len() implies value(#[trigger] next[v]) == new_score(value, adj, damping, rank, v) by {
        share_is_quotient(value, rest, n as usize, teleport);
        share_is_quotient(value, lost, n as usize, share);
        sum_is_total(value, dangling(adj, rank, n), lost);
        dangling_is_unlinked(value, adj, rank, n);
        assert(is_next(adj, damping, rank, teleport, share, v, next[v]));
        let (terms, sum) = choose|terms: Seq<S>, sum: S|
            #![trigger is_sum(terms, sum)]
            are_passed_on(adj, rank, v, terms) && is_sum(terms, sum) && is_mixed(damping, teleport, share, sum, next[v]);
        sum_is_total(value, terms, sum);
        assert forall|k: int| 0 <= k < terms.len() implies value(#[trigger] terms[k]) == passed(value, adj, rank, v, k) by {
            let u = adj[v][k] as int;
            assert(adj[u].len() <= usize::MAX);
            share_is_quotient(value, rank[u], adj[u].len() as usize, terms[k]);
        }
        totals_agree(|k: int| value(terms[k]), |k: int| passed(value, adj, rank, v, k), terms.len() as int);
    }
}

/// At the start all vertices have the score one divided by their number.
pub proof fn start_is_even<S: Score>(value: spec_fn(S) -> real, n: nat, rank: Seq<S>)
    requires
        is_exact(value),
        n <= usize::MAX,
        is_start(n, rank),
    ensures
        rank.len() == n,
        forall|i: int| 0 <= i < n ==> value(#[trigger] rank[i]) == number(1) / number(n as int),
{
    let (one, init) = choose|one: S, init: S|
        #![trigger is_share(one, n as usize, init)]
        call_ensures(S::of_count, (1usize,), one) && is_share(one, n as usize, init) && rank.len() == n && forall|i: int|
            0 <= i < n ==> #[trigger] rank[i] == init;
    if n > 0 {
        share_is_quotient(value, one, n as usize, init);
    }
}

/// A round is the last if the scores moved by less than a millionth in all.
pub proof fn small_is_below_a_millionth<S: Score>(value: spec_fn(S) -> real, rank: Seq<S>, next: Seq<S>, small: bool)
    requires
        is_exact(value),
        is_test(rank, next, small),
    ensures
        small <==> change(value, rank, next) < number(1) / number(1_000_000),
{
    let (gaps, sum, limit) = choose|gaps: Seq<S>, sum: S, limit: S|
        #![trigger is_sum(gaps, sum), is_limit(limit)]
        are_gaps(rank, next, gaps) && is_sum(gaps, sum) && is_limit(limit) && call_ensures(S::below, (sum, limit), small);
    let one = choose|one: S| #[trigger] call_ensures(S::of_count, (1usize,), one) && is_share(one, 1_000_000, limit);
    share_is_quotient(value, one, 1_000_000, limit);
    sum_is_total(value, gaps, sum);
    assert forall|i: int| 0 <= i < gaps.len() implies value(#[trigger] gaps[i]) == distance(value(rank[i]), value(next[i])) by {
        assert(call_ensures(S::gap, (rank[i], next[i]), gaps[i]));
    }
    totals_agree(|i: int| value(gaps[i]), |i: int| distance(value(rank[i]), value(next[i])), gaps.len() as int);
}

/// The scores add up to `mass`.
pub open spec fn adds_up_to<S>(value: spec_fn(S) -> real, rank: Seq<S>, mass: real) -> bool {
    total(|i: int| value(rank[i]), rank.len() as int) == mass
}

proof fn totals_add(f: spec_fn(int) -> real, g: spec_fn(int) -> real, n: int)
    ensures
        total(|i: int| f(i) + g(i), n) == total(f, n) + total(g, n),
    decreases n,
{
    if n > 0 {
        totals_add(f, g, n - 1);
    }
}

/// A value that stands at one place only.
spec fn only_at(place: int, c: real) -> spec_fn(int) -> real {
    |i: int|
        if i == place {
            c
        } else {
            number(0)
        }
}

proof fn total_of_one(place: int, c: real, n: int)
    ensures
        total(only_at(place, c), n) == if 0 <= place < n {
            c
        } else {
            number(0)
        },
    decreases n,
{
    if n > 0 {
        total_of_one(place, c, n - 1);
    }
}

proof fn total_of_equals(c: real, n: int)
    requires
        n >= 0,
    ensures
        total(|k: int| c, n) == number(n) * c,
    decreases n,
{
    if n > 0 {
        total_of_equals(c, n - 1);
        let x = number(n - 1);
        assert(number(n) == x + number(1));
        assert((x + number(1)) * c == x * c + c) by (nonlinear_arith);
    } else {
        assert(number(0) * c == number(0)) by (nonlinear_arith);
    }
}

proof fn total_of_mixture(a: real, d: real, h: spec_fn(int) -> real, n: int)
    requires
        n >= 0,
    ensures
        total(|v: int| a + d * h(v), n) == number(n) * a + d * total(h, n),
    decreases n,
{
    if n > 0 {
        total_of_mixture(a, d, h, n - 1);
        let (x, t, y) = (number(n - 1), total(h, n - 1), h(n - 1));
        assert(number(n) == x + number(1));
        assert((x + number(1)) * a == x * a + a) by (nonlinear_arith);
        assert(d * (t + y) == d * t + d * y) by (nonlinear_arith);
    } else {
        assert(number(0) * a == number(0)) by (nonlinear_arith);
        assert(d * number(0) == number(0)) by (nonlinear_arith);
    }
}

/// What comes to `v` over its links if each vertex `u` sends `f(u)` over each of its own.
spec fn received(g: GraphView, edges: Seq<EdgeView>, f: spec_fn(int) -> real, v: int) -> real {
    total(|k: int| f(linked(g, edges, g.nodes[v].id)[k] as int), linked(g, edges, g.nodes[v].id).len() as int)
}

/// What `v` sends over its links.
spec fn sent(g: GraphView, edges: Seq<EdgeView>, f: spec_fn(int) -> real, v: int) -> real {
    total(|k: int| f(v), linked(g, edges, g.nodes[v].id).len() as int)
}

proof fn total_of_pushed(f: spec_fn(int) -> real, s: Seq<usize>, x: usize)
    ensures
        total(|k: int| f(s.push(x)[k] as int), s.push(x).len() as int) == total(|k: int| f(s[k] as int), s.len() as int) + f(x as int),
{
    totals_agree(|k: int| f(s[k] as int), |k: int| f(s.push(x)[k] as int), s.len() as int);
}

/// One more edge brings each of its ends what the other sends.
proof fn one_more_edge(g: GraphView, edges: Seq<EdgeView>, f: spec_fn(int) -> real, s: int, t: int, v: int)
    requires
        g.wf(),
        g.nodes.len() <= usize::MAX,
        edges.len() > 0,
        s == g.place(edges.last().source),
        t == g.place(edges.last().target),
        0 <= s < g.nodes.len() && g.nodes[s].id == edges.last().source,
        0 <= t < g.nodes.len() && g.nodes[t].id == edges.last().target,
        0 <= v < g.nodes.len(),
    ensures
        received(g, edges, f, v) == received(g, edges.drop_last(), f, v) + only_at(s, f(t))(v) + only_at(t, f(s))(v),
        sent(g, edges, f, v) == sent(g, edges.drop_last(), f, v) + only_at(s, f(s))(v) + only_at(t, f(t))(v),
{
    let id = g.nodes[v].id;
    let front = linked(g, edges.drop_last(), id);
    assert(edges.last().source == id <==> v == s);
    assert(edges.last().target == id <==> v == t);
    total_of_pushed(f, front, t as usize);
    total_of_pushed(f, front, s as usize);
    total_of_pushed(f, front.push(t as usize), s as usize);
    reveal_with_fuel(total, 3);
}

/// What is sent over all links is what is received over all links.
proof fn sent_is_received(g: GraphView, edges: Seq<EdgeView>, f: spec_fn(int) -> real)
    requires
        g.wf(),
        g.nodes.len() <= usize::MAX,
        forall|e: int| #![trigger edges[e]] 0 <= e < edges.len() ==> g.has(edges[e].source) && g.has(edges[e].target),
    ensures
        total(|v: int| received(g, edges, f, v), g.nodes.len() as int) == total(|v: int| sent(g, edges, f, v), g.nodes.len() as int),
    decreases edges.len(),
{
    let n = g.nodes.len() as int;
    if edges.len() == 0 {
        totals_agree(|v: int| received(g, edges, f, v), |v: int| sent(g, edges, f, v), n);
    } else {
        let front = edges.drop_last();
        assert forall|e: int| #![trigger front[e]] 0 <= e < front.len() implies g.has(front[e].source) && g.has(front[e].target) by {
            assert(g.has(edges[e].source) && g.has(edges[e].target));
        }
        sent_is_received(g, front, f);
        assert(g.has(edges[edges.len() - 1].source) && g.has(edges[edges.len() - 1].target));
        let s = g.place(edges.last().source);
        let t = g.place(edges.last().target);
        assert(0 <= s < n && g.nodes[s].id == edges.last().source);
        assert(0 <= t < n && g.nodes[t].id == edges.last().target);
        let (to_s, to_t, by_s, by_t) = (only_at(s, f(t)), only_at(t, f(s)), only_at(s, f(s)), only_at(t, f(t)));
        let (r, q) = (|v: int| received(g, front, f, v), |v: int| sent(g, front, f, v));
        let (r1, q1) = (|v: int| r(v) + to_s(v), |v: int| q(v) + by_s(v));
        let (r2, q2) = (|v: int| r1(v) + to_t(v), |v: int| q1(v) + by_t(v));
        assert forall|v: int| 0 <= v < n implies #[trigger] r2(v) == received(g, edges, f, v) by {
            one_more_edge(g, edges, f, s, t, v);
        }
        assert forall|v: int| 0 <= v < n implies #[trigger] q2(v) == sent(g, edges, f, v) by {
            one_more_edge(g, edges, f, s, t, v);
        }
        totals_agree(r2, |v: int| received(g, edges, f, v), n);
        totals_agree(q2, |v: int| sent(g, edges, f, v), n);
        totals_add(r1, to_t, n);
        totals_add(r, to_s, n);
        totals_add(q1, by_t, n);
        totals_add(q, by_s, n);
        total_of_one(s, f(t), n);
        total_of_one(t, f(s), n);
        total_of_one(s, f(s), n);
        total_of_one(t, f(t), n);
    }
}

/// The links of a graph can be followed from either end.
pub proof fn graphs_have_links(g: GraphView)
    requires
        g.wf(),
        g.nodes.len() <= usize::MAX,
        forall|v: int| 0 <= v < g.nodes.len() ==> (#[trigger] link_lists(g)[v]).len() <= usize::MAX,
    ensures
        are_links(link_lists(g)),
{
    let adj = link_lists(g);
    assert forall|v: int, k: int| 0 <= v < adj.len() && 0 <= k < adj[v].len() implies (#[trigger] adj[v][k]) < adj.len()
        && adj[adj[v][k] as int].len() > 0 by {
        crate::pagerank::links_in_range(g, v);
        assert(adj[v].contains(adj[v][k]));
        crate::pagerank::links_go_both_ways(g, v as usize, adj[v][k]);
    }
}

/// A round keeps what it finds but for the part `1 - d`, which it replaces: scores that add up to
/// `mass` add up to `(1 - d) + d * mass` after it.
pub proof fn round_keeps_the_mass<S: Score>(value: spec_fn(S) -> real, g: GraphView, damping: S, rank: Seq<S>, next: Seq<S>, mass: real)
    requires
        is_exact(value),
        g.wf(),
        0 < g.nodes.len() <= usize::MAX,
        forall|v: int| 0 <= v < g.nodes.len() ==> (#[trigger] link_lists(g)[v]).len() <= usize::MAX,
        rank.len() == g.nodes.len(),
        is_round(link_lists(g), damping, rank, next),
        adds_up_to(value, rank, mass),
    ensures
        adds_up_to(value, next, number(1) - value(damping) + value(damping) * mass),
{
    let adj = link_lists(g);
    let n = rank.len() as int;
    let d = value(damping);
    graphs_have_links(g);
    round_gives_new_scores(value, adj, damping, rank, next);
    let f = |u: int| value(rank[u]) / number(adj[u].len() as int);
    sent_is_received(g, g.edges, f);
    let got = |v: int| received(g, g.edges, f, v);
    let gave = |v: int| sent(g, g.edges, f, v);
    let kept = |u: int| unlinked(value, adj, rank, u);
    let scores = |i: int| value(rank[i]);
    let lost = total(kept, n);
    let spread = lost / number(n);
    let a = (number(1) - d) / number(n);
    let inner = |v: int| got(v) + spread;
    let whole = |v: int| gave(v) + kept(v);
    assert forall|u: int| 0 <= u < n implies #[trigger] whole(u) == scores(u) by {
        let l = adj[u].len() as int;
        total_of_equals(f(u), l);
        if l > 0 {
            let (x, y) = (value(rank[u]), number(l));
            assert(y != number(0));
            assert(y * (x / y) == x) by (nonlinear_arith)
                requires
                    y != number(0),
            ;
        }
    }
    totals_agree(whole, scores, n);
    totals_add(gave, kept, n);
    let even = |v: int| spread;
    totals_add(got, even, n);
    totals_agree(inner, |v: int| got(v) + even(v), n);
    total_of_equals(spread, n);
    let y = number(n);
    assert(y != number(0));
    assert(y * (lost / y) == lost) by (nonlinear_arith)
        requires
            y != number(0),
    ;
    let rest = number(1) - d;
    assert(y * (rest / y) == rest) by (nonlinear_arith)
        requires
            y != number(0),
    ;
    let mixed = |v: int| a + d * inner(v);
    total_of_mixture(a, d, inner, n);
    assert forall|v: int| 0 <= v < n implies #[trigger] mixed(v) == value(next[v]) by {
        assert(value(next[v]) == new_score(value, adj, damping, rank, v));
        totals_agree(
            |k: int| passed(value, adj, rank, v, k),
            |k: int| f(linked(g, g.edges, g.nodes[v].id)[k] as int),
            adj[v].len() as int,
        );
    }
    totals_agree(mixed, |v: int| value(next[v]), n);
}

/// A run starts with even scores; after each round each vertex has its new score, and the scores
/// add up to one. There are at most `max_iterations` rounds. The scores moved by at least a
/// millionth in every round but the last, and by less in the last if a round was left.
pub proof fn run_gives_page_ranks<S: Score>(value: spec_fn(S) -> real, g: GraphView, damping: S, max_iterations: nat, rounds: Seq<Seq<S>>)
    requires
        is_exact(value),
        g.wf(),
        0 < g.nodes.len() <= usize::MAX,
        forall|v: int| 0 <= v < g.nodes.len() ==> (#[trigger] link_lists(g)[v]).len() <= usize::MAX,
        is_run(link_lists(g), damping, max_iterations, rounds),
    ensures
        1 <= rounds.len() <= max_iterations + 1,
        forall|k: int| 0 <= k < rounds.len() ==> (#[trigger] rounds[k]).len() == g.nodes.len() && adds_up_to(value, rounds[k], number(1)),
        forall|v: int| 0 <= v < g.nodes.len() ==> value(#[trigger] rounds[0][v]) == number(1) / number(g.nodes.len() as int),
        forall|k: int, v: int|
            1 <= k < rounds.len() && 0 <= v < g.nodes.len() ==> value(#[trigger] rounds[k][v]) == new_score(
                value,
                link_lists(g),
                damping,
                rounds[k - 1],
                v,
            ),
        forall|k: int|
            1 <= k < rounds.len() - 1 ==> change(value, rounds[k - 1], #[trigger] rounds[k]) >= number(1) / number(1_000_000),
        rounds.len() <= max_iterations ==> rounds.len() >= 2 && change(value, rounds[rounds.len() - 2], rounds[rounds.len() - 1]) < number(
            1,
        ) / number(1_000_000),
{
    let adj = link_lists(g);
    graphs_have_links(g);
    assert forall|k: int| 0 <= k < rounds.len() implies (#[trigger] rounds[k]).len() == g.nodes.len() && adds_up_to(
        value,
        rounds[k],
        number(1),
    ) by {
        mass_is_one(value, g, damping, max_iterations, rounds, k);
    }
    start_is_even(value, adj.len(), rounds[0]);
    assert forall|k: int, v: int| 1 <= k < rounds.len() && 0 <= v < g.nodes.len() implies value(#[trigger] rounds[k][v]) == new_score(
        value,
        adj,
        damping,
        rounds[k - 1],
        v,
    ) by {
        assert(rounds[k - 1].len() == g.nodes.len());
        assert(round_at(adj, damping, rounds, k - 1));
        round_gives_new_scores(value, adj, damping, rounds[k - 1], rounds[k]);
    }
    assert forall|k: int| 1 <= k < rounds.len() - 1 implies change(value, rounds[k - 1], #[trigger] rounds[k]) >= number(1) / number(
        1_000_000,
    ) by {
        assert(test_at(rounds, k - 1, false));
        small_is_below_a_millionth(value, rounds[k - 1], rounds[k], false);
    }
    if rounds.len() <= max_iterations {
        let last = rounds.len() - 1;
        assert(test_at(rounds, last - 1, true));
        small_is_below_a_millionth(value, rounds[last - 1], rounds[last], true);
    }
}

proof fn mass_is_one<S: Score>(value: spec_fn(S) -> real, g: GraphView, damping: S, max_iterations: nat, rounds: Seq<Seq<S>>, k: int)
    requires
        is_exact(value),
        g.wf(),
        0 < g.nodes.len() <= usize::MAX,
        forall|v: int| 0 <= v < g.nodes.len() ==> (#[trigger] link_lists(g)[v]).len() <= usize::MAX,
        is_run(link_lists(g), damping, max_iterations, rounds),
        0 <= k < rounds.len(),
    ensures
        rounds[k].len() == g.nodes.len(),
        adds_up_to(value, rounds[k], number(1)),
    decreases k,
{
    let adj = link_lists(g);
    let n = g.nodes.len() as int;
    if k == 0 {
        start_is_even(value, adj.len(), rounds[0]);
        let c = number(1) / number(n);
        let y = number(n);
        totals_agree(|i: int| value(rounds[0][i]), |i: int| c, n);
        total_of_equals(c, n);
        assert(y != number(0));
        assert(y * (number(1) / y) == number(1)) by (nonlinear_arith)
            requires
                y != number(0),
        ;
    } else {
        mass_is_one(value, g, damping, max_iterations, rounds, k - 1);
        assert(round_at(adj, damping, rounds, k - 1));
        graphs_have_links(g);
        round_gives_new_scores(value, adj, damping, rounds[k - 1], rounds[k]);
        round_keeps_the_mass(value, g, damping, rounds[k - 1], rounds[k], number(1));
        let d = value(damping);
        assert(d * number(1) == d) by (nonlinear_arith);
    }
}

} // verus!
