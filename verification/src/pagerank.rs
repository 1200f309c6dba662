//! PageRank by power iteration, over whatever arithmetic the scores have.
use vstd::prelude::*;

use crate::digraph::lists;
use crate::graph::{EdgeView, GraphEdge, GraphNode, GraphView, KnowledgeGraph};
use crate::ranking::{are_best, descending_order, is_top, Fraction, Ratio};
use crate::sequences::are_places;

verus! {

/// The arithmetic of scores. Nothing is expected of the operations: what is computed is stated
/// as the calls that are made and what they returned.
pub trait Score: Copy {
    /// The score that stands for a count.
    fn of_count(n: usize) -> Self;

    /// The sum of two scores.
    fn plus(self, other: Self) -> Self;

    /// The first score less the second.
    fn minus(self, other: Self) -> Self;

    /// The product of two scores.
    fn times(self, other: Self) -> Self;

    /// The first score divided by the second.
    fn over(self, other: Self) -> Self;

    /// How far two scores are apart.
    fn gap(self, other: Self) -> Self;

    /// Is the first score less than the second?
    fn below(self, other: Self) -> bool;

    /// A number by which scores are ordered.
    fn sort_key(self) -> u64;
}

/// A node with its score.
#[derive(Debug)]
pub struct PageRankNode<S> {
    pub id: String,
    pub label: String,
    pub score: S,
    pub degree: usize,
}

/// What a node with its score says.
pub struct RankView<S> {
    pub id: Seq<char>,
    pub label: Seq<char>,
    pub score: S,
    pub degree: nat,
}

impl<S> View for PageRankNode<S> {
    type V = RankView<S>;

    open spec fn view(&self) -> RankView<S> {
        RankView { id: self.id@, label: self.label@, score: self.score, degree: self.degree as nat }
    }
}

/// What nodes with their scores say.
pub open spec fn rank_views<S>(nodes: Seq<PageRankNode<S>>) -> Seq<RankView<S>> {
    Seq::new(nodes.len(), |i: int| nodes[i]@)
}

/// The positions at the other ends of the edges of the node `id`; an edge from a node to itself
/// counts at both its ends.
pub open spec fn linked(g: GraphView, edges: Seq<EdgeView>, id: Seq<char>) -> Seq<usize>
    decreases edges.len(),
{
    if edges.len() == 0 {
        Seq::empty()
    } else {
        let e = edges.last();
        let front = linked(g, edges.drop_last(), id);
        let out = if e.source == id {
            front.push(g.place(e.target) as usize)
        } else {
            front
        };
        if e.target == id {
            out.push(g.place(e.source) as usize)
        } else {
            out
        }
    }
}

/// For each node the positions that it is linked with, either way.
pub open spec fn link_lists(g: GraphView) -> Seq<Seq<usize>> {
    Seq::new(g.nodes.len(), |i: int| linked(g, g.edges, g.nodes[i].id))
}

/// The `i`-th addition of a sum.
pub open spec fn adds<S: Score>(terms: Seq<S>, parts: Seq<S>, i: int) -> bool {
    call_ensures(S::plus, (parts[i], terms[i]), parts[i + 1])
}

/// `parts` are the partial sums of `terms`, from zero on.
pub open spec fn are_partial_sums<S: Score>(terms: Seq<S>, parts: Seq<S>) -> bool {
    &&& parts.len() == terms.len() + 1
    &&& call_ensures(S::of_count, (0usize,), parts[0])
    &&& forall|i: int| 0 <= i < terms.len() ==> #[trigger] adds(terms, parts, i)
}

/// `total` comes from adding up `terms` in their order.
pub open spec fn is_sum<S: Score>(terms: Seq<S>, total: S) -> bool {
    exists|parts: Seq<S>| #[trigger] are_partial_sums(terms, parts) && parts[parts.len() - 1] == total
}

/// The scores of those of the first `i` vertices that have no links.
pub open spec fn dangling<S>(adj: Seq<Seq<usize>>, rank: Seq<S>, i: nat) -> Seq<S>
    decreases i,
{
    if i == 0 {
        Seq::empty()
    } else {
        let front = dangling(adj, rank, (i - 1) as nat);
        if adj[i - 1].len() == 0 {
            front.push(rank[i - 1])
        } else {
            front
        }
    }
}

/// `quotient` is a score divided by a count.
pub open spec fn is_share<S: Score>(score: S, count: usize, quotient: S) -> bool {
    exists|c: S| #[trigger] call_ensures(S::of_count, (count,), c) && call_ensures(S::over, (score, c), quotient)
}

/// What each vertex gets in a round beside what its links pass on: `teleport` is the part
/// `1 - damping` spread over all, `share` the scores of the vertices without links spread over
/// all.
pub open spec fn is_base<S: Score>(adj: Seq<Seq<usize>>, damping: S, rank: Seq<S>, teleport: S, share: S) -> bool {
    exists|one: S, rest: S, lost: S|
        #![trigger call_ensures(S::minus, (one, damping), rest), is_sum(dangling(adj, rank, rank.len()), lost)]
        call_ensures(S::of_count, (1usize,), one) && call_ensures(S::minus, (one, damping), rest) && is_share(
            rest,
            rank.len() as usize,
            teleport,
        ) && is_sum(dangling(adj, rank, rank.len()), lost) && is_share(lost, rank.len() as usize, share)
}

/// `terms` holds what each link of `v` passes on: the score at its other end, divided by the
/// number of links there.
pub open spec fn are_passed_on<S: Score>(adj: Seq<Seq<usize>>, rank: Seq<S>, v: int, terms: Seq<S>) -> bool {
    &&& terms.len() == adj[v].len()
    &&& forall|k: int|
        0 <= k < terms.len() ==> is_share(rank[adj[v][k] as int], adj[adj[v][k] as int].len() as usize, #[trigger] terms[k])
}

/// `next` is `teleport + damping * (passed on + share)`.
pub open spec fn is_mixed<S: Score>(damping: S, teleport: S, share: S, total: S, next: S) -> bool {
    exists|inner: S, scaled: S|
        #![trigger call_ensures(S::times, (damping, inner), scaled)]
        call_ensures(S::plus, (total, share), inner) && call_ensures(S::times, (damping, inner), scaled) && call_ensures(
            S::plus,
            (teleport, scaled),
            next,
        )
}

/// `next` is the new score of `v`.
pub open spec fn is_next<S: Score>(adj: Seq<Seq<usize>>, damping: S, rank: Seq<S>, teleport: S, share: S, v: int, next: S) -> bool {
    exists|terms: Seq<S>, total: S|
        #![trigger is_sum(terms, total)]
        are_passed_on(adj, rank, v, terms) && is_sum(terms, total) && is_mixed(damping, teleport, share, total, next)
}

/// `next` comes from `rank` by one round.
pub open spec fn is_round<S: Score>(adj: Seq<Seq<usize>>, damping: S, rank: Seq<S>, next: Seq<S>) -> bool {
    exists|teleport: S, share: S| #[trigger]
        is_base(adj, damping, rank, teleport, share) && next.len() == rank.len() && forall|v: int|
            0 <= v < next.len() ==> is_next(adj, damping, rank, teleport, share, v, #[trigger] next[v])
}

/// `gaps` holds how far each score moved.
pub open spec fn are_gaps<S: Score>(rank: Seq<S>, next: Seq<S>, gaps: Seq<S>) -> bool {
    &&& gaps.len() == rank.len()
    &&& forall|i: int| 0 <= i < gaps.len() ==> call_ensures(S::gap, (rank[i], next[i]), #[trigger] gaps[i])
}

/// `limit` is a millionth: a total change below it is not worth another round.
pub open spec fn is_limit<S: Score>(limit: S) -> bool {
    exists|one: S| #[trigger] call_ensures(S::of_count, (1usize,), one) && is_share(one, 1_000_000, limit)
}

/// The test whether the total change of a round is below the limit came out as `small`.
pub open spec fn is_test<S: Score>(rank: Seq<S>, next: Seq<S>, small: bool) -> bool {
    exists|gaps: Seq<S>, total: S, limit: S|
        #![trigger is_sum(gaps, total), is_limit(limit)]
        are_gaps(rank, next, gaps) && is_sum(gaps, total) && is_limit(limit) && call_ensures(
            S::below,
            (total, limit),
            small,
        )
}

/// All of the `n` vertices start with the same score, one divided by their number.
pub open spec fn is_start<S: Score>(n: nat, rank: Seq<S>) -> bool {
    exists|one: S, init: S|
        #![trigger is_share(one, n as usize, init)]
        call_ensures(S::of_count, (1usize,), one) && is_share(one, n as usize, init) && rank.len() == n && forall|i: int|
            0 <= i < n ==> #[trigger] rank[i] == init
}

/// `rounds` holds the scores at the start and after each round. The rounds end after
/// `max_iterations`, or with the first in which the scores hardly changed.
pub open spec fn is_run<S: Score>(adj: Seq<Seq<usize>>, damping: S, max_iterations: nat, rounds: Seq<Seq<S>>) -> bool {
    let last = rounds.len() - 1;
    &&& 0 <= last <= max_iterations
    &&& is_start(adj.len(), rounds[0])
    &&& forall|k: int| 0 <= k < last ==> #[trigger] round_at(adj, damping, rounds, k)
    &&& forall|k: int| 0 <= k < last - 1 ==> #[trigger] test_at(rounds, k, false)
    &&& last < max_iterations ==> last > 0 && test_at(rounds, last - 1, true)
}

/// The `k`-th step of a run is a round.
pub open spec fn round_at<S: Score>(adj: Seq<Seq<usize>>, damping: S, rounds: Seq<Seq<S>>, k: int) -> bool {
    is_round(adj, damping, rounds[k], rounds[k + 1])
}

/// The test after the `k`-th step of a run came out as `small`.
pub open spec fn test_at<S: Score>(rounds: Seq<Seq<S>>, k: int, small: bool) -> bool {
    is_test(rounds[k], rounds[k + 1], small)
}

/// The nodes with their scores.
pub open spec fn scored<S>(g: GraphView, rank: Seq<S>) -> Seq<RankView<S>> {
    Seq::new(
        g.nodes.len(),
        |i: int|
            RankView { id: g.nodes[i].id, label: g.nodes[i].label, score: rank[i], degree: link_lists(g)[i].len() },
    )
}

/// `keys` holds the numbers by which the scores are ordered.
pub open spec fn are_keys<S: Score>(rank: Seq<S>, keys: Seq<u64>) -> bool {
    &&& keys.len() == rank.len()
    &&& forall|i: int| 0 <= i < keys.len() ==> call_ensures(S::sort_key, (rank[i],), #[trigger] keys[i])
}

/// The keys as numbers.
pub open spec fn key_numbers(keys: Seq<u64>) -> Seq<Fraction> {
    Seq::new(keys.len(), |i: int| Fraction::whole(keys[i] as nat))
}

/// `out` holds the `top_n` best nodes after the run `rounds`, ordered by `keys`.
pub open spec fn is_ranking<S: Score>(
    g: GraphView,
    top_n: nat,
    damping: S,
    max_iterations: nat,
    rounds: Seq<Seq<S>>,
    keys: Seq<u64>,
    out: Seq<RankView<S>>,
) -> bool {
    &&& is_run(link_lists(g), damping, max_iterations, rounds)
    &&& rounds[rounds.len() - 1].len() == g.nodes.len()
    &&& are_keys(rounds[rounds.len() - 1], keys)
    &&& is_top(scored(g, rounds[rounds.len() - 1]), key_numbers(keys), top_n, out)
}

/// One more term makes one more partial sum.
proof fn add_term<S: Score>(terms: Seq<S>, parts: Seq<S>, term: S, total: S)
    requires
        are_partial_sums(terms, parts),
        call_ensures(S::plus, (parts[parts.len() - 1], term), total),
    ensures
        are_partial_sums(terms.push(term), parts.push(total)),
{
    let more = terms.push(term);
    let sums = parts.push(total);
    assert forall|i: int| 0 <= i < more.len() implies #[trigger] adds(more, sums, i) by {
        if i < terms.len() {
            assert(adds(terms, parts, i));
        }
    }
}

/// A score divided by a count.
fn share_of<S: Score>(score: S, count: usize) -> (quotient: S)
    ensures
        is_share(score, count, quotient),
{
    let c: S = S::of_count(count);
    score.over(c)
}

/// The sum of what the links of `v` pass on.
fn add_links<S: Score>(adj: &Vec<Vec<usize>>, rank: &Vec<S>, v: usize) -> (total: S)
    requires
        v < adj@.len(),
        rank@.len() == adj@.len(),
        crate::digraph::vertices_in_range(lists(adj@), adj@.len()),
    ensures
        exists|terms: Seq<S>| #[trigger] are_passed_on(lists(adj@), rank@, v as int, terms) && is_sum(terms, total),
{
    let ghost g = lists(adj@);
    let mut total: S = S::of_count(0);
    let ghost mut terms: Seq<S> = Seq::empty();
    let ghost mut parts: Seq<S> = seq![total];
    let mut k: usize = 0;
    while k < adj[v].len()
        invariant
            g == lists(adj@),
            v < adj@.len(),
            rank@.len() == adj@.len(),
            crate::digraph::vertices_in_range(g, adj@.len()),
            adj@[v as int]@ == g[v as int],
            k <= g[v as int].len(),
            terms.len() == k,
            forall|q: int| 0 <= q < k ==> is_share(rank@[g[v as int][q] as int], g[g[v as int][q] as int].len() as usize, #[trigger] terms[q]),
            are_partial_sums(terms, parts),
            parts[parts.len() - 1] == total,
        decreases g[v as int].len() - k,
    {
        let u: usize = adj[v][k];
        assert(g[v as int][k as int] < adj@.len());
        let part: S = share_of(rank[u], adj[u].len());
        let more: S = total.plus(part);
        proof {
            assert(adj@[u as int]@ == g[u as int]);
            add_term(terms, parts, part, more);
            terms = terms.push(part);
            parts = parts.push(more);
        }
        total = more;
        k += 1;
    }
    proof {
        assert(are_passed_on(g, rank@, v as int, terms));
        assert(are_partial_sums(terms, parts));
    }
    total
}

/// The sum of the scores of the vertices without links.
fn add_dangling<S: Score>(adj: &Vec<Vec<usize>>, rank: &Vec<S>) -> (total: S)
    requires
        rank@.len() == adj@.len(),
    ensures
        is_sum(dangling(lists(adj@), rank@, rank@.len()), total),
{
    let ghost g = lists(adj@);
    let mut total: S = S::of_count(0);
    let ghost mut parts: Seq<S> = seq![total];
    let mut i: usize = 0;
    while i < rank.len()
        invariant
            g == lists(adj@),
            rank@.len() == adj@.len(),
            i <= rank@.len(),
            are_partial_sums(dangling(g, rank@, i as nat), parts),
            parts[parts.len() - 1] == total,
        decreases rank@.len() - i,
    {
        assert(adj@[i as int]@ == g[i as int]);
        if adj[i].len() == 0 {
            let more: S = total.plus(rank[i]);
            proof {
                add_term(dangling(g, rank@, i as nat), parts, rank@[i as int], more);
                parts = parts.push(more);
            }
            total = more;
        }
        i += 1;
    }
    assert(are_partial_sums(dangling(g, rank@, rank@.len()), parts));
    total
}

/// Is the total change of a round small?
fn test_round<S: Score>(rank: &Vec<S>, next: &Vec<S>) -> (small: bool)
    requires
        rank@.len() == next@.len(),
    ensures
        is_test(rank@, next@, small),
{
    let mut total: S = S::of_count(0);
    let ghost mut gaps: Seq<S> = Seq::empty();
    let ghost mut parts: Seq<S> = seq![total];
    let mut i: usize = 0;
    while i < rank.len()
        invariant
            rank@.len() == next@.len(),
            i <= rank@.len(),
            gaps.len() == i,
            forall|q: int| 0 <= q < i ==> call_ensures(S::gap, (rank@[q], next@[q]), #[trigger] gaps[q]),
            are_partial_sums(gaps, parts),
            parts[parts.len() - 1] == total,
        decreases rank@.len() - i,
    {
        let gap: S = rank[i].gap(next[i]);
        let more: S = total.plus(gap);
        proof {
            add_term(gaps, parts, gap, more);
            gaps = gaps.push(gap);
            parts = parts.push(more);
        }
        total = more;
        i += 1;
    }
    let one: S = S::of_count(1);
    let limit: S = share_of(one, 1_000_000);
    let small: bool = total.below(limit);
    proof {
        assert(is_limit(limit));
        assert(are_gaps(rank@, next@, gaps));
        assert(are_partial_sums(gaps, parts));
        assert(is_sum(gaps, total));
    }
    small
}

/// One round.
fn round<S: Score>(adj: &Vec<Vec<usize>>, damping: S, rank: &Vec<S>) -> (next: Vec<S>)
    requires
        rank@.len() == adj@.len(),
        crate::digraph::vertices_in_range(lists(adj@), adj@.len()),
    ensures
        is_round(lists(adj@), damping, rank@, next@),
        next@.len() == rank@.len(),
{
    let ghost g = lists(adj@);
    let n: usize = rank.len();
    let one: S = S::of_count(1);
    let rest: S = one.minus(damping);
    let teleport: S = share_of(rest, n);
    let lost: S = add_dangling(adj, rank);
    let share: S = share_of(lost, n);
    assert(is_base(g, damping, rank@, teleport, share)) by {
        assert(call_ensures(S::minus, (one, damping), rest));
        assert(is_sum(dangling(g, rank@, rank@.len()), lost));
    }
    let mut next: Vec<S> = Vec::new();
    let mut v: usize = 0;
    while v < n
        invariant
            g == lists(adj@),
            n == rank@.len(),
            rank@.len() == adj@.len(),
            crate::digraph::vertices_in_range(g, adj@.len()),
            v <= n,
            next@.len() == v,
            forall|q: int| 0 <= q < v ==> is_next(g, damping, rank@, teleport, share, q, #[trigger] next@[q]),
        decreases n - v,
    {
        let total: S = add_links(adj, rank, v);
        let inner: S = total.plus(share);
        let scaled: S = damping.times(inner);
        let score: S = teleport.plus(scaled);
        proof {
            assert(call_ensures(S::times, (damping, inner), scaled));
            assert(is_mixed(damping, teleport, share, total, score));
            let terms = choose|terms: Seq<S>| #[trigger] are_passed_on(g, rank@, v as int, terms) && is_sum(terms, total);
            assert(is_sum(terms, total));
            assert(is_next(g, damping, rank@, teleport, share, v as int, score));
        }
        next.push(score);
        v += 1;
    }
    next
}

/// The scores of the vertices of a graph that is not empty after at most `max_iterations`
/// rounds.
fn power_iteration<S: Score>(adj: &Vec<Vec<usize>>, damping: S, max_iterations: usize) -> (rank: Vec<S>)
    requires
        crate::digraph::vertices_in_range(lists(adj@), adj@.len()),
    ensures
        exists|rounds: Seq<Seq<S>>| #[trigger]
            is_run(lists(adj@), damping, max_iterations as nat, rounds) && rounds[rounds.len() - 1] == rank@,
        rank@.len() == adj@.len(),
{
    let ghost g = lists(adj@);
    let n: usize = adj.len();
    let one: S = S::of_count(1);
    let init: S = share_of(one, n);
    let mut rank: Vec<S> = Vec::new();
    let mut i: usize = 0;
    while i < n
        invariant
            i <= n,
            rank@.len() == i,
            forall|q: int| 0 <= q < i ==> #[trigger] rank@[q] == init,
        decreases n - i,
    {
        rank.push(init);
        i += 1;
    }
    let ghost mut rounds: Seq<Seq<S>> = seq![rank@];
    proof {
        assert(g.len() == n);
        assert(is_share(one, g.len() as usize, init));
        assert(is_start(g.len(), rounds[0]));
    }
    let mut done: usize = 0;
    while done < max_iterations
        invariant
            g == lists(adj@),
            crate::digraph::vertices_in_range(g, adj@.len()),
            rank@.len() == adj@.len(),
            done <= max_iterations,
            rounds.len() == done + 1,
            rounds[done as int] == rank@,
            is_start(g.len(), rounds[0]),
            forall|k: int| 0 <= k < done ==> #[trigger] round_at(g, damping, rounds, k),
            forall|k: int| 0 <= k < done ==> #[trigger] test_at(rounds, k, false),
        decreases max_iterations - done,
    {
        let next: Vec<S> = round(adj, damping, &rank);
        let small: bool = test_round(&rank, &next);
        let ghost before = rounds;
        proof {
            rounds = rounds.push(next@);
            assert forall|k: int| 0 <= k < done + 1 implies #[trigger] round_at(g, damping, rounds, k) by {
                if k < done {
                    assert(round_at(g, damping, before, k));
                }
            }
            assert forall|k: int| 0 <= k < done implies #[trigger] test_at(rounds, k, false) by {
                assert(test_at(before, k, false));
            }
            assert(test_at(rounds, done as int, small));
        }
        rank = next;
        done += 1;
        if small {
            assert(is_run(g, damping, max_iterations as nat, rounds));
            return rank;
        }
    }
    assert(is_run(g, damping, max_iterations as nat, rounds));
    rank
}

/// The positions that `linked` names are positions of nodes.
proof fn linked_in_range(g: GraphView, edges: Seq<EdgeView>, id: Seq<char>)
    requires
        g.nodes.len() <= usize::MAX,
        forall|e: int| #![trigger edges[e]] 0 <= e < edges.len() ==> g.has(edges[e].source) && g.has(edges[e].target),
    ensures
        forall|k: int| 0 <= k < linked(g, edges, id).len() ==> (#[trigger] linked(g, edges, id)[k]) < g.nodes.len(),
    decreases edges.len(),
{
    if edges.len() > 0 {
        let e = edges.last();
        assert(g.has(edges[edges.len() - 1].source) && g.has(edges[edges.len() - 1].target));
        let s = g.place(e.source);
        let t = g.place(e.target);
        assert(0 <= s < g.nodes.len() && g.nodes[s].id == e.source);
        assert(0 <= t < g.nodes.len() && g.nodes[t].id == e.target);
        let front = linked(g, edges.drop_last(), id);
        linked_in_range(g, edges.drop_last(), id);
        assert forall|k: int| 0 <= k < linked(g, edges, id).len() implies (#[trigger] linked(g, edges, id)[k]) < g.nodes.len() by {
            if k < front.len() {
                assert(front[k] < g.nodes.len());
            }
        }
    }
}

/// For each node the positions that it is linked with, either way.
pub fn undirected_links(graph: &KnowledgeGraph) -> (adj: Vec<Vec<usize>>)
    ensures
        lists(adj@) == link_lists(graph@),
        crate::digraph::vertices_in_range(lists(adj@), graph@.nodes.len()),
{
    let ghost g = graph@;
    let n: usize = graph.node_count();
    let edges: &Vec<GraphEdge> = graph.edges();
    let mut adj: Vec<Vec<usize>> = Vec::new();
    let mut i: usize = 0;
    while i < n
        invariant
            i <= n,
            adj@.len() == i,
            forall|k: int| 0 <= k < i ==> (#[trigger] adj@[k])@ == Seq::<usize>::empty(),
        decreases n - i,
    {
        let none: Vec<usize> = Vec::new();
        adj.push(none);
        i += 1;
    }
    let mut e: usize = 0;
    assert(g.edges.take(0) =~= Seq::empty());
    while e < edges.len()
        invariant
            g == graph@,
            g.wf(),
            n == g.nodes.len(),
            crate::graph::edge_views(edges@) == g.edges,
            e <= edges@.len(),
            adj@.len() == n,
            forall|k: int| 0 <= k < n ==> (#[trigger] adj@[k])@ == linked(g, g.edges.take(e as int), g.nodes[k].id),
        decreases edges@.len() - e,
    {
        let edge: &GraphEdge = &edges[e];
        let ghost old_adj = adj@;
        proof {
            assert(g.edges[e as int] == edge@);
            assert(g.has(g.edges[e as int].source) && g.has(g.edges[e as int].target));
            assert(g.edges.take(e + 1).drop_last() =~= g.edges.take(e as int));
        }
        match (graph.position(edge.source.as_str()), graph.position(edge.target.as_str())) {
            (Some(si), Some(ti)) => {
                adj[si].push(ti);
                adj[ti].push(si);
                proof {
                    assert forall|k: int| 0 <= k < n implies (#[trigger] adj@[k])@ == linked(g, g.edges.take(e + 1), g.nodes[k].id) by {
                        assert(old_adj[k]@ == linked(g, g.edges.take(e as int), g.nodes[k].id));
                        if k != si {
                            assert(g.nodes[k].id != g.nodes[si as int].id);
                        }
                        if k != ti {
                            assert(g.nodes[k].id != g.nodes[ti as int].id);
                        }
                    }
                }
            },
            _ => {
                assert(false);
            },
        }
        e += 1;
    }
    proof {
        assert(g.edges.take(e as int) =~= g.edges);
        assert(lists(adj@) =~= link_lists(g));
        let links = link_lists(g);
        assert forall|u: int, k: int| 0 <= u < n && 0 <= k < links[u].len() implies (#[trigger] links[u][k]) < n by {
            linked_in_range(g, g.edges, g.nodes[u].id);
        }
    }
    adj
}

/// The `top_n` nodes with the highest PageRank, the highest first. All edges count both ways.
/// The scores start equal and are mixed with `damping`, usually 0.85, for `max_iterations` rounds,
/// or until a round changes them by less than a millionth in all.
pub fn pagerank<S: Score>(graph: &KnowledgeGraph, top_n: usize, damping: S, max_iterations: usize) -> (ranked: Vec<PageRankNode<S>>)
    ensures
        graph@.nodes.len() == 0 ==> ranked@.len() == 0,
        graph@.nodes.len() > 0 ==> exists|rounds: Seq<Seq<S>>, keys: Seq<u64>| #[trigger]
            is_ranking(graph@, top_n as nat, damping, max_iterations as nat, rounds, keys, rank_views(ranked@)),
{
    let ghost g = graph@;
    if graph.node_count() == 0 {
        return Vec::new();
    }
    let adj: Vec<Vec<usize>> = undirected_links(graph);
    assert(lists(adj@).len() == adj@.len());
    let rank: Vec<S> = power_iteration(&adj, damping, max_iterations);
    let mut numbers: Vec<Ratio> = Vec::new();
    let ghost mut keys: Seq<u64> = Seq::empty();
    let mut i: usize = 0;
    while i < rank.len()
        invariant
            i <= rank@.len(),
            keys.len() == i,
            numbers@.len() == i,
            forall|q: int| 0 <= q < i ==> call_ensures(S::sort_key, (rank@[q],), #[trigger] keys[q]),
            forall|q: int| 0 <= q < i ==> (#[trigger] numbers@[q]).small() && numbers@[q]@ == Fraction::whole(keys[q] as nat),
        decreases rank@.len() - i,
    {
        let key: u64 = rank[i].sort_key();
        numbers.push(Ratio { num: key as u128, den: 1 });
        proof {
            keys = keys.push(key);
        }
        i += 1;
    }
    let order: Vec<usize> = descending_order(&numbers);
    let nodes: &Vec<GraphNode> = graph.nodes();
    assert(crate::ranking::fractions(numbers@) =~= key_numbers(keys));
    let mut ranked: Vec<PageRankNode<S>> = Vec::new();
    let mut p: usize = 0;
    while p < order.len() && p < top_n
        invariant
            g == graph@,
            crate::graph::node_views(nodes@) == g.nodes,
            lists(adj@) == link_lists(g),
            adj@.len() == g.nodes.len(),
            rank@.len() == g.nodes.len(),
            keys.len() == g.nodes.len(),
            crate::ranking::is_order(key_numbers(keys), order@),
            p <= order@.len(),
            p <= top_n,
            ranked@.len() == p,
            forall|k: int| 0 <= k < p ==> (#[trigger] ranked@[k])@ == scored(g, rank@)[order@[k] as int],
        decreases order@.len() - p,
    {
        let at: usize = order[p];
        let node: &GraphNode = &nodes[at];
        proof {
            assert(g.nodes[at as int] == node@);
            assert(link_lists(g)[at as int] == adj@[at as int]@);
        }
        ranked.push(PageRankNode { id: node.id.clone(), label: node.label.clone(), score: rank[at], degree: adj[at].len() });
        p += 1;
    }
    proof {
        assert(rank_views(ranked@) =~= crate::ranking::pick(scored(g, rank@), order@, top_n as nat));
        let rounds = choose|rounds: Seq<Seq<S>>| #[trigger]
            is_run(lists(adj@), damping, max_iterations as nat, rounds) && rounds[rounds.len() - 1] == rank@;
        assert(is_ranking(g, top_n as nat, damping, max_iterations as nat, rounds, keys, rank_views(ranked@)));
    }
    ranked
}

/// What the edges say of links is in the lists of links, and nothing else is.
proof fn linked_by_edges(g: GraphView, edges: Seq<EdgeView>, u: int, v: usize)
    requires
        g.wf(),
        g.nodes.len() <= usize::MAX,
        0 <= u < g.nodes.len(),
        v < g.nodes.len(),
        forall|e: int| #![trigger edges[e]] 0 <= e < edges.len() ==> g.has(edges[e].source) && g.has(edges[e].target),
    ensures
        linked(g, edges, g.nodes[u].id).contains(v) <==> exists|e: int| #[trigger]
            joins(edges, e, g.nodes[u].id, g.nodes[v as int].id),
    decreases edges.len(),
{
    let (a, b) = (g.nodes[u].id, g.nodes[v as int].id);
    if edges.len() > 0 {
        let front = edges.drop_last();
        let last = edges[edges.len() - 1];
        assert forall|e: int| #![trigger front[e]] 0 <= e < front.len() implies g.has(front[e].source) && g.has(front[e].target) by {
            assert(g.has(edges[e].source) && g.has(edges[e].target));
        }
        linked_by_edges(g, front, u, v);
        assert(g.has(last.source) && g.has(last.target));
        let s = g.place(last.source);
        let t = g.place(last.target);
        assert(0 <= s < g.nodes.len() && g.nodes[s].id == last.source);
        assert(0 <= t < g.nodes.len() && g.nodes[t].id == last.target);
        assert(t == v <==> last.target == b);
        assert(s == v <==> last.source == b);
        let before = linked(g, front, a);
        crate::sequences::pushed_contains(before, t as usize, v);
        crate::sequences::pushed_contains(before, s as usize, v);
        crate::sequences::pushed_contains(before.push(t as usize), s as usize, v);
        assert forall|e: int| #[trigger] joins(edges, e, a, b) <==> joins(front, e, a, b) || (e == edges.len() - 1 && joins(edges, e, a, b)) by {}
        if exists|e: int| #[trigger] joins(front, e, a, b) {
            let e = choose|e: int| #[trigger] joins(front, e, a, b);
            assert(joins(edges, e, a, b));
        }
        if joins(edges, edges.len() - 1, a, b) {
            assert(linked(g, edges, a).contains(v));
        }
        if linked(g, edges, a).contains(v) && !before.contains(v) {
            assert(joins(edges, edges.len() - 1, a, b));
        }
        if exists|e: int| #[trigger] joins(edges, e, a, b) {
            let e = choose|e: int| #[trigger] joins(edges, e, a, b);
            if e < front.len() {
                assert(joins(front, e, a, b));
            }
        }
    }
}

/// The `e`-th edge joins the nodes `a` and `b`, one way or the other.
pub open spec fn joins(edges: Seq<EdgeView>, e: int, a: Seq<char>, b: Seq<char>) -> bool {
    0 <= e < edges.len() && ((edges[e].source == a && edges[e].target == b) || (edges[e].source == b && edges[e].target == a))
}

/// Links go both ways, so a node at the other end of a link has links itself.
pub proof fn links_go_both_ways(g: GraphView, u: usize, v: usize)
    requires
        g.wf(),
        g.nodes.len() <= usize::MAX,
        u < g.nodes.len(),
        v < g.nodes.len(),
    ensures
        link_lists(g)[u as int].contains(v) <==> exists|e: int| #[trigger] joins(g.edges, e, g.nodes[u as int].id, g.nodes[v as int].id),
        link_lists(g)[u as int].contains(v) <==> link_lists(g)[v as int].contains(u),
        link_lists(g)[u as int].contains(v) ==> link_lists(g)[v as int].len() > 0,
{
    let (a, b) = (g.nodes[u as int].id, g.nodes[v as int].id);
    linked_by_edges(g, g.edges, u as int, v);
    linked_by_edges(g, g.edges, v as int, u);
    assert forall|e: int| #[trigger] joins(g.edges, e, a, b) <==> joins(g.edges, e, b, a) by {}
    if exists|e: int| #[trigger] joins(g.edges, e, a, b) {
        let e = choose|e: int| #[trigger] joins(g.edges, e, a, b);
        assert(joins(g.edges, e, b, a));
    }
    if exists|e: int| #[trigger] joins(g.edges, e, b, a) {
        let e = choose|e: int| #[trigger] joins(g.edges, e, b, a);
        assert(joins(g.edges, e, a, b));
    }
}

/// As many nodes come back as were asked for, or all if there are fewer.
pub proof fn ranking_length<S: Score>(
    g: GraphView,
    top_n: nat,
    damping: S,
    max_iterations: nat,
    rounds: Seq<Seq<S>>,
    keys: Seq<u64>,
    out: Seq<RankView<S>>,
)
    requires
        is_ranking(g, top_n, damping, max_iterations, rounds, keys, out),
    ensures
        out.len() == if g.nodes.len() <= top_n { g.nodes.len() } else { top_n },
{
    crate::ranking::top_length(scored(g, rounds[rounds.len() - 1]), key_numbers(keys), top_n, out);
}

/// Nodes with higher scores come first.
pub proof fn ranks_in_order<S: Score>(
    g: GraphView,
    top_n: nat,
    damping: S,
    max_iterations: nat,
    rounds: Seq<Seq<S>>,
    keys: Seq<u64>,
    out: Seq<RankView<S>>,
    p: int,
    q: int,
)
    requires
        is_ranking(g, top_n, damping, max_iterations, rounds, keys, out),
        0 <= p < q < out.len(),
    ensures
        exists|a: u64, b: u64| #[trigger]
            call_ensures(S::sort_key, (out[p].score,), a) && #[trigger] call_ensures(S::sort_key, (out[q].score,), b) && a >= b,
{
    let rank = rounds[rounds.len() - 1];
    let order = choose|order: Seq<usize>| #[trigger]
        crate::ranking::is_order(key_numbers(keys), order) && out == crate::ranking::pick(scored(g, rank), order, top_n);
    let (i, j) = (order[p] as int, order[q] as int);
    assert(crate::ranking::before(key_numbers(keys), order[p] as int, order[q] as int));
    assert(key_numbers(keys)[i] == Fraction::whole(keys[i] as nat));
    assert(key_numbers(keys)[j] == Fraction::whole(keys[j] as nat));
    assert(call_ensures(S::sort_key, (rank[i],), keys[i]));
    assert(call_ensures(S::sort_key, (rank[j],), keys[j]));
    assert(out[p].score == rank[i] && out[q].score == rank[j]);
}

/// The operations of the arithmetic give one result for the same arguments.
pub open spec fn is_functional<S: Score>() -> bool {
    &&& forall|n: usize, x: S, y: S| #[trigger]
        call_ensures(S::of_count, (n,), x) && #[trigger] call_ensures(S::of_count, (n,), y) ==> x == y
    &&& forall|a: S, b: S, x: S, y: S| #[trigger]
        call_ensures(S::plus, (a, b), x) && #[trigger] call_ensures(S::plus, (a, b), y) ==> x == y
    &&& forall|a: S, b: S, x: S, y: S| #[trigger]
        call_ensures(S::minus, (a, b), x) && #[trigger] call_ensures(S::minus, (a, b), y) ==> x == y
    &&& forall|a: S, b: S, x: S, y: S| #[trigger]
        call_ensures(S::times, (a, b), x) && #[trigger] call_ensures(S::times, (a, b), y) ==> x == y
    &&& forall|a: S, b: S, x: S, y: S| #[trigger]
        call_ensures(S::over, (a, b), x) && #[trigger] call_ensures(S::over, (a, b), y) ==> x == y
    &&& forall|a: S, b: S, x: S, y: S| #[trigger]
        call_ensures(S::gap, (a, b), x) && #[trigger] call_ensures(S::gap, (a, b), y) ==> x == y
    &&& forall|a: S, b: S, x: bool, y: bool| #[trigger]
        call_ensures(S::below, (a, b), x) && #[trigger] call_ensures(S::below, (a, b), y) ==> x == y
    &&& forall|a: S, x: u64, y: u64| #[trigger]
        call_ensures(S::sort_key, (a,), x) && #[trigger] call_ensures(S::sort_key, (a,), y) ==> x == y
}

proof fn share_is_unique<S: Score>(score: S, count: usize, x: S, y: S)
    requires
        is_functional::<S>(),
        is_share(score, count, x),
        is_share(score, count, y),
    ensures
        x == y,
{
}

proof fn partial_sums_agree<S: Score>(terms: Seq<S>, one: Seq<S>, other: Seq<S>, n: nat)
    requires
        is_functional::<S>(),
        are_partial_sums(terms, one),
        are_partial_sums(terms, other),
        n <= terms.len(),
    ensures
        one[n as int] == other[n as int],
    decreases n,
{
    if n > 0 {
        partial_sums_agree(terms, one, other, (n - 1) as nat);
        assert(adds(terms, one, n - 1));
        assert(adds(terms, other, n - 1));
    }
}

proof fn sum_is_unique<S: Score>(terms: Seq<S>, x: S, y: S)
    requires
        is_functional::<S>(),
        is_sum(terms, x),
        is_sum(terms, y),
    ensures
        x == y,
{
    let one = choose|parts: Seq<S>| #[trigger] are_partial_sums(terms, parts) && parts[parts.len() - 1] == x;
    let other = choose|parts: Seq<S>| #[trigger] are_partial_sums(terms, parts) && parts[parts.len() - 1] == y;
    partial_sums_agree(terms, one, other, terms.len());
}

proof fn base_is_unique<S: Score>(adj: Seq<Seq<usize>>, damping: S, rank: Seq<S>, teleport: S, share: S, teleport2: S, share2: S)
    requires
        is_functional::<S>(),
        is_base(adj, damping, rank, teleport, share),
        is_base(adj, damping, rank, teleport2, share2),
    ensures
        teleport == teleport2,
        share == share2,
{
    let (one, rest, lost) = choose|one: S, rest: S, lost: S|
        #![trigger call_ensures(S::minus, (one, damping), rest), is_sum(dangling(adj, rank, rank.len()), lost)]
        call_ensures(S::of_count, (1usize,), one) && call_ensures(S::minus, (one, damping), rest) && is_share(
            rest,
            rank.len() as usize,
            teleport,
        ) && is_sum(dangling(adj, rank, rank.len()), lost) && is_share(lost, rank.len() as usize, share);
    let (one2, rest2, lost2) = choose|one: S, rest: S, lost: S|
        #![trigger call_ensures(S::minus, (one, damping), rest), is_sum(dangling(adj, rank, rank.len()), lost)]
        call_ensures(S::of_count, (1usize,), one) && call_ensures(S::minus, (one, damping), rest) && is_share(
            rest,
            rank.len() as usize,
            teleport2,
        ) && is_sum(dangling(adj, rank, rank.len()), lost) && is_share(lost, rank.len() as usize, share2);
    assert(one == one2);
    assert(rest == rest2);
    sum_is_unique(dangling(adj, rank, rank.len()), lost, lost2);
    share_is_unique(rest, rank.len() as usize, teleport, teleport2);
    share_is_unique(lost, rank.len() as usize, share, share2);
}

proof fn next_is_unique<S: Score>(adj: Seq<Seq<usize>>, damping: S, rank: Seq<S>, teleport: S, share: S, v: int, x: S, y: S)
    requires
        is_functional::<S>(),
        is_next(adj, damping, rank, teleport, share, v, x),
        is_next(adj, damping, rank, teleport, share, v, y),
    ensures
        x == y,
{
    let (terms, total) = choose|terms: Seq<S>, total: S|
        #![trigger is_sum(terms, total)]
        are_passed_on(adj, rank, v, terms) && is_sum(terms, total) && is_mixed(damping, teleport, share, total, x);
    let (terms2, total2) = choose|terms: Seq<S>, total: S|
        #![trigger is_sum(terms, total)]
        are_passed_on(adj, rank, v, terms) && is_sum(terms, total) && is_mixed(damping, teleport, share, total, y);
    assert forall|k: int| 0 <= k < terms.len() implies terms[k] == terms2[k] by {
        let u = adj[v][k] as int;
        assert(is_share(rank[u], adj[u].len() as usize, terms[k]));
        assert(is_share(rank[u], adj[u].len() as usize, terms2[k]));
        share_is_unique(rank[u], adj[u].len() as usize, terms[k], terms2[k]);
    }
    assert(terms =~= terms2);
    sum_is_unique(terms, total, total2);
    let (inner, scaled) = choose|inner: S, scaled: S|
        #![trigger call_ensures(S::times, (damping, inner), scaled)]
        call_ensures(S::plus, (total, share), inner) && call_ensures(S::times, (damping, inner), scaled) && call_ensures(
            S::plus,
            (teleport, scaled),
            x,
        );
    let (inner2, scaled2) = choose|inner: S, scaled: S|
        #![trigger call_ensures(S::times, (damping, inner), scaled)]
        call_ensures(S::plus, (total, share), inner) && call_ensures(S::times, (damping, inner), scaled) && call_ensures(
            S::plus,
            (teleport, scaled),
            y,
        );
    assert(inner == inner2);
    assert(scaled == scaled2);
}

proof fn round_is_unique<S: Score>(adj: Seq<Seq<usize>>, damping: S, rank: Seq<S>, one: Seq<S>, other: Seq<S>)
    requires
        is_functional::<S>(),
        is_round(adj, damping, rank, one),
        is_round(adj, damping, rank, other),
    ensures
        one == other,
{
    let (teleport, share) = choose|teleport: S, share: S| #[trigger]
        is_base(adj, damping, rank, teleport, share) && one.len() == rank.len() && forall|v: int|
            0 <= v < one.len() ==> is_next(adj, damping, rank, teleport, share, v, #[trigger] one[v]);
    let (teleport2, share2) = choose|teleport: S, share: S| #[trigger]
        is_base(adj, damping, rank, teleport, share) && other.len() == rank.len() && forall|v: int|
            0 <= v < other.len() ==> is_next(adj, damping, rank, teleport, share, v, #[trigger] other[v]);
    base_is_unique(adj, damping, rank, teleport, share, teleport2, share2);
    assert forall|v: int| 0 <= v < one.len() implies one[v] == other[v] by {
        assert(is_next(adj, damping, rank, teleport, share, v, one[v]));
        assert(is_next(adj, damping, rank, teleport, share, v, other[v]));
        next_is_unique(adj, damping, rank, teleport, share, v, one[v], other[v]);
    }
    assert(one =~= other);
}

proof fn test_is_unique<S: Score>(rank: Seq<S>, next: Seq<S>, x: bool, y: bool)
    requires
        is_functional::<S>(),
        is_test(rank, next, x),
        is_test(rank, next, y),
    ensures
        x == y,
{
    let (gaps, total, limit) = choose|gaps: Seq<S>, total: S, limit: S|
        #![trigger is_sum(gaps, total), is_limit(limit)]
        are_gaps(rank, next, gaps) && is_sum(gaps, total) && is_limit(limit) && call_ensures(S::below, (total, limit), x);
    let (gaps2, total2, limit2) = choose|gaps: Seq<S>, total: S, limit: S|
        #![trigger is_sum(gaps, total), is_limit(limit)]
        are_gaps(rank, next, gaps) && is_sum(gaps, total) && is_limit(limit) && call_ensures(S::below, (total, limit), y);
    assert forall|i: int| 0 <= i < gaps.len() implies gaps[i] == gaps2[i] by {
        assert(call_ensures(S::gap, (rank[i], next[i]), gaps[i]));
        assert(call_ensures(S::gap, (rank[i], next[i]), gaps2[i]));
    }
    assert(gaps =~= gaps2);
    sum_is_unique(gaps, total, total2);
    let one = choose|one: S| #[trigger] call_ensures(S::of_count, (1usize,), one) && is_share(one, 1_000_000, limit);
    let one2 = choose|one: S| #[trigger] call_ensures(S::of_count, (1usize,), one) && is_share(one, 1_000_000, limit2);
    assert(one == one2);
    share_is_unique(one, 1_000_000, limit, limit2);
}

proof fn start_is_unique<S: Score>(n: nat, one: Seq<S>, other: Seq<S>)
    requires
        is_functional::<S>(),
        is_start(n, one),
        is_start(n, other),
    ensures
        one == other,
{
    let (unit, init) = choose|unit: S, init: S|
        #![trigger is_share(unit, n as usize, init)]
        call_ensures(S::of_count, (1usize,), unit) && is_share(unit, n as usize, init) && one.len() == n && forall|i: int|
            0 <= i < n ==> #[trigger] one[i] == init;
    let (unit2, init2) = choose|unit: S, init: S|
        #![trigger is_share(unit, n as usize, init)]
        call_ensures(S::of_count, (1usize,), unit) && is_share(unit, n as usize, init) && other.len() == n && forall|i: int|
            0 <= i < n ==> #[trigger] other[i] == init;
    assert(unit == unit2);
    share_is_unique(unit, n as usize, init, init2);
    assert(one =~= other);
}

proof fn runs_agree<S: Score>(adj: Seq<Seq<usize>>, damping: S, max_iterations: nat, one: Seq<Seq<S>>, other: Seq<Seq<S>>, k: int)
    requires
        is_functional::<S>(),
        is_run(adj, damping, max_iterations, one),
        is_run(adj, damping, max_iterations, other),
        0 <= k < one.len(),
    ensures
        k < other.len(),
        one[k] == other[k],
    decreases k,
{
    if k == 0 {
        start_is_unique(adj.len(), one[0], other[0]);
    } else {
        runs_agree(adj, damping, max_iterations, one, other, k - 1);
        if k >= other.len() {
            assert(k - 1 == other.len() - 1);
            if k >= 2 {
                runs_agree(adj, damping, max_iterations, one, other, k - 2);
                assert(test_at(one, k - 2, false));
                assert(test_at(other, k - 2, true));
                test_is_unique(one[k - 2], one[k - 1], false, true);
            }
        }
        assert(round_at(adj, damping, one, k - 1));
        assert(round_at(adj, damping, other, k - 1));
        round_is_unique(adj, damping, one[k - 1], one[k], other[k]);
    }
}

/// With an arithmetic that gives one result for the same arguments, the scores are determined by
/// the links, the damping and the number of rounds.
pub proof fn run_is_unique<S: Score>(adj: Seq<Seq<usize>>, damping: S, max_iterations: nat, one: Seq<Seq<S>>, other: Seq<Seq<S>>)
    requires
        is_functional::<S>(),
        is_run(adj, damping, max_iterations, one),
        is_run(adj, damping, max_iterations, other),
    ensures
        one == other,
{
    runs_agree(adj, damping, max_iterations, one, other, one.len() - 1);
    runs_agree(adj, damping, max_iterations, other, one, other.len() - 1);
    assert forall|k: int| 0 <= k < one.len() implies one[k] == other[k] by {
        runs_agree(adj, damping, max_iterations, one, other, k);
    }
    assert(one =~= other);
}

/// With an arithmetic that gives one result for the same arguments, asking for fewer nodes gives
/// a front part of what asking for more gives.
pub proof fn fewer_ranks_are_a_front_part<S: Score>(
    g: GraphView,
    fewer: nat,
    more: nat,
    damping: S,
    max_iterations: nat,
    rounds: Seq<Seq<S>>,
    keys: Seq<u64>,
    short: Seq<RankView<S>>,
    other_rounds: Seq<Seq<S>>,
    other_keys: Seq<u64>,
    long: Seq<RankView<S>>,
)
    requires
        is_functional::<S>(),
        fewer <= more,
        is_ranking(g, fewer, damping, max_iterations, rounds, keys, short),
        is_ranking(g, more, damping, max_iterations, other_rounds, other_keys, long),
    ensures
        short.len() <= long.len(),
        short == long.take(short.len() as int),
{
    run_is_unique(link_lists(g), damping, max_iterations, rounds, other_rounds);
    let rank = rounds[rounds.len() - 1];
    assert forall|i: int| 0 <= i < keys.len() implies keys[i] == other_keys[i] by {
        assert(call_ensures(S::sort_key, (rank[i],), keys[i]));
        assert(call_ensures(S::sort_key, (rank[i],), other_keys[i]));
    }
    assert(keys =~= other_keys);
    crate::ranking::top_is_prefix(scored(g, rank), key_numbers(keys), fewer, more, short, long);
}

/// A score below another has a smaller number to be ordered by.
pub open spec fn keys_follow_scores<S: Score>() -> bool {
    forall|a: S, b: S, x: u64, y: u64|
        call_ensures(S::below, (a, b), true) && #[trigger] call_ensures(S::sort_key, (a,), x) && #[trigger] call_ensures(
            S::sort_key,
            (b,),
            y,
        ) ==> x < y
}

/// Where the keys follow the scores, no score is below one that comes later.
pub proof fn scores_descend<S: Score>(
    g: GraphView,
    top_n: nat,
    damping: S,
    max_iterations: nat,
    rounds: Seq<Seq<S>>,
    keys: Seq<u64>,
    out: Seq<RankView<S>>,
    p: int,
    q: int,
)
    requires
        keys_follow_scores::<S>(),
        is_ranking(g, top_n, damping, max_iterations, rounds, keys, out),
        0 <= p < q < out.len(),
    ensures
        !call_ensures(S::below, (out[p].score, out[q].score), true),
{
    ranks_in_order(g, top_n, damping, max_iterations, rounds, keys, out, p, q);
}

/// Where the keys follow the scores, no score that comes back is below the score of a node that
/// is left out.
pub proof fn no_better_score_is_left_out<S: Score>(
    g: GraphView,
    top_n: nat,
    damping: S,
    max_iterations: nat,
    rounds: Seq<Seq<S>>,
    keys: Seq<u64>,
    out: Seq<RankView<S>>,
    i: int,
    p: int,
)
    requires
        keys_follow_scores::<S>(),
        is_ranking(g, top_n, damping, max_iterations, rounds, keys, out),
        0 <= i < g.nodes.len(),
        forall|q: int| 0 <= q < out.len() ==> (#[trigger] out[q]).id != g.nodes[i].id,
        0 <= p < out.len(),
    ensures
        !call_ensures(S::below, (out[p].score, rounds[rounds.len() - 1][i]), true),
{
    let rank = rounds[rounds.len() - 1];
    let order = choose|order: Seq<usize>| #[trigger]
        crate::ranking::is_order(key_numbers(keys), order) && out == crate::ranking::pick(scored(g, rank), order, top_n);
    let q = crate::ranking::order_finds(key_numbers(keys), order, i);
    if q < out.len() {
        assert(out[q].id == g.nodes[i].id);
    }
    let a = order[p] as int;
    assert(crate::ranking::before(key_numbers(keys), order[p] as int, order[q] as int));
    assert(key_numbers(keys)[a] == Fraction::whole(keys[a] as nat));
    assert(key_numbers(keys)[i] == Fraction::whole(keys[i] as nat));
    assert(call_ensures(S::sort_key, (rank[a],), keys[a]));
    assert(call_ensures(S::sort_key, (rank[i],), keys[i]));
    assert(out[p].score == rank[a]);
}

/// What comes back are nodes of the graph, none twice, and all of them if as many were asked for.
pub proof fn ranks_hold_each_node_once<S: Score>(
    g: GraphView,
    top_n: nat,
    damping: S,
    max_iterations: nat,
    rounds: Seq<Seq<S>>,
    keys: Seq<u64>,
    out: Seq<RankView<S>>,
)
    requires
        g.wf(),
        is_ranking(g, top_n, damping, max_iterations, rounds, keys, out),
    ensures
        forall|p: int| 0 <= p < out.len() ==> g.has((#[trigger] out[p]).id),
        forall|p: int, q: int| 0 <= p < q < out.len() ==> (#[trigger] out[p]).id != (#[trigger] out[q]).id,
        g.nodes.len() <= top_n ==> forall|i: int|
            0 <= i < g.nodes.len() ==> exists|p: int| 0 <= p < out.len() && (#[trigger] out[p]).id == (#[trigger] g.nodes[i]).id,
{
    let rank = rounds[rounds.len() - 1];
    let order = choose|order: Seq<usize>| #[trigger]
        crate::ranking::is_order(key_numbers(keys), order) && out == crate::ranking::pick(scored(g, rank), order, top_n);
    crate::ranking::order_is_permutation(key_numbers(keys), order);
    assert forall|p: int| 0 <= p < out.len() implies g.has((#[trigger] out[p]).id) by {
        assert(g.nodes[order[p] as int].id == out[p].id);
    }
    assert forall|p: int, q: int| 0 <= p < q < out.len() implies (#[trigger] out[p]).id != (#[trigger] out[q]).id by {
        assert(order[p] != order[q]);
        assert(g.nodes[order[p] as int].id != g.nodes[order[q] as int].id);
    }
    if g.nodes.len() <= top_n {
        assert forall|i: int| 0 <= i < g.nodes.len() implies exists|p: int|
            0 <= p < out.len() && (#[trigger] out[p]).id == (#[trigger] g.nodes[i]).id by {
            let p = crate::ranking::order_finds(key_numbers(keys), order, i);
            assert(out[p].id == g.nodes[i].id);
        }
    }
}

/// The number of edge ends at the node `id`: an edge from the node to itself has two.
pub open spec fn edge_ends(edges: Seq<EdgeView>, id: Seq<char>) -> nat {
    edges.filter(|e: EdgeView| e.source == id).len() + edges.filter(|e: EdgeView| e.target == id).len()
}

proof fn linked_counts_ends(g: GraphView, edges: Seq<EdgeView>, id: Seq<char>)
    ensures
        linked(g, edges, id).len() == edge_ends(edges, id),
    decreases edges.len(),
{
    let from = |e: EdgeView| e.source == id;
    let to = |e: EdgeView| e.target == id;
    if edges.len() == 0 {
        crate::sequences::filter_none(edges, from);
        crate::sequences::filter_none(edges, to);
        assert(edges.take(0) =~= edges);
    } else {
        let last = edges.len() - 1;
        linked_counts_ends(g, edges.drop_last(), id);
        crate::sequences::filter_next(edges, from, last);
        crate::sequences::filter_next(edges, to, last);
        assert(edges.take(last + 1) =~= edges);
        assert(edges.take(last) =~= edges.drop_last());
    }
}

/// The degree that comes back with a node is the number of edge ends at it.
pub proof fn rank_degree_counts_ends<S: Score>(
    g: GraphView,
    top_n: nat,
    damping: S,
    max_iterations: nat,
    rounds: Seq<Seq<S>>,
    keys: Seq<u64>,
    out: Seq<RankView<S>>,
    p: int,
)
    requires
        is_ranking(g, top_n, damping, max_iterations, rounds, keys, out),
        0 <= p < out.len(),
    ensures
        out[p].degree == edge_ends(g.edges, out[p].id),
{
    let rank = rounds[rounds.len() - 1];
    let order = choose|order: Seq<usize>| #[trigger]
        crate::ranking::is_order(key_numbers(keys), order) && out == crate::ranking::pick(scored(g, rank), order, top_n);
    linked_counts_ends(g, g.edges, g.nodes[order[p] as int].id);
}

/// The lists of links name nodes of the graph.
pub proof fn links_in_range(g: GraphView, u: int)
    requires
        g.wf(),
        g.nodes.len() <= usize::MAX,
        0 <= u < g.nodes.len(),
    ensures
        forall|k: int| 0 <= k < link_lists(g)[u].len() ==> (#[trigger] link_lists(g)[u][k]) < g.nodes.len(),
{
    linked_in_range(g, g.edges, g.nodes[u].id);
}

/// The scores of the vertices without links, in the order of the vertices, each once and no
/// others.
pub proof fn dangling_by_places<S>(adj: Seq<Seq<usize>>, rank: Seq<S>, n: nat) -> (at: Seq<int>)
    ensures
        are_places(n, |u: int| adj[u].len() == 0, at),
        dangling(adj, rank, n).len() == at.len(),
        forall|k: int| 0 <= k < at.len() ==> dangling(adj, rank, n)[k] == rank[#[trigger] at[k]],
    decreases n,
{
    if n == 0 {
        Seq::empty()
    } else {
        let before = dangling_by_places(adj, rank, (n - 1) as nat);
        let wanted = |u: int| adj[u].len() == 0;
        let at = if wanted(n - 1) {
            before.push(n - 1)
        } else {
            before
        };
        assert forall|i: int| 0 <= i < n && #[trigger] wanted(i) implies at.contains(i) by {
            if i < n - 1 {
                assert(before.contains(i));
                let k = choose|k: int| 0 <= k < before.len() && before[k] == i;
                assert(at[k] == i);
            } else {
                assert(at[before.len() as int] == i);
            }
        }
        at
    }
}

/// The node at an end of an edge: the ends are counted two to an edge, the source first.
pub open spec fn end_of(edges: Seq<EdgeView>, i: int) -> Seq<char> {
    if i % 2 == 0 {
        edges[i / 2].source
    } else {
        edges[i / 2].target
    }
}

/// The node at the other end of the edge.
pub open spec fn far_end(edges: Seq<EdgeView>, i: int) -> Seq<char> {
    if i % 2 == 0 {
        edges[i / 2].target
    } else {
        edges[i / 2].source
    }
}

/// The links of a node stand for the ends of edges at it, in their order, and lead to the nodes
/// at the other ends.
pub proof fn links_by_ends(g: GraphView, u: int) -> (at: Seq<int>)
    requires
        g.wf(),
        g.nodes.len() <= usize::MAX,
        0 <= u < g.nodes.len(),
    ensures
        link_lists(g).len() == g.nodes.len(),
        are_places(2 * g.edges.len(), |i: int| end_of(g.edges, i) == g.nodes[u].id, at),
        link_lists(g)[u].len() == at.len(),
        forall|k: int|
            0 <= k < at.len() ==> (#[trigger] link_lists(g)[u][k]) < g.nodes.len() && g.nodes[link_lists(g)[u][k] as int].id == far_end(
                g.edges,
                at[k],
            ),
{
    linked_by_ends(g, g.edges, g.nodes[u].id)
}

proof fn linked_by_ends(g: GraphView, edges: Seq<EdgeView>, id: Seq<char>) -> (at: Seq<int>)
    requires
        g.nodes.len() <= usize::MAX,
        forall|e: int| #![trigger edges[e]] 0 <= e < edges.len() ==> g.has(edges[e].source) && g.has(edges[e].target),
    ensures
        are_places(2 * edges.len(), |i: int| end_of(edges, i) == id, at),
        linked(g, edges, id).len() == at.len(),
        forall|k: int|
            0 <= k < at.len() ==> (#[trigger] linked(g, edges, id)[k]) < g.nodes.len() && g.nodes[linked(g, edges, id)[k] as int].id
                == far_end(edges, at[k]),
    decreases edges.len(),
{
    if edges.len() == 0 {
        Seq::empty()
    } else {
        let front = edges.drop_last();
        assert forall|e: int| #![trigger front[e]] 0 <= e < front.len() implies g.has(front[e].source) && g.has(front[e].target) by {
            assert(g.has(edges[e].source) && g.has(edges[e].target));
        }
        let before = linked_by_ends(g, front, id);
        let wanted = |i: int| end_of(edges, i) == id;
        let last = edges.len() - 1;
        let e = edges.last();
        assert(g.has(edges[last].source) && g.has(edges[last].target));
        let (s, t) = (g.place(e.source), g.place(e.target));
        assert(0 <= s < g.nodes.len() && g.nodes[s].id == e.source);
        assert(0 <= t < g.nodes.len() && g.nodes[t].id == e.target);
        let some = if wanted(2 * last) {
            before.push(2 * last)
        } else {
            before
        };
        let at = if wanted(2 * last + 1) {
            some.push(2 * last + 1)
        } else {
            some
        };
        let (old_list, list) = (linked(g, front, id), linked(g, edges, id));
        assert forall|k: int| 0 <= k < at.len() implies 0 <= (#[trigger] at[k]) < 2 * edges.len() && wanted(at[k]) && list[k] < g.nodes.len()
            && g.nodes[list[k] as int].id == far_end(edges, at[k]) by {
            if k < before.len() {
                let x = before[k];
                assert(0 <= x < 2 * front.len());
                assert(front[x / 2] == edges[x / 2]);
                assert(old_list[k] < g.nodes.len());
                assert(list[k] == old_list[k]);
            }
        }
        assert forall|i: int| 0 <= i < 2 * edges.len() && #[trigger] wanted(i) implies at.contains(i) by {
            if i < 2 * last {
                assert(front[i / 2] == edges[i / 2]);
                assert((|i: int| end_of(front, i) == id)(i));
                assert(before.contains(i));
                let k = choose|k: int| 0 <= k < before.len() && before[k] == i;
                assert(at[k] == i);
            } else if i == 2 * last {
                assert(at[before.len() as int] == i);
            } else {
                assert(at[some.len() as int] == i);
            }
        }
        at
    }
}

/// Adding up no scores gives zero, and one more score is added to the sum of those in front.
pub proof fn sums_by_additions<S: Score>(terms: Seq<S>, term: S, total: S)
    ensures
        is_sum(Seq::<S>::empty(), total) <==> call_ensures(S::of_count, (0usize,), total),
        is_sum(terms.push(term), total) <==> exists|part: S| #[trigger] is_sum(terms, part) && call_ensures(S::plus, (part, term), total),
{
    let none = Seq::<S>::empty();
    if call_ensures(S::of_count, (0usize,), total) {
        assert(are_partial_sums(none, seq![total]));
    }
    let more = terms.push(term);
    if is_sum(more, total) {
        let parts = choose|parts: Seq<S>| #[trigger] are_partial_sums(more, parts) && parts[parts.len() - 1] == total;
        let front = parts.drop_last();
        assert forall|i: int| 0 <= i < terms.len() implies #[trigger] adds(terms, front, i) by {
            assert(adds(more, parts, i));
        }
        assert(adds(more, parts, terms.len() as int));
        assert(are_partial_sums(terms, front));
        assert(is_sum(terms, front[front.len() - 1]));
    }
    if exists|part: S| #[trigger] is_sum(terms, part) && call_ensures(S::plus, (part, term), total) {
        let part = choose|part: S| #[trigger] is_sum(terms, part) && call_ensures(S::plus, (part, term), total);
        let parts = choose|parts: Seq<S>| #[trigger] are_partial_sums(terms, parts) && parts[parts.len() - 1] == part;
        add_term(terms, parts, term, total);
    }
}

/// The nodes that come back are those whose scores have the largest keys after the last round,
/// the largest first and of equal ones the one that stands first in the graph, each with its id,
/// its label, its score and the number of its links.
pub proof fn ranks_by_keys<S: Score>(
    g: GraphView,
    top_n: nat,
    damping: S,
    max_iterations: nat,
    rounds: Seq<Seq<S>>,
    keys: Seq<u64>,
    out: Seq<RankView<S>>,
) -> (best: Seq<int>)
    requires
        is_ranking(g, top_n, damping, max_iterations, rounds, keys, out),
    ensures
        is_run(link_lists(g), damping, max_iterations, rounds),
        rounds[rounds.len() - 1].len() == g.nodes.len(),
        keys.len() == g.nodes.len(),
        forall|i: int| 0 <= i < g.nodes.len() ==> call_ensures(S::sort_key, (rounds[rounds.len() - 1][i],), #[trigger] keys[i]),
        are_best(g.nodes.len(), |i: int| true, |i: int| Fraction { num: keys[i] as nat, den: 1 }, top_n, best),
        out.len() == best.len(),
        forall|p: int|
            #![trigger out[p]]
            0 <= p < out.len() ==> out[p].id == g.nodes[best[p]].id && out[p].label == g.nodes[best[p]].label && out[p].score
                == rounds[rounds.len() - 1][best[p]] && out[p].degree == link_lists(g)[best[p]].len(),
{
    let n = g.nodes.len();
    let all = |i: int| true;
    let key = |i: int| Fraction { num: keys[i] as nat, den: 1 };
    let every = Seq::new(n, |k: int| k);
    assert(are_places(n, all, every)) by {
        assert forall|i: int| 0 <= i < n && #[trigger] all(i) implies every.contains(i) by {
            assert(every[i] == i);
        }
    }
    let rank = rounds[rounds.len() - 1];
    let (best, which) = crate::ranking::top_of_places(scored(g, rank), key_numbers(keys), top_n, out, n, all, key, every);
    assert forall|p: int| #![trigger out[p]] 0 <= p < out.len() implies out[p].id == g.nodes[best[p]].id && out[p].label
        == g.nodes[best[p]].label && out[p].score == rank[best[p]] && out[p].degree == link_lists(g)[best[p]].len() by {
        assert(best[p] == which[p]);
        assert(out[p] == scored(g, rank)[which[p]]);
    }
    best
}

/// A node with its score says what its fields hold.
pub proof fn rank_node_views<S>(n: PageRankNode<S>, all: Seq<PageRankNode<S>>)
    ensures
        n@.id == n.id@ && n@.label == n.label@ && n@.score == n.score && n@.degree == n.degree,
        rank_views(all).len() == all.len(),
        forall|i: int| 0 <= i < all.len() ==> #[trigger] rank_views(all)[i] == all[i]@,
{
}

} // verus!
