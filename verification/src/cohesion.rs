//! Cohesion: how many of the possible edges inside a group of nodes are there.
use vstd::hash_map::StringHashMap;
use vstd::prelude::*;

use crate::graph::{EdgeView, GraphNode, GraphView, KnowledgeGraph};
use crate::ranking::{Fraction, Ratio};
use crate::text::{decimal_text, digit, number_of, texts};

verus! {

/// The number of edge ends that the first `i` members of a group have inside the group.
pub open spec fn inner_ends(g: GraphView, group: Seq<Seq<char>>, i: nat) -> nat
    decreases i,
{
    if i == 0 {
        0
    } else {
        inner_ends(g, group, (i - 1) as nat) + g.neighbors(group[i - 1]).filter(|id: Seq<char>| group.contains(id)).len()
    }
}

/// The edges inside a group as a share of the pairs of its members; a group of at most one
/// member is fully cohesive.
pub open spec fn cohesion(g: GraphView, group: Seq<Seq<char>>) -> Fraction {
    let n = group.len();
    if n <= 1 {
        Fraction { num: 1, den: 1 }
    } else {
        Fraction { num: inner_ends(g, group, n) / 2, den: ((n * (n - 1)) / 2) as nat }
    }
}

/// A number below three tenths.
pub open spec fn is_low(f: Fraction) -> bool {
    10 * f.num < 3 * f.den
}

/// `h` half-hundredths round up to the next hundredth. Halfway between two hundredths the
/// nearest double decides; one eighth is a double and rounds to the even side.
pub open spec fn rounds_up(h: nat) -> bool {
    h == 1 || h == 5 || h == 7 || h == 11 || h == 13 || h == 17 || h == 19 || h == 23 || h == 27 || h == 33 || h == 39 || h
        == 45 || h == 51 || h == 53 || h == 55
}

/// A number below three tenths in hundredths, rounded to the nearest.
pub open spec fn hundredths(f: Fraction) -> nat {
    let h = (200 * f.num) / f.den;
    if h % 2 == 0 {
        h / 2
    } else if (200 * f.num) % f.den != 0 || rounds_up(h) {
        h / 2 + 1
    } else {
        h / 2
    }
}

/// A number below three tenths with two digits behind the point.
pub open spec fn two_decimals(f: Fraction) -> Seq<char> {
    "0."@.push(digit(hundredths(f) / 10)).push(digit(hundredths(f) % 10))
}

/// Does a half-hundredth round up?
fn half_rounds_up(h: u128) -> (up: bool)
    ensures
        up == rounds_up(h as nat),
{
    h == 1 || h == 5 || h == 7 || h == 11 || h == 13 || h == 17 || h == 19 || h == 23 || h == 27 || h == 33 || h == 39 || h
        == 45 || h == 51 || h == 53 || h == 55
}

/// Is the number below three tenths?
pub fn below_three_tenths(r: &Ratio) -> (low: bool)
    ensures
        low == is_low(r@),
{
    let tens: u128 = r.den / 10;
    let rest: u128 = r.den % 10;
    let limit: u128 = 3 * tens + (3 * rest + 9) / 10;
    assert(r.den == 10 * tens + rest);
    r.num < limit
}

/// The number with two digits behind the point.
pub fn two_decimal_text(r: &Ratio) -> (s: String)
    requires
        is_low(r@),
        r.den <= u128::MAX / 2,
    ensures
        s@ == two_decimals(r@),
{
    let mut h: u128 = 0;
    let mut rest: u128 = 0;
    let mut k: u128 = 0;
    assert(h as int * r.den as int == 0) by (nonlinear_arith)
        requires
            h == 0,
    ;
    while k < 200
        invariant
            is_low(r@),
            r.den <= u128::MAX / 2,
            k <= 200,
            h <= k,
            rest < r.den,
            k as int * r.num as int == h as int * r.den as int + rest,
        decreases 200 - k,
    {
        assert((k + 1) * r.num == k * r.num + r.num) by (nonlinear_arith);
        assert((h + 1) * r.den == h * r.den + r.den) by (nonlinear_arith);
        rest = rest + r.num;
        if rest >= r.den {
            rest = rest - r.den;
            h = h + 1;
        }
        k = k + 1;
    }
    proof {
        let x = 200 * r.num as int;
        vstd::arithmetic::div_mod::lemma_fundamental_div_mod_converse(x, r.den as int, h as int, rest as int);
        assert(h < 60) by (nonlinear_arith)
            requires
                200 * r.num as int == h as int * r.den as int + rest,
                10 * r.num < 3 * r.den,
                r.den > 0,
        ;
    }
    let up: bool = h % 2 == 1 && (rest != 0 || half_rounds_up(h));
    let whole: u128 = if up { h / 2 + 1 } else { h / 2 };
    assert(whole == hundredths(r@));
    let mut s: String = "0.".to_owned();
    let tens: String = decimal_text(whole / 10);
    let ones: String = decimal_text(whole % 10);
    s.append(tens.as_str());
    s.append(ones.as_str());
    assert(s@ =~= two_decimals(r@));
    s
}

/// The number of neighbours of the `i`-th node that are in the group.
fn ends_inside(graph: &KnowledgeGraph, i: usize, members: &StringHashMap<bool>, Ghost(group): Ghost<Seq<Seq<char>>>) -> (n: usize)
    requires
        i < graph@.nodes.len(),
        forall|id: Seq<char>| #[trigger] members@.contains_key(id) <==> group.contains(id),
    ensures
        n == graph@.neighbors(graph@.nodes[i as int].id).filter(|id: Seq<char>| group.contains(id)).len(),
{
    let ghost nbrs = graph@.neighbors(graph@.nodes[i as int].id);
    let ghost wanted = |id: Seq<char>| group.contains(id);
    let nodes: &Vec<GraphNode> = graph.nodes();
    let links: &Vec<usize> = graph.links(i);
    let mut n: usize = 0;
    let mut k: usize = 0;
    proof {
        crate::sequences::filter_none(nbrs, wanted);
    }
    while k < links.len()
        invariant
            wanted == (|id: Seq<char>| group.contains(id)),
            forall|id: Seq<char>| #[trigger] members@.contains_key(id) <==> group.contains(id),
            crate::graph::node_views(nodes@) == graph@.nodes,
            links@.len() == nbrs.len(),
            forall|q: int| 0 <= q < links@.len() ==> (#[trigger] links@[q]) < graph@.nodes.len()
                && graph@.nodes[links@[q] as int].id == nbrs[q],
            k <= links@.len(),
            n <= k,
            n == nbrs.take(k as int).filter(wanted).len(),
        decreases links@.len() - k,
    {
        let j: usize = links[k];
        proof {
            assert(graph@.nodes[j as int] == nodes@[j as int]@);
            crate::sequences::filter_next(nbrs, wanted, k as int);
            assert(members@.contains_key(nbrs[k as int]) <==> group.contains(nbrs[k as int]));
        }
        if members.contains_key(nodes[j].id.as_str()) {
            n += 1;
        }
        k += 1;
    }
    assert(nbrs.take(k as int) =~= nbrs);
    n
}

/// The cohesion of a group of nodes.
pub fn compute_cohesion(graph: &KnowledgeGraph, community_nodes: &[String]) -> (r: Ratio)
    ensures
        r@ == cohesion(graph@, texts(community_nodes@)),
        0 < r.den <= u128::MAX / 2,
{
    let n: usize = community_nodes.len();
    if n <= 1 {
        return Ratio { num: 1, den: 1 };
    }
    let ghost group = texts(community_nodes@);
    let mut members: StringHashMap<bool> = StringHashMap::new();
    let mut i: usize = 0;
    while i < n
        invariant
            n == community_nodes@.len(),
            group == texts(community_nodes@),
            i <= n,
            forall|id: Seq<char>| #[trigger] members@.contains_key(id) <==> exists|k: int| 0 <= k < i && #[trigger] group[k] == id,
        decreases n - i,
    {
        let ghost before = members@;
        members.insert(community_nodes[i].clone(), true);
        proof {
            assert forall|id: Seq<char>| #[trigger] members@.contains_key(id) <==> exists|k: int| 0 <= k < i + 1 && #[trigger] group[k] == id by {
                if before.contains_key(id) {
                    let k = choose|k: int| 0 <= k < i && #[trigger] group[k] == id;
                    assert(group[k] == id);
                }
                if id == group[i as int] {
                    assert(members@.contains_key(id));
                }
                if exists|k: int| 0 <= k < i + 1 && #[trigger] group[k] == id {
                    let k = choose|k: int| 0 <= k < i + 1 && #[trigger] group[k] == id;
                    if k < i {
                        assert(before.contains_key(id));
                    }
                }
            }
        }
        i += 1;
    }
    let mut ends: u128 = 0;
    let mut j: usize = 0;
    while j < n
        invariant
            n == community_nodes@.len(),
            group == texts(community_nodes@),
            forall|id: Seq<char>| #[trigger] members@.contains_key(id) <==> group.contains(id),
            j <= n,
            ends == inner_ends(graph@, group, j as nat),
            ends <= j * usize::MAX,
        decreases n - j,
    {
        let inside: usize = match graph.position(community_nodes[j].as_str()) {
            Some(place) => ends_inside(graph, place, &members, Ghost(group)),
            None => {
                proof {
                    crate::graph::no_ends(graph@, group[j as int]);
                    assert(graph@.neighbors(group[j as int]) =~= Seq::empty());
                    crate::sequences::filter_none(graph@.neighbors(group[j as int]), |id: Seq<char>| group.contains(id));
                    assert(graph@.neighbors(group[j as int]).take(0) =~= graph@.neighbors(group[j as int]));
                }
                0
            },
        };
        proof {
            assert((j + 1) * usize::MAX == j * usize::MAX + usize::MAX) by (nonlinear_arith);
            assert((j + 1) * usize::MAX <= u64::MAX * u64::MAX) by (nonlinear_arith)
                requires
                    j + 1 <= u64::MAX,
                    usize::MAX <= u64::MAX,
            ;
            assert(u64::MAX * u64::MAX <= u128::MAX);
        }
        ends += inside as u128;
        j += 1;
    }
    let m: u128 = n as u128;
    proof {
        assert(m * (m - 1) <= u64::MAX * u64::MAX) by (nonlinear_arith)
            requires
                m <= u64::MAX,
                m >= 2,
        ;
        assert(m * (m - 1) >= 2) by (nonlinear_arith)
            requires
                m >= 2,
        ;
        assert(u64::MAX * u64::MAX <= u128::MAX);
    }
    Ratio { num: ends / 2, den: m * (m - 1) / 2 }
}

/// Both ends of the edge are in the group.
pub open spec fn is_inside(group: Seq<Seq<char>>, e: EdgeView) -> bool {
    group.contains(e.source) && group.contains(e.target)
}

/// The edges with both ends in the group.
pub open spec fn inner_edges(g: GraphView, group: Seq<Seq<char>>) -> Seq<EdgeView> {
    g.edges.filter(|e: EdgeView| is_inside(group, e))
}

/// The ends of `e` among the first `i` members of the group, if both ends are in the group.
spec fn ends_of(group: Seq<Seq<char>>, e: EdgeView, i: nat) -> nat {
    if is_inside(group, e) {
        (if group.take(i as int).contains(e.source) { 1nat } else { 0 }) + (if group.take(i as int).contains(e.target) {
            1nat
        } else {
            0
        })
    } else {
        0
    }
}

/// One more edge adds its ends.
proof fn one_more_edge(g: GraphView, shorter: GraphView, group: Seq<Seq<char>>, e: EdgeView, i: nat)
    requires
        group.no_duplicates(),
        i <= group.len(),
        e.source != e.target,
        g.edges == shorter.edges.push(e),
    ensures
        inner_ends(g, group, i) == inner_ends(shorter, group, i) + ends_of(group, e, i),
    decreases i,
{
    if i == 0 {
        assert(group.take(0).len() == 0);
    } else {
        let m = (i - 1) as nat;
        let id = group[m as int];
        let wanted = |id: Seq<char>| group.contains(id);
        one_more_edge(g, shorter, group, e, m);
        assert(g.edges.drop_last() =~= shorter.edges);
        let (now, before) = (g.neighbors(id), shorter.neighbors(id));
        let other = if e.source == id { e.target } else { e.source };
        if e.source == id || e.target == id {
            assert(now == before.push(other));
            crate::sequences::filter_next(now, wanted, before.len() as int);
            assert(now.take(now.len() as int) =~= now);
            assert(now.take(before.len() as int) =~= before);
            assert(group.contains(id));
        }
        let (front, longer) = (group.take(m as int), group.take(i as int));
        assert(longer =~= front.push(id));
        crate::sequences::pushed_contains(front, id, e.source);
        crate::sequences::pushed_contains(front, id, e.target);
        assert(!front.contains(id)) by {
            if front.contains(id) {
                let k = choose|k: int| 0 <= k < front.len() && front[k] == id;
                assert(group[k] == group[m as int]);
            }
        }
    }
}

/// Without edges there are no ends.
proof fn no_inner_ends(g: GraphView, group: Seq<Seq<char>>, i: nat)
    requires
        g.edges.len() == 0,
    ensures
        inner_ends(g, group, i) == 0,
    decreases i,
{
    if i > 0 {
        let wanted = |id: Seq<char>| group.contains(id);
        let none = g.neighbors(group[i - 1]);
        no_inner_ends(g, group, (i - 1) as nat);
        crate::sequences::filter_none(none, wanted);
        assert(none.take(0) =~= none);
    }
}

/// In a group without repetitions, in a graph without edges from a node to itself, each edge
/// inside the group counts at both its ends; so cohesion is the number of edges inside the group
/// as a share of the pairs of its members.
pub proof fn cohesion_counts_inner_edges(g: GraphView, group: Seq<Seq<char>>)
    requires
        group.no_duplicates(),
        forall|e: int| #![trigger g.edges[e]] 0 <= e < g.edges.len() ==> g.edges[e].source != g.edges[e].target,
    ensures
        inner_ends(g, group, group.len()) == 2 * inner_edges(g, group).len(),
        group.len() >= 2 ==> cohesion(g, group).num == inner_edges(g, group).len(),
    decreases g.edges.len(),
{
    let wanted = |e: EdgeView| is_inside(group, e);
    if g.edges.len() == 0 {
        no_inner_ends(g, group, group.len());
        crate::sequences::filter_none(g.edges, wanted);
        assert(g.edges.take(0) =~= g.edges);
    } else {
        let last = g.edges.len() - 1;
        let e = g.edges[last];
        let shorter = GraphView { edges: g.edges.drop_last(), ..g };
        assert forall|k: int| #![trigger shorter.edges[k]] 0 <= k < shorter.edges.len() implies shorter.edges[k].source
            != shorter.edges[k].target by {
            assert(g.edges[k].source != g.edges[k].target);
        }
        cohesion_counts_inner_edges(shorter, group);
        assert(g.edges =~= shorter.edges.push(e));
        one_more_edge(g, shorter, group, e, group.len());
        assert(group.take(group.len() as int) =~= group);
        crate::sequences::filter_next(g.edges, wanted, last);
        assert(g.edges.take(last + 1) =~= g.edges);
        assert(g.edges.take(last) =~= shorter.edges);
    }
}

/// How often `id` occurs in the group.
pub open spec fn occurrences(group: Seq<Seq<char>>, id: Seq<char>) -> nat {
    group.filter(is_this(id)).len()
}

/// Being `id`.
pub open spec fn is_this(id: Seq<char>) -> spec_fn(Seq<char>) -> bool {
    |x: Seq<char>| x == id
}

/// How often the ends of an edge inside the group occur in it; an edge from a node to itself has
/// one end.
pub open spec fn weight(group: Seq<Seq<char>>, e: EdgeView) -> nat {
    if !(group.contains(e.source) && group.contains(e.target)) {
        0
    } else if e.source == e.target {
        occurrences(group, e.source)
    } else {
        occurrences(group, e.source) + occurrences(group, e.target)
    }
}

/// The weights of edges in all.
pub open spec fn total_weight(group: Seq<Seq<char>>, edges: Seq<EdgeView>) -> nat
    decreases edges.len(),
{
    if edges.len() == 0 {
        0
    } else {
        total_weight(group, edges.drop_last()) + weight(group, edges.last())
    }
}

/// The part of the weight of an edge that the first `i` members have.
spec fn weight_so_far(group: Seq<Seq<char>>, e: EdgeView, i: nat) -> nat {
    let front = group.take(i as int);
    if !(group.contains(e.source) && group.contains(e.target)) {
        0
    } else if e.source == e.target {
        occurrences(front, e.source)
    } else {
        occurrences(front, e.source) + occurrences(front, e.target)
    }
}

proof fn occurrences_next(group: Seq<Seq<char>>, id: Seq<char>, m: int)
    requires
        0 <= m < group.len(),
    ensures
        occurrences(group.take(m + 1), id) == occurrences(group.take(m), id) + if group[m] == id { 1nat } else { 0 },
{
    crate::sequences::filter_next(group, is_this(id), m);
}

/// One more edge adds its weight.
proof fn one_more_weight(g: GraphView, shorter: GraphView, group: Seq<Seq<char>>, e: EdgeView, i: nat)
    requires
        i <= group.len(),
        g.edges == shorter.edges.push(e),
    ensures
        inner_ends(g, group, i) == inner_ends(shorter, group, i) + weight_so_far(group, e, i),
    decreases i,
{
    if i == 0 {
        crate::sequences::filter_none(group, is_this(e.source));
        crate::sequences::filter_none(group, is_this(e.target));
        assert(occurrences(group.take(0), e.source) == 0 && occurrences(group.take(0), e.target) == 0);
    } else {
        let m = (i - 1) as nat;
        let id = group[m as int];
        let wanted = |id: Seq<char>| group.contains(id);
        one_more_weight(g, shorter, group, e, m);
        assert(g.edges.drop_last() =~= shorter.edges);
        occurrences_next(group, e.source, m as int);
        occurrences_next(group, e.target, m as int);
        let (now, before) = (g.neighbors(id), shorter.neighbors(id));
        let other = if e.source == id { e.target } else { e.source };
        if e.source == id || e.target == id {
            assert(now == before.push(other));
            crate::sequences::filter_next(now, wanted, before.len() as int);
            assert(now.take(now.len() as int) =~= now);
            assert(now.take(before.len() as int) =~= before);
            assert(group.contains(id));
        }
    }
}

/// The edge ends that members have inside a group are the weights of the edges.
proof fn ends_are_weights(g: GraphView, group: Seq<Seq<char>>)
    ensures
        inner_ends(g, group, group.len()) == total_weight(group, g.edges),
    decreases g.edges.len(),
{
    if g.edges.len() == 0 {
        no_inner_ends(g, group, group.len());
    } else {
        let e = g.edges.last();
        let shorter = GraphView { edges: g.edges.drop_last(), ..g };
        ends_are_weights(shorter, group);
        assert(g.edges =~= shorter.edges.push(e));
        one_more_weight(g, shorter, group, e, group.len());
        assert(group.take(group.len() as int) =~= group);
    }
}

/// Cohesion is half the weight of the edges, rounded down, per pair of members; a group of at
/// most one member has cohesion one.
pub proof fn cohesion_by_edges(g: GraphView, group: Seq<Seq<char>>)
    ensures
        group.len() <= 1 ==> cohesion(g, group).num == 1 && cohesion(g, group).den == 1,
        group.len() >= 2 ==> 2 * cohesion(g, group).den == group.len() * (group.len() - 1),
        group.len() >= 2 ==> 2 * cohesion(g, group).num <= total_weight(group, g.edges) < 2 * cohesion(g, group).num + 2,
{
    ends_are_weights(g, group);
    if group.len() >= 2 {
        let n = group.len() as int;
        assert((n * (n - 1)) % 2 == 0) by (nonlinear_arith)
            requires
                n >= 2,
        {
            if n % 2 == 0 {
                assert(n == 2 * (n / 2));
                assert(n * (n - 1) == 2 * ((n / 2) * (n - 1)));
            } else {
                assert(n - 1 == 2 * ((n - 1) / 2));
                assert(n * (n - 1) == 2 * (n * ((n - 1) / 2)));
            }
        }
        assert(n * (n - 1) >= 0) by (nonlinear_arith)
            requires
                n >= 2,
        ;
    }
}

/// A number is low exactly if ten times it is less than three.
pub proof fn low_is_below_three_tenths(f: Fraction)
    ensures
        is_low(f) <==> 10 * f.num < 3 * f.den,
{
}

/// A low number is written as zero, a point and two digits that stand for the nearest number of
/// hundredths. Halfway between two numbers of hundredths it is the upper one at 1, 5, 7, 11, 13,
/// 17, 19, 23, 27, 33, 39, 45, 51, 53 and 55 half-hundredths, and else the lower one.
pub proof fn two_decimals_are_nearest(f: Fraction) -> (h: nat)
    requires
        10 * f.num < 3 * f.den,
    ensures
        two_decimals(f).len() == 4,
        two_decimals(f).take(2) == "0."@,
        number_of(two_decimals(f).skip(2)) == h,
        2 * (h * f.den) <= 200 * f.num + f.den,
        200 * f.num <= 2 * (h * f.den) + f.den,
        200 * f.num == 2 * (h * f.den) + f.den ==> !seq![1nat, 5, 7, 11, 13, 17, 19, 23, 27, 33, 39, 45, 51, 53, 55].contains(2 * h + 1),
        200 * f.num + f.den == 2 * (h * f.den) ==> seq![1nat, 5, 7, 11, 13, 17, 19, 23, 27, 33, 39, 45, 51, 53, 55].contains((2 * h - 1) as nat),
{
    let h = hundredths(f);
    let q = ((200 * f.num) / f.den) as int;
    let r = ((200 * f.num) % f.den) as int;
    let (num, den) = (f.num as int, f.den as int);
    vstd::arithmetic::div_mod::lemma_fundamental_div_mod(200 * num, den);
    assert(200 * num == den * q + r && 0 <= r < den);
    assert(q < 60) by (nonlinear_arith)
        requires
            200 * num == den * q + r,
            r >= 0,
            10 * num < 3 * den,
            den > 0,
    ;
    assert(q >= 0) by (nonlinear_arith)
        requires
            200 * num == den * q + r,
            r < den,
            num >= 0,
            den > 0,
    ;
    let list = seq![1nat, 5, 7, 11, 13, 17, 19, 23, 27, 33, 39, 45, 51, 53, 55];
    ties_listed(q as nat, list);
    let two = (2 * h) as int;
    assert(two == q || two == q + 1 || two == q - 1);
    assert(den * q + den == den * (q + 1)) by (nonlinear_arith);
    assert(den * q - den == den * (q - 1)) by (nonlinear_arith);
    assert(2 * (h as int * den) == den * two) by (nonlinear_arith)
        requires
            two == 2 * h as int,
    ;
    reveal_strlit("0.");
    reveal_strlit("0123456789");
    let s = two_decimals(f);
    assert(h <= 30);
    assert(s.take(2) =~= "0."@);
    let t = s.skip(2);
    assert(t.len() == 2);
    assert(t.drop_last() =~= seq![digit(h / 10)]);
    assert(t.drop_last().drop_last() =~= Seq::empty());
    assert(number_of(t.drop_last().drop_last()) == 0);
    assert(number_of(t.drop_last()) == h / 10);
    if 200 * num == two * den + den {
        assert(den * q + r == den * two + den);
        assert(two == q - 1 && r == 0) by (nonlinear_arith)
            requires
                den * q + r == den * two + den,
                0 <= r < den,
                two == q || two == q + 1 || two == q - 1,
        ;
    }
    if 200 * num + den == two * den {
        assert(two == q + 1 && r == 0) by (nonlinear_arith)
            requires
                den * q + r + den == den * two,
                0 <= r < den,
                two == q || two == q + 1 || two == q - 1,
        ;
    }
    h
}

proof fn ties_listed(h: nat, list: Seq<nat>)
    requires
        list == seq![1nat, 5, 7, 11, 13, 17, 19, 23, 27, 33, 39, 45, 51, 53, 55],
    ensures
        rounds_up(h) <==> list.contains(h),
{
    assert(list[0] == 1 && list[1] == 5 && list[2] == 7 && list[3] == 11 && list[4] == 13 && list[5] == 17 && list[6] == 19 && list[7]
        == 23 && list[8] == 27 && list[9] == 33 && list[10] == 39 && list[11] == 45 && list[12] == 51 && list[13] == 53 && list[14] == 55);
}

} // verus!
