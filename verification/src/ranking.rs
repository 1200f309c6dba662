//! Exact ratios, and the stable order of items by a ratio, the largest first.
use vstd::prelude::*;

use crate::digraph::distinct_below;
use crate::sequences::{are_places, ordered_is_unique};

verus! {

/// The exact number `num / den`.
#[derive(Clone, Copy, Debug, PartialEq, Eq, Structural)]
pub struct Ratio {
    pub num: u128,
    pub den: u128,
}

/// A number `num / den`.
pub struct Fraction {
    pub num: nat,
    pub den: nat,
}

impl Fraction {
    /// The whole number `n`.
    pub open spec fn whole(n: nat) -> Fraction {
        Fraction { num: n, den: 1 }
    }

    /// `self` is the larger number.
    pub open spec fn above(self, other: Fraction) -> bool {
        self.num * other.den > other.num * self.den
    }
}

impl View for Ratio {
    type V = Fraction;

    open spec fn view(&self) -> Fraction {
        Fraction { num: self.num as nat, den: self.den as nat }
    }
}

impl Ratio {
    /// The number is defined, and both parts fit into 64 bits.
    pub open spec fn small(self) -> bool {
        0 < self.den <= u64::MAX && self.num <= u64::MAX
    }
}

/// The numbers that the ratios stand for.
pub open spec fn fractions(keys: Seq<Ratio>) -> Seq<Fraction> {
    Seq::new(keys.len(), |i: int| keys[i]@)
}

/// The item at `i` comes before the item at `j`: its key is larger, or they are equal and it
/// stood first.
pub open spec fn before(keys: Seq<Fraction>, i: int, j: int) -> bool {
    keys[i].above(keys[j]) || (!keys[j].above(keys[i]) && i < j)
}

/// `order` lists the positions of all keys, the largest key first, equal keys as they stand.
pub open spec fn is_order(keys: Seq<Fraction>, order: Seq<usize>) -> bool {
    &&& order.len() == keys.len()
    &&& forall|p: int| 0 <= p < order.len() ==> (#[trigger] order[p]) < keys.len()
    &&& forall|p: int, q: int|
        0 <= p < q < order.len() ==> before(keys, #[trigger] order[p] as int, #[trigger] order[q] as int)
}

/// The first `top_n` items in the given order.
pub open spec fn pick<T>(items: Seq<T>, order: Seq<usize>, top_n: nat) -> Seq<T> {
    Seq::new(
        if order.len() <= top_n { order.len() } else { top_n },
        |i: int| items[order[i] as int],
    )
}

/// `out` holds the `top_n` items with the largest keys, the largest first, equal ones as they
/// stand among the items.
pub open spec fn is_top<T>(items: Seq<T>, keys: Seq<Fraction>, top_n: nat, out: Seq<T>) -> bool {
    exists|order: Seq<usize>| #[trigger] is_order(keys, order) && out == pick(items, order, top_n)
}

/// The `top_n` items with the largest keys.
pub open spec fn top<T>(items: Seq<T>, keys: Seq<Fraction>, top_n: nat) -> Seq<T> {
    choose|out: Seq<T>| is_top(items, keys, top_n, out)
}

/// The keys are defined numbers.
pub open spec fn defined(keys: Seq<Fraction>) -> bool {
    forall|i: int| 0 <= i < keys.len() ==> (#[trigger] keys[i]).den > 0
}

proof fn not_above_transitive(a: Fraction, b: Fraction, c: Fraction)
    requires
        b.den > 0,
        !b.above(a),
        !c.above(b),
    ensures
        !c.above(a),
        a.above(b) || b.above(c) ==> a.above(c) || a.den == 0 || c.den == 0,
{
    let (an, ad, bn, bd, cn, cd) = (a.num as int, a.den as int, b.num as int, b.den as int, c.num as int, c.den as int);
    assert(bd * (an * cd) >= bd * (cn * ad)) by (nonlinear_arith)
        requires
            bd > 0,
            ad >= 0,
            cd >= 0,
            an * bd >= bn * ad,
            bn * cd >= cn * bd,
    {
        assert(an * bd * cd >= bn * ad * cd);
        assert(bn * cd * ad >= cn * bd * ad);
    }
    assert(an * cd >= cn * ad) by (nonlinear_arith)
        requires
            bd > 0,
            bd * (an * cd) >= bd * (cn * ad),
    ;
    if (a.above(b) || b.above(c)) && ad > 0 && cd > 0 {
        assert(bd * (an * cd) > bd * (cn * ad)) by (nonlinear_arith)
            requires
                bd > 0,
                ad > 0,
                cd > 0,
                an * bd >= bn * ad,
                bn * cd >= cn * bd,
                an * bd > bn * ad || bn * cd > cn * bd,
        {
            assert(an * bd * cd >= bn * ad * cd);
            assert(bn * cd * ad >= cn * bd * ad);
            if an * bd > bn * ad {
                assert(an * bd * cd > bn * ad * cd);
            } else {
                assert(bn * cd * ad > cn * bd * ad);
            }
        }
        assert(an * cd > cn * ad) by (nonlinear_arith)
            requires
                bd > 0,
                bd * (an * cd) > bd * (cn * ad),
        ;
    }
}

proof fn before_transitive(keys: Seq<Fraction>, i: int, j: int, k: int)
    requires
        defined(keys),
        0 <= i < keys.len(),
        0 <= j < keys.len(),
        0 <= k < keys.len(),
        before(keys, i, j),
        before(keys, j, k),
    ensures
        before(keys, i, k),
{
    assert(keys[i].den > 0 && keys[j].den > 0 && keys[k].den > 0);
    not_above_transitive(keys[i], keys[j], keys[k]);
}

/// Is `a` the larger number?
fn is_above(a: &Ratio, b: &Ratio) -> (above: bool)
    requires
        a.small(),
        b.small(),
    ensures
        above == a@.above(b@),
{
    assert(a.num * b.den <= u64::MAX * u64::MAX) by (nonlinear_arith)
        requires
            a.num <= u64::MAX,
            b.den <= u64::MAX,
    ;
    assert(b.num * a.den <= u64::MAX * u64::MAX) by (nonlinear_arith)
        requires
            b.num <= u64::MAX,
            a.den <= u64::MAX,
    ;
    assert(u64::MAX * u64::MAX <= u128::MAX);
    a.num * b.den > b.num * a.den
}

/// `part` lists the positions from `lo` to `hi` in order.
spec fn is_part(keys: Seq<Fraction>, lo: int, hi: int, part: Seq<usize>) -> bool {
    &&& part.len() == hi - lo
    &&& forall|p: int| 0 <= p < part.len() ==> lo <= (#[trigger] part[p]) < hi
    &&& forall|p: int, q: int|
        0 <= p < q < part.len() ==> before(keys, #[trigger] part[p] as int, #[trigger] part[q] as int)
}

/// Merges the orders of two neighbouring ranges.
fn merge(keys: &Vec<Ratio>, left: &Vec<usize>, right: &Vec<usize>, Ghost(lo): Ghost<int>, Ghost(mid): Ghost<int>, Ghost(hi): Ghost<int>) -> (all: Vec<usize>)
    requires
        0 <= lo <= mid <= hi <= keys@.len(),
        forall|i: int| 0 <= i < keys@.len() ==> (#[trigger] keys@[i]).small(),
        is_part(fractions(keys@), lo, mid, left@),
        is_part(fractions(keys@), mid, hi, right@),
    ensures
        is_part(fractions(keys@), lo, hi, all@),
{
    let mut all: Vec<usize> = Vec::new();
    let mut a: usize = 0;
    let mut b: usize = 0;
    while a < left.len() || b < right.len()
        invariant
            0 <= lo <= mid <= hi <= keys@.len(),
            forall|i: int| 0 <= i < keys@.len() ==> (#[trigger] keys@[i]).small(),
            is_part(fractions(keys@), lo, mid, left@),
            is_part(fractions(keys@), mid, hi, right@),
            a <= left@.len(),
            b <= right@.len(),
            all@.len() == a + b,
            forall|p: int| 0 <= p < all@.len() ==> lo <= (#[trigger] all@[p]) < hi,
            forall|p: int, q: int|
                0 <= p < q < all@.len() ==> before(fractions(keys@), #[trigger] all@[p] as int, #[trigger] all@[q] as int),
            forall|p: int, q: int|
                0 <= p < all@.len() && a <= q < left@.len() ==> before(fractions(keys@), #[trigger] all@[p] as int, #[trigger] left@[q] as int),
            forall|p: int, q: int|
                0 <= p < all@.len() && b <= q < right@.len() ==> before(fractions(keys@), #[trigger] all@[p] as int, #[trigger] right@[q] as int),
        decreases left@.len() - a + right@.len() - b,
    {
        assert(defined(fractions(keys@)));
        if b >= right.len() || (a < left.len() && !is_above(&keys[right[b]], &keys[left[a]])) {
            let next: usize = left[a];
            assert forall|q: int| b <= q < right@.len() implies before(fractions(keys@), next as int, #[trigger] right@[q] as int) by {
                assert(before(fractions(keys@), next as int, right@[b as int] as int));
                if q > b {
                    assert(before(fractions(keys@), right@[b as int] as int, right@[q] as int));
                    before_transitive(fractions(keys@), next as int, right@[b as int] as int, right@[q] as int);
                }
            }
            all.push(next);
            a += 1;
        } else {
            let next: usize = right[b];
            assert forall|q: int| a <= q < left@.len() implies before(fractions(keys@), next as int, #[trigger] left@[q] as int) by {
                assert(before(fractions(keys@), next as int, left@[a as int] as int));
                if q > a {
                    assert(before(fractions(keys@), left@[a as int] as int, left@[q] as int));
                    before_transitive(fractions(keys@), next as int, left@[a as int] as int, left@[q] as int);
                }
            }
            all.push(next);
            b += 1;
        }
    }
    all
}

/// Sorts the positions from `lo` to `hi`.
fn sort_range(keys: &Vec<Ratio>, lo: usize, hi: usize) -> (part: Vec<usize>)
    requires
        lo <= hi <= keys@.len(),
        forall|i: int| 0 <= i < keys@.len() ==> (#[trigger] keys@[i]).small(),
    ensures
        is_part(fractions(keys@), lo as int, hi as int, part@),
    decreases hi - lo,
{
    if lo == hi {
        Vec::new()
    } else if hi - lo == 1 {
        let mut one: Vec<usize> = Vec::new();
        one.push(lo);
        one
    } else {
        let mid: usize = lo + (hi - lo) / 2;
        let left: Vec<usize> = sort_range(keys, lo, mid);
        let right: Vec<usize> = sort_range(keys, mid, hi);
        merge(keys, &left, &right, Ghost(lo as int), Ghost(mid as int), Ghost(hi as int))
    }
}

/// The positions of the keys, the largest key first, equal keys as they stand.
pub fn descending_order(keys: &Vec<Ratio>) -> (order: Vec<usize>)
    requires
        forall|i: int| 0 <= i < keys@.len() ==> (#[trigger] keys@[i]).small(),
    ensures
        is_order(fractions(keys@), order@),
{
    sort_range(keys, 0, keys.len())
}

/// An order of keys names every position, and none twice.
pub proof fn order_is_permutation(keys: Seq<Fraction>, order: Seq<usize>)
    requires
        is_order(keys, order),
    ensures
        order.no_duplicates(),
        forall|i: usize| i < keys.len() ==> #[trigger] order.contains(i),
{
    assert forall|p: int, q: int| 0 <= p < order.len() && 0 <= q < order.len() && p != q implies order[p] != order[q] by {
        if p < q {
            assert(before(keys, order[p] as int, order[q] as int));
        } else {
            assert(before(keys, order[q] as int, order[p] as int));
        }
    }
    assert forall|i: usize| i < keys.len() implies #[trigger] order.contains(i) by {
        if !order.contains(i) {
            let more = order.push(i);
            assert forall|p: int, q: int| 0 <= p < more.len() && 0 <= q < more.len() && p != q implies more[p] != more[q] by {
                if p < order.len() {
                    assert(order.contains(order[p]));
                }
                if q < order.len() {
                    assert(order.contains(order[q]));
                }
            }
            distinct_below(more, keys.len());
        }
    }
}

/// Every key has its place in the order.
pub proof fn order_finds(keys: Seq<Fraction>, order: Seq<usize>, a: int) -> (q: int)
    requires
        is_order(keys, order),
        0 <= a < keys.len(),
    ensures
        0 <= q < order.len(),
        order[q] == a,
{
    order_is_permutation(keys, order);
    distinct_below(order, (usize::MAX + 1) as nat);
    assert(order.contains(a as usize));
    choose|q: int| 0 <= q < order.len() && order[q] == a as usize
}

/// Keys have only one order.
pub proof fn order_is_unique(keys: Seq<Fraction>, one: Seq<usize>, other: Seq<usize>)
    requires
        is_order(keys, one),
        is_order(keys, other),
    ensures
        one == other,
{
    order_is_permutation(keys, one);
    order_is_permutation(keys, other);
    let first = |i: usize, j: usize| before(keys, i as int, j as int);
    assert forall|i: usize| #[trigger] one.contains(i) <==> other.contains(i) by {
        if one.contains(i) {
            let p = choose|p: int| 0 <= p < one.len() && one[p] == i;
            assert(one[p] < keys.len());
        }
        if other.contains(i) {
            let p = choose|p: int| 0 <= p < other.len() && other[p] == i;
            assert(other[p] < keys.len());
        }
    }
    ordered_is_unique(one, other, first);
}

/// The `top_n` best items are determined by the items and their keys.
pub proof fn top_is_unique<T>(items: Seq<T>, keys: Seq<Fraction>, top_n: nat, one: Seq<T>, other: Seq<T>)
    requires
        is_top(items, keys, top_n, one),
        is_top(items, keys, top_n, other),
    ensures
        one == other,
{
    let o1 = choose|order: Seq<usize>| #[trigger] is_order(keys, order) && one == pick(items, order, top_n);
    let o2 = choose|order: Seq<usize>| #[trigger] is_order(keys, order) && other == pick(items, order, top_n);
    order_is_unique(keys, o1, o2);
}

/// What holds the `top_n` best items is the list of them.
pub proof fn top_is_list<T>(items: Seq<T>, keys: Seq<Fraction>, top_n: nat, out: Seq<T>)
    requires
        is_top(items, keys, top_n, out),
    ensures
        out == top(items, keys, top_n),
{
    let other = top(items, keys, top_n);
    assert(is_top(items, keys, top_n, other));
    top_is_unique(items, keys, top_n, out, other);
}

/// Asking for fewer items gives a front part of what asking for more gives.
pub proof fn top_is_prefix<T>(items: Seq<T>, keys: Seq<Fraction>, fewer: nat, more: nat, short: Seq<T>, long: Seq<T>)
    requires
        fewer <= more,
        is_top(items, keys, fewer, short),
        is_top(items, keys, more, long),
    ensures
        short.len() <= long.len(),
        short == long.take(short.len() as int),
{
    let o1 = choose|order: Seq<usize>| #[trigger] is_order(keys, order) && short == pick(items, order, fewer);
    let o2 = choose|order: Seq<usize>| #[trigger] is_order(keys, order) && long == pick(items, order, more);
    order_is_unique(keys, o1, o2);
    assert(short =~= long.take(short.len() as int));
}

/// No more than `top_n` items come back, and all of them if there are no more.
pub proof fn top_length<T>(items: Seq<T>, keys: Seq<Fraction>, top_n: nat, out: Seq<T>)
    requires
        is_top(items, keys, top_n, out),
    ensures
        out.len() == if keys.len() <= top_n { keys.len() } else { top_n },
{
}

/// The best items: each one kept is an item, a key that comes later is never larger, and the
/// key of an item left out is not larger than one that was kept.
pub proof fn top_is_best<T>(items: Seq<T>, keys: Seq<Fraction>, top_n: nat, out: Seq<T>)
    requires
        is_top(items, keys, top_n, out),
        items.len() == keys.len(),
    ensures
        exists|at: Seq<usize>| {
            &&& #[trigger] at.no_duplicates()
            &&& at.len() == out.len()
            &&& forall|p: int| 0 <= p < at.len() ==> (#[trigger] at[p]) < items.len() && out[p] == items[at[p] as int]
            &&& forall|p: int, q: int| 0 <= p < q < at.len() ==> !keys[#[trigger] at[q] as int].above(keys[#[trigger] at[p] as int])
            &&& forall|i: usize, p: int|
                i < items.len() && !(#[trigger] at.contains(i)) && 0 <= p < at.len() ==> !keys[i as int].above(keys[#[trigger] at[p] as int])
        },
{
    let order = choose|order: Seq<usize>| #[trigger] is_order(keys, order) && out == pick(items, order, top_n);
    order_is_permutation(keys, order);
    let at = order.take(out.len() as int);
    assert forall|p: int, q: int| 0 <= p < q < at.len() implies !keys[#[trigger] at[q] as int].above(keys[#[trigger] at[p] as int]) by {
        assert(before(keys, order[p] as int, order[q] as int));
    }
    assert forall|i: usize, p: int|
        i < items.len() && !(#[trigger] at.contains(i)) && 0 <= p < at.len() implies !keys[i as int].above(keys[#[trigger] at[p] as int]) by {
        assert(order.contains(i));
        let q = choose|q: int| 0 <= q < order.len() && order[q] == i;
        if q < at.len() {
            assert(at[q] == i);
        }
        assert(before(keys, order[p] as int, order[q] as int));
    }
    assert(at.no_duplicates());
}

/// A key `a` of the item at `i` comes before a key `b` of the item at `j`: it is the larger
/// number, or they are equal and the item stands first.
pub open spec fn outranks(a: Fraction, i: int, b: Fraction, j: int) -> bool {
    ||| a.num * b.den > b.num * a.den
    ||| a.num * b.den == b.num * a.den && i < j
}

/// `best` lists the places of the `top_n` items that are wanted with the largest keys, the
/// largest first, and of equal ones the one that stands first.
pub open spec fn are_best(n: nat, wanted: spec_fn(int) -> bool, key: spec_fn(int) -> Fraction, top_n: nat, best: Seq<int>) -> bool {
    &&& best.len() <= top_n
    &&& forall|p: int| 0 <= p < best.len() ==> 0 <= (#[trigger] best[p]) < n && wanted(best[p])
    &&& forall|p: int, q: int|
        0 <= p < q < best.len() ==> outranks(key(#[trigger] best[p]), best[p], key(#[trigger] best[q]), best[q])
    &&& forall|i: int| 0 <= i < n && #[trigger] wanted(i) && !best.contains(i) ==> best.len() == top_n
    &&& forall|i: int, p: int|
        0 <= i < n && #[trigger] wanted(i) && !best.contains(i) && 0 <= p < best.len() ==> outranks(
            key(#[trigger] best[p]),
            best[p],
            key(i),
            i,
        )
}

/// The order of keys lists every place once, and each key comes before those that follow.
pub proof fn order_by_keys(keys: Seq<Fraction>, order: Seq<usize>)
    requires
        is_order(keys, order),
    ensures
        order.len() == keys.len(),
        forall|p: int| 0 <= p < order.len() ==> (#[trigger] order[p]) < keys.len(),
        forall|p: int, q: int|
            0 <= p < q < order.len() ==> outranks(
                keys[#[trigger] order[p] as int],
                order[p] as int,
                keys[#[trigger] order[q] as int],
                order[q] as int,
            ),
{
    assert forall|p: int, q: int| 0 <= p < q < order.len() implies outranks(
        keys[#[trigger] order[p] as int],
        order[p] as int,
        keys[#[trigger] order[q] as int],
        order[q] as int,
    ) by {
        assert(before(keys, order[p] as int, order[q] as int));
    }
}

/// Where items stand for the wanted places of a list, the top of the items are those of the best
/// places. `which` says where among the items each best place is.
pub proof fn top_of_places<T>(
    items: Seq<T>,
    keys: Seq<Fraction>,
    top_n: nat,
    out: Seq<T>,
    n: nat,
    wanted: spec_fn(int) -> bool,
    key: spec_fn(int) -> Fraction,
    at: Seq<int>,
) -> (best: (Seq<int>, Seq<int>))
    requires
        is_top(items, keys, top_n, out),
        are_places(n, wanted, at),
        items.len() == at.len(),
        keys.len() == at.len(),
        forall|k: int| 0 <= k < at.len() ==> #[trigger] keys[k] == key(at[k]),
    ensures
        are_best(n, wanted, key, top_n, best.0),
        best.0.len() == out.len(),
        best.1.len() == out.len(),
        forall|p: int|
            0 <= p < out.len() ==> 0 <= (#[trigger] best.1[p]) < at.len() && best.0[p] == at[best.1[p]] && out[p] == items[best.1[p]],
{
    let order = choose|order: Seq<usize>| #[trigger] is_order(keys, order) && out == pick(items, order, top_n);
    order_by_keys(keys, order);
    let which = Seq::new(out.len(), |p: int| order[p] as int);
    let best = Seq::new(out.len(), |p: int| at[order[p] as int]);
    assert forall|p: int, q: int| 0 <= p < q < best.len() implies outranks(
        key(#[trigger] best[p]),
        best[p],
        key(#[trigger] best[q]),
        best[q],
    ) by {
        let (a, b) = (order[p] as int, order[q] as int);
        assert(outranks(keys[order[p] as int], order[p] as int, keys[order[q] as int], order[q] as int));
        assert(keys[a] == key(at[a]) && keys[b] == key(at[b]));
        if a < b {
            assert(at[a] < at[b]);
        }
    }
    assert forall|i: int| 0 <= i < n && #[trigger] wanted(i) && !best.contains(i) implies best.len() == top_n && forall|p: int|
        0 <= p < best.len() ==> outranks(key(#[trigger] best[p]), best[p], key(i), i) by {
        assert(at.contains(i));
        let k = choose|k: int| 0 <= k < at.len() && at[k] == i;
        let q = order_finds(keys, order, k);
        if q < out.len() {
            assert(best[q] == i);
        }
        assert forall|p: int| 0 <= p < best.len() implies outranks(key(#[trigger] best[p]), best[p], key(i), i) by {
            let a = order[p] as int;
            assert(outranks(keys[order[p] as int], order[p] as int, keys[order[q] as int], order[q] as int));
            assert(keys[a] == key(at[a]) && keys[k] == key(at[k]));
            if a < k {
                assert(at[a] < at[k]);
            }
        }
    }
    assert forall|p: int| 0 <= p < best.len() implies 0 <= (#[trigger] best[p]) < n && wanted(best[p]) by {
        let a = at[order[p] as int];
    }
    (best, which)
}

/// A ratio stands for its two parts, and a whole number for itself.
pub proof fn ratio_views(r: Ratio, n: nat)
    ensures
        r@.num == r.num && r@.den == r.den,
        Fraction::whole(n).num == n && Fraction::whole(n).den == 1,
{
}

} // verus!
