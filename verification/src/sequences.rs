//! Front parts of sequences, and facts about filtering them front to back.
use vstd::prelude::*;

verus! {

/// The first `n` of a sequence, or all if there are fewer.
pub open spec fn at_most<T>(s: Seq<T>, n: nat) -> Seq<T> {
    if s.len() <= n {
        s
    } else {
        s.take(n as int)
    }
}

/// What a sequence holds after one more item.
pub proof fn pushed_contains<T>(s: Seq<T>, x: T, y: T)
    ensures
        s.push(x).contains(y) <==> s.contains(y) || x == y,
{
    let t = s.push(x);
    if s.contains(y) {
        let i = choose|i: int| 0 <= i < s.len() && s[i] == y;
        assert(t[i] == y);
    }
    if x == y {
        assert(t[s.len() as int] == y);
    }
    if t.contains(y) {
        let i = choose|i: int| 0 <= i < t.len() && t[i] == y;
        if i < s.len() {
            assert(s[i] == y);
        }
    }
}

/// Filtering one item more of a sequence adds the item if it is wanted.
pub proof fn filter_next<T>(s: Seq<T>, wanted: spec_fn(T) -> bool, i: int)
    requires
        0 <= i < s.len(),
    ensures
        s.take(i + 1).filter(wanted) == if wanted(s[i]) {
            s.take(i).filter(wanted).push(s[i])
        } else {
            s.take(i).filter(wanted)
        },
{
    reveal(Seq::filter);
    assert(s.take(i + 1).drop_last() =~= s.take(i));
}

/// Filtering nothing leaves nothing.
pub proof fn filter_none<T>(s: Seq<T>, wanted: spec_fn(T) -> bool)
    ensures
        s.take(0).filter(wanted) == Seq::<T>::empty(),
{
    reveal(Seq::filter);
    assert(s.take(0) =~= Seq::empty());
}

/// What a filter lets through is in the sequence, and wanted.
pub proof fn filter_keeps<T>(s: Seq<T>, wanted: spec_fn(T) -> bool, x: T)
    requires
        s.filter(wanted).contains(x),
    ensures
        s.contains(x),
        wanted(x),
    decreases s.len(),
{
    reveal(Seq::filter);
    if s.len() > 0 {
        let front = s.drop_last();
        let k = choose|k: int| 0 <= k < s.filter(wanted).len() && s.filter(wanted)[k] == x;
        if k < front.filter(wanted).len() {
            assert(front.filter(wanted)[k] == x);
            filter_keeps(front, wanted, x);
            let j = choose|j: int| 0 <= j < front.len() && front[j] == x;
            assert(s[j] == x);
        } else {
            assert(s[s.len() - 1] == x);
        }
    }
}

/// What is in the sequence and wanted passes the filter.
pub proof fn filter_takes<T>(s: Seq<T>, wanted: spec_fn(T) -> bool, x: T)
    requires
        s.contains(x),
        wanted(x),
    ensures
        s.filter(wanted).contains(x),
    decreases s.len(),
{
    reveal(Seq::filter);
    let front = s.drop_last();
    let k = choose|k: int| 0 <= k < s.len() && s[k] == x;
    if k < front.len() {
        assert(front[k] == x);
        filter_takes(front, wanted, x);
        let j = choose|j: int| 0 <= j < front.filter(wanted).len() && front.filter(wanted)[j] == x;
        assert(s.filter(wanted)[j] == x);
    } else {
        assert(s.filter(wanted)[s.filter(wanted).len() - 1] == x);
    }
}

/// A filter of different items lets through different items.
pub proof fn filter_distinct<T>(s: Seq<T>, wanted: spec_fn(T) -> bool)
    requires
        s.no_duplicates(),
    ensures
        s.filter(wanted).no_duplicates(),
    decreases s.len(),
{
    reveal(Seq::filter);
    if s.len() > 0 {
        let front = s.drop_last();
        let kept = front.filter(wanted);
        assert forall|i: int, j: int| 0 <= i < front.len() && 0 <= j < front.len() && i != j implies front[i] != front[j] by {
            assert(s[i] != s[j]);
        }
        filter_distinct(front, wanted);
        assert forall|i: int| 0 <= i < kept.len() implies #[trigger] kept[i] != s.last() by {
            assert(kept.contains(kept[i]));
            filter_keeps(front, wanted, kept[i]);
            let j = choose|j: int| 0 <= j < front.len() && front[j] == kept[i];
            assert(s[j] != s[s.len() - 1]);
        }
    }
}

/// Each item of the sequence comes before all that stand behind it.
pub open spec fn is_ordered<T>(s: Seq<T>, before: spec_fn(T, T) -> bool) -> bool {
    forall|i: int, j: int| 0 <= i < j < s.len() ==> before(#[trigger] s[i], #[trigger] s[j])
}

/// Items that come before one another in one way only have only one order.
pub proof fn ordered_is_unique<T>(one: Seq<T>, other: Seq<T>, before: spec_fn(T, T) -> bool)
    requires
        is_ordered(one, before),
        is_ordered(other, before),
        forall|x: T, y: T| #[trigger] before(x, y) ==> !before(y, x),
        forall|x: T| #[trigger] one.contains(x) <==> other.contains(x),
    ensures
        one == other,
{
    ordered_agree(one, other, before, one.len());
    ordered_agree(other, one, before, other.len());
    assert(one =~= other);
}

proof fn ordered_agree<T>(one: Seq<T>, other: Seq<T>, before: spec_fn(T, T) -> bool, n: nat)
    requires
        is_ordered(one, before),
        is_ordered(other, before),
        forall|x: T, y: T| #[trigger] before(x, y) ==> !before(y, x),
        forall|x: T| #[trigger] one.contains(x) <==> other.contains(x),
        n <= one.len(),
    ensures
        n <= other.len(),
        forall|i: int| 0 <= i < n ==> one[i] == other[i],
    decreases n,
{
    if n > 0 {
        let m = n - 1;
        ordered_agree(one, other, before, m as nat);
        assert(one.contains(one[m]));
        let q = choose|q: int| 0 <= q < other.len() && other[q] == one[m];
        if q < m {
            assert(before(one[q], one[m]));
        }
        if q > m {
            assert(other.contains(other[m]));
            assert(one.contains(other[m]));
            let r = choose|r: int| 0 <= r < one.len() && one[r] == other[m];
            assert(before(other[m], other[q]));
            if r < m {
                assert(before(other[r], other[m]));
            }
            if r > m {
                assert(before(one[m], one[r]));
            }
        }
    }
}

/// `at` lists in ascending order the places below `n` that are wanted, and no others.
pub open spec fn are_places(n: nat, wanted: spec_fn(int) -> bool, at: Seq<int>) -> bool {
    &&& forall|j: int, k: int| 0 <= j < k < at.len() ==> (#[trigger] at[j]) < (#[trigger] at[k])
    &&& forall|k: int| 0 <= k < at.len() ==> 0 <= (#[trigger] at[k]) < n && wanted(at[k])
    &&& forall|i: int| 0 <= i < n && #[trigger] wanted(i) ==> at.contains(i)
}

/// There is one list of the places that are wanted.
pub proof fn places_are_unique(n: nat, wanted: spec_fn(int) -> bool, one: Seq<int>, other: Seq<int>)
    requires
        are_places(n, wanted, one),
        are_places(n, wanted, other),
    ensures
        one == other,
{
    let before = |a: int, b: int| a < b;
    assert forall|x: int| #[trigger] one.contains(x) <==> other.contains(x) by {
        if one.contains(x) {
            let k = choose|k: int| 0 <= k < one.len() && one[k] == x;
            assert(wanted(one[k]));
        }
        if other.contains(x) {
            let k = choose|k: int| 0 <= k < other.len() && other[k] == x;
            assert(wanted(other[k]));
        }
    }
    ordered_is_unique(one, other, before);
}

/// What a filter lets through are the items at the places that are wanted.
pub proof fn filter_places<T>(s: Seq<T>, wanted: spec_fn(T) -> bool, places: spec_fn(int) -> bool) -> (at: Seq<int>)
    requires
        forall|i: int| 0 <= i < s.len() ==> (#[trigger] places(i) <==> wanted(s[i])),
    ensures
        are_places(s.len(), places, at),
        s.filter(wanted).len() == at.len(),
        forall|k: int| 0 <= k < at.len() ==> s.filter(wanted)[k] == s[#[trigger] at[k]],
    decreases s.len(),
{
    reveal(Seq::filter);
    if s.len() == 0 {
        Seq::empty()
    } else {
        let last = s.len() - 1;
        let front = s.drop_last();
        assert forall|i: int| 0 <= i < front.len() implies (#[trigger] places(i) <==> wanted(front[i])) by {
            assert(front[i] == s[i]);
        }
        let before = filter_places(front, wanted, places);
        assert(places(last) <==> wanted(s[last]));
        if wanted(s.last()) {
            let at = before.push(last);
            assert forall|i: int| 0 <= i < s.len() && #[trigger] places(i) implies at.contains(i) by {
                if i < last {
                    assert(before.contains(i));
                    let k = choose|k: int| 0 <= k < before.len() && before[k] == i;
                    assert(at[k] == i);
                } else {
                    assert(at[before.len() as int] == i);
                }
            }
            at
        } else {
            before
        }
    }
}

/// A front part has as many items as were asked for, or all, and they are those in front.
pub proof fn front_part<T>(s: Seq<T>, n: nat)
    ensures
        at_most(s, n).len() == if s.len() < n { s.len() } else { n },
        forall|i: int| 0 <= i < at_most(s, n).len() ==> #[trigger] at_most(s, n)[i] == s[i],
{
}

} // verus!
