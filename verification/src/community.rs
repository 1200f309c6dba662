//! Communities: groups of node ids, each under a number.
use std::collections::HashMap;

use vstd::hash_map::StringHashMap;
use vstd::prelude::*;

use crate::ranking::{descending_order, is_order, order_is_permutation, Ratio};
use crate::sequences::ordered_is_unique;
use crate::terms::{belongs_to, has_member};
use crate::text::texts;

verus! {

broadcast use vstd::std_specs::hash::group_hash_axioms;

/// The community `c` lists the node `id`.
pub open spec fn lists_node(communities: Map<usize, Vec<String>>, c: usize, id: Seq<char>) -> bool {
    communities.contains_key(c) && texts(communities[c]@).contains(id)
}

/// `c` is the largest number of a community that lists the node `id`.
pub open spec fn is_community_of(communities: Map<usize, Vec<String>>, id: Seq<char>, c: usize) -> bool {
    &&& lists_node(communities, c, id)
    &&& forall|d: usize| #[trigger] lists_node(communities, d, id) ==> d <= c
}

/// The community of the node `id`; of several that list it, the one with the largest number.
pub open spec fn community_of(communities: Map<usize, Vec<String>>, id: Seq<char>) -> Option<usize> {
    if exists|c: usize| #[trigger] lists_node(communities, c, id) {
        Some(choose|c: usize| is_community_of(communities, id, c))
    } else {
        None
    }
}

/// A node has only one community.
pub proof fn community_is_unique(communities: Map<usize, Vec<String>>, id: Seq<char>, c: usize)
    requires
        is_community_of(communities, id, c),
    ensures
        community_of(communities, id) == Some(c),
{
    assert(lists_node(communities, c, id));
    let d = choose|d: usize| is_community_of(communities, id, d);
    assert(is_community_of(communities, id, d));
    assert(lists_node(communities, d, id));
}

/// `keys` lists the members of `s`, the smallest first.
pub open spec fn is_ascending(s: Set<usize>, keys: Seq<usize>) -> bool {
    &&& forall|i: int, j: int| 0 <= i < j < keys.len() ==> (#[trigger] keys[i]) < (#[trigger] keys[j])
    &&& forall|k: usize| #[trigger] keys.contains(k) <==> s.contains(k)
}

/// The members of `s`, the smallest first.
pub open spec fn ascending(s: Set<usize>) -> Seq<usize> {
    choose|keys: Seq<usize>| is_ascending(s, keys)
}

/// A set has only one ascending list.
pub proof fn ascending_is_unique(s: Set<usize>, keys: Seq<usize>)
    requires
        is_ascending(s, keys),
    ensures
        ascending(s) == keys,
{
    let other = ascending(s);
    assert(is_ascending(s, other));
    let before = |a: usize, b: usize| a < b;
    ordered_is_unique(other, keys, before);
}

/// The numbers in ascending order.
pub fn sort_ascending(numbers: &Vec<usize>) -> (sorted: Vec<usize>)
    requires
        numbers@.no_duplicates(),
    ensures
        is_ascending(numbers@.to_set(), sorted@),
        sorted@ == ascending(numbers@.to_set()),
{
    let mut keys: Vec<Ratio> = Vec::new();
    let mut i: usize = 0;
    while i < numbers.len()
        invariant
            i <= numbers@.len(),
            keys@.len() == i,
            forall|k: int| 0 <= k < i ==> (#[trigger] keys@[k]) == (Ratio { num: numbers@[k] as u128, den: 1 }),
        decreases numbers@.len() - i,
    {
        keys.push(Ratio { num: numbers[i] as u128, den: 1 });
        i += 1;
    }
    let order: Vec<usize> = descending_order(&keys);
    let ghost fs = crate::ranking::fractions(keys@);
    let mut sorted: Vec<usize> = Vec::new();
    let mut left: usize = order.len();
    while left > 0
        invariant
            is_order(fs, order@),
            fs.len() == numbers@.len(),
            left <= order@.len(),
            sorted@.len() == order@.len() - left,
            forall|k: int| 0 <= k < sorted@.len() ==> (#[trigger] sorted@[k]) == numbers@[order@[order@.len() - 1 - k] as int],
        decreases left,
    {
        left -= 1;
        sorted.push(numbers[order[left]]);
    }
    proof {
        let n = order@.len() as int;
        order_is_permutation(fs, order@);
        assert forall|a: int, b: int| 0 <= a < b < sorted@.len() implies (#[trigger] sorted@[a]) < (#[trigger] sorted@[b]) by {
            let p = n - 1 - b;
            let q = n - 1 - a;
            let x = order@[p] as int;
            let y = order@[q] as int;
            assert(crate::ranking::before(fs, order@[p] as int, order@[q] as int));
            assert(fs[x] == (crate::ranking::Fraction { num: numbers@[x] as nat, den: 1 }));
            assert(fs[y] == (crate::ranking::Fraction { num: numbers@[y] as nat, den: 1 }));
            assert(numbers@[x] != numbers@[y]);
            assert(numbers@[x] * 1 >= numbers@[y] * 1);
        }
        assert forall|k: usize| #[trigger] sorted@.contains(k) <==> numbers@.to_set().contains(k) by {
            if sorted@.contains(k) {
                let i = choose|i: int| 0 <= i < sorted@.len() && sorted@[i] == k;
                assert(numbers@.contains(numbers@[order@[n - 1 - i] as int]));
            }
            if numbers@.contains(k) {
                let i = choose|i: int| 0 <= i < numbers@.len() && numbers@[i] == k;
                assert(order@.contains(i as usize));
                let p = choose|p: int| 0 <= p < order@.len() && order@[p] == i as usize;
                assert(sorted@[n - 1 - p] == k);
            }
        }
        ascending_is_unique(numbers@.to_set(), sorted@);
    }
    sorted
}

/// The numbers of the communities in ascending order.
pub fn community_numbers(communities: &HashMap<usize, Vec<String>>) -> (numbers: Vec<usize>)
    ensures
        is_ascending(communities@.dom(), numbers@),
        numbers@ == ascending(communities@.dom()),
{
    let mut numbers: Vec<usize> = Vec::new();
    let ghost all = vstd::std_specs::iter::IteratorSpec::remaining(&vstd::std_specs::hash::spec_keys_iter(communities)).unref();
    for k in it: communities.keys()
        invariant
            it.seq().unref() == all,
            numbers@ == all.take(it.index() as int),
    {
        numbers.push(*k);
    }
    assert(numbers@ =~= all);
    sort_ascending(&numbers)
}

/// `index` holds for each node that some community lists its community.
pub open spec fn is_index(communities: Map<usize, Vec<String>>, index: Map<Seq<char>, usize>) -> bool {
    &&& forall|id: Seq<char>| #[trigger] index.contains_key(id) <==> community_of(communities, id) is Some
    &&& forall|id: Seq<char>| #[trigger] index.contains_key(id) ==> community_of(communities, id) == Some(index[id])
}

/// The community of the node `id`, from the index.
pub(crate) fn look_up(index: &StringHashMap<usize>, id: &str, Ghost(communities): Ghost<Map<usize, Vec<String>>>) -> (c: Option<usize>)
    requires
        is_index(communities, index@),
    ensures
        c == community_of(communities, id@),
{
    assert(index@.contains_key(id@) <==> community_of(communities, id@) is Some);
    match index.get(id) {
        Some(c) => Some(*c),
        None => None,
    }
}

/// For each node that some community lists, its community.
pub fn community_index(communities: &HashMap<usize, Vec<String>>) -> (index: StringHashMap<usize>)
    ensures
        is_index(communities@, index@),
{
    let numbers: Vec<usize> = community_numbers(communities);
    let mut index: StringHashMap<usize> = StringHashMap::new();
    let mut i: usize = 0;
    while i < numbers.len()
        invariant
            is_ascending(communities@.dom(), numbers@),
            i <= numbers@.len(),
            forall|id: Seq<char>| #[trigger] index@.contains_key(id) ==> lists_node(communities@, index@[id], id),
            forall|id: Seq<char>, k: int|
                0 <= k < i && #[trigger] lists_node(communities@, numbers@[k], id) ==> index@.contains_key(id) && numbers@[k] <= index@[id],
            forall|id: Seq<char>| #[trigger] index@.contains_key(id) ==> i > 0 && index@[id] <= numbers@[i - 1],
        decreases numbers@.len() - i,
    {
        let c: usize = numbers[i];
        assert(numbers@.contains(c));
        assert(communities@.contains_key(c));
        let ghost done = index@;
        match communities.get(&c) {
            Some(ids) => {
                let mut j: usize = 0;
                while j < ids.len()
                    invariant
                        communities@.contains_key(c),
                        *ids == communities@[c],
                        j <= ids@.len(),
                        forall|id: Seq<char>| #[trigger] index@.contains_key(id) <==> done.contains_key(id) || texts(ids@).take(j as int).contains(id),
                        forall|id: Seq<char>| #[trigger] index@.contains_key(id) ==> index@[id] == if texts(ids@).take(j as int).contains(id) {
                            c
                        } else {
                            done[id]
                        },
                    decreases ids@.len() - j,
                {
                    let ghost before = index@;
                    index.insert(ids[j].clone(), c);
                    proof {
                        let front = texts(ids@).take(j as int);
                        let next = texts(ids@).take(j + 1);
                        assert(next =~= front.push(ids@[j as int]@));
                        assert forall|id: Seq<char>| #[trigger] next.contains(id) <==> front.contains(id) || id == ids@[j as int]@ by {
                            if front.contains(id) {
                                let k = choose|k: int| 0 <= k < front.len() && front[k] == id;
                                assert(next[k] == id);
                            }
                            assert(next[j as int] == ids@[j as int]@);
                            if next.contains(id) {
                                let k = choose|k: int| 0 <= k < next.len() && next[k] == id;
                                if k < j {
                                    assert(front[k] == id);
                                }
                            }
                        }
                    }
                    j += 1;
                }
                assert(texts(ids@).take(j as int) =~= texts(ids@));
                assert(forall|id: Seq<char>| #[trigger] index@.contains_key(id) <==> done.contains_key(id) || lists_node(communities@, c, id));
                assert forall|id: Seq<char>| #[trigger] lists_node(communities@, c, id) implies index@[id] == c by {
                    assert(index@.contains_key(id));
                }
                assert(forall|id: Seq<char>| #[trigger] index@.contains_key(id) && !lists_node(communities@, c, id) ==> index@[id] == done[id]);
            },
            None => {
                assert(false);
            },
        }
        proof {
            assert forall|id: Seq<char>| #[trigger] index@.contains_key(id) implies lists_node(communities@, index@[id], id) by {}
            assert forall|id: Seq<char>, k: int|
                0 <= k < i + 1 && #[trigger] lists_node(communities@, numbers@[k], id) implies index@.contains_key(id) && numbers@[k] <= index@[id] by {
                assert(index@.contains_key(id));
                if k < i {
                    assert(done.contains_key(id));
                    assert(numbers@[k] < numbers@[i as int]);
                }
            }
            assert forall|id: Seq<char>| #[trigger] index@.contains_key(id) implies index@[id] <= numbers@[i as int] by {
                if i > 0 {
                    assert(numbers@[i - 1] < numbers@[i as int]);
                }
            }
        }
        i += 1;
    }
    proof {
        assert forall|id: Seq<char>, d: usize| #[trigger] lists_node(communities@, d, id) implies index@.contains_key(id) && d <= index@[id] by {
            assert(communities@.dom().contains(d));
            assert(numbers@.contains(d));
            let k = choose|k: int| 0 <= k < numbers@.len() && numbers@[k] == d;
            assert(lists_node(communities@, numbers@[k], id));
        }
        assert forall|id: Seq<char>| #[trigger] index@.contains_key(id) implies community_of(communities@, id) == Some(index@[id]) by {
            assert(is_community_of(communities@, id, index@[id]));
            community_is_unique(communities@, id, index@[id]);
        }
        assert forall|id: Seq<char>| community_of(communities@, id) is Some implies #[trigger] index@.contains_key(id) by {
            let c = choose|c: usize| #[trigger] lists_node(communities@, c, id);
            assert(lists_node(communities@, c, id));
        }
    }
    index
}

/// The members of every set can be listed in ascending order.
pub proof fn ascending_lists_all(s: Set<usize>)
    ensures
        is_ascending(s, ascending(s)),
{
    let keys = list_below(s, (usize::MAX + 1) as nat);
    assert(is_ascending(s, keys));
}

proof fn list_below(s: Set<usize>, n: nat) -> (keys: Seq<usize>)
    requires
        forall|x: usize| #[trigger] s.contains(x) ==> x < n,
    ensures
        is_ascending(s, keys),
    decreases n,
{
    if n == 0 {
        Seq::empty()
    } else {
        let m = (n - 1) as nat;
        let t = Set::new(|x: usize| s.contains(x) && x < m);
        let front = list_below(t, m);
        if m <= usize::MAX && s.contains(m as usize) {
            let keys = front.push(m as usize);
            assert forall|i: int| 0 <= i < front.len() implies #[trigger] front[i] < m by {
                assert(front.contains(front[i]));
            }
            assert forall|k: usize| #[trigger] keys.contains(k) <==> s.contains(k) by {
                if keys.contains(k) {
                    let i = choose|i: int| 0 <= i < keys.len() && keys[i] == k;
                    if i < front.len() {
                        assert(front.contains(k));
                    }
                }
                if s.contains(k) {
                    if k == m {
                        assert(keys[front.len() as int] == k);
                    } else {
                        assert(t.contains(k));
                        assert(front.contains(k));
                        let i = choose|i: int| 0 <= i < front.len() && front[i] == k;
                        assert(keys[i] == k);
                    }
                }
            }
            keys
        } else {
            assert forall|k: usize| #[trigger] front.contains(k) <==> s.contains(k) by {
                assert(t.contains(k) <==> s.contains(k));
            }
            front
        }
    }
}

/// The community of a node lists it.
pub proof fn community_is_listed(communities: Map<usize, Vec<String>>, id: Seq<char>)
    requires
        community_of(communities, id) is Some,
    ensures
        is_community_of(communities, id, community_of(communities, id)->0),
{
    let c = choose|c: usize| #[trigger] lists_node(communities, c, id);
    let listing = Set::new(|d: usize| lists_node(communities, d, id));
    let keys = ascending(listing);
    ascending_lists_all(listing);
    assert(listing.contains(c));
    assert(keys.contains(c));
    let top = keys.last();
    assert(keys.contains(top));
    assert(listing.contains(top));
    assert forall|d: usize| #[trigger] lists_node(communities, d, id) implies d <= top by {
        assert(listing.contains(d));
        assert(keys.contains(d));
        let i = choose|i: int| 0 <= i < keys.len() && keys[i] == d;
        if i < keys.len() - 1 {
            assert(keys[i] < keys[keys.len() - 1]);
        }
    }
    assert(is_community_of(communities, id, top));
}

/// The community of a node is the one with the largest number of those that list it; a node that
/// no community lists has none.
pub proof fn community_by_members(communities: Map<usize, Vec<String>>, id: Seq<char>)
    ensures
        forall|c: usize| community_of(communities, id) == Some(c) <==> #[trigger] belongs_to(communities, id, c),
        community_of(communities, id) is None <==> forall|c: usize| !#[trigger] has_member(communities, c, id),
{
    assert forall|c: usize| #[trigger] has_member(communities, c, id) <==> lists_node(communities, c, id) by {
        if communities.contains_key(c) {
            let ids = communities[c]@;
            if lists_node(communities, c, id) {
                let k = choose|k: int| 0 <= k < texts(ids).len() && texts(ids)[k] == id;
                assert(ids[k]@ == id);
            }
            if has_member(communities, c, id) {
                let k = choose|k: int| 0 <= k < ids.len() && (#[trigger] ids[k])@ == id;
                assert(texts(ids)[k] == id);
            }
        }
    }
    assert forall|c: usize| community_of(communities, id) == Some(c) <==> #[trigger] belongs_to(communities, id, c) by {
        if community_of(communities, id) == Some(c) {
            community_is_listed(communities, id);
            assert(lists_node(communities, c, id));
            assert forall|d: usize| #[trigger] has_member(communities, d, id) implies d <= c by {
                assert(lists_node(communities, d, id));
            }
        }
        if belongs_to(communities, id, c) {
            assert(has_member(communities, c, id));
            assert forall|d: usize| #[trigger] lists_node(communities, d, id) implies d <= c by {
                assert(has_member(communities, d, id));
            }
            assert(is_community_of(communities, id, c));
            community_is_unique(communities, id, c);
        }
    }
    if community_of(communities, id) is None {
        assert forall|c: usize| !#[trigger] has_member(communities, c, id) by {
            if has_member(communities, c, id) {
                assert(lists_node(communities, c, id));
            }
        }
    }
    if forall|c: usize| !#[trigger] has_member(communities, c, id) {
        assert forall|c: usize| !#[trigger] lists_node(communities, c, id) by {
            assert(!has_member(communities, c, id));
        }
    }
}

/// The ascending list of a set is sorted and has the members of the set.
pub proof fn ascending_in_order(s: Set<usize>)
    ensures
        forall|i: int, j: int| 0 <= i < j < ascending(s).len() ==> (#[trigger] ascending(s)[i]) < (#[trigger] ascending(s)[j]),
        forall|k: usize| s.contains(k) <==> exists|i: int| 0 <= i < ascending(s).len() && #[trigger] ascending(s)[i] == k,
        forall|keys: Seq<usize>| #[trigger] is_ascending(s, keys) ==> keys == ascending(s),
{
    ascending_lists_all(s);
    let keys = ascending(s);
    assert forall|k: usize| s.contains(k) <==> exists|i: int| 0 <= i < keys.len() && #[trigger] keys[i] == k by {
        assert(keys.contains(k) <==> s.contains(k));
        if exists|i: int| 0 <= i < keys.len() && #[trigger] keys[i] == k {
            let i = choose|i: int| 0 <= i < keys.len() && #[trigger] keys[i] == k;
            assert(keys.contains(keys[i]));
        }
    }
    assert forall|other: Seq<usize>| #[trigger] is_ascending(s, other) implies other == keys by {
        ascending_is_unique(s, other);
    }
}

/// An index of communities leads from each node to the community that it belongs to, and knows no
/// other nodes.
pub proof fn index_by_members(communities: Map<usize, Vec<String>>, index: Map<Seq<char>, usize>, id: Seq<char>)
    requires
        is_index(communities, index),
    ensures
        index.contains_key(id) <==> exists|c: usize| #[trigger] has_member(communities, c, id),
        index.contains_key(id) ==> belongs_to(communities, id, index[id]),
{
    community_by_members(communities, id);
    assert(index.contains_key(id) <==> community_of(communities, id) is Some);
    if index.contains_key(id) {
        assert(belongs_to(communities, id, index[id]));
        assert(has_member(communities, index[id], id));
    }
}

} // verus!
