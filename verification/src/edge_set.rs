//! A set of edge keys: source, target and relation.
use vstd::hash_map::StringHashMap;
use vstd::prelude::*;

verus! {

/// What tells edges apart: source, target and relation.
pub struct KeyView {
    pub source: Seq<char>,
    pub target: Seq<char>,
    pub relation: Seq<char>,
}

/// A set of edge keys as a tree of three levels: `sources` leads to a map of targets in
/// `targets`, and that to a map of relations in `relations`.
pub struct EdgeSet {
    sources: StringHashMap<usize>,
    targets: Vec<StringHashMap<usize>>,
    relations: Vec<StringHashMap<bool>>,
}

impl View for EdgeSet {
    type V = Set<KeyView>;

    closed spec fn view(&self) -> Set<KeyView> {
        Set::new(|k: KeyView| self.holds(k))
    }
}

impl EdgeSet {
    spec fn pair(self, s: Seq<char>, t: Seq<char>) -> bool {
        self.sources@.contains_key(s) && self.targets@[self.sources@[s] as int]@.contains_key(t)
    }

    spec fn holds(self, k: KeyView) -> bool {
        self.pair(k.source, k.target)
            && self.relations@[self.targets@[self.sources@[k.source] as int]@[k.target] as int]@.contains_key(k.relation)
    }

    /// Every map is reached on one way only.
    pub closed spec fn wf(self) -> bool {
        &&& forall|s: Seq<char>| #[trigger] self.sources@.contains_key(s) ==> self.sources@[s] < self.targets@.len()
        &&& forall|s: Seq<char>, s2: Seq<char>|
            #[trigger] self.sources@.contains_key(s) && #[trigger] self.sources@.contains_key(s2) && self.sources@[s] == self.sources@[s2]
                ==> s == s2
        &&& forall|i: int, t: Seq<char>|
            0 <= i < self.targets@.len() && #[trigger] self.targets@[i]@.contains_key(t) ==> self.targets@[i]@[t] < self.relations@.len()
        &&& forall|i: int, t: Seq<char>, i2: int, t2: Seq<char>|
            0 <= i < self.targets@.len() && 0 <= i2 < self.targets@.len() && #[trigger] self.targets@[i]@.contains_key(t)
                && #[trigger] self.targets@[i2]@.contains_key(t2) && self.targets@[i]@[t] == self.targets@[i2]@[t2] ==> i == i2 && t == t2
    }

    /// The empty set.
    pub fn new() -> (s: EdgeSet)
        ensures
            s.wf(),
            s@ == Set::<KeyView>::empty(),
    {
        let s: EdgeSet = EdgeSet { sources: StringHashMap::new(), targets: Vec::new(), relations: Vec::new() };
        assert(s@ =~= Set::empty());
        s
    }

    /// Is the key in the set?
    pub fn contains(&self, source: &str, target: &str, relation: &str) -> (found: bool)
        requires
            self.wf(),
        ensures
            found == self@.contains(KeyView { source: source@, target: target@, relation: relation@ }),
    {
        match self.sources.get(source) {
            Some(i) => match self.targets[*i].get(target) {
                Some(j) => self.relations[*j].contains_key(relation),
                None => false,
            },
            None => false,
        }
    }

    /// Makes a place for the targets of a source.
    fn open_source(&mut self, source: &str) -> (i: usize)
        requires
            old(self).wf(),
        ensures
            final(self).wf(),
            final(self)@ == old(self)@,
            final(self).sources@.contains_key(source@),
            final(self).sources@[source@] == i,
    {
        match self.sources.get(source) {
            Some(i) => {
                return *i;
            },
            None => {},
        }
        let i: usize = self.targets.len();
        self.sources.insert(source.to_owned(), i);
        let none: StringHashMap<usize> = StringHashMap::new();
        self.targets.push(none);
        proof {
            assert forall|k: KeyView| self.holds(k) <==> old(self).holds(k) by {
                if k.source != source@ {
                    assert(self.sources@.contains_key(k.source) <==> old(self).sources@.contains_key(k.source));
                }
            }
            assert(self@ =~= old(self)@);
            assert forall|q: int, t: Seq<char>| 0 <= q < self.targets@.len() && #[trigger] self.targets@[q]@.contains_key(t) implies
                q < old(self).targets@.len() && old(self).targets@[q]@.contains_key(t) by {}
            assert forall|s: Seq<char>| #[trigger] self.sources@.contains_key(s) implies s == source@ || old(self).sources@.contains_key(s) by {}
        }
        i
    }

    /// Makes a place for the relations of a source and a target.
    fn open_pair(&mut self, source: &str, target: &str) -> (j: usize)
        requires
            old(self).wf(),
        ensures
            final(self).wf(),
            final(self)@ == old(self)@,
            final(self).pair(source@, target@),
            final(self).targets@[final(self).sources@[source@] as int]@[target@] == j,
    {
        let i: usize = self.open_source(source);
        let ghost mid = *self;
        match self.targets[i].get(target) {
            Some(j) => {
                return *j;
            },
            None => {},
        }
        let j: usize = self.relations.len();
        self.targets[i].insert(target.to_owned(), j);
        let none: StringHashMap<bool> = StringHashMap::new();
        self.relations.push(none);
        proof {
            assert forall|q: int, t: Seq<char>| 0 <= q < self.targets@.len() && #[trigger] self.targets@[q]@.contains_key(t) implies (q == i && t
                == target@) || (mid.targets@[q]@.contains_key(t) && self.targets@[q]@[t] == mid.targets@[q]@[t]) by {}
            assert forall|k: KeyView| self.holds(k) <==> mid.holds(k) by {
                if mid.sources@.contains_key(k.source) {
                    let q = mid.sources@[k.source] as int;
                    if mid.targets@[q]@.contains_key(k.target) {
                        assert(self.targets@[q]@.contains_key(k.target));
                    }
                    if self.targets@[q]@.contains_key(k.target) && !mid.targets@[q]@.contains_key(k.target) {
                        assert(q == i && k.target == target@);
                    }
                }
            }
            assert(self@ =~= mid@);
        }
        j
    }

    /// Puts a key into the set.
    pub fn insert(&mut self, source: &str, target: &str, relation: &str)
        requires
            old(self).wf(),
        ensures
            final(self).wf(),
            final(self)@ == old(self)@.insert(KeyView { source: source@, target: target@, relation: relation@ }),
    {
        let j: usize = self.open_pair(source, target);
        let ghost mid = *self;
        self.relations[j].insert(relation.to_owned(), true);
        proof {
            let key = KeyView { source: source@, target: target@, relation: relation@ };
            assert forall|k: KeyView| #[trigger] self.holds(k) <==> mid.holds(k) || k == key by {
                if mid.pair(k.source, k.target) && !(k.source == source@ && k.target == target@) {
                    let a = mid.sources@[k.source] as int;
                    let b = mid.sources@[source@] as int;
                    assert(mid.targets@[a]@.contains_key(k.target));
                    assert(mid.targets@[b]@.contains_key(target@));
                    assert(mid.targets@[a]@[k.target] != j);
                }
            }
            assert(self@ =~= mid@.insert(key));
        }
    }
}

} // verus!
