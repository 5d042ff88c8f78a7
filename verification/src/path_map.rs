//! Maps and sets whose keys are paths, held in order so that a key is found by bisection.
use vstd::prelude::*;
use crate::bytes::{copy, copy_list, same, views};
use crate::order::{
    before, lemma_irreflexive, lemma_strictly_ascending, lemma_total, place, strictly_ascending,
    Order,
};
use crate::path::{is_under, under};

verus! {

/// A map from paths to values.
pub struct PathMap<V> {
    keys: Vec<Vec<u8>>,
    values: Vec<V>,
}

impl<V> View for PathMap<V> {
    type V = Map<Seq<u8>, V>;

    closed spec fn view(&self) -> Map<Seq<u8>, V> {
        map_of(views(self.keys@), self.values@)
    }
}

/// What ordered keys and the values beside them map.
spec fn map_of<V>(keys: Seq<Seq<u8>>, values: Seq<V>) -> Map<Seq<u8>, V> {
    Map::new(|k: Seq<u8>| keys.contains(k), |k: Seq<u8>| values[keys.index_of(k)])
}

spec fn ordered<V>(keys: Seq<Seq<u8>>, values: Seq<V>) -> bool {
    keys.len() == values.len() && strictly_ascending(Order::Bytes, keys)
}

proof fn lemma_index<V>(keys: Seq<Seq<u8>>, values: Seq<V>, i: int)
    requires
        ordered(keys, values),
        0 <= i < keys.len(),
    ensures
        keys.contains(keys[i]),
        keys.index_of(keys[i]) == i,
        map_of(keys, values).dom().contains(keys[i]),
        map_of(keys, values)[keys[i]] == values[i],
{
    assert(keys.contains(keys[i]));
    let j = keys.index_of(keys[i]);
    assert(0 <= j < keys.len() && keys[j] == keys[i]);
    if j < i {
        assert(before(Order::Bytes, keys[j], keys[i]));
        lemma_irreflexive(Order::Bytes, keys[i]);
    } else if i < j {
        assert(before(Order::Bytes, keys[i], keys[j]));
        lemma_irreflexive(Order::Bytes, keys[i]);
    }
}

impl<V> PathMap<V> {
    #[verifier::type_invariant]
    spec fn inv(self) -> bool {
        ordered(views(self.keys@), self.values@)
    }

    /// The map of nothing.
    pub fn new() -> (m: PathMap<V>)
        ensures
            m@ == Map::<Seq<u8>, V>::empty(),
    {
        let keys: Vec<Vec<u8>> = Vec::new();
        let values: Vec<V> = Vec::new();
        let m = PathMap { keys, values };
        assert(m@ =~= Map::<Seq<u8>, V>::empty());
        m
    }

    /// The keys, in order.
    pub fn keys(&self) -> (r: Vec<Vec<u8>>)
        ensures
            views(r@).to_set() == self@.dom(),
            strictly_ascending(Order::Bytes, views(r@)),
    {
        proof {
            use_type_invariant(self);
        }
        let r: Vec<Vec<u8>> = copy_list(&self.keys);
        assert(views(r@).to_set() =~= self@.dom());
        r
    }

    /// Where `key` stands, or would stand, and whether it does.
    fn find(&self, key: &[u8]) -> (r: (usize, bool))
        ensures
            r.0 <= self.keys@.len(),
            r.1 == views(self.keys@).contains(key@),
            r.1 ==> r.0 < self.keys@.len() && views(self.keys@)[r.0 as int] == key@,
            !r.1 ==> forall|j: int|
                0 <= j < r.0 ==> before(Order::Bytes, #[trigger] views(self.keys@)[j], key@),
            !r.1 ==> forall|j: int|
                r.0 <= j < self.keys@.len() ==> before(
                    Order::Bytes,
                    key@,
                    #[trigger] views(self.keys@)[j],
                ),
    {
        proof {
            use_type_invariant(self);
            lemma_strictly_ascending(Order::Bytes, views(self.keys@));
        }
        let at: usize = place(Order::Bytes, &self.keys, key);
        let ghost keys = views(self.keys@);
        if at < self.keys.len() && same(self.keys[at].as_slice(), key) {
            assert(keys[at as int] == key@);
            (at, true)
        } else {
            assert forall|j: int| 0 <= j < at implies before(
                Order::Bytes,
                #[trigger] keys[j],
                key@,
            ) by {
                assert(before(Order::Bytes, self.keys@[j]@, key@));
            }
            assert forall|j: int| at <= j < keys.len() implies before(
                Order::Bytes,
                key@,
                #[trigger] keys[j],
            ) by {
                assert(!before(Order::Bytes, self.keys@[j]@, key@));
                lemma_total(Order::Bytes, keys[j], key@);
                if keys[j] == key@ && j > at {
                    assert(before(Order::Bytes, keys[at as int], keys[j]));
                    assert(!before(Order::Bytes, self.keys@[at as int]@, key@));
                }
            }
            proof {
                if keys.contains(key@) {
                    let j = keys.index_of(key@);
                    lemma_irreflexive(Order::Bytes, key@);
                    assert(keys[j] == key@);
                }
            }
            (at, false)
        }
    }

    /// The value of `key`.
    pub fn get(&self, key: &[u8]) -> (r: Option<&V>)
        ensures
            r is Some <==> self@.dom().contains(key@),
            r matches Some(v) ==> *v == self@[key@],
    {
        proof {
            use_type_invariant(self);
        }
        let (at, found): (usize, bool) = self.find(key);
        if found {
            proof {
                lemma_index(views(self.keys@), self.values@, at as int);
            }
            Some(&self.values[at])
        } else {
            None
        }
    }

    /// Whether `key` has a value.
    pub fn contains(&self, key: &[u8]) -> (r: bool)
        ensures
            r == self@.dom().contains(key@),
    {
        self.find(key).1
    }

    /// Gives `key` a value, in place of the one that it may have.
    pub fn insert(&mut self, key: &[u8], value: V)
        ensures
            final(self)@ == old(self)@.insert(key@, value),
    {
        let (at, found): (usize, bool) = self.find(key);
        proof {
            use_type_invariant(&*self);
        }
        let ghost k0 = views(self.keys@);
        let ghost v0 = self.values@;
        let mut whole: PathMap<V> = PathMap::new();
        std::mem::swap(&mut whole, self);
        let PathMap { keys: mut keys, values: mut values } = whole;
        if found {
            values.set(at, value);
        } else {
            keys.insert(at, copy(key));
            values.insert(at, value);
        }
        proof {
            let k1 = views(keys@);
            let v1 = values@;
            if found {
                assert(k1 =~= k0);
                assert(v1 =~= v0.update(at as int, value));
            } else {
                assert(k1 =~= k0.insert(at as int, key@));
                assert(v1 =~= v0.insert(at as int, value));
                assert forall|i: int, j: int| 0 <= i < j < k1.len() implies before(
                    Order::Bytes,
                    #[trigger] k1[i],
                    #[trigger] k1[j],
                ) by {
                    let i0 = if i < at { i } else { i - 1 };
                    let j0 = if j < at { j } else { j - 1 };
                    if i != at {
                        assert(k1[i] == k0[i0]);
                    }
                    if j != at {
                        assert(k1[j] == k0[j0]);
                    }
                }
            }
            assert(ordered(k1, v1));
            let m0 = map_of(k0, v0);
            let m1 = map_of(k1, v1);
            assert(m1 =~= m0.insert(key@, value)) by {
                assert forall|k: Seq<u8>| m1.dom().contains(k) == (m0.dom().contains(k) || k
                    == key@) by {
                    if k1.contains(k) {
                        let i = k1.index_of(k);
                        assert(k1[i] == k);
                        if found || i < at {
                            assert(k0[i] == k);
                        } else if i > at {
                            assert(k0[i - 1] == k);
                        }
                    }
                    if k0.contains(k) {
                        let i = k0.index_of(k);
                        assert(k0[i] == k);
                        if found || i < at {
                            assert(k1[i] == k);
                        } else {
                            assert(k1[i + 1] == k);
                        }
                    }
                    assert(k1[at as int] == key@);
                }
                assert forall|k: Seq<u8>| m1.dom().contains(k) implies #[trigger] m1[k]
                    == m0.insert(key@, value)[k] by {
                    let i = k1.index_of(k);
                    assert(k1[i] == k);
                    lemma_index(k1, v1, i);
                    lemma_index(k1, v1, at as int);
                    if i != at {
                        let i0 = if found || i < at { i } else { i - 1 };
                        assert(k0[i0] == k);
                        lemma_index(k0, v0, i0);
                    }
                }
            }
        }
        *self = PathMap { keys, values };
    }
}

/// A set of paths.
pub struct PathSet {
    map: PathMap<()>,
}

impl View for PathSet {
    type V = Set<Seq<u8>>;

    closed spec fn view(&self) -> Set<Seq<u8>> {
        self.map@.dom()
    }
}

impl PathSet {
    /// The set of nothing.
    pub fn new() -> (s: PathSet)
        ensures
            s@ == Set::<Seq<u8>>::empty(),
    {
        PathSet { map: PathMap::new() }
    }

    /// Whether `path` is in the set.
    pub fn contains(&self, path: &[u8]) -> (r: bool)
        ensures
            r == self@.contains(path@),
    {
        self.map.contains(path)
    }

    /// Puts `path` in the set.
    pub fn insert(&mut self, path: &[u8])
        ensures
            final(self)@ == old(self)@.insert(path@),
    {
        self.map.insert(path, ());
        assert(self@ =~= old(self)@.insert(path@));
    }

    /// The paths of the set, in order.
    pub fn paths(&self) -> (r: Vec<Vec<u8>>)
        ensures
            views(r@).to_set() == self@,
            strictly_ascending(Order::Bytes, views(r@)),
    {
        self.map.keys()
    }

    /// Takes `dir` and all below it out of the set.
    pub fn remove_under(&mut self, dir: &[u8])
        ensures
            final(self)@ == old(self)@.filter(|p: Seq<u8>| !is_under(p, dir@)),
    {
        let paths: Vec<Vec<u8>> = self.map.keys();
        let mut kept: PathSet = PathSet::new();
        let ghost all = views(paths@);
        let mut i: usize = 0;
        while i < paths.len()
            invariant
                i <= paths@.len(),
                all == views(paths@),
                forall|p: Seq<u8>|
                    #![trigger kept@.contains(p)]
                    kept@.contains(p) <==> (exists|j: int| 0 <= j < i && all[j] == p)
                        && !is_under(p, dir@),
            decreases paths@.len() - i,
        {
            assert(all[i as int] == paths@[i as int]@);
            if !under(paths[i].as_slice(), dir) {
                kept.insert(paths[i].as_slice());
            }
            i += 1;
        }
        assert(kept@ =~= old(self)@.filter(|p: Seq<u8>| !is_under(p, dir@))) by {
            assert forall|p: Seq<u8>| kept@.contains(p) == (old(self)@.contains(p) && !is_under(
                p,
                dir@,
            )) by {
                assert(all.to_set().contains(p) <==> all.contains(p));
            }
        }
        *self = kept;
    }
}

} // verus!
