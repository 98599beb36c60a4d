//! Sets of names, and maps from names to values that keep the order in which
//! their keys came.
use vstd::hash_map::StringHashMap;
use vstd::hash_set::StringHashSet;
use vstd::prelude::*;

use crate::text::views;

verus! {

/// A set of names.
pub struct NameSet {
    names: StringHashSet,
}

impl View for NameSet {
    type V = Set<Seq<char>>;

    closed spec fn view(&self) -> Set<Seq<char>> {
        self.names@
    }
}

impl NameSet {
    pub fn new() -> (r: Self)
        ensures
            r@ == Set::<Seq<char>>::empty(),
    {
        NameSet { names: StringHashSet::new() }
    }

    /// The set of the names in a list.
    pub fn from_list(list: &Vec<String>) -> (r: Self)
        ensures
            r@ == views(list@).to_set(),
    {
        let mut r: NameSet = NameSet::new();
        let mut i: usize = 0;
        while i < list.len()
            invariant
                i <= list@.len(),
                forall|x: Seq<char>|
                    r@.contains(x) <==> exists|k: int| 0 <= k < i && #[trigger] list@[k]@ == x,
            decreases list@.len() - i,
        {
            let ghost before = r@;
            r.insert(list[i].clone());
            proof {
                assert forall|x: Seq<char>|
                    r@.contains(x) <==> exists|k: int| 0 <= k < i + 1 && #[trigger] list@[k]@ == x by {
                    if r@.contains(x) && !before.contains(x) {
                        assert(list@[i as int]@ == x);
                    }
                }
            }
            i += 1;
        }
        proof {
            let v = views(list@);
            assert forall|x: Seq<char>| r@.contains(x) <==> v.to_set().contains(x) by {
                if v.contains(x) {
                    let k = v.index_of(x);
                    assert(list@[k]@ == x);
                }
                if r@.contains(x) {
                    let k = choose|k: int| 0 <= k < i && #[trigger] list@[k]@ == x;
                    assert(v[k] == x);
                }
            }
            assert(r@ =~= v.to_set());
        }
        r
    }

    /// Adds a name. Says whether it was not in the set before.
    pub fn insert(&mut self, name: String) -> (r: bool)
        ensures
            final(self)@ == old(self)@.insert(name@),
            r == !old(self)@.contains(name@),
    {
        self.names.insert(name)
    }

    pub fn contains(&self, name: &str) -> (r: bool)
        ensures
            r == self@.contains(name@),
    {
        self.names.contains(name)
    }
}

/// A map from names to values that keeps the order in which its keys came.
#[verifier::reject_recursive_types(V)]
pub struct Table<V> {
    keys: Vec<String>,
    values: Vec<V>,
    places: StringHashMap<usize>,
}

impl<V> Table<V> {
    /// The keys, in the order in which they came.
    pub closed spec fn key_list(&self) -> Seq<Seq<char>> {
        views(self.keys@)
    }

    /// The values, in the order of their keys.
    pub closed spec fn value_list(&self) -> Seq<V> {
        self.values@
    }

    /// Each key stands once, and is found at its place.
    pub closed spec fn wf(&self) -> bool {
        &&& self.keys@.len() == self.values@.len()
        &&& self.key_list().no_duplicates()
        &&& forall|i: int| #![trigger self.keys@[i]]
            0 <= i < self.keys@.len() ==> self.places@.contains_key(self.keys@[i]@)
                && self.places@[self.keys@[i]@] == i
        &&& forall|k: Seq<char>| #[trigger]
            self.places@.contains_key(k) ==> self.places@[k] < self.keys@.len()
                && self.keys@[self.places@[k] as int]@ == k
    }

    pub open spec fn has(&self, key: Seq<char>) -> bool {
        self.key_list().contains(key)
    }

    /// The value of a key.
    pub open spec fn at(&self, key: Seq<char>) -> V {
        self.value_list()[self.key_list().index_of(key)]
    }

    /// The table as a map.
    pub open spec fn map(&self) -> Map<Seq<char>, V> {
        Map::new(|k: Seq<char>| self.has(k), |k: Seq<char>| self.at(k))
    }

    /// What a well-formed table keeps.
    pub proof fn lemma_wf(&self)
        requires
            self.wf(),
        ensures
            self.key_list().len() == self.value_list().len(),
            self.key_list().no_duplicates(),
            self.key_list().len() <= usize::MAX,
    {
        assert(self.keys.len() == self.keys@.len());
    }

    /// Changing the value at a place changes the value of its key alone.
    pub proof fn lemma_update(before: &Table<V>, after: &Table<V>, i: int)
        requires
            before.wf(),
            0 <= i < before.key_list().len(),
            after.key_list() == before.key_list(),
            after.value_list().len() == before.value_list().len(),
            forall|j: int|
                0 <= j < before.value_list().len() && j != i ==> after.value_list()[j]
                    == before.value_list()[j],
        ensures
            forall|k: Seq<char>| #[trigger] after.has(k) <==> before.has(k),
            forall|k: Seq<char>|
                before.has(k) && k != before.key_list()[i] ==> #[trigger] after.at(k) == before.at(
                    k,
                ),
            before.has(before.key_list()[i]),
            before.at(before.key_list()[i]) == before.value_list()[i],
            after.at(before.key_list()[i]) == after.value_list()[i],
    {
        let keys = before.key_list();
        assert(keys.contains(keys[i]));
        assert(keys.index_of(keys[i]) == i);
        assert forall|k: Seq<char>| before.has(k) && k != keys[i] implies #[trigger] after.at(k)
            == before.at(k) by {
            assert(keys[keys.index_of(k)] == k);
        }
    }

    pub fn new() -> (r: Self)
        ensures
            r.wf(),
            r.key_list() == Seq::<Seq<char>>::empty(),
            r.value_list() == Seq::<V>::empty(),
    {
        let r: Table<V> = Table {
            keys: Vec::new(),
            values: Vec::new(),
            places: StringHashMap::new(),
        };
        proof {
            assert(r.key_list() =~= Seq::<Seq<char>>::empty());
        }
        r
    }

    pub fn len(&self) -> (r: usize)
        requires
            self.wf(),
        ensures
            r == self.key_list().len(),
    {
        self.keys.len()
    }

    /// The key at a place.
    pub fn key(&self, i: usize) -> (r: &String)
        requires
            self.wf(),
            i < self.key_list().len(),
        ensures
            r@ == self.key_list()[i as int],
    {
        &self.keys[i]
    }

    /// The value at a place.
    pub fn value(&self, i: usize) -> (r: &V)
        requires
            self.wf(),
            i < self.key_list().len(),
        ensures
            *r == self.value_list()[i as int],
    {
        &self.values[i]
    }

    /// The value at a place, to change it.
    pub fn value_mut(&mut self, i: usize) -> (r: &mut V)
        requires
            old(self).wf(),
            i < old(self).key_list().len(),
        ensures
            *r == old(self).value_list()[i as int],
            final(self).wf(),
            final(self).key_list() == old(self).key_list(),
            final(self).value_list() == old(self).value_list().update(i as int, *final(r)),
    {
        &mut self.values[i]
    }

    /// The place of a key.
    pub fn place(&self, key: &str) -> (r: Option<usize>)
        requires
            self.wf(),
        ensures
            match r {
                Some(i) => self.has(key@) && i < self.key_list().len() && self.key_list()[i as int]
                    == key@ && i == self.key_list().index_of(key@) && self.value_list()[i as int]
                    == self.at(key@),
                None => !self.has(key@),
            },
    {
        match self.places.get(key) {
            Some(i) => {
                proof {
                    let v = self.key_list();
                    assert(v[*i as int] == key@);
                    assert(v.contains(key@));
                    assert(v[v.index_of(key@)] == key@);
                }
                Some(*i)
            },
            None => {
                proof {
                    if self.has(key@) {
                        let k = self.key_list().index_of(key@);
                        assert(self.keys@[k]@ == key@);
                    }
                }
                None
            },
        }
    }

    pub fn contains(&self, key: &str) -> (r: bool)
        requires
            self.wf(),
        ensures
            r == self.has(key@),
    {
        self.place(key).is_some()
    }

    /// The value of a key.
    pub fn get(&self, key: &str) -> (r: Option<&V>)
        requires
            self.wf(),
        ensures
            match r {
                Some(v) => self.has(key@) && *v == self.at(key@),
                None => !self.has(key@),
            },
    {
        match self.place(key) {
            Some(i) => Some(&self.values[i]),
            None => None,
        }
    }

    /// Gives a key a value. A key that is there keeps its place.
    pub fn insert(&mut self, key: String, value: V)
        requires
            old(self).wf(),
        ensures
            final(self).wf(),
            final(self).map() == old(self).map().insert(key@, value),
            forall|k: Seq<char>| #[trigger] final(self).has(k) <==> old(self).has(k) || k == key@,
            forall|k: Seq<char>|
                old(self).has(k) && k != key@ ==> #[trigger] final(self).at(k) == old(self).at(k),
            final(self).at(key@) == value,
            old(self).has(key@) ==> final(self).key_list() == old(self).key_list()
                && final(self).value_list() == old(self).value_list().update(
                old(self).key_list().index_of(key@),
                value,
            ),
            !old(self).has(key@) ==> final(self).key_list() == old(self).key_list().push(key@)
                && final(self).value_list() == old(self).value_list().push(value),
    {
        let ghost k = key@;
        let ghost keys0 = self.key_list();
        let ghost values0 = self.value_list();
        match self.place(&key) {
            Some(i) => {
                self.values.set(i, value);
                proof {
                    assert forall|x: Seq<char>| #[trigger]
                        keys0.contains(x) implies keys0[keys0.index_of(x)] == x by {}
                    assert(keys0.index_of(k) == i);
                    assert(self.map() =~= old(self).map().insert(k, value));
                }
            },
            None => {
                let n: usize = self.keys.len();
                self.places.insert(key.clone(), n);
                self.keys.push(key);
                self.values.push(value);
                proof {
                    let keys1 = self.key_list();
                    assert(keys1 =~= keys0.push(k));
                    assert(keys1[n as int] == k);
                    assert forall|x: Seq<char>| #[trigger]
                        keys1.contains(x) <==> keys0.contains(x) || x == k by {
                        if keys1.contains(x) {
                            let j = keys1.index_of(x);
                            if j < n {
                                assert(keys0[j] == x);
                            }
                        }
                        if keys0.contains(x) {
                            assert(keys1[keys0.index_of(x)] == x);
                        }
                    }
                    assert forall|i: int, j: int|
                        0 <= i < keys1.len() && 0 <= j < keys1.len() && i != j implies keys1[i]
                        != keys1[j] by {
                        if i == n {
                            assert(keys0.contains(keys0[j]));
                        } else if j == n {
                            assert(keys0.contains(keys0[i]));
                        }
                    }
                    assert forall|i: int| #![trigger self.keys@[i]]
                        0 <= i < self.keys@.len() implies self.places@.contains_key(self.keys@[i]@)
                        && self.places@[self.keys@[i]@] == i by {
                        if i < n {
                            assert(old(self).keys@[i] == self.keys@[i]);
                            assert(keys0[i] == self.keys@[i]@);
                            assert(keys0.contains(keys0[i]));
                        }
                    }
                    assert forall|x: Seq<char>| #[trigger]
                        keys0.contains(x) implies keys1.index_of(x) == keys0.index_of(x) by {
                        assert(keys1.contains(x));
                        assert(keys1[keys0.index_of(x)] == x);
                    }
                    assert(keys1.contains(k));
                    assert(keys1.index_of(k) == n);
                    assert(self.map() =~= old(self).map().insert(k, value));
                }
            },
        }
    }
}

} // verus!
