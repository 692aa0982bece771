//! A map from strings that also lists its keys, and a set of strings.

use vstd::prelude::*;
use vstd::hash_map::*;

verus! {

/// The entries of a map in a list, and for each key the place of its entry.
struct Table<V> {
    entries: Vec<(String, V)>,
    index: StringHashMap<usize>,
}

impl<V> Table<V> {
    /// The index lists every entry under its key and nothing else: no key occurs twice.
    spec fn wf(self) -> bool {
        &&& forall|k: Seq<char>| #[trigger]
            self.index@.contains_key(k) ==> self.index@[k] < self.entries@.len()
                && self.entries@[self.index@[k] as int].0@ == k
        &&& forall|i: int|
            0 <= i < self.entries@.len() ==> self.index@.contains_key(
                (#[trigger] self.entries@[i]).0@,
            ) && self.index@[self.entries@[i].0@] == i
    }

    spec fn contents(self) -> Map<Seq<char>, V> {
        Map::new(
            |k: Seq<char>| self.index@.contains_key(k),
            |k: Seq<char>| self.entries@[self.index@[k] as int].1,
        )
    }

    spec fn key_list(self) -> Seq<Seq<char>> {
        self.entries@.map_values(|e: (String, V)| e.0@)
    }

    fn new() -> (r: Self)
        ensures
            r.wf(),
            r.contents() == Map::<Seq<char>, V>::empty(),
            r.key_list() == Seq::<Seq<char>>::empty(),
    {
        Table { entries: Vec::new(), index: StringHashMap::new() }
    }

    fn insert(&mut self, key: String, value: V)
        requires
            old(self).wf(),
        ensures
            final(self).wf(),
            final(self).contents() == old(self).contents().insert(key@, value),
            final(self).key_list() == if old(self).contents().contains_key(key@) {
                old(self).key_list()
            } else {
                old(self).key_list().push(key@)
            },
    {
        let ghost before = *self;
        let found: Option<usize> = match self.index.get(key.as_str()) {
            Some(i) => Some(*i),
            None => None,
        };
        match found {
            Some(i) => {
                let k = key.clone();
                self.entries.set(i, (k, value));
                assert(self.wf());
                assert(self.key_list() =~= before.key_list());
            },
            None => {
                let n = self.entries.len();
                let k = key.clone();
                self.entries.push((key, value));
                self.index.insert(k, n);
                assert(self.wf());
                assert(self.key_list() =~= before.key_list().push(k@));
            },
        }
        assert(self.contents() =~= before.contents().insert(key@, value));
    }

    fn remove(&mut self, key: &str) -> (r: Option<V>)
        requires
            old(self).wf(),
        ensures
            final(self).wf(),
            final(self).contents() == old(self).contents().remove(key@),
            match r {
                Some(v) => old(self).contents().contains_key(key@) && v == old(
                    self,
                ).contents()[key@],
                None => !old(self).contents().contains_key(key@),
            },
    {
        let ghost before = *self;
        let found: Option<usize> = match self.index.get(key) {
            Some(i) => Some(*i),
            None => None,
        };
        match found {
            Some(i) => {
                let ghost last = self.entries@.last();
                let taken = self.entries.swap_remove(i);
                self.index.remove(key);
                if i < self.entries.len() {
                    let moved = self.entries[i].0.clone();
                    assert(moved@ != key@) by {
                        assert(before.entries@[before.entries@.len() - 1].0@ == moved@);
                    }
                    self.index.insert(moved, i);
                }
                assert forall|k: Seq<char>| #[trigger]
                    self.index@.contains_key(k) implies self.index@[k] < self.entries@.len()
                    && self.entries@[self.index@[k] as int].0@ == k by {
                    assert(before.index@.contains_key(k));
                }
                assert forall|j: int|
                    0 <= j < self.entries@.len() implies self.index@.contains_key(
                    (#[trigger] self.entries@[j]).0@,
                ) && self.index@[self.entries@[j].0@] == j by {
                    if j != i {
                        assert(before.entries@[j] == self.entries@[j]);
                    }
                }
                assert(self.contents() =~= before.contents().remove(key@)) by {
                    assert forall|k: Seq<char>| #[trigger]
                        self.contents().contains_key(k) implies self.contents()[k]
                        == before.contents()[k] by {
                        assert(before.index@.contains_key(k));
                    }
                }
                Some(taken.1)
            },
            None => {
                assert(self.contents() =~= before.contents().remove(key@));
                None
            },
        }
    }
}

/// A map from strings to values that lists its keys in the order in which they came in, as long
/// as none is removed.
pub struct StringMap<V> {
    table: Table<V>,
}

impl<V> View for StringMap<V> {
    type V = Map<Seq<char>, V>;

    closed spec fn view(&self) -> Map<Seq<char>, V> {
        self.table.contents()
    }
}

/// `keys` lists the keys of `m`, each once.
pub open spec fn lists_keys<V>(keys: Seq<Seq<char>>, m: Map<Seq<char>, V>) -> bool {
    &&& keys.no_duplicates()
    &&& forall|k: Seq<char>| #[trigger] keys.contains(k) <==> m.contains_key(k)
    &&& forall|i: int| 0 <= i < keys.len() ==> m.contains_key(#[trigger] keys[i])
    &&& m.dom().finite()
    &&& m.len() == keys.len()
}

impl<V> StringMap<V> {
    #[verifier::type_invariant]
    spec fn inv(self) -> bool {
        self.table.wf()
    }

    /// The keys, in the order in which a walk through the map meets them.
    pub closed spec fn keys(self) -> Seq<Seq<char>> {
        self.table.key_list()
    }

    proof fn lemma_listed(self)
        requires
            self.table.wf(),
        ensures
            lists_keys(self.keys(), self@),
    {
        let keys = self.keys();
        assert forall|i: int, j: int|
            0 <= i < keys.len() && 0 <= j < keys.len() && i != j implies keys[i] != keys[j] by {
            assert(self.table.entries@[i].0@ == keys[i]);
            assert(self.table.entries@[j].0@ == keys[j]);
        }
        assert forall|k: Seq<char>| #[trigger] keys.contains(k) <==> self@.contains_key(k) by {
            if keys.contains(k) {
                let i = choose|i: int| 0 <= i < keys.len() && keys[i] == k;
                assert(self.table.entries@[i].0@ == k);
            }
            if self@.contains_key(k) {
                assert(keys[self.table.index@[k] as int] == k);
            }
        }
        assert forall|i: int| 0 <= i < keys.len() implies self@.contains_key(#[trigger] keys[i]) by {
            assert(keys.contains(keys[i]));
        }
        keys.unique_seq_to_set();
        assert(keys.to_set() =~= self@.dom());
    }

    /// A map without entries.
    pub fn new() -> (r: Self)
        ensures
            r@ == Map::<Seq<char>, V>::empty(),
            r.keys() == Seq::<Seq<char>>::empty(),
    {
        StringMap { table: Table::new() }
    }

    /// The number of entries.
    pub fn len(&self) -> (r: usize)
        ensures
            r == self@.len(),
            r == self.keys().len(),
            lists_keys(self.keys(), self@),
    {
        proof {
            use_type_invariant(self);
            self.lemma_listed();
        }
        self.table.entries.len()
    }

    pub fn is_empty(&self) -> (r: bool)
        ensures
            r == (self@.len() == 0),
            r ==> self@ == Map::<Seq<char>, V>::empty(),
            lists_keys(self.keys(), self@),
    {
        let n = self.len();
        if n == 0 {
            assert(self@ =~= Map::<Seq<char>, V>::empty()) by {
                assert forall|k: Seq<char>| !self@.contains_key(k) by {
                    assert(!self.keys().contains(k));
                }
            }
        }
        n == 0
    }

    pub fn contains_key(&self, key: &str) -> (r: bool)
        ensures
            r == self@.contains_key(key@),
    {
        self.table.index.contains_key(key)
    }

    /// The value under `key`.
    pub fn get(&self, key: &str) -> (r: Option<&V>)
        ensures
            match r {
                Some(v) => self@.contains_key(key@) && *v == self@[key@],
                None => !self@.contains_key(key@),
            },
    {
        proof {
            use_type_invariant(self);
        }
        match self.table.index.get(key) {
            Some(i) => Some(&self.table.entries[*i].1),
            None => None,
        }
    }

    /// The key at place `i` of a walk through the map.
    pub fn key_at(&self, i: usize) -> (r: &String)
        requires
            i < self.keys().len(),
        ensures
            r@ == self.keys()[i as int],
            self@.contains_key(r@),
    {
        proof {
            use_type_invariant(self);
        }
        &self.table.entries[i].0
    }

    /// The value at place `i` of a walk through the map.
    pub fn value_at(&self, i: usize) -> (r: &V)
        requires
            i < self.keys().len(),
        ensures
            self@.contains_key(self.keys()[i as int]),
            *r == self@[self.keys()[i as int]],
    {
        proof {
            use_type_invariant(self);
            assert(self.table.entries@[i as int].0@ == self.keys()[i as int]);
        }
        &self.table.entries[i].1
    }

    /// Puts `value` under `key`, in the place of what was there.
    pub fn insert(&mut self, key: String, value: V)
        ensures
            final(self)@ == old(self)@.insert(key@, value),
            final(self).keys() == if old(self)@.contains_key(key@) {
                old(self).keys()
            } else {
                old(self).keys().push(key@)
            },
    {
        proof {
            use_type_invariant(&*self);
        }
        let mut table = Table::new();
        std::mem::swap(&mut table, &mut self.table);
        table.insert(key, value);
        self.table = table;
    }

    /// Takes the entry under `key` out, where there is one, and gives its value.
    pub fn remove(&mut self, key: &str) -> (r: Option<V>)
        ensures
            final(self)@ == old(self)@.remove(key@),
            match r {
                Some(v) => old(self)@.contains_key(key@) && v == old(self)@[key@],
                None => !old(self)@.contains_key(key@),
            },
    {
        proof {
            use_type_invariant(&*self);
        }
        let mut table = Table::new();
        std::mem::swap(&mut table, &mut self.table);
        let taken = table.remove(key);
        self.table = table;
        taken
    }

    /// Takes every entry out.
    pub fn clear(&mut self)
        ensures
            final(self)@ == Map::<Seq<char>, V>::empty(),
            final(self).keys() == Seq::<Seq<char>>::empty(),
    {
        self.table = Table::new();
    }
}

/// A set of strings.
pub struct StringSet {
    members: StringHashMap<()>,
}

impl View for StringSet {
    type V = Set<Seq<char>>;

    closed spec fn view(&self) -> Set<Seq<char>> {
        self.members@.dom()
    }
}

impl StringSet {
    /// A set without members.
    pub fn new() -> (r: Self)
        ensures
            r@ == Set::<Seq<char>>::empty(),
    {
        StringSet { members: StringHashMap::new() }
    }

    pub fn len(&self) -> (r: usize)
        ensures
            r == self@.len(),
    {
        self.members.len()
    }

    pub fn is_empty(&self) -> (r: bool)
        ensures
            r == (self@ =~= Set::<Seq<char>>::empty()),
    {
        self.members.is_empty()
    }

    pub fn contains(&self, s: &str) -> (r: bool)
        ensures
            r == self@.contains(s@),
    {
        self.members.contains_key(s)
    }

    pub fn insert(&mut self, s: String)
        ensures
            final(self)@ == old(self)@.insert(s@),
    {
        self.members.insert(s, ());
    }

    /// Puts every member of `other` into this set.
    pub fn extend(&mut self, other: StringSet)
        ensures
            final(self)@ == old(self)@.union(other@),
    {
        let ghost before = self@;
        self.members.union_prefer_right(other.members);
        assert(self@ =~= before.union(other@));
    }
}

} // verus!
