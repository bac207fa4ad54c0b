//! A map kept as a list of entries, for keys that can only be compared.

use crate::types::PeerId;
use vstd::prelude::*;

verus! {

/// A key of a [`KeyedList`]: two keys can be told apart by what they stand
/// for.
pub trait Key: View + Sized {
    /// Whether two keys stand for the same.
    fn same(&self, other: &Self) -> (same: bool)
        ensures
            same == (self@ == other@),
    ;
}

impl View for PeerId {
    type V = PeerId;

    open spec fn view(&self) -> PeerId {
        *self
    }
}

impl Key for PeerId {
    fn same(&self, other: &Self) -> (same: bool) {
        *self == *other
    }
}

impl Key for (PeerId, PeerId) {
    fn same(&self, other: &Self) -> (same: bool) {
        self.0 == other.0 && self.1 == other.1
    }
}

impl Key for String {
    fn same(&self, other: &Self) -> (same: bool) {
        *self == *other
    }
}

/// A finite map from keys to values, held as a list in which no key occurs
/// twice.
pub struct KeyedList<K: Key, V> {
    keys: Vec<K>,
    values: Vec<V>,
}

impl<K: Key, V> KeyedList<K, V> {
    /// What the keys stand for, in the order of the list.
    pub closed spec fn key_views(&self) -> Seq<K::V> {
        Seq::new(self.keys.len() as nat, |i: int| self.keys[i]@)
    }

    /// The values, in the order of the list.
    pub closed spec fn values(&self) -> Seq<V> {
        self.values@
    }

    /// Each key has its value and no key occurs twice.
    pub closed spec fn wf(&self) -> bool {
        &&& self.keys.len() == self.values.len()
        &&& self.key_views().no_duplicates()
    }

    /// The place of a key in the list.
    pub closed spec fn place(&self, key: K::V) -> int {
        choose|i: int| 0 <= i < self.keys.len() && self.keys[i]@ == key
    }

    /// The list as a mathematical map.
    pub closed spec fn view(&self) -> Map<K::V, V> {
        Map::new(|key: K::V| self.key_views().contains(key), |key: K::V| self.values[self.place(key)])
    }

    /// The number of entries.
    pub closed spec fn spec_len(&self) -> usize {
        self.keys.len()
    }

    /// An entry of the list is an entry of the map.
    pub proof fn lemma_entry(&self, i: int)
        requires
            self.wf(),
            0 <= i < self.spec_len(),
        ensures
            self.key_views().len() == self.spec_len(),
            self.values().len() == self.spec_len(),
            self@.dom().contains(self.key_views()[i]),
            self@[self.key_views()[i]] == self.values()[i],
            self.place(self.key_views()[i]) == i,
    {
        assert(self.key_views()[i] == self.keys[i]@);
        let j = self.place(self.keys[i]@);
        assert(self.key_views()[j] == self.key_views()[i]);
    }

    /// Two places of the list hold different keys.
    pub proof fn lemma_distinct(&self, i: int, j: int)
        requires
            self.wf(),
            0 <= i < self.spec_len(),
            0 <= j < self.spec_len(),
            i != j,
        ensures
            self.key_views()[i] != self.key_views()[j],
    {
    }

    /// A key of the map has its place in the list.
    pub proof fn lemma_place(&self, key: K::V)
        requires
            self.wf(),
            self@.dom().contains(key),
        ensures
            0 <= self.place(key) < self.spec_len(),
            self.key_views()[self.place(key)] == key,
            self.values()[self.place(key)] == self@[key],
    {
        let i = choose|i: int| 0 <= i < self.key_views().len() && self.key_views()[i] == key;
        assert(self.keys[i]@ == key);
    }

    /// The keys of the map are finitely many: as many as `len` counts.
    pub proof fn lemma_finite(&self)
        requires
            self.wf(),
        ensures
            self@.dom().finite(),
            self@.dom().len() == self.spec_len(),
    {
        assert(self@.dom() =~= self.key_views().to_set());
        self.key_views().unique_seq_to_set();
    }

    /// The empty map.
    pub fn new() -> (list: Self)
        ensures
            list.wf(),
            list@ == Map::<K::V, V>::empty(),
            list.spec_len() == 0,
    {
        let list = KeyedList { keys: Vec::new(), values: Vec::new() };
        assert(list@ =~= Map::<K::V, V>::empty());
        list
    }

    /// The number of entries.
    #[verifier::when_used_as_spec(spec_len)]
    pub fn len(&self) -> (len: usize)
        ensures
            len == self.spec_len(),
    {
        self.keys.len()
    }

    /// The place of `key` in the list.
    pub fn position(&self, key: &K) -> (found: Option<usize>)
        requires
            self.wf(),
        ensures
            match found {
                Some(i) => i < self.spec_len() && self.key_views()[i as int] == key@ && self.place(
                    key@,
                ) == i && self@.dom().contains(key@),
                None => !self@.dom().contains(key@),
            },
    {
        let mut i: usize = 0;
        while i < self.keys.len()
            invariant
                self.wf(),
                i <= self.keys.len(),
                forall|k: int| 0 <= k < i ==> self.keys[k]@ != key@,
            decreases self.keys.len() - i,
        {
            if self.keys[i].same(key) {
                proof {
                    self.lemma_entry(i as int);
                }
                return Some(i);
            }
            i += 1;
        }
        None
    }

    /// The value of `key`.
    pub fn get(&self, key: &K) -> (found: Option<&V>)
        requires
            self.wf(),
        ensures
            match found {
                Some(value) => self@.dom().contains(key@) && *value == self@[key@],
                None => !self@.dom().contains(key@),
            },
    {
        match self.position(key) {
            Some(i) => {
                proof {
                    self.lemma_entry(i as int);
                }
                Some(&self.values[i])
            },
            None => None,
        }
    }

    /// The key at place `i` of the list.
    pub fn key_at(&self, i: usize) -> (key: &K)
        requires
            self.wf(),
            i < self.spec_len(),
        ensures
            key@ == self.key_views()[i as int],
    {
        &self.keys[i]
    }

    /// The value at place `i` of the list.
    pub fn value_at(&self, i: usize) -> (value: &V)
        requires
            self.wf(),
            i < self.spec_len(),
        ensures
            *value == self.values()[i as int],
    {
        &self.values[i]
    }

    /// Sets the value of `key`, and returns the value it had.
    pub fn insert(&mut self, key: K, value: V) -> (previous: Option<V>)
        requires
            old(self).wf(),
        ensures
            final(self).wf(),
            final(self)@ == old(self)@.insert(key@, value),
            previous == if old(self)@.dom().contains(key@) {
                Some(old(self)@[key@])
            } else {
                None::<V>
            },
            final(self).spec_len() == old(self).spec_len() + if old(self)@.dom().contains(key@) {
                0int
            } else {
                1int
            },
    {
        match self.position(&key) {
            Some(i) => {
                let ghost before = *self;
                let mut value = value;
                core::mem::swap(&mut self.values[i], &mut value);
                proof {
                    before.lemma_entry(i as int);
                    assert(self.key_views() =~= before.key_views());
                    assert forall|k: K::V| self@.dom().contains(k) implies #[trigger] self@[k]
                        == before@.insert(key@, self.values[i as int])[k] by {
                        self.lemma_place(k);
                        if k != key@ {
                            before.lemma_place(k);
                        }
                    }
                    assert(self@ =~= before@.insert(key@, self.values[i as int]));
                }
                Some(value)
            },
            None => {
                let ghost before = *self;
                let ghost key_view = key@;
                self.keys.push(key);
                self.values.push(value);
                proof {
                    let last = before.keys.len() as int;
                    assert forall|i: int| 0 <= i < last implies self.key_views()[i]
                        == before.key_views()[i] && before.key_views()[i] != key_view by {
                        assert(before.key_views().contains(before.key_views()[i]));
                    }
                    assert(self.key_views() =~= before.key_views().push(key_view));
                    assert(self.key_views()[last] == key_view);
                    assert(self.wf());
                    assert forall|k: K::V|
                        self@.dom().contains(k) == before@.insert(key_view, value).dom().contains(
                            k,
                        ) by {
                        if before.key_views().contains(k) {
                            let i = choose|i: int|
                                0 <= i < before.key_views().len() && before.key_views()[i] == k;
                            assert(self.key_views()[i] == k);
                        }
                        if self.key_views().contains(k) && k != key_view {
                            let i = choose|i: int|
                                0 <= i < self.key_views().len() && self.key_views()[i] == k;
                            assert(before.key_views()[i] == k);
                        }
                    }
                    assert forall|k: K::V| self@.dom().contains(k) implies #[trigger] self@[k]
                        == before@.insert(key_view, value)[k] by {
                        self.lemma_place(k);
                        if k != key_view {
                            before.lemma_place(k);
                            self.lemma_entry(before.place(k));
                        } else {
                            self.lemma_entry(last);
                        }
                    }
                    assert(self@ =~= before@.insert(key_view, value));
                }
                None
            },
        }
    }
}

} // verus!
