//! The cache of route-back entries: for the hash of a message that awaits
//! a reply, the peer that delivered the message.
//!
//! The cache is a `cached::SizedCache`. It holds a bounded number of
//! entries and, when full, gives up the entry that was used least recently.

use cached::{Cached, SizedCache};
use vstd::prelude::*;

verus! {

/// Trusted: the type `cached::SizedCache`. Its inside is not looked into;
/// all that is known of a cache is what the functions below say of its
/// entries and its capacity.
#[verifier::external_type_specification]
#[verifier::external_body]
#[verifier::reject_recursive_types(K)]
#[verifier::reject_recursive_types(V)]
pub struct ExSizedCache<K, V>(SizedCache<K, V>);

/// A key of the cache: the bytes of a message hash.
pub type HashBytes = [u8; 32];

/// A value of the cache: the key bytes of a peer.
pub type PeerBytes = [u8; 32];

/// The entries that a cache holds, the most recently used first.
pub uninterp spec fn cache_entries(cache: SizedCache<HashBytes, PeerBytes>) -> Seq<
    (HashBytes, PeerBytes),
>;

/// The number of entries that a cache was made to hold.
pub uninterp spec fn cache_capacity(cache: SizedCache<HashBytes, PeerBytes>) -> nat;

/// Whether `i` is the place of the entry for `key`.
pub open spec fn is_slot<K, V>(entries: Seq<(K, V)>, key: K, i: int) -> bool {
    0 <= i < entries.len() && entries[i].0 == key
}

/// Whether some entry is for `key`.
pub open spec fn has_key<K, V>(entries: Seq<(K, V)>, key: K) -> bool {
    exists|i: int| is_slot(entries, key, i)
}

/// The place of the entry for `key`.
pub open spec fn slot<K, V>(entries: Seq<(K, V)>, key: K) -> int {
    choose|i: int| is_slot(entries, key, i)
}

/// The value that the entries hold for `key`.
pub open spec fn lookup<K, V>(entries: Seq<(K, V)>, key: K) -> Option<V> {
    if has_key(entries, key) {
        Some(entries[slot(entries, key)].1)
    } else {
        None
    }
}

/// No two entries are for the same key.
pub open spec fn distinct_keys<K, V>(entries: Seq<(K, V)>) -> bool {
    forall|i: int, j: int|
        0 <= i < j < entries.len() ==> (#[trigger] entries[i]).0 != (#[trigger] entries[j]).0
}

/// The entries fit a cache of the given capacity.
pub open spec fn fits<K, V>(entries: Seq<(K, V)>, capacity: nat) -> bool {
    distinct_keys(entries) && 0 < capacity && entries.len() <= capacity
}

/// The entries after `key` is set to `value`: the value of an entry that
/// is there changes in place; a new entry goes to the front and, where the
/// cache is full, the last entry leaves.
pub open spec fn after_set<K, V>(entries: Seq<(K, V)>, key: K, value: V, capacity: nat) -> Seq<
    (K, V),
> {
    if has_key(entries, key) {
        entries.update(slot(entries, key), (key, value))
    } else if entries.len() < capacity {
        seq![(key, value)] + entries
    } else {
        seq![(key, value)] + entries.drop_last()
    }
}

/// The entries after a look at `key`: an entry that is there moves to the
/// front.
pub open spec fn after_get<K, V>(entries: Seq<(K, V)>, key: K) -> Seq<(K, V)> {
    if has_key(entries, key) {
        seq![entries[slot(entries, key)]] + entries.remove(slot(entries, key))
    } else {
        entries
    }
}

/// The entries after the entry for `key` is taken out.
pub open spec fn after_remove<K, V>(entries: Seq<(K, V)>, key: K) -> Seq<(K, V)> {
    if has_key(entries, key) {
        entries.remove(slot(entries, key))
    } else {
        entries
    }
}

/// Trusted: `cached::SizedCache::with_size`, which makes an empty cache
/// for `size` entries. It panics on size 0 and reserves room for `size`
/// entries at once, so only small sizes are let in.
#[verifier::external_body]
fn cache_with_size(size: usize) -> (cache: SizedCache<HashBytes, PeerBytes>)
    requires
        0 < size <= 1_000_000,
    ensures
        cache_entries(cache) == Seq::<(HashBytes, PeerBytes)>::empty(),
        cache_capacity(cache) == size,
{
    SizedCache::with_size(size)
}

/// Trusted: `cached::Cached::cache_set` of `SizedCache`. It replaces the
/// value of an entry for `key` where it stands and returns the old value;
/// else it puts the new entry in front, and evicts the entry at the back
/// when the cache holds more than its capacity.
#[verifier::external_body]
fn cache_set(cache: &mut SizedCache<HashBytes, PeerBytes>, key: HashBytes, value: PeerBytes) -> (previous:
    Option<PeerBytes>)
    requires
        fits(cache_entries(*old(cache)), cache_capacity(*old(cache))),
    ensures
        cache_capacity(*final(cache)) == cache_capacity(*old(cache)),
        cache_entries(*final(cache)) == after_set(
            cache_entries(*old(cache)),
            key,
            value,
            cache_capacity(*old(cache)),
        ),
        previous == lookup(cache_entries(*old(cache)), key),
{
    cache.cache_set(key, value)
}

/// Trusted: `cached::Cached::cache_get` of `SizedCache`. It returns the
/// value of the entry for `key`, which it moves to the front.
#[verifier::external_body]
fn cache_get(cache: &mut SizedCache<HashBytes, PeerBytes>, key: &HashBytes) -> (value: Option<
    PeerBytes,
>)
    requires
        fits(cache_entries(*old(cache)), cache_capacity(*old(cache))),
    ensures
        cache_capacity(*final(cache)) == cache_capacity(*old(cache)),
        cache_entries(*final(cache)) == after_get(cache_entries(*old(cache)), *key),
        value == lookup(cache_entries(*old(cache)), *key),
{
    cache.cache_get(key).copied()
}

/// Trusted: `cached::Cached::cache_remove` of `SizedCache`. It takes the
/// entry for `key` out and returns its value.
#[verifier::external_body]
fn cache_remove(cache: &mut SizedCache<HashBytes, PeerBytes>, key: &HashBytes) -> (value: Option<
    PeerBytes,
>)
    requires
        fits(cache_entries(*old(cache)), cache_capacity(*old(cache))),
    ensures
        cache_capacity(*final(cache)) == cache_capacity(*old(cache)),
        cache_entries(*final(cache)) == after_remove(cache_entries(*old(cache)), *key),
        value == lookup(cache_entries(*old(cache)), *key),
{
    cache.cache_remove(key)
}

/// An entry that is set is found, and the entries still fit the cache.
pub proof fn lemma_after_set<K, V>(entries: Seq<(K, V)>, key: K, value: V, capacity: nat)
    requires
        fits(entries, capacity),
    ensures
        fits(after_set(entries, key, value, capacity), capacity),
        lookup(after_set(entries, key, value, capacity), key) == Some(value),
        forall|other: K|
            other != key && has_key(after_set(entries, key, value, capacity), other) ==> lookup(
                after_set(entries, key, value, capacity),
                other,
            ) == lookup(entries, other),
{
    let after = after_set(entries, key, value, capacity);
    if has_key(entries, key) {
        let i = slot(entries, key);
        assert(is_slot(after, key, i));
        assert forall|a: int, b: int| 0 <= a < b < after.len() implies (#[trigger] after[a]).0 != (
        #[trigger] after[b]).0 by {
            assert(entries[a].0 != entries[b].0);
        }
        lemma_slot_unique(after, key, i);
        assert forall|other: K| other != key && has_key(after, other) implies lookup(after, other)
            == lookup(entries, other) by {
            let j = slot(after, other);
            assert(is_slot(entries, other, j));
            lemma_slot_unique(entries, other, j);
        }
    } else {
        let rest = if entries.len() < capacity {
            entries
        } else {
            entries.drop_last()
        };
        assert(after == seq![(key, value)] + rest);
        assert(is_slot(after, key, 0));
        assert forall|a: int, b: int| 0 <= a < b < after.len() implies (#[trigger] after[a]).0 != (
        #[trigger] after[b]).0 by {
            assert(after[b] == entries[b - 1]);
            assert(is_slot(entries, after[b].0, b - 1));
            if a > 0 {
                assert(after[a] == entries[a - 1]);
                assert(entries[a - 1].0 != entries[b - 1].0);
            }
        }
        lemma_slot_unique(after, key, 0);
        assert forall|other: K| other != key && has_key(after, other) implies lookup(after, other)
            == lookup(entries, other) by {
            let j = slot(after, other);
            assert(after[j] == entries[j - 1]);
            assert(is_slot(entries, other, j - 1));
            lemma_slot_unique(entries, other, j - 1);
        }
    }
}

/// Where no key occurs twice, a key has one place.
pub proof fn lemma_slot_unique<K, V>(entries: Seq<(K, V)>, key: K, i: int)
    requires
        distinct_keys(entries),
        is_slot(entries, key, i),
    ensures
        has_key(entries, key),
        slot(entries, key) == i,
        lookup(entries, key) == Some(entries[i].1),
{
    let j = slot(entries, key);
    assert(is_slot(entries, key, j));
    if i < j {
        assert(entries[i].0 != entries[j].0);
    } else if j < i {
        assert(entries[j].0 != entries[i].0);
    }
}

/// After a look at a key the entries hold what they held, and still fit.
pub proof fn lemma_after_get<K, V>(entries: Seq<(K, V)>, key: K, capacity: nat)
    requires
        fits(entries, capacity),
    ensures
        fits(after_get(entries, key), capacity),
        forall|other: K| lookup(after_get(entries, key), other) == lookup(entries, other),
{
    let after = after_get(entries, key);
    if has_key(entries, key) {
        let i = slot(entries, key);
        assert(is_slot(entries, key, i));
        let from = |a: int|
            if a == 0 {
                i
            } else if a <= i {
                a - 1
            } else {
                a
            };
        assert forall|a: int| 0 <= a < after.len() implies #[trigger] after[a] == entries[from(
            a,
        )] by {}
        assert forall|a: int, b: int| 0 <= a < b < after.len() implies (#[trigger] after[a]).0 != (
        #[trigger] after[b]).0 by {
            assert(after[a] == entries[from(a)]);
            assert(after[b] == entries[from(b)]);
            if from(a) < from(b) {
                assert(entries[from(a)].0 != entries[from(b)].0);
            } else {
                assert(entries[from(b)].0 != entries[from(a)].0);
            }
        }
        assert forall|other: K| lookup(after, other) == lookup(entries, other) by {
            if has_key(after, other) {
                let a = slot(after, other);
                assert(is_slot(after, other, a));
                assert(after[a] == entries[from(a)]);
                assert(is_slot(entries, other, from(a)));
                lemma_slot_unique(entries, other, from(a));
            }
            if has_key(entries, other) {
                let b = slot(entries, other);
                assert(is_slot(entries, other, b));
                let a = if b == i {
                    0
                } else if b < i {
                    b + 1
                } else {
                    b
                };
                assert(after[a] == entries[from(a)]);
                assert(is_slot(after, other, a));
                lemma_slot_unique(after, other, a);
            }
        }
    }
}

/// An entry that is taken out is not found again; the others stay, and
/// the entries still fit.
pub proof fn lemma_after_remove<K, V>(entries: Seq<(K, V)>, key: K, capacity: nat)
    requires
        fits(entries, capacity),
    ensures
        fits(after_remove(entries, key), capacity),
        lookup(after_remove(entries, key), key) is None,
        forall|other: K|
            other != key ==> lookup(after_remove(entries, key), other) == lookup(entries, other),
{
    let after = after_remove(entries, key);
    if has_key(entries, key) {
        let i = slot(entries, key);
        assert(is_slot(entries, key, i));
        let from = |a: int|
            if a < i {
                a
            } else {
                a + 1
            };
        assert forall|a: int| 0 <= a < after.len() implies #[trigger] after[a] == entries[from(
            a,
        )] by {}
        assert forall|a: int, b: int| 0 <= a < b < after.len() implies (#[trigger] after[a]).0 != (
        #[trigger] after[b]).0 by {
            assert(after[a] == entries[from(a)]);
            assert(after[b] == entries[from(b)]);
            assert(entries[from(a)].0 != entries[from(b)].0);
        }
        assert(!has_key(after, key)) by {
            if has_key(after, key) {
                let a = slot(after, key);
                assert(is_slot(after, key, a));
                assert(after[a] == entries[from(a)]);
                lemma_slot_unique(entries, key, from(a));
            }
        }
        assert forall|other: K| other != key implies lookup(after, other) == lookup(
            entries,
            other,
        ) by {
            if has_key(after, other) {
                let a = slot(after, other);
                assert(is_slot(after, other, a));
                assert(after[a] == entries[from(a)]);
                assert(is_slot(entries, other, from(a)));
                lemma_slot_unique(entries, other, from(a));
            }
            if has_key(entries, other) {
                let b = slot(entries, other);
                assert(is_slot(entries, other, b));
                let a = if b < i {
                    b
                } else {
                    b - 1
                };
                assert(after[a] == entries[from(a)]);
                assert(is_slot(after, other, a));
                lemma_slot_unique(after, other, a);
            }
        }
    }
}

/// The cache of route-back entries.
pub struct RouteBackCache {
    cache: SizedCache<HashBytes, PeerBytes>,
}

impl RouteBackCache {
    /// The entries of the cache, the most recently used first.
    pub closed spec fn view(&self) -> Seq<(HashBytes, PeerBytes)> {
        cache_entries(self.cache)
    }

    /// The number of entries that the cache can hold.
    pub closed spec fn capacity(&self) -> nat {
        cache_capacity(self.cache)
    }

    /// The cache holds no key twice and no more entries than it can.
    pub open spec fn wf(&self) -> bool {
        fits(self@, self.capacity())
    }

    /// An empty cache for `size` entries.
    pub fn with_size(size: usize) -> (cache: RouteBackCache)
        requires
            0 < size <= 1_000_000,
        ensures
            cache.wf(),
            cache@ == Seq::<(HashBytes, PeerBytes)>::empty(),
            cache.capacity() == size,
    {
        RouteBackCache { cache: cache_with_size(size) }
    }

    /// Sets the entry for `key` and returns the value it had.
    pub fn set(&mut self, key: HashBytes, value: PeerBytes) -> (previous: Option<PeerBytes>)
        requires
            old(self).wf(),
        ensures
            final(self).wf(),
            final(self).capacity() == old(self).capacity(),
            final(self)@ == after_set(old(self)@, key, value, old(self).capacity()),
            previous == lookup(old(self)@, key),
    {
        proof {
            lemma_after_set(self@, key, value, self.capacity());
        }
        cache_set(&mut self.cache, key, value)
    }

    /// Looks the entry for `key` up, which counts as a use of the entry.
    pub fn get(&mut self, key: &HashBytes) -> (value: Option<PeerBytes>)
        requires
            old(self).wf(),
        ensures
            final(self).wf(),
            final(self).capacity() == old(self).capacity(),
            final(self)@ == after_get(old(self)@, *key),
            value == lookup(old(self)@, *key),
    {
        proof {
            lemma_after_get(self@, *key, self.capacity());
        }
        cache_get(&mut self.cache, key)
    }

    /// Takes the entry for `key` out of the cache.
    pub fn remove(&mut self, key: &HashBytes) -> (value: Option<PeerBytes>)
        requires
            old(self).wf(),
        ensures
            final(self).wf(),
            final(self).capacity() == old(self).capacity(),
            final(self)@ == after_remove(old(self)@, *key),
            value == lookup(old(self)@, *key),
    {
        proof {
            lemma_after_remove(self@, *key, self.capacity());
        }
        cache_remove(&mut self.cache, key)
    }
}

} // verus!
