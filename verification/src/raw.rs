//! One shard of the cache map.

use core::hash::{BuildHasher, Hash};
use vstd::prelude::*;
use vstd::std_specs::cmp::PartialEqSpec;

use crate::hash::{hash_key, hashes_to};
use crate::index::{filed, filed_once, holds, index_limit, refiled, room, HashIndex};

verus! {

/// What a shard keeps of one key.
pub ghost struct Entry<K, V> {
    /// The hash under which the entry is found.
    pub hash: u64,
    /// The key.
    pub key: K,
    /// The value that was cached for it.
    pub value: V,
}

/// Equality of keys is an equivalence, and a clone of a key equals the key.
pub open spec fn lawful_key<K: PartialEq + Clone>() -> bool {
    &&& vstd::laws_eq::obeys_eq::<K>()
    &&& forall|key: K, other: K| #[trigger] cloned(key, other) ==> key.eq_spec(&other)
}

/// A clone of a value is that value.
pub open spec fn faithful_clone<V: Clone>() -> bool {
    forall|value: V, other: V| #[trigger] cloned(value, other) ==> value == other
}

/// An entry for the key is filed under the hash.
pub open spec fn present<K: PartialEq, V>(entries: Seq<Entry<K, V>>, hash: u64, key: K) -> bool {
    exists|i: int|
        0 <= i < entries.len() && (#[trigger] entries[i]).hash == hash && entries[i].key.eq_spec(&key)
}

/// There is an entry for the key.
pub open spec fn known<K: PartialEq, V>(entries: Seq<Entry<K, V>>, key: K) -> bool {
    exists|i: int| 0 <= i < entries.len() && (#[trigger] entries[i]).key.eq_spec(&key)
}

/// No two entries are for one key.
pub open spec fn distinct<K: PartialEq, V>(entries: Seq<Entry<K, V>>) -> bool {
    forall|i: int, j: int|
        0 <= i < j < entries.len() ==> !(#[trigger] entries[i]).key.eq_spec(&(#[trigger] entries[j]).key)
}

/// The key has no entry under another hash.
pub open spec fn hashed_alike<K: PartialEq, V>(entries: Seq<Entry<K, V>>, hash: u64, key: K) -> bool {
    forall|i: int|
        0 <= i < entries.len() && (#[trigger] entries[i]).key.eq_spec(&key) ==> entries[i].hash == hash
}

/// The entry is filed under the hash under which it was filed before, or under one that the
/// hasher gives for its key.
pub open spec fn kept_or_rehashed<K: Hash, V, S: BuildHasher>(
    hasher: S,
    before: Entry<K, V>,
    after: Entry<K, V>,
) -> bool {
    after.hash == before.hash || hashes_to(hasher, after.key, after.hash)
}

/// The entries are the same, but for the hashes.
pub open spec fn moved<K: Hash, V, S: BuildHasher>(
    hasher: S,
    before: Seq<Entry<K, V>>,
    after: Seq<Entry<K, V>>,
) -> bool {
    &&& before.len() == after.len()
    &&& forall|i: int|
        0 <= i < before.len() ==> {
            &&& kept_or_rehashed(hasher, before[i], #[trigger] after[i])
            &&& after[i].key == before[i].key
            &&& after[i].value == before[i].value
        }
}

/// The entries are the same, or copies of them, but for the hashes.
pub open spec fn carried_over<K: Hash + Clone, V: Clone, S: BuildHasher>(
    hasher: S,
    before: Seq<Entry<K, V>>,
    after: Seq<Entry<K, V>>,
) -> bool {
    &&& before.len() == after.len()
    &&& forall|i: int|
        0 <= i < before.len() ==> {
            &&& kept_or_rehashed(hasher, before[i], #[trigger] after[i])
            &&& cloned(before[i].key, after[i].key)
            &&& cloned(before[i].value, after[i].value)
        }
}

/// One shard of the cache map: keys, each with the value that was cached for it first.
///
/// The entries stand in the order in which they came. The index finds them by the hashes that
/// the callers give. Where the index grows, it files them anew, under the hashes that the hasher
/// gives.
pub struct RawCacheMapShardInner<K, V> {
    entries: Vec<(K, V)>,
    hashes: Ghost<Seq<u64>>,
    index: HashIndex,
}

impl<K, V> View for RawCacheMapShardInner<K, V> {
    type V = Seq<Entry<K, V>>;

    closed spec fn view(&self) -> Seq<Entry<K, V>> {
        Seq::new(
            self.entries@.len(),
            |i: int| Entry { hash: self.hashes@[i], key: self.entries@[i].0, value: self.entries@[i].1 },
        )
    }
}

impl<K, V> RawCacheMapShardInner<K, V> {
    /// Every entry is in the index, under its hash, and nothing else is.
    pub closed spec fn wf(self) -> bool {
        &&& self.hashes@.len() == self.entries@.len()
        &&& filed(self.index).finite()
        &&& filed(self.index).len() == self.entries@.len()
        &&& forall|hash: u64, slot: usize| #[trigger]
            filed(self.index).contains((hash, slot)) <==> slot < self.entries@.len() && self.hashes@[slot as int]
                == hash
    }

    /// The slots of the entries are filed, each once, and no others are.
    proof fn lemma_filed(self)
        requires
            self.wf(),
        ensures
            filed_once(filed(self.index)),
            forall|slot: usize| #[trigger] holds(filed(self.index), slot) <==> slot < self.entries@.len(),
    {
        assert forall|slot: usize| #[trigger] holds(filed(self.index), slot) <==> slot < self.entries@.len() by {
            if slot < self.entries@.len() {
                assert(filed(self.index).contains((self.hashes@[slot as int], slot)));
            }
        }
    }

    /// An empty shard.
    pub fn new() -> (shard: Self)
        ensures
            shard.wf(),
            shard@ == Seq::<Entry<K, V>>::empty(),
    {
        let shard = RawCacheMapShardInner {
            entries: Vec::new(),
            hashes: Ghost(Seq::empty()),
            index: HashIndex::new(),
        };
        assert(shard@ =~= Seq::<Entry<K, V>>::empty());
        shard
    }

    /// The number of entries for which the index was made.
    pub closed spec fn made_for(self) -> nat {
        room(self.index)
    }

    /// The index was made for one more entry.
    pub open spec fn has_room(self) -> bool {
        self@.len() < self.made_for()
    }
}

impl<K: Hash, V> RawCacheMapShardInner<K, V> {
    /// Adds an entry.
    ///
    /// Where the index has to grow, the other entries are filed anew, under the hashes that the
    /// hasher gives for their keys.
    pub fn insert<S: BuildHasher>(&mut self, hash: u64, key: K, value: V, hasher: &S) -> (slot: usize)
        requires
            old(self).wf(),
            old(self)@.len() < index_limit(),
        ensures
            final(self).wf(),
            slot == old(self)@.len(),
            final(self)@.len() == old(self)@.len() + 1,
            final(self)@.last() == (Entry { hash, key, value }),
            moved(*hasher, old(self)@, final(self)@.drop_last()),
            old(self).has_room() ==> final(self)@.drop_last() == old(self)@,
            final(self).made_for() == old(self).made_for(),
    {
        let slot: usize = self.entries.len();
        let entries = &self.entries;
        let rehash = |slot: usize| -> (hash: u64)
            requires
                slot < entries@.len(),
            ensures
                hashes_to(*hasher, entries@[slot as int].0, hash),
            { hash_key(hasher, &entries[slot].0) };
        self.index.insert(hash, slot, rehash);
        let ghost before = filed(old(self).index);
        let ghost after = filed(self.index);
        let ghost hashes = hashes_of(after, slot + 1);
        proof {
            let others = if before.len() < room(old(self).index) {
                before
            } else {
                choose|others: Set<(u64, usize)>| #[trigger]
                    refiled(before, others, rehash) && after == others.insert((hash, slot))
            };
            old(self).lemma_filed();
            if others != before {
                lemma_refiled(before, others, rehash, slot as int);
            }
            assert forall|i: usize| #[trigger] holds(after, i) <==> i < slot + 1 by {
                if i == slot {
                    assert(after.contains((hash, slot)));
                } else if holds(others, i) {
                    let other = choose|other: u64| #[trigger] others.contains((other, i));
                    assert(after.contains((other, i)));
                } else if holds(after, i) {
                    let other = choose|other: u64| #[trigger] after.contains((other, i));
                    assert(others.contains((other, i)));
                }
            }
            assert(!others.contains((hash, slot))) by {
                assert(!holds(others, slot));
            }
            lemma_hashes_of(after, slot + 1);
            assert forall|i: int| 0 <= i < slot implies others.contains((#[trigger] hashes[i], i as usize)) by {
                assert(after.contains((hashes[i], i as usize)));
            }
        }
        self.entries.push((key, value));
        self.hashes = Ghost(hashes);
        proof {
            assert(after.contains((hash, slot)));
            assert forall|i: int| 0 <= i < slot implies kept_or_rehashed(*hasher, old(self)@[i], #[trigger] self@[i]) by {
                assert(self@[i].hash == hashes[i]);
            }
        }
        slot
    }
}

impl<K: Eq, V> RawCacheMapShardInner<K, V> {
    /// The slot of an entry for the key, looked up under the hash.
    ///
    /// An entry under the hash is found. An entry for the key under another hash may be found or
    /// not.
    pub fn find(&self, hash: u64, key: &K) -> (found: Option<usize>)
        requires
            self.wf(),
        ensures
            found matches Some(slot) ==> slot < self@.len() && (K::obeys_eq_spec()
                ==> self@[slot as int].key.eq_spec(key)),
            found is None && K::obeys_eq_spec() ==> !present(self@, hash, *key),
    {
        let entries = &self.entries;
        let is_key = |slot: usize| -> (is: bool)
            requires
                slot < entries@.len(),
            ensures
                K::obeys_eq_spec() ==> is == entries@[slot as int].0.eq_spec(key),
            { entries[slot].0 == *key };
        let found = self.index.find(hash, is_key);
        proof {
            if found is None && K::obeys_eq_spec() && present(self@, hash, *key) {
                let i = choose|i: int|
                    0 <= i < self@.len() && (#[trigger] self@[i]).hash == hash && self@[i].key.eq_spec(key);
                assert(self.entries.len() == self.entries@.len());
                let slot = i as usize;
                assert(filed(self.index).contains((hash, slot)));
            }
        }
        found
    }

    /// The entry for the key, looked up under the hash.
    pub fn get(&self, hash: u64, key: &K) -> (found: Option<&(K, V)>)
        requires
            self.wf(),
        ensures
            found matches Some(entry) ==> exists|i: int| #[trigger]
                is_entry(self@, i, *entry) && (K::obeys_eq_spec() ==> self@[i].key.eq_spec(key)),
            found is None && K::obeys_eq_spec() ==> !present(self@, hash, *key),
    {
        match self.find(hash, key) {
            Some(slot) => {
                let found = Some(&self.entries[slot]);
                assert(is_entry(self@, slot as int, *found->0));
                found
            },
            None => None,
        }
    }
}

/// The entry at `i` is the given one.
pub open spec fn is_entry<K, V>(entries: Seq<Entry<K, V>>, i: int, entry: (K, V)) -> bool {
    0 <= i < entries.len() && entries[i].key == entry.0 && entries[i].value == entry.1
}

impl<K, V> RawCacheMapShardInner<K, V> {
    /// How many entries there are.
    pub fn len(&self) -> (len: usize)
        requires
            self.wf(),
        ensures
            len == self@.len(),
    {
        self.index.len()
    }

    /// The numbers of entries of which the index can say that it takes them before it has to grow.
    pub closed spec fn capacities(self) -> spec_fn(usize) -> bool {
        |capacity: usize| call_ensures(HashIndex::capacity, (&self.index,), capacity)
    }

    /// The index has to grow before one more entry goes in.
    pub fn is_full(&self) -> (full: bool)
        requires
            self.wf(),
        ensures
            exists|capacity: usize| #[trigger]
                (self.capacities())(capacity) && capacity >= self@.len() && full == (self@.len() == capacity),
    {
        let capacity: usize = self.index.capacity();
        assert((self.capacities())(capacity));
        self.index.len() == capacity
    }

    /// The entry in a slot.
    pub fn entry(&self, slot: usize) -> (entry: &(K, V))
        requires
            slot < self@.len(),
        ensures
            is_entry(self@, slot as int, *entry),
    {
        &self.entries[slot]
    }
}

impl<K: Hash + Clone, V: Clone> RawCacheMapShardInner<K, V> {
    /// A copy with room for one more entry.
    ///
    /// The entries are filed anew, under the hashes that the hasher gives for their keys.
    pub fn grown<S: BuildHasher>(&self, hasher: &S) -> (copy: Self)
        requires
            self.wf(),
            self@.len() < index_limit(),
        ensures
            copy.wf(),
            copy.made_for() == self@.len() + 1,
            carried_over(*hasher, self@, copy@),
    {
        let len: usize = self.entries.len();
        let mut entries: Vec<(K, V)> = Vec::with_capacity(len + 1);
        let mut i: usize = 0;
        while i < len
            invariant
                i <= len,
                len == self.entries@.len(),
                entries@.len() == i,
                forall|j: int|
                    0 <= j < i ==> cloned(self.entries@[j].0, (#[trigger] entries@[j]).0) && cloned(
                        self.entries@[j].1,
                        entries@[j].1,
                    ),
            decreases len - i,
        {
            let entry = &self.entries[i];
            entries.push((entry.0.clone(), entry.1.clone()));
            i = i + 1;
        }
        let copies = &entries;
        let rehash = |slot: usize| -> (hash: u64)
            requires
                slot < copies@.len(),
            ensures
                hashes_to(*hasher, copies@[slot as int].0, hash),
            { hash_key(hasher, &copies[slot].0) };
        let mut index = HashIndex::with_capacity(len + 1);
        index.copy_from(&self.index, rehash);
        proof {
            self.lemma_filed();
            lemma_refiled(filed(self.index), filed(index), rehash, len as int);
            lemma_hashes_of(filed(index), len as int);
        }
        let ghost hashes = hashes_of(filed(index), len as int);
        assert forall|i: int| 0 <= i < len implies hashes[i] == self.hashes@[i] || hashes_to(
            *hasher,
            (#[trigger] entries@[i]).0,
            hashes[i],
        ) by {
            assert(filed(index).contains((hashes[i], i as usize)));
        }
        RawCacheMapShardInner { entries, hashes: Ghost(hashes), index }
    }
}

impl<K: Hash + Eq + Clone, V: Clone> RawCacheMapShardInner<K, V> {
    /// The slot of the entry for the key, looked up under the hash. If there is none, the value is
    /// computed and an entry is added. Where there is one under the hash, `value` is not called.
    ///
    /// A shard that is full is replaced by a copy that has room.
    pub fn find_or_insert<F: FnOnce() -> V, S: BuildHasher>(
        &mut self,
        hash: u64,
        key: &K,
        value: F,
        hasher: &S,
    ) -> (slot: usize)
        requires
            old(self).wf(),
            old(self)@.len() < index_limit(),
            (K::obeys_eq_spec() && present(old(self)@, hash, *key)) || call_requires(value, ()),
        ensures
            final(self).wf(),
            slot < final(self)@.len(),
            forall|entry: (K, V)| #[trigger]
                is_entry(final(self)@, slot as int, entry) ==> found_before(
                    old(self)@,
                    final(self)@,
                    *key,
                    entry,
                ) || inserted(*hasher, old(self)@, final(self)@, hash, *key, gives(value), entry),
            copied_if_full(
                old(self).capacities(),
                *hasher,
                old(self)@,
                final(self)@,
                final(self).made_for(),
            ),
    {
        match self.find(hash, key) {
            Some(slot) => slot,
            None => {
                if self.is_full() {
                    let mut copy = self.grown(hasher);
                    let slot: usize = copy.insert(hash, key.clone(), value(), hasher);
                    *self = copy;
                    slot
                } else {
                    self.insert(hash, key.clone(), value(), hasher)
                }
            },
        }
    }

    /// The entry for the key, looked up under the hash. If there is none, the value is computed
    /// and an entry is added. Where there is one under the hash, `value` is not called.
    pub fn get_or_insert<F: FnOnce() -> V, S: BuildHasher>(
        &mut self,
        hash: u64,
        key: &K,
        value: F,
        hasher: &S,
    ) -> (entry: &(K, V))
        requires
            old(self).wf(),
            old(self)@.len() < index_limit(),
            (K::obeys_eq_spec() && present(old(self)@, hash, *key)) || call_requires(value, ()),
        ensures
            final(self).wf(),
            found_before(old(self)@, final(self)@, *key, *entry) || inserted(
                *hasher,
                old(self)@,
                final(self)@,
                hash,
                *key,
                gives(value),
                *entry,
            ),
            copied_if_full(
                old(self).capacities(),
                *hasher,
                old(self)@,
                final(self)@,
                final(self).made_for(),
            ),
    {
        let slot: usize = self.find_or_insert(hash, key, value, hasher);
        self.entry(slot)
    }
}

/// The hash under which each of the first `count` slots is filed.
spec fn hashes_of(slots: Set<(u64, usize)>, count: int) -> Seq<u64> {
    Seq::new(count as nat, |i: int| choose|hash: u64| #[trigger] slots.contains((hash, i as usize)))
}

/// Slots that are filed anew are the same slots.
proof fn lemma_refiled<H: Fn(usize) -> u64>(
    before: Set<(u64, usize)>,
    after: Set<(u64, usize)>,
    hasher: H,
    count: int,
)
    requires
        refiled(before, after, hasher),
        forall|slot: usize| #[trigger] holds(before, slot) <==> slot < count,
    ensures
        forall|slot: usize| #[trigger] holds(after, slot) <==> slot < count,
{
    assert forall|slot: usize| #[trigger] holds(after, slot) <==> slot < count by {
        if holds(before, slot) {
            let hash = choose|hash: u64| #[trigger] before.contains((hash, slot));
            assert(before.contains((hash, slot)));
        }
        if holds(after, slot) {
            let hash = choose|hash: u64| #[trigger] after.contains((hash, slot));
            assert(after.contains((hash, slot)));
        }
    }
}

/// Where each of these slots is filed, and under one hash only, those hashes say how.
proof fn lemma_hashes_of(slots: Set<(u64, usize)>, count: int)
    requires
        0 <= count <= usize::MAX + 1,
        filed_once(slots),
        forall|slot: usize| #[trigger] holds(slots, slot) <==> slot < count,
    ensures
        forall|hash: u64, slot: usize| #[trigger]
            slots.contains((hash, slot)) <==> slot < count && hashes_of(slots, count)[slot as int] == hash,
{
    assert forall|hash: u64, slot: usize| #[trigger]
        slots.contains((hash, slot)) <==> slot < count && hashes_of(slots, count)[slot as int] == hash by {
        if slots.contains((hash, slot)) {
            assert(holds(slots, slot));
        }
        if slot < count {
            assert(holds(slots, slot));
            assert(slot as int as usize == slot);
            assert(slots.contains((hashes_of(slots, count)[slot as int], slot)));
        }
    }
}

/// The entry for the key was there, and nothing changed.
pub open spec fn found_before<K: PartialEq, V>(
    before: Seq<Entry<K, V>>,
    after: Seq<Entry<K, V>>,
    key: K,
    entry: (K, V),
) -> bool {
    &&& after == before
    &&& exists|i: int| #[trigger]
        is_entry(before, i, entry) && (K::obeys_eq_spec() ==> before[i].key.eq_spec(&key))
}

/// What the function can give.
pub open spec fn gives<V, F: FnOnce() -> V>(value: F) -> spec_fn(V) -> bool {
    |given: V| call_ensures(value, (), given)
}

/// Where an entry was added, it was added to the entries themselves if the index had room, and else
/// to copies of them, with an index that was made for one more.
pub open spec fn copied_if_full<K: Hash, V, S: BuildHasher>(
    capacities: spec_fn(usize) -> bool,
    hasher: S,
    before: Seq<Entry<K, V>>,
    after: Seq<Entry<K, V>>,
    made_for: nat,
) -> bool {
    ||| after == before
    ||| exists|capacity: usize| #[trigger]
        capacities(capacity) && capacity >= before.len() && if before.len() < capacity {
            moved(hasher, before, after.drop_last())
        } else {
            made_for == before.len() + 1
        }
}

/// There was no entry for the key under the hash, and now there is one, behind those that were
/// there. It holds a clone of the key and the value that was computed.
pub open spec fn inserted<K: Hash + PartialEq + Clone, V: Clone, S: BuildHasher>(
    hasher: S,
    before: Seq<Entry<K, V>>,
    after: Seq<Entry<K, V>>,
    hash: u64,
    key: K,
    value: spec_fn(V) -> bool,
    entry: (K, V),
) -> bool {
    &&& K::obeys_eq_spec() ==> !present(before, hash, key)
    &&& cloned(key, entry.0)
    &&& value(entry.1)
    &&& after.len() == before.len() + 1
    &&& carried_over(hasher, before, after.drop_last())
    &&& after.last() == (Entry { hash, key: entry.0, value: entry.1 })
}

impl<K, V> Default for RawCacheMapShardInner<K, V> {
    fn default() -> (shard: Self)
        ensures
            shard.wf(),
            shard@ == Seq::<Entry<K, V>>::empty(),
    {
        Self::new()
    }
}

/// One shard of the cache map, with the hasher for its keys.
pub struct RawCacheMapShard<K, V, S> {
    inner: RawCacheMapShardInner<K, V>,
    hasher: S,
}

impl<K, V, S> View for RawCacheMapShard<K, V, S> {
    type V = Seq<Entry<K, V>>;

    closed spec fn view(&self) -> Seq<Entry<K, V>> {
        self.inner@
    }
}

impl<K, V, S> RawCacheMapShard<K, V, S> {
    /// The shard is well formed.
    pub closed spec fn wf(self) -> bool {
        self.inner.wf()
    }

    /// The numbers of entries of which the index can say that it takes them before it has to grow.
    pub closed spec fn capacities(self) -> spec_fn(usize) -> bool {
        self.inner.capacities()
    }

    /// The number of entries for which the index was made.
    pub closed spec fn made_for(self) -> nat {
        self.inner.made_for()
    }

    /// The hasher for the keys.
    pub closed spec fn hasher(self) -> S {
        self.hasher
    }

    /// An empty shard.
    pub fn new(hasher: S) -> (shard: Self)
        ensures
            shard.wf(),
            shard.hasher() == hasher,
            shard@ == Seq::<Entry<K, V>>::empty(),
    {
        RawCacheMapShard { inner: RawCacheMapShardInner::new(), hasher }
    }
}

impl<K: Hash + Eq + Clone, V: Clone, S: BuildHasher> RawCacheMapShard<K, V, S> {
    /// The entry for the key. If there is none, the value is computed and an entry is added.
    ///
    /// The entry is looked up under the hash that the hasher gives for the key. Where there is one
    /// under that hash, `value` is not called.
    pub fn get_or_insert<F: FnOnce() -> V>(&mut self, key: &K, value: F) -> (entry: &(K, V))
        requires
            old(self).wf(),
            old(self)@.len() < index_limit(),
            call_requires(value, ()) || (K::obeys_eq_spec() && forall|hash: u64| #[trigger]
                hashes_to(old(self).hasher(), *key, hash) ==> present(old(self)@, hash, *key)),
        ensures
            final(self).wf(),
            final(self).hasher() == old(self).hasher(),
            exists|hash: u64| #[trigger]
                hashes_to(old(self).hasher(), *key, hash) && (found_before(
                    old(self)@,
                    final(self)@,
                    *key,
                    *entry,
                ) || inserted(old(self).hasher(), old(self)@, final(self)@, hash, *key, gives(value), *entry)),
            copied_if_full(
                old(self).capacities(),
                old(self).hasher(),
                old(self)@,
                final(self)@,
                final(self).made_for(),
            ),
    {
        let hash: u64 = hash_key(&self.hasher, key);
        assert(hashes_to(old(self).hasher(), *key, hash));
        self.inner.get_or_insert(hash, key, value, &self.hasher)
    }
}

/// An entry that is there stays there, whatever is looked up: first as it is, and as a copy
/// once the shard has grown.
pub proof fn law_entries_stay<K: Hash + PartialEq + Clone, V: Clone, S: BuildHasher>(
    hasher: S,
    before: Seq<Entry<K, V>>,
    after: Seq<Entry<K, V>>,
    hash: u64,
    key: K,
    value: spec_fn(V) -> bool,
    entry: (K, V),
)
    requires
        found_before(before, after, key, entry) || inserted(hasher, before, after, hash, key, value, entry),
    ensures
        outlasts(hasher, before, after),
{
    if found_before(before, after, key, entry) {
        assert(after.take(before.len() as int) =~= before);
    } else {
        assert(after.take(before.len() as int) =~= after.drop_last());
    }
}

/// Keys that are equal have one hash.
pub open spec fn lawful_hasher<K: Hash + PartialEq, S: BuildHasher>(hasher: S) -> bool {
    forall|key: K, other: K, hash: u64, other_hash: u64|
        key.eq_spec(&other) && #[trigger] hashes_to(hasher, key, hash) && #[trigger] hashes_to(
            hasher,
            other,
            other_hash,
        ) ==> hash == other_hash
}

/// The hash of every entry is one that the hasher gives for a key that equals the entry's key.
pub open spec fn hashed_by<K: Hash + PartialEq, V, S: BuildHasher>(hasher: S, entries: Seq<Entry<K, V>>) -> bool {
    forall|i: int| 0 <= i < entries.len() ==> has_hash(hasher, #[trigger] entries[i])
}

/// The hash of the entry is one that the hasher gives for a key that equals the entry's key.
pub open spec fn has_hash<K: Hash + PartialEq, V, S: BuildHasher>(hasher: S, entry: Entry<K, V>) -> bool {
    exists|key: K| #[trigger] hashes_to(hasher, key, entry.hash) && key.eq_spec(&entry.key)
}

/// Entries that are filed under hashes of a lawful hasher have one hash for each key.
pub proof fn law_one_hash_for_each_key<K: Hash + PartialEq + Clone, V, S: BuildHasher>(
    hasher: S,
    entries: Seq<Entry<K, V>>,
    hash: u64,
    key: K,
)
    requires
        lawful_key::<K>(),
        lawful_hasher::<K, S>(hasher),
        hashed_by(hasher, entries),
        hashes_to(hasher, key, hash),
    ensures
        hashed_alike(entries, hash, key),
        forall|other: u64| #[trigger] hashes_to(hasher, key, other) ==> other == hash,
{
    reveal(vstd::laws_eq::obeys_eq_spec_properties);
    assert(cloned(key, key));
    assert forall|i: int| 0 <= i < entries.len() && (#[trigger] entries[i]).key.eq_spec(&key) implies
        entries[i].hash == hash by {
        assert(has_hash(hasher, entries[i]));
        let witness = choose|key: K| #[trigger]
            hashes_to(hasher, key, entries[i].hash) && key.eq_spec(&entries[i].key);
        assert(witness.eq_spec(&key));
    }
}

/// A lookup under the hash that the hasher gives keeps every entry filed under a hash that the
/// hasher gives for its key, and under the hash under which it was filed.
pub proof fn law_entries_stay_hashed<K: Hash + PartialEq + Clone, V: Clone, S: BuildHasher>(
    hasher: S,
    before: Seq<Entry<K, V>>,
    after: Seq<Entry<K, V>>,
    hash: u64,
    key: K,
    value: spec_fn(V) -> bool,
    entry: (K, V),
)
    requires
        lawful_key::<K>(),
        lawful_hasher::<K, S>(hasher),
        hashed_by(hasher, before),
        hashes_to(hasher, key, hash),
        found_before(before, after, key, entry) || inserted(hasher, before, after, hash, key, value, entry),
    ensures
        hashed_by(hasher, after),
        forall|i: int| 0 <= i < before.len() ==> (#[trigger] after[i]).hash == before[i].hash,
{
    if inserted(hasher, before, after, hash, key, value, entry) {
        let carried = after.drop_last();
        lemma_push_keeps_hashed(hasher, before, carried, key, after.last());
        assert(carried.push(after.last()) =~= after);
        assert forall|i: int| 0 <= i < before.len() implies (#[trigger] after[i]).hash == before[i].hash by {
            assert(after[i] == carried[i]);
        }
    }
}

/// A lookup under the hash that the hasher gives never gives a key a second entry.
pub proof fn law_entries_stay_distinct<K: Hash + PartialEq + Clone, V: Clone, S: BuildHasher>(
    hasher: S,
    before: Seq<Entry<K, V>>,
    after: Seq<Entry<K, V>>,
    hash: u64,
    key: K,
    value: spec_fn(V) -> bool,
    entry: (K, V),
)
    requires
        lawful_key::<K>(),
        lawful_hasher::<K, S>(hasher),
        distinct(before),
        hashed_by(hasher, before),
        hashes_to(hasher, key, hash),
        found_before(before, after, key, entry) || inserted(hasher, before, after, hash, key, value, entry),
    ensures
        distinct(after),
{
    if inserted(hasher, before, after, hash, key, value, entry) {
        law_one_hash_for_each_key(hasher, before, hash, key);
        assert(K::obeys_eq_spec());
        assert(!known(before, key));
        lemma_push_keeps_distinct(hasher, before, after.drop_last(), key, after.last());
        assert(after.drop_last().push(after.last()) =~= after);
    }
}

/// An entry for a key that has none keeps the entries distinct, also where they are copies.
pub proof fn lemma_push_keeps_distinct<K: Hash + PartialEq + Clone, V: Clone, S: BuildHasher>(
    hasher: S,
    entries: Seq<Entry<K, V>>,
    carried: Seq<Entry<K, V>>,
    key: K,
    entry: Entry<K, V>,
)
    requires
        lawful_key::<K>(),
        distinct(entries),
        carried_over(hasher, entries, carried),
        !known(entries, key),
        cloned(key, entry.key),
    ensures
        distinct(carried.push(entry)),
{
    reveal(vstd::laws_eq::obeys_eq_spec_properties);
    let after = carried.push(entry);
    assert forall|i: int, j: int| 0 <= i < j < after.len() implies !(#[trigger] after[i]).key.eq_spec(
        &(#[trigger] after[j]).key,
    ) by {
        assert(after[i] == carried[i]);
        assert(entries[i].key.eq_spec(&after[i].key));
        if j < carried.len() {
            assert(after[j] == carried[j]);
            assert(entries[j].key.eq_spec(&after[j].key));
            assert(after[j].key.eq_spec(&entries[j].key));
            assert(!entries[i].key.eq_spec(&entries[j].key));
        } else {
            assert(key.eq_spec(&entry.key));
            assert(entry.key.eq_spec(&key));
            assert(!entries[i].key.eq_spec(&key));
        }
    }
}

/// Entries that are filed under hashes of the hasher stay so where they are copies and one more is
/// added under a hash of the hasher, and none of them changes its hash.
pub proof fn lemma_push_keeps_hashed<K: Hash + PartialEq + Clone, V: Clone, S: BuildHasher>(
    hasher: S,
    entries: Seq<Entry<K, V>>,
    carried: Seq<Entry<K, V>>,
    key: K,
    entry: Entry<K, V>,
)
    requires
        lawful_key::<K>(),
        lawful_hasher::<K, S>(hasher),
        hashed_by(hasher, entries),
        carried_over(hasher, entries, carried),
        hashes_to(hasher, key, entry.hash),
        cloned(key, entry.key),
    ensures
        hashed_by(hasher, carried.push(entry)),
        forall|i: int| 0 <= i < entries.len() ==> (#[trigger] carried[i]).hash == entries[i].hash,
{
    reveal(vstd::laws_eq::obeys_eq_spec_properties);
    let after = carried.push(entry);
    assert forall|i: int| 0 <= i < entries.len() implies (#[trigger] carried[i]).hash == entries[i].hash by {
        assert(has_hash(hasher, entries[i]));
        let witness = choose|key: K| #[trigger]
            hashes_to(hasher, key, entries[i].hash) && key.eq_spec(&entries[i].key);
        assert(entries[i].key.eq_spec(&carried[i].key));
        assert(witness.eq_spec(&carried[i].key));
    }
    assert forall|i: int| 0 <= i < after.len() implies has_hash(hasher, #[trigger] after[i]) by {
        if i < entries.len() {
            assert(has_hash(hasher, entries[i]));
            let witness = choose|key: K| #[trigger]
                hashes_to(hasher, key, entries[i].hash) && key.eq_spec(&entries[i].key);
            assert(after[i] == carried[i]);
            assert(entries[i].key.eq_spec(&carried[i].key));
            assert(hashes_to(hasher, witness, after[i].hash) && witness.eq_spec(&after[i].key));
        } else {
            assert(hashes_to(hasher, key, after[i].hash) && key.eq_spec(&after[i].key));
        }
    }
}

/// Once a key was looked up under a hash, it is found again under that hash: the second lookup
/// gives the entry that the first one gave, and computes no value, for there is an entry.
pub proof fn law_second_lookup_agrees<
    K: Hash + PartialEq + Clone,
    V: Clone,
    S: BuildHasher,
>(
    hasher: S,
    before: Seq<Entry<K, V>>,
    between: Seq<Entry<K, V>>,
    after: Seq<Entry<K, V>>,
    hash: u64,
    key: K,
    value: spec_fn(V) -> bool,
    entry: (K, V),
    other_value: spec_fn(V) -> bool,
    other_entry: (K, V),
)
    requires
        lawful_key::<K>(),
        distinct(before),
        hashed_alike(before, hash, key),
        found_before(before, between, key, entry) || inserted(hasher, before, between, hash, key, value, entry),
        found_before(between, after, key, other_entry) || inserted(
            hasher,
            between,
            after,
            hash,
            key,
            other_value,
            other_entry,
        ),
    ensures
        present(between, hash, key),
        after == between,
        other_entry == entry,
{
    reveal(vstd::laws_eq::obeys_eq_spec_properties);
    let added = inserted(hasher, before, between, hash, key, value, entry);
    let at = if added {
        between.len() - 1
    } else {
        choose|i: int| #[trigger] is_entry(before, i, entry) && before[i].key.eq_spec(&key)
    };
    if added {
        assert(K::obeys_eq_spec());
        assert(!known(before, key));
        assert(key.eq_spec(&entry.0));
        lemma_push_keeps_distinct(hasher, before, between.drop_last(), key, between.last());
        assert(between.drop_last().push(between.last()) =~= between);
    }
    assert(between[at].hash == hash && between[at].key.eq_spec(&key));
    assert(present(between, hash, key));
    let other = choose|i: int| #[trigger] is_entry(between, i, other_entry) && between[i].key.eq_spec(&key);
    assert(key.eq_spec(&between[at].key));
    assert(key.eq_spec(&between[other].key));
    assert(other == at);
}

/// What was cached for a key is what is found for it ever after.
///
/// `states` are the entries at successive times, each of which carries over those before. The
/// entry `at` is one that the key had at the first of these times, and `found` is what a lookup
/// of the key at the last of them gives: it is the entry in the same place, the entries stay as
/// they are, and the value is the one that was cached, where a clone of a value is that value.
pub proof fn law_cached_value_is_found<K: Hash + PartialEq + Clone, V: Clone, S: BuildHasher>(
    hasher: S,
    states: Seq<Seq<Entry<K, V>>>,
    at: int,
    key: K,
    hash: u64,
    value: spec_fn(V) -> bool,
    after: Seq<Entry<K, V>>,
    found: (K, V),
)
    requires
        lawful_key::<K>(),
        lawful_hasher::<K, S>(hasher),
        states.len() > 0,
        forall|i: int| 0 <= i < states.len() - 1 ==> #[trigger] outlasts(hasher, states[i], states[i + 1]),
        0 <= at < states[0].len(),
        states[0][at].key.eq_spec(&key),
        distinct(states.last()),
        hashed_by(hasher, states.last()),
        hashes_to(hasher, key, hash),
        found_before(states.last(), after, key, found) || inserted(
            hasher,
            states.last(),
            after,
            hash,
            key,
            value,
            found,
        ),
    ensures
        after == states.last(),
        is_entry(after, at, found),
        found.0.eq_spec(&key),
        faithful_clone::<V>() ==> found.1 == states[0][at].value,
{
    reveal(vstd::laws_eq::obeys_eq_spec_properties);
    let last = states.last();
    lemma_entry_outlasts(hasher, states, at, states.len() - 1);
    law_one_hash_for_each_key(hasher, last, hash, key);
    assert(states[0][at].key.eq_spec(&last[at].key));
    assert(last[at].key.eq_spec(&states[0][at].key));
    assert(last[at].key.eq_spec(&key));
    assert(present(last, hash, key));
    let place = choose|i: int| #[trigger] is_entry(last, i, found) && last[i].key.eq_spec(&key);
    assert(key.eq_spec(&last[at].key));
    assert(key.eq_spec(&last[place].key));
    assert(last[place].hash == hash && last[at].hash == hash);
    assert(place == at);
}

/// The entries of an earlier time are there at a later one.
pub open spec fn outlasts<K: Hash + Clone, V: Clone, S: BuildHasher>(
    hasher: S,
    earlier: Seq<Entry<K, V>>,
    later: Seq<Entry<K, V>>,
) -> bool {
    earlier.len() <= later.len() && carried_over(hasher, earlier, later.take(earlier.len() as int))
}

/// An entry stays in its place, for a key that equals its key.
proof fn lemma_entry_outlasts<K: Hash + PartialEq + Clone, V: Clone, S: BuildHasher>(
    hasher: S,
    states: Seq<Seq<Entry<K, V>>>,
    at: int,
    time: int,
)
    requires
        lawful_key::<K>(),
        forall|i: int| 0 <= i < states.len() - 1 ==> #[trigger] outlasts(hasher, states[i], states[i + 1]),
        0 <= time < states.len(),
        0 <= at < states[0].len(),
    ensures
        at < states[time].len(),
        states[0][at].key.eq_spec(&states[time][at].key),
        faithful_clone::<V>() ==> states[time][at].value == states[0][at].value,
    decreases time,
{
    reveal(vstd::laws_eq::obeys_eq_spec_properties);
    if time == 0 {
        assert(cloned(states[0][at].key, states[0][at].key));
    } else {
        lemma_entry_outlasts(hasher, states, at, time - 1);
        let earlier = states[time - 1];
        let later = states[time];
        assert(outlasts(hasher, states[time - 1], states[time - 1 + 1]));
        assert(later.take(earlier.len() as int)[at] == later[at]);
        assert(earlier[at].key.eq_spec(&later[at].key));
    }
}

} // verus!
