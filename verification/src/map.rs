//! The cache map.

use core::hash::{BuildHasher, Hash};
use hashbrown::hash_map::DefaultHashBuilder;
use vstd::arithmetic::power2::pow2;
use vstd::prelude::*;
use vstd::std_specs::cmp::PartialEqSpec;

use crate::hash::{hash_key, hashes_to};
use crate::index::index_limit;
use crate::raw::{
    copied_if_full, distinct, found_before, gives, hashed_alike, hashed_by, inserted, law_entries_stay_distinct,
    law_entries_stay_hashed, law_one_hash_for_each_key, law_second_lookup_agrees, lawful_hasher, lawful_key, present,
    Entry, RawCacheMapShard, RawCacheMapShardInner,
};
use crate::sharding::{
    default_shard_amount, law_shard_exists, law_shard_has_hash, rounds_up, shard_index, shard_of, shard_shift,
};

verus! {

/// A shard with the hasher of hashbrown.
pub type CacheMapShard<K, V, S = DefaultHashBuilder> = RawCacheMapShard<K, V, S>;

/// A cache map: keys, each with the value that was cached for it first, split over shards.
pub struct CacheMap<K, V, S = DefaultHashBuilder> {
    shift: u32,
    shards: Vec<RawCacheMapShardInner<K, V>>,
    hasher: S,
}

impl<K, V, S> CacheMap<K, V, S> {
    /// There are as many shards as there are numbers that the shift leaves of a hash, and more
    /// than one, and each of them is well formed.
    pub closed spec fn wf(self) -> bool {
        &&& self.shift < usize::BITS
        &&& self.shards@.len() == pow2((usize::BITS - self.shift) as nat)
        &&& forall|i: int| 0 <= i < self.shards@.len() ==> (#[trigger] self.shards@[i]).wf()
    }

    /// The entries of each shard.
    pub closed spec fn shards(self) -> Seq<Seq<Entry<K, V>>> {
        Seq::new(self.shards@.len(), |i: int| self.shards@[i]@)
    }

    /// The shard that the hash belongs to.
    pub closed spec fn shard_of(self, hash: u64) -> int {
        shard_of(hash, self.shift)
    }

    /// By how much a hash is shifted to the right to give the number of its shard.
    pub closed spec fn shift(self) -> u32 {
        self.shift
    }

    /// The numbers of entries of which the index of a shard can say that it takes them before it
    /// has to grow.
    pub closed spec fn capacities(self, i: int) -> spec_fn(usize) -> bool {
        self.shards@[i].capacities()
    }

    /// The number of entries for which the index of a shard was made.
    pub closed spec fn made_for(self, i: int) -> nat {
        self.shards@[i].made_for()
    }

    /// The hasher for the keys.
    pub closed spec fn hasher(self) -> S {
        self.hasher
    }

    /// An empty map for a machine that runs `parallelism` threads at once.
    pub fn with_hasher(hasher: S, parallelism: usize) -> (map: Self)
        requires
            1 <= parallelism,
            4 * parallelism <= usize::MAX / 2 + 1,
        ensures
            map.wf(),
            map.hasher() == hasher,
            rounds_up(4 * parallelism, map.shards().len() as int),
            forall|i: int|
                0 <= i < map.shards().len() ==> (#[trigger] map.shards()[i]) == Seq::<Entry<K, V>>::empty(),
    {
        let amount: usize = default_shard_amount(parallelism);
        let shift: u32 = shard_shift(amount);
        let mut shards: Vec<RawCacheMapShardInner<K, V>> = Vec::with_capacity(amount);
        while shards.len() < amount
            invariant
                shards@.len() <= amount,
                forall|i: int|
                    0 <= i < shards@.len() ==> (#[trigger] shards@[i]).wf() && shards@[i]@ == Seq::<
                        Entry<K, V>,
                    >::empty(),
            decreases amount - shards@.len(),
        {
            shards.push(RawCacheMapShardInner::new());
        }
        proof {
            vstd::arithmetic::power2::lemma2_to64();
        }
        CacheMap { shift, shards, hasher }
    }
}

impl<K: Hash + Eq + Clone, V: Clone, S: BuildHasher> CacheMap<K, V, S> {
    /// The entry for the key, looked up under the hash. If there is none, the value is computed
    /// and an entry is added to the shard that the hash belongs to. Where there is one under the
    /// hash, `value` is not called.
    pub fn get_or_insert_hashed<F: FnOnce() -> V>(&mut self, hash: u64, key: &K, value: F) -> (entry: &(K, V))
        requires
            old(self).wf(),
            old(self).shards()[old(self).shard_of(hash)].len() < index_limit(),
            (K::obeys_eq_spec() && present(old(self).shards()[old(self).shard_of(hash)], hash, *key))
                || call_requires(value, ()),
        ensures
            final(self).wf(),
            final(self).hasher() == old(self).hasher(),
            looked_up(*old(self), *final(self), hash, *key, gives(value), *entry),
    {
        let index: usize = shard_index(hash, self.shift);
        let slot: usize = self.shards[index].find_or_insert(hash, key, value, &self.hasher);
        assert(self.shards() =~= old(self).shards().update(index as int, self.shards()[index as int]));
        self.shards[index].entry(slot)
    }
}

/// The key was looked up under the hash, in the shard that the hash belongs to: there was an
/// entry for it, or there is one now. Nothing else changed.
pub open spec fn looked_up<K: Hash + PartialEq + Clone, V: Clone, S: BuildHasher>(
    before: CacheMap<K, V, S>,
    after: CacheMap<K, V, S>,
    hash: u64,
    key: K,
    value: spec_fn(V) -> bool,
    entry: (K, V),
) -> bool {
    let i = before.shard_of(hash);
    let old_shard = before.shards()[i];
    let new_shard = after.shards()[i];
    &&& 0 <= i < before.shards().len()
    &&& after.shards() == before.shards().update(i, new_shard)
    &&& forall|other: u64| #[trigger] after.shard_of(other) == before.shard_of(other)
    &&& found_before(old_shard, new_shard, key, entry) || inserted(
        before.hasher(),
        old_shard,
        new_shard,
        hash,
        key,
        value,
        entry,
    )
    &&& copied_if_full(before.capacities(i), before.hasher(), old_shard, new_shard, after.made_for(i))
}

impl<K: Hash + Eq + Clone, V: Clone, S: BuildHasher> CacheMap<K, V, S> {
    /// The entry for the key. If there is none, the value is computed and an entry is added.
    ///
    /// The entry is looked up under the hash that the hasher gives for the key. Where there is one
    /// under that hash, `value` is not called.
    pub fn get_or_insert<F: FnOnce() -> V>(&mut self, key: &K, value: F) -> (entry: &(K, V))
        requires
            old(self).wf(),
            forall|i: int|
                0 <= i < old(self).shards().len() ==> (#[trigger] old(self).shards()[i]).len() < index_limit(),
            call_requires(value, ()) || (K::obeys_eq_spec() && forall|hash: u64| #[trigger]
                hashes_to(old(self).hasher(), *key, hash) ==> present(
                    old(self).shards()[old(self).shard_of(hash)],
                    hash,
                    *key,
                )),
        ensures
            final(self).wf(),
            final(self).hasher() == old(self).hasher(),
            exists|hash: u64| #[trigger]
                hashes_to(old(self).hasher(), *key, hash) && looked_up(
                    *old(self),
                    *final(self),
                    hash,
                    *key,
                    gives(value),
                    *entry,
                ),
    {
        let hash: u64 = hash_key(&self.hasher, key);
        proof {
            assert(hashes_to(old(self).hasher(), *key, hash));
            law_shard_exists(hash, self.shift);
        }
        self.get_or_insert_hashed(hash, key, value)
    }
}

/// Every hash belongs to one of the shards of a map: to the one whose number is left of it when the
/// seven topmost bits of as much of it as fits in a word are taken off and the rest is shifted.
pub proof fn law_hash_has_shard<K, V, S>(map: CacheMap<K, V, S>, hash: u64)
    requires
        map.wf(),
    ensures
        map.shift() < usize::BITS,
        map.shards().len() == pow2((usize::BITS - map.shift()) as nat),
        map.shard_of(hash) == shard_of(hash, map.shift()),
        0 <= map.shard_of(hash) < map.shards().len(),
{
    law_shard_exists(hash, map.shift);
}

/// Every shard of a map is the shard of some hash, unless there are so many that the bits that are
/// left of a hash cannot tell them apart.
pub proof fn law_shard_of_map_has_hash<K, V, S>(map: CacheMap<K, V, S>, i: int)
    requires
        map.wf(),
        map.shards().len() <= pow2((usize::BITS - 7) as nat),
        0 <= i < map.shards().len(),
    ensures
        exists|hash: u64| #[trigger] map.shard_of(hash) == i,
{
    if map.shift < 7 {
        vstd::arithmetic::power2::lemma_pow2_strictly_increases(
            (usize::BITS - 7) as nat,
            (usize::BITS - map.shift) as nat,
        );
    }
    law_shard_has_hash(i, map.shift);
    let hash = choose|hash: u64| #[trigger] shard_of(hash, map.shift) == i;
    assert(map.shard_of(hash) == i);
}

/// Every entry is in the shard that its hash belongs to.
pub open spec fn placed<K, V, S>(map: CacheMap<K, V, S>) -> bool {
    forall|i: int, j: int|
        0 <= i < map.shards().len() && 0 <= j < map.shards()[i].len() ==> map.shard_of(
            (#[trigger] map.shards()[i][j]).hash,
        ) == i
}

/// Once a key was looked up under a hash, it is found again under that hash: the second lookup
/// gives the entry that the first one gave, computes no value, for there is an entry, and changes
/// nothing.
pub proof fn law_second_map_lookup_agrees<
    K: Hash + PartialEq + Clone,
    V: Clone,
    S: BuildHasher,
>(
    before: CacheMap<K, V, S>,
    between: CacheMap<K, V, S>,
    after: CacheMap<K, V, S>,
    hash: u64,
    key: K,
    value: spec_fn(V) -> bool,
    entry: (K, V),
    other_value: spec_fn(V) -> bool,
    other_entry: (K, V),
)
    requires
        lawful_key::<K>(),
        distinct(before.shards()[before.shard_of(hash)]),
        hashed_alike(before.shards()[before.shard_of(hash)], hash, key),
        looked_up(before, between, hash, key, value, entry),
        looked_up(between, after, hash, key, other_value, other_entry),
        between.hasher() == before.hasher(),
    ensures
        present(between.shards()[between.shard_of(hash)], hash, key),
        after.shards() == between.shards(),
        other_entry == entry,
{
    let i = before.shard_of(hash);
    assert(between.shard_of(hash) == i);
    law_second_lookup_agrees(
        before.hasher(),
        before.shards()[i],
        between.shards()[i],
        after.shards()[i],
        hash,
        key,
        value,
        entry,
        other_value,
        other_entry,
    );
    assert(after.shards() =~= between.shards());
}

/// In every shard the entries are distinct, and filed under hashes that the hasher gives.
pub open spec fn well_hashed<K: Hash + PartialEq, V, S: BuildHasher>(map: CacheMap<K, V, S>) -> bool {
    forall|i: int|
        0 <= i < map.shards().len() ==> distinct(#[trigger] map.shards()[i]) && hashed_by(
            map.hasher(),
            map.shards()[i],
        )
}

/// A lookup under the hash that the hasher gives keeps the map well hashed.
pub proof fn law_map_stays_well_hashed<K: Hash + PartialEq + Clone, V: Clone, S: BuildHasher>(
    before: CacheMap<K, V, S>,
    after: CacheMap<K, V, S>,
    hash: u64,
    key: K,
    value: spec_fn(V) -> bool,
    entry: (K, V),
)
    requires
        lawful_key::<K>(),
        lawful_hasher::<K, S>(before.hasher()),
        well_hashed(before),
        after.hasher() == before.hasher(),
        hashes_to(before.hasher(), key, hash),
        looked_up(before, after, hash, key, value, entry),
    ensures
        well_hashed(after),
{
    let i = before.shard_of(hash);
    law_entries_stay_hashed(
        before.hasher(),
        before.shards()[i],
        after.shards()[i],
        hash,
        key,
        value,
        entry,
    );
    law_entries_stay_distinct(
        before.hasher(),
        before.shards()[i],
        after.shards()[i],
        hash,
        key,
        value,
        entry,
    );
    assert forall|j: int| 0 <= j < after.shards().len() implies distinct(#[trigger] after.shards()[j])
        && hashed_by(after.hasher(), after.shards()[j]) by {
        if j != i {
            assert(after.shards()[j] == before.shards()[j]);
        }
    }
}

/// A lookup under the hash that the hasher gives leaves every entry in the shard that its hash
/// belongs to.
pub proof fn law_entries_stay_placed<K: Hash + PartialEq + Clone, V: Clone, S: BuildHasher>(
    before: CacheMap<K, V, S>,
    after: CacheMap<K, V, S>,
    hash: u64,
    key: K,
    value: spec_fn(V) -> bool,
    entry: (K, V),
)
    requires
        lawful_key::<K>(),
        lawful_hasher::<K, S>(before.hasher()),
        well_hashed(before),
        placed(before),
        hashes_to(before.hasher(), key, hash),
        looked_up(before, after, hash, key, value, entry),
    ensures
        placed(after),
{
    let at = before.shard_of(hash);
    law_entries_stay_hashed(
        before.hasher(),
        before.shards()[at],
        after.shards()[at],
        hash,
        key,
        value,
        entry,
    );
    assert forall|i: int, j: int|
        0 <= i < after.shards().len() && 0 <= j < after.shards()[i].len() implies after.shard_of(
        (#[trigger] after.shards()[i][j]).hash,
    ) == i by {
        let old_shard = before.shards()[i];
        let new_shard = after.shards()[i];
        if j < old_shard.len() {
            assert(old_shard[j].hash == new_shard[j].hash);
            assert(before.shard_of(before.shards()[i][j].hash) == i);
        } else {
            assert(new_shard[j] == new_shard.last());
        }
    }
}

/// Once a key was looked up, it is found again: the second lookup gives the entry that the first
/// one gave, computes no value, for there is an entry, and changes nothing.
pub proof fn law_second_get_agrees<
    K: Hash + PartialEq + Clone,
    V: Clone,
    S: BuildHasher,
>(
    before: CacheMap<K, V, S>,
    between: CacheMap<K, V, S>,
    after: CacheMap<K, V, S>,
    hash: u64,
    other_hash: u64,
    key: K,
    value: spec_fn(V) -> bool,
    entry: (K, V),
    other_value: spec_fn(V) -> bool,
    other_entry: (K, V),
)
    requires
        lawful_key::<K>(),
        lawful_hasher::<K, S>(before.hasher()),
        well_hashed(before),
        hashes_to(before.hasher(), key, hash),
        hashes_to(before.hasher(), key, other_hash),
        looked_up(before, between, hash, key, value, entry),
        looked_up(between, after, other_hash, key, other_value, other_entry),
        between.hasher() == before.hasher(),
    ensures
        present(between.shards()[between.shard_of(other_hash)], other_hash, key),
        after.shards() == between.shards(),
        other_entry == entry,
{
    law_one_hash_for_each_key(before.hasher(), before.shards()[before.shard_of(hash)], hash, key);
    law_second_map_lookup_agrees(
        before,
        between,
        after,
        hash,
        key,
        value,
        entry,
        other_value,
        other_entry,
    );
}

} // verus!
