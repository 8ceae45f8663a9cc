//! What holds over any number of lookups.

use core::hash::{BuildHasher, Hash};
use vstd::prelude::*;
use vstd::std_specs::cmp::PartialEqSpec;

use crate::hash::hashes_to;
use crate::map::{looked_up, CacheMap};
use crate::raw::{
    distinct, faithful_clone, found_before, hashed_by, inserted, is_entry, known, law_entries_stay_distinct,
    law_entries_stay_hashed, law_one_hash_for_each_key, lawful_hasher, lawful_key, present, Entry,
};

verus! {

/// One lookup.
#[verifier::reject_recursive_types(V)]
pub ghost struct Lookup<K, V> {
    /// The key.
    pub key: K,
    /// The hash that the hasher gave for it.
    pub hash: u64,
    /// What the function can give that computes a value for the key.
    pub value: spec_fn(V) -> bool,
    /// The entry that the lookup gave.
    pub entry: (K, V),
}

/// The lookup leads from the entries before to those after.
pub open spec fn answered<K: Hash + PartialEq + Clone, V: Clone, S: BuildHasher>(
    hasher: S,
    before: Seq<Entry<K, V>>,
    lookup: Lookup<K, V>,
    after: Seq<Entry<K, V>>,
) -> bool {
    &&& hashes_to(hasher, lookup.key, lookup.hash)
    &&& found_before(before, after, lookup.key, lookup.entry) || inserted(
        hasher,
        before,
        after,
        lookup.hash,
        lookup.key,
        lookup.value,
        lookup.entry,
    )
}

/// The lookups lead from an empty shard through these states.
pub open spec fn history<K: Hash + PartialEq + Clone, V: Clone, S: BuildHasher>(
    hasher: S,
    states: Seq<Seq<Entry<K, V>>>,
    lookups: Seq<Lookup<K, V>>,
) -> bool {
    &&& states.len() == lookups.len() + 1
    &&& states[0] == Seq::<Entry<K, V>>::empty()
    &&& forall|i: int|
        0 <= i < lookups.len() ==> #[trigger] answered(hasher, states[i], lookups[i], states[i + 1])
}

/// The value is kept for the key.
pub open spec fn held<K: PartialEq, V>(entries: Seq<Entry<K, V>>, key: K, value: V) -> bool {
    exists|i: int|
        0 <= i < entries.len() && (#[trigger] entries[i]).key.eq_spec(&key) && entries[i].value == value
}

/// Keys and hashes are lawful, and a clone of a value is that value.
pub open spec fn lawful<K: Hash + PartialEq + Clone, V: Clone, S: BuildHasher>(hasher: S) -> bool {
    &&& lawful_key::<K>()
    &&& lawful_hasher::<K, S>(hasher)
    &&& faithful_clone::<V>()
}

/// No two entries are for one key, and each is filed under a hash that the hasher gives for its
/// key.
pub open spec fn in_order<K: Hash + PartialEq, V, S: BuildHasher>(hasher: S, entries: Seq<Entry<K, V>>) -> bool {
    distinct(entries) && hashed_by(hasher, entries)
}

/// The function can give one value at the most.
pub open spec fn single<V>(value: spec_fn(V) -> bool) -> bool {
    forall|one: V, other: V| #[trigger] value(one) && #[trigger] value(other) ==> one == other
}

/// What is kept for equal keys is one value.
pub proof fn lemma_one_value_held<K: PartialEq + Clone, V>(
    entries: Seq<Entry<K, V>>,
    key: K,
    value: V,
    other_key: K,
    other: V,
)
    requires
        lawful_key::<K>(),
        distinct(entries),
        held(entries, key, value),
        held(entries, other_key, other),
        key.eq_spec(&other_key),
    ensures
        value == other,
{
    reveal(vstd::laws_eq::obeys_eq_spec_properties);
    let i = choose|i: int|
        0 <= i < entries.len() && (#[trigger] entries[i]).key.eq_spec(&key) && entries[i].value == value;
    let j = choose|j: int|
        0 <= j < entries.len() && (#[trigger] entries[j]).key.eq_spec(&other_key) && entries[j].value == other;
    assert(entries[i].key.eq_spec(&other_key));
    assert(other_key.eq_spec(&entries[j].key));
    assert(other_key.eq_spec(&entries[i].key));
    assert(entries[i].key.eq_spec(&entries[j].key));
    assert(entries[j].key.eq_spec(&entries[i].key));
}

/// What one lookup does to what is kept.
pub proof fn lemma_answer<K: Hash + PartialEq + Clone, V: Clone, S: BuildHasher>(
    hasher: S,
    before: Seq<Entry<K, V>>,
    lookup: Lookup<K, V>,
    after: Seq<Entry<K, V>>,
)
    requires
        lawful::<K, V, S>(hasher),
        in_order(hasher, before),
        answered(hasher, before, lookup, after),
    ensures
        in_order(hasher, after),
        lookup.entry.0.eq_spec(&lookup.key),
        held(after, lookup.key, lookup.entry.1),
        known(before, lookup.key) <==> present(before, lookup.hash, lookup.key),
        known(before, lookup.key) ==> after == before,
        !known(before, lookup.key) ==> after.len() == before.len() + 1 && (lookup.value)(lookup.entry.1),
        forall|key: K, value: V|
            #![trigger held(after, key, value)]
            #![trigger held(before, key, value)]
            held(after, key, value) <==> held(before, key, value) || (!known(before, lookup.key)
                && lookup.key.eq_spec(&key) && value == lookup.entry.1),
{
    reveal(vstd::laws_eq::obeys_eq_spec_properties);
    law_entries_stay_distinct(
        hasher,
        before,
        after,
        lookup.hash,
        lookup.key,
        lookup.value,
        lookup.entry,
    );
    law_entries_stay_hashed(
        hasher,
        before,
        after,
        lookup.hash,
        lookup.key,
        lookup.value,
        lookup.entry,
    );
    law_one_hash_for_each_key(hasher, before, lookup.hash, lookup.key);
    if inserted(hasher, before, after, lookup.hash, lookup.key, lookup.value, lookup.entry) {
        let carried = after.drop_last();
        assert(lookup.key.eq_spec(&lookup.entry.0));
        assert(!known(before, lookup.key));
        assert forall|key: K, value: V| #[trigger]
            held(after, key, value) <==> held(before, key, value) || (lookup.key.eq_spec(&key) && value
                == lookup.entry.1) by {
            if held(after, key, value) {
                let i = choose|i: int|
                    0 <= i < after.len() && (#[trigger] after[i]).key.eq_spec(&key) && after[i].value == value;
                if i < before.len() {
                    assert(after[i] == carried[i]);
                    assert(before[i].key.eq_spec(&after[i].key));
                    assert(before[i].key.eq_spec(&key));
                } else {
                    assert(after[i] == after.last());
                }
            }
            if held(before, key, value) {
                let i = choose|i: int|
                    0 <= i < before.len() && (#[trigger] before[i]).key.eq_spec(&key) && before[i].value == value;
                assert(after[i] == carried[i]);
                assert(before[i].key.eq_spec(&after[i].key));
                assert(after[i].key.eq_spec(&before[i].key));
                assert(after[i].key.eq_spec(&key));
            }
            if lookup.key.eq_spec(&key) && value == lookup.entry.1 {
                assert(after[before.len() as int] == after.last());
                assert(lookup.entry.0.eq_spec(&lookup.key));
                assert(lookup.entry.0.eq_spec(&key));
            }
        }
        assert(lookup.key.eq_spec(&lookup.key));
    } else {
        let i = choose|i: int| #[trigger]
            is_entry(before, i, lookup.entry) && before[i].key.eq_spec(&lookup.key);
        assert(before[i].key.eq_spec(&lookup.key));
        assert(known(before, lookup.key));
    }
}

/// Every state of a history is in order, and what the lookups so far gave is what is kept.
pub proof fn lemma_history<K: Hash + PartialEq + Clone, V: Clone, S: BuildHasher>(
    hasher: S,
    states: Seq<Seq<Entry<K, V>>>,
    lookups: Seq<Lookup<K, V>>,
    at: int,
)
    requires
        lawful::<K, V, S>(hasher),
        history(hasher, states, lookups),
        0 <= at < states.len(),
    ensures
        in_order(hasher, states[at]),
        forall|j: int|
            0 <= j < at ==> held(states[at], (#[trigger] lookups[j]).key, lookups[j].entry.1),
        forall|key: K| #[trigger]
            known(states[at], key) ==> exists|j: int|
                0 <= j < at && (#[trigger] lookups[j]).key.eq_spec(&key),
    decreases at,
{
    reveal(vstd::laws_eq::obeys_eq_spec_properties);
    if at > 0 {
        lemma_history(hasher, states, lookups, at - 1);
        let lookup = lookups[at - 1];
        assert(answered(hasher, states[at - 1], lookups[at - 1], states[at - 1 + 1]));
        lemma_answer(hasher, states[at - 1], lookup, states[at]);
        assert forall|key: K| #[trigger] known(states[at], key) implies exists|j: int|
            0 <= j < at && (#[trigger] lookups[j]).key.eq_spec(&key) by {
            let i = choose|i: int| 0 <= i < states[at].len() && (#[trigger] states[at][i]).key.eq_spec(&key);
            assert(held(states[at], key, states[at][i].value));
            if held(states[at - 1], key, states[at][i].value) {
                assert(known(states[at - 1], key));
                let j = choose|j: int| 0 <= j < at - 1 && (#[trigger] lookups[j]).key.eq_spec(&key);
                assert(lookups[j].key.eq_spec(&key));
            } else {
                assert(lookups[at - 1].key.eq_spec(&key));
            }
        }
    }
}

/// Over any sequence of lookups on a shard, the first value for a key wins.
///
/// The lookup `first` is the first of all for the key of the lookup `at`. Every lookup of that key
/// gives the value that `first` computed. At `first` itself there is no entry for the key, and one
/// is added. At a later one there is an entry under the hash, so that no value is computed, and
/// nothing changes.
pub proof fn law_first_value_wins<K: Hash + PartialEq + Clone, V: Clone, S: BuildHasher>(
    hasher: S,
    states: Seq<Seq<Entry<K, V>>>,
    lookups: Seq<Lookup<K, V>>,
    at: int,
    first: int,
)
    requires
        lawful::<K, V, S>(hasher),
        history(hasher, states, lookups),
        0 <= first <= at < lookups.len(),
        lookups[first].key.eq_spec(&lookups[at].key),
        forall|i: int| 0 <= i < first ==> !(#[trigger] lookups[i]).key.eq_spec(&lookups[at].key),
    ensures
        lookups[at].entry.0.eq_spec(&lookups[at].key),
        lookups[at].entry.1 == lookups[first].entry.1,
        (lookups[first].value)(lookups[at].entry.1),
        first == at ==> !known(states[at], lookups[at].key) && states[at + 1].len() == states[at].len() + 1,
        first < at ==> present(states[at], lookups[at].hash, lookups[at].key) && states[at + 1] == states[at],
{
    reveal(vstd::laws_eq::obeys_eq_spec_properties);
    let key = lookups[at].key;
    lemma_history(hasher, states, lookups, first);
    assert(answered(hasher, states[first], lookups[first], states[first + 1]));
    lemma_answer(hasher, states[first], lookups[first], states[first + 1]);
    assert(!known(states[first], lookups[first].key)) by {
        if known(states[first], lookups[first].key) {
            let j = choose|j: int| 0 <= j < first && (#[trigger] lookups[j]).key.eq_spec(&lookups[first].key);
            assert(lookups[j].key.eq_spec(&key));
        }
    }
    lemma_history(hasher, states, lookups, at);
    assert(answered(hasher, states[at], lookups[at], states[at + 1]));
    lemma_answer(hasher, states[at], lookups[at], states[at + 1]);
    if first < at {
        let value = lookups[first].entry.1;
        assert(held(states[at], lookups[first].key, value));
        let i = choose|i: int|
            0 <= i < states[at].len() && (#[trigger] states[at][i]).key.eq_spec(&lookups[first].key)
                && states[at][i].value == value;
        assert(states[at][i].key.eq_spec(&key));
        assert(known(states[at], key));
        lemma_one_value_held(states[at], lookups[first].key, value, key, lookups[at].entry.1);
    }
}

/// What is kept for a key is what a lookup of it gives; no value is computed, for there is an entry,
/// and nothing changes.
pub proof fn law_held_value_is_found<K: Hash + PartialEq + Clone, V: Clone, S: BuildHasher>(
    hasher: S,
    entries: Seq<Entry<K, V>>,
    key: K,
    value: V,
    lookup: Lookup<K, V>,
    after: Seq<Entry<K, V>>,
)
    requires
        lawful::<K, V, S>(hasher),
        in_order(hasher, entries),
        held(entries, key, value),
        key.eq_spec(&lookup.key),
        answered(hasher, entries, lookup, after),
    ensures
        lookup.entry.0.eq_spec(&lookup.key),
        lookup.entry.1 == value,
        present(entries, lookup.hash, lookup.key),
        after == entries,
{
    reveal(vstd::laws_eq::obeys_eq_spec_properties);
    lemma_answer(hasher, entries, lookup, after);
    let i = choose|i: int|
        0 <= i < entries.len() && (#[trigger] entries[i]).key.eq_spec(&key) && entries[i].value == value;
    assert(entries[i].key.eq_spec(&lookup.key));
    assert(known(entries, lookup.key));
    lemma_one_value_held(entries, key, value, lookup.key, lookup.entry.1);
}

/// Lookups of different keys commute.
///
/// From the entries `start`, one side looks `a` up and then `b`, the other side the same keys with
/// the same functions the other way round. Then both sides keep the same values for the same keys,
/// and what each lookup gave is among them.
pub proof fn law_lookups_commute<K: Hash + PartialEq + Clone, V: Clone, S: BuildHasher>(
    hasher: S,
    start: Seq<Entry<K, V>>,
    a: Lookup<K, V>,
    after_a: Seq<Entry<K, V>>,
    then_b: Lookup<K, V>,
    after_ab: Seq<Entry<K, V>>,
    b: Lookup<K, V>,
    after_b: Seq<Entry<K, V>>,
    then_a: Lookup<K, V>,
    after_ba: Seq<Entry<K, V>>,
)
    requires
        lawful::<K, V, S>(hasher),
        in_order(hasher, start),
        !a.key.eq_spec(&b.key),
        then_a.key == a.key && then_a.value == a.value && single(a.value),
        then_b.key == b.key && then_b.value == b.value && single(b.value),
        answered(hasher, start, a, after_a),
        answered(hasher, after_a, then_b, after_ab),
        answered(hasher, start, b, after_b),
        answered(hasher, after_b, then_a, after_ba),
    ensures
        in_order(hasher, after_ab),
        in_order(hasher, after_ba),
        then_a.entry.1 == a.entry.1,
        then_b.entry.1 == b.entry.1,
        held(after_ab, a.key, a.entry.1),
        held(after_ab, b.key, b.entry.1),
        forall|key: K, value: V| #[trigger] held(after_ab, key, value) <==> held(after_ba, key, value),
{
    reveal(vstd::laws_eq::obeys_eq_spec_properties);
    lemma_answer(hasher, start, a, after_a);
    lemma_answer(hasher, after_a, then_b, after_ab);
    lemma_answer(hasher, start, b, after_b);
    lemma_answer(hasher, after_b, then_a, after_ba);
    lemma_other_keys_unknown(hasher, start, a, after_a, b.key);
    lemma_other_keys_unknown(hasher, start, b, after_b, a.key);
    assert(then_a.entry.1 == a.entry.1) by {
        lemma_same_answer(hasher, start, a, after_a, after_b, then_a, after_ba);
    }
    assert(then_b.entry.1 == b.entry.1) by {
        lemma_same_answer(hasher, start, b, after_b, after_a, then_b, after_ab);
    }
}

/// A lookup makes no other key known than its own.
proof fn lemma_other_keys_unknown<K: Hash + PartialEq + Clone, V: Clone, S: BuildHasher>(
    hasher: S,
    before: Seq<Entry<K, V>>,
    lookup: Lookup<K, V>,
    after: Seq<Entry<K, V>>,
    key: K,
)
    requires
        lawful::<K, V, S>(hasher),
        in_order(hasher, before),
        answered(hasher, before, lookup, after),
    ensures
        known(before, key) ==> known(after, key),
        known(after, key) && !lookup.key.eq_spec(&key) ==> known(before, key),
{
    lemma_answer(hasher, before, lookup, after);
    lemma_known_is_held(before, key);
    lemma_known_is_held(after, key);
}

/// A key is known where some value is kept for it.
pub proof fn lemma_known_is_held<K: PartialEq, V>(entries: Seq<Entry<K, V>>, key: K)
    ensures
        known(entries, key) <==> exists|value: V| #[trigger] held(entries, key, value),
{
    if known(entries, key) {
        let i = choose|i: int| 0 <= i < entries.len() && (#[trigger] entries[i]).key.eq_spec(&key);
        assert(held(entries, key, entries[i].value));
    }
    if exists|value: V| #[trigger] held(entries, key, value) {
        let value = choose|value: V| #[trigger] held(entries, key, value);
        let i = choose|i: int|
            0 <= i < entries.len() && (#[trigger] entries[i]).key.eq_spec(&key) && entries[i].value == value;
        assert(entries[i].key.eq_spec(&key));
    }
}

/// A lookup gives the same value from other entries, where they keep the same for its key.
proof fn lemma_same_answer<K: Hash + PartialEq + Clone, V: Clone, S: BuildHasher>(
    hasher: S,
    before: Seq<Entry<K, V>>,
    lookup: Lookup<K, V>,
    after: Seq<Entry<K, V>>,
    other_before: Seq<Entry<K, V>>,
    other_lookup: Lookup<K, V>,
    other_after: Seq<Entry<K, V>>,
)
    requires
        lawful::<K, V, S>(hasher),
        in_order(hasher, before),
        in_order(hasher, other_before),
        answered(hasher, before, lookup, after),
        answered(hasher, other_before, other_lookup, other_after),
        other_lookup.key == lookup.key && other_lookup.value == lookup.value && single(lookup.value),
        forall|value: V|
            #![trigger held(before, lookup.key, value)]
            #![trigger held(other_before, lookup.key, value)]
            held(before, lookup.key, value) <==> held(other_before, lookup.key, value),
    ensures
        known(before, lookup.key) == known(other_before, lookup.key),
        lookup.entry.1 == other_lookup.entry.1,
{
    reveal(vstd::laws_eq::obeys_eq_spec_properties);
    lemma_answer(hasher, before, lookup, after);
    lemma_answer(hasher, other_before, other_lookup, other_after);
    lemma_known_is_held(before, lookup.key);
    lemma_known_is_held(other_before, lookup.key);
    assert(cloned(lookup.key, lookup.key));
    if known(before, lookup.key) {
        assert(held(before, lookup.key, lookup.entry.1));
        assert(held(other_before, lookup.key, lookup.entry.1));
        lemma_one_value_held(other_before, lookup.key, lookup.entry.1, lookup.key, other_lookup.entry.1);
    }
}

/// The map keeps for every key what the shard keeps for it, in the shard that the hash of the key
/// belongs to.
pub open spec fn agrees<K: Hash + PartialEq, V, S: BuildHasher>(
    map: CacheMap<K, V, S>,
    entries: Seq<Entry<K, V>>,
) -> bool {
    forall|key: K, hash: u64, value: V| #[trigger]
        hashes_to(map.hasher(), key, hash) && 0 <= map.shard_of(hash) < map.shards().len() ==> (#[trigger] held(
            entries,
            key,
            value,
        ) <==> held(map.shards()[map.shard_of(hash)], key, value))
}

/// Every shard of the map is in order.
pub open spec fn map_in_order<K: Hash + PartialEq, V, S: BuildHasher>(map: CacheMap<K, V, S>) -> bool {
    forall|i: int| 0 <= i < map.shards().len() ==> in_order(map.hasher(), #[trigger] map.shards()[i])
}

/// A lookup in a map gives the value that it gives in one shard that keeps the same, and afterwards
/// both keep the same again.
pub proof fn law_map_step_agrees<K: Hash + PartialEq + Clone, V: Clone, S: BuildHasher>(
    before: CacheMap<K, V, S>,
    after: CacheMap<K, V, S>,
    hash: u64,
    entry: (K, V),
    entries: Seq<Entry<K, V>>,
    lookup: Lookup<K, V>,
    entries_after: Seq<Entry<K, V>>,
)
    requires
        lawful::<K, V, S>(before.hasher()),
        map_in_order(before),
        in_order(before.hasher(), entries),
        agrees(before, entries),
        after.hasher() == before.hasher(),
        hashes_to(before.hasher(), lookup.key, hash),
        looked_up(before, after, hash, lookup.key, lookup.value, entry),
        answered(before.hasher(), entries, lookup, entries_after),
        single(lookup.value),
    ensures
        entry.0.eq_spec(&lookup.key),
        entry.1 == lookup.entry.1,
        present(before.shards()[before.shard_of(hash)], hash, lookup.key) <==> present(
            entries,
            lookup.hash,
            lookup.key,
        ),
        map_in_order(after),
        agrees(after, entries_after),
{
    reveal(vstd::laws_eq::obeys_eq_spec_properties);
    let hasher = before.hasher();
    let i = before.shard_of(hash);
    let shard = before.shards()[i];
    let shard_after = after.shards()[i];
    let twin = Lookup { hash, entry, ..lookup };
    assert(answered(hasher, shard, twin, shard_after));
    lemma_answer(hasher, shard, twin, shard_after);
    lemma_answer(hasher, entries, lookup, entries_after);
    assert forall|value: V| #[trigger] held(entries, lookup.key, value) <==> held(shard, lookup.key, value) by {
        assert(hashes_to(before.hasher(), lookup.key, hash));
    }
    lemma_same_answer(hasher, entries, lookup, entries_after, shard, twin, shard_after);
    assert forall|j: int| 0 <= j < after.shards().len() implies in_order(
        after.hasher(),
        #[trigger] after.shards()[j],
    ) by {
        if j != i {
            assert(after.shards()[j] == before.shards()[j]);
        }
    }
    assert forall|key: K, other: u64, value: V| #[trigger]
        hashes_to(after.hasher(), key, other) && 0 <= after.shard_of(other) < after.shards().len() implies (
    #[trigger] held(entries_after, key, value) <==> held(after.shards()[after.shard_of(other)], key, value)) by {
        let j = after.shard_of(other);
        assert(j == before.shard_of(other));
        assert(hashes_to(before.hasher(), key, other));
        assert(held(entries, key, value) <==> held(before.shards()[j], key, value));
        if j != i {
            assert(after.shards()[j] == before.shards()[j]);
            assert(!lookup.key.eq_spec(&key));
        }
    }
}

/// A map answers as one shard would.
///
/// The same keys are looked up, with the same functions, in an empty map and in one empty shard
/// that has the same hasher. Then every lookup gives the same value in both, and an entry is there
/// in the one, so that no value is computed, if and only if one is there in the other.
pub proof fn law_map_answers_as_one_shard<K: Hash + PartialEq + Clone, V: Clone, S: BuildHasher>(
    hasher: S,
    maps: Seq<CacheMap<K, V, S>>,
    hashes: Seq<u64>,
    entries: Seq<(K, V)>,
    states: Seq<Seq<Entry<K, V>>>,
    lookups: Seq<Lookup<K, V>>,
    at: int,
)
    requires
        lawful::<K, V, S>(hasher),
        history(hasher, states, lookups),
        maps.len() == lookups.len() + 1,
        hashes.len() == lookups.len() && entries.len() == lookups.len(),
        forall|i: int|
            0 <= i < maps[0].shards().len() ==> (#[trigger] maps[0].shards()[i]) == Seq::<Entry<K, V>>::empty(),
        forall|i: int| 0 <= i < maps.len() ==> (#[trigger] maps[i]).hasher() == hasher,
        forall|i: int|
            0 <= i < lookups.len() ==> {
                let lookup = #[trigger] lookups[i];
                &&& single(lookup.value)
                &&& hashes_to(hasher, lookup.key, hashes[i])
                &&& looked_up(maps[i], maps[i + 1], hashes[i], lookup.key, lookup.value, entries[i])
            },
        0 <= at < lookups.len(),
    ensures
        entries[at].0.eq_spec(&lookups[at].key),
        lookups[at].entry.0.eq_spec(&lookups[at].key),
        entries[at].1 == lookups[at].entry.1,
        present(maps[at].shards()[maps[at].shard_of(hashes[at])], hashes[at], lookups[at].key) <==> present(
            states[at],
            lookups[at].hash,
            lookups[at].key,
        ),
{
    lemma_map_keeps_up(hasher, maps, hashes, entries, states, lookups, at);
    lemma_history(hasher, states, lookups, at);
    let lookup = lookups[at];
    assert(maps[at].hasher() == hasher && maps[at + 1].hasher() == hasher);
    assert(answered(hasher, states[at], lookups[at], states[at + 1]));
    lemma_answer(hasher, states[at], lookup, states[at + 1]);
    law_map_step_agrees(maps[at], maps[at + 1], hashes[at], entries[at], states[at], lookup, states[at + 1]);
}

/// The map and the shard keep the same all the time.
proof fn lemma_map_keeps_up<K: Hash + PartialEq + Clone, V: Clone, S: BuildHasher>(
    hasher: S,
    maps: Seq<CacheMap<K, V, S>>,
    hashes: Seq<u64>,
    entries: Seq<(K, V)>,
    states: Seq<Seq<Entry<K, V>>>,
    lookups: Seq<Lookup<K, V>>,
    at: int,
)
    requires
        lawful::<K, V, S>(hasher),
        history(hasher, states, lookups),
        maps.len() == lookups.len() + 1,
        forall|i: int|
            0 <= i < maps[0].shards().len() ==> (#[trigger] maps[0].shards()[i]) == Seq::<Entry<K, V>>::empty(),
        forall|i: int| 0 <= i < maps.len() ==> (#[trigger] maps[i]).hasher() == hasher,
        forall|i: int|
            0 <= i < lookups.len() ==> {
                let lookup = #[trigger] lookups[i];
                &&& single(lookup.value)
                &&& hashes_to(hasher, lookup.key, hashes[i])
                &&& looked_up(maps[i], maps[i + 1], hashes[i], lookup.key, lookup.value, entries[i])
            },
        0 <= at < maps.len(),
    ensures
        map_in_order(maps[at]),
        agrees(maps[at], states[at]),
    decreases at,
{
    if at > 0 {
        lemma_map_keeps_up(hasher, maps, hashes, entries, states, lookups, at - 1);
        lemma_history(hasher, states, lookups, at - 1);
        let lookup = lookups[at - 1];
        assert(maps[at - 1].hasher() == hasher && maps[at].hasher() == hasher);
        assert(answered(hasher, states[at - 1], lookups[at - 1], states[at - 1 + 1]));
        law_map_step_agrees(
            maps[at - 1],
            maps[at],
            hashes[at - 1],
            entries[at - 1],
            states[at - 1],
            lookup,
            states[at],
        );
    }
}

} // verus!
