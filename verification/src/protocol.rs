//! How threads share a shard.
//!
//! The shard stands behind a reader-writer lock, and beside it there is an insert lock. A thread
//! that finds no entry for its key takes the insert lock and looks again, for another thread may
//! have been faster. If there still is none, it adds one: where the shard is full, it prepares a
//! copy that has room while others go on reading, and puts the copy in the place of the shard;
//! where the shard has room, it adds the entry to the shard itself. Only then does it need the
//! shard for itself, and only for a moment.

use core::hash::{BuildHasher, Hash};
use vstd::prelude::*;
use vstd::std_specs::cmp::PartialEqSpec;

use crate::hash::hashes_to;
use crate::history::{held, lemma_one_value_held};
use crate::raw::{
    carried_over, distinct, faithful_clone, found_before, hashed_by, inserted, is_entry, known, law_one_hash_for_each_key, lawful_hasher, lawful_key,
    lemma_push_keeps_distinct, lemma_push_keeps_hashed, moved, outlasts, present, Entry,
};

verus! {

/// How far a lookup has come.
#[derive(Clone, Copy, Debug, PartialEq, Eq, Structural)]
pub enum Phase {
    /// Look for the entry.
    Search,
    /// Take the insert lock.
    Lock,
    /// Look for the entry once more.
    Recheck,
    /// Put a copy with the entry in the place of the shard.
    Replace,
    /// Add the entry to the shard.
    Append,
    /// Hand the entry out.
    Done,
}

/// What came of a phase.
#[derive(Clone, Copy, Debug, PartialEq, Eq, Structural)]
pub enum Seen {
    /// There is an entry for the key.
    Hit,
    /// There is none, and the shard is full or not.
    Miss { full: bool },
    /// The insert lock is taken.
    Locked,
    /// The entry is in the shard.
    Published,
}

/// The phase that follows, if that can come of the phase.
pub open spec fn follows(phase: Phase, seen: Seen) -> Option<Phase> {
    match (phase, seen) {
        (Phase::Search, Seen::Hit) => Some(Phase::Done),
        (Phase::Search, Seen::Miss { .. }) => Some(Phase::Lock),
        (Phase::Lock, Seen::Locked) => Some(Phase::Recheck),
        (Phase::Recheck, Seen::Hit) => Some(Phase::Done),
        (Phase::Recheck, Seen::Miss { full: true }) => Some(Phase::Replace),
        (Phase::Recheck, Seen::Miss { full: false }) => Some(Phase::Append),
        (Phase::Replace, Seen::Published) => Some(Phase::Done),
        (Phase::Append, Seen::Published) => Some(Phase::Done),
        _ => None,
    }
}

impl Phase {
    /// The first phase of a lookup.
    pub fn first() -> (phase: Phase)
        ensures
            phase is Search,
    {
        Phase::Search
    }

    /// The phase that follows.
    pub fn next(self, seen: Seen) -> (phase: Phase)
        requires
            follows(self, seen) is Some,
        ensures
            Some(phase) == follows(self, seen),
    {
        match self {
            Phase::Search => match seen {
                Seen::Hit => Phase::Done,
                _ => Phase::Lock,
            },
            Phase::Lock => Phase::Recheck,
            Phase::Recheck => match seen {
                Seen::Miss { full } => if full {
                    Phase::Replace
                } else {
                    Phase::Append
                },
                _ => Phase::Done,
            },
            _ => Phase::Done,
        }
    }
}

/// The search, with the shard to read, found nothing: it gives the shard `back`, and says whether it
/// is full.
pub open spec fn missed<R, E, Q: Fn(R) -> Result<E, (R, bool)>>(search: Q, read: R, back: R, full: bool) -> bool {
    call_ensures(search, (read,), Err::<E, (R, bool)>((back, full)))
}

/// The first search found nothing, and the insert lock was taken then: `again` is the shard to read,
/// and `guard` says that the thread holds the lock.
pub open spec fn locked_after_miss<R, G, E, Q: Fn(R) -> Result<E, (R, bool)>, L: FnOnce(R) -> (R, G)>(
    search: Q,
    lock: L,
    read: R,
    again: R,
    guard: G,
) -> bool {
    exists|back: R, full: bool| #[trigger]
        missed(search, read, back, full) && call_ensures(lock, (back,), (again, guard))
}

/// Under the insert lock, the second search found nothing either.
pub open spec fn missed_twice<R, G, E, Q: Fn(R) -> Result<E, (R, bool)>, L: FnOnce(R) -> (R, G)>(
    search: Q,
    lock: L,
    read: R,
    back: R,
    guard: G,
    full: bool,
) -> bool {
    exists|again: R| #[trigger]
        locked_after_miss(search, lock, read, again, guard) && missed(search, again, back, full)
}

/// Looks a key up in a shard that other threads use too.
///
/// `read` is the shard to read, and `value` what computes the value. Neither they nor the insert lock
/// can be made or copied here: so a value is computed, if at all, once, by the operation that adds
/// the entry, and while the insert lock is held.
pub fn lookup<
    R,
    G,
    E,
    F,
    Q: Fn(R) -> Result<E, (R, bool)>,
    L: FnOnce(R) -> (R, G),
    X: FnOnce(R, G, F) -> E,
    A: FnOnce(R, G, F) -> E,
>(read: R, value: F, search: Q, lock: L, replace: X, append: A) -> (entry: E)
    requires
        forall|read: R| #[trigger] call_requires(search, (read,)),
        forall|back: R, full: bool| #[trigger]
            missed(search, read, back, full) ==> call_requires(lock, (back,)),
        forall|back: R, guard: G| #[trigger]
            missed_twice(search, lock, read, back, guard, true) ==> call_requires(replace, (back, guard, value)),
        forall|back: R, guard: G| #[trigger]
            missed_twice(search, lock, read, back, guard, false) ==> call_requires(append, (back, guard, value)),
    ensures
        ({
            ||| call_ensures(search, (read,), Ok::<E, (R, bool)>(entry))
            ||| exists|again: R, guard: G| #[trigger]
                locked_after_miss(search, lock, read, again, guard) && call_ensures(
                    search,
                    (again,),
                    Ok::<E, (R, bool)>(entry),
                )
            ||| exists|back: R, guard: G| #[trigger]
                missed_twice(search, lock, read, back, guard, true) && call_ensures(
                    replace,
                    (back, guard, value),
                    entry,
                )
            ||| exists|back: R, guard: G| #[trigger]
                missed_twice(search, lock, read, back, guard, false) && call_ensures(
                    append,
                    (back, guard, value),
                    entry,
                )
        }),
{
    let phase = Phase::first();
    match search(read) {
        Ok(entry) => entry,
        Err((back, full)) => {
            assert(missed(search, read, back, full));
            let phase = phase.next(Seen::Miss { full });
            let (again, guard) = lock(back);
            assert(locked_after_miss(search, lock, read, again, guard));
            let phase = phase.next(Seen::Locked);
            match search(again) {
                Ok(entry) => entry,
                Err((back, full)) => {
                    assert(missed(search, again, back, full));
                    assert(missed_twice(search, lock, read, back, guard, full));
                    match phase.next(Seen::Miss { full }) {
                        Phase::Replace => replace(back, guard, value),
                        _ => append(back, guard, value),
                    }
                },
            }
        },
    }
}

/// A lookup that a thread has begun.
#[verifier::reject_recursive_types(V)]
pub ghost struct Call<K, V> {
    /// How far it has come.
    pub phase: Phase,
    /// The hash under which it looks.
    pub hash: u64,
    /// The key for which it looks.
    pub key: K,
    /// What the function can give that computes a value for the key.
    pub value: spec_fn(V) -> bool,
    /// The entries among which it last found none.
    pub searched: Seq<Entry<K, V>>,
    /// It has computed a value.
    pub computed: bool,
    /// The entry that was handed out.
    pub result: Option<(K, V)>,
}

/// A shard together with the lookups of all threads.
#[verifier::reject_recursive_types(V)]
pub ghost struct SharedShard<K, V> {
    /// The entries of the shard.
    pub entries: Seq<Entry<K, V>>,
    /// For each entry, the lookup that added it.
    pub makers: Seq<int>,
    /// The lookups.
    pub calls: Map<int, Call<K, V>>,
    /// The lookup whose thread holds the insert lock.
    pub inserter: Option<int>,
}

/// What a step of a lookup sees.
#[verifier::reject_recursive_types(V)]
pub ghost enum Look<K, V> {
    /// The lookup begins.
    Begin { hash: u64, key: K, value: spec_fn(V) -> bool },
    /// The phase ends in something that leaves the entries as they are. Where there is an entry
    /// for the key, it is the one at `found`.
    Read { seen: Seen, found: int },
    /// The phase ends in a new entry, with a value that was computed, behind copies of those that
    /// were found, or behind those that are there.
    Write { carried: Seq<Entry<K, V>>, entry: Entry<K, V> },
}

/// No lookup has begun on an empty shard.
pub open spec fn shared_start<K, V>() -> SharedShard<K, V> {
    SharedShard { entries: Seq::empty(), makers: Seq::empty(), calls: Map::empty(), inserter: None }
}

/// The step of the lookup `id` leads from `s` to `t`. Keys are looked up under the hashes that the
/// hasher gives for them.
pub open spec fn shared_next<K: Hash + PartialEq + Clone, V: Clone, S: BuildHasher>(
    hasher: S,
    s: SharedShard<K, V>,
    id: int,
    look: Look<K, V>,
    t: SharedShard<K, V>,
) -> bool {
    let call = s.calls[id];
    match look {
        Look::Begin { hash, key, value } => {
            &&& !s.calls.contains_key(id)
            &&& hashes_to(hasher, key, hash)
            &&& t == (SharedShard {
                calls: s.calls.insert(
                    id,
                    Call {
                        phase: Phase::Search,
                        hash,
                        key,
                        value,
                        searched: Seq::empty(),
                        computed: false,
                        result: None,
                    },
                ),
                ..s
            })
        },
        Look::Read { seen, found } => {
            &&& s.calls.contains_key(id)
            &&& follows(call.phase, seen) is Some
            &&& match seen {
                Seen::Hit => 0 <= found < s.entries.len() && s.entries[found].key.eq_spec(&call.key),
                Seen::Miss { .. } => !present(s.entries, call.hash, call.key),
                Seen::Locked => s.inserter is None,
                Seen::Published => false,
            }
            &&& t == (SharedShard {
                calls: s.calls.insert(
                    id,
                    Call {
                        phase: follows(call.phase, seen)->0,
                        searched: if seen is Miss {
                            s.entries
                        } else {
                            call.searched
                        },
                        result: if seen is Hit {
                            Some((s.entries[found].key, s.entries[found].value))
                        } else {
                            call.result
                        },
                        ..call
                    },
                ),
                inserter: if seen is Locked {
                    Some(id)
                } else if call.phase is Recheck && seen is Hit {
                    None
                } else {
                    s.inserter
                },
                ..s
            })
        },
        Look::Write { carried, entry } => {
            &&& s.calls.contains_key(id)
            &&& follows(call.phase, Seen::Published) is Some
            &&& if call.phase is Replace {
                carried_over(hasher, call.searched, carried)
            } else {
                moved(hasher, s.entries, carried)
            }
            &&& entry.hash == call.hash
            &&& cloned(call.key, entry.key)
            &&& (call.value)(entry.value)
            &&& t == (SharedShard {
                entries: carried.push(entry),
                makers: s.makers.push(id),
                calls: s.calls.insert(
                    id,
                    Call {
                        phase: Phase::Done,
                        computed: true,
                        result: Some((entry.key, entry.value)),
                        ..call
                    },
                ),
                inserter: None,
            })
        },
    }
}

/// Only the thread that holds the insert lock is about to add an entry, and what it found is
/// still so. No key has two entries, and each is filed under a hash that the hasher gives for its
/// key. A lookup that is done has an entry for its key.
pub open spec fn shared_order<K: Hash + PartialEq, V, S: BuildHasher>(hasher: S, s: SharedShard<K, V>) -> bool {
    &&& distinct(s.entries)
    &&& hashed_by(hasher, s.entries)
    &&& forall|id: int| #[trigger]
        s.calls.contains_key(id) ==> {
            let call = s.calls[id];
            &&& hashes_to(hasher, call.key, call.hash)
            &&& (call.phase is Recheck || call.phase is Replace || call.phase is Append) == (s.inserter
                == Some(id))
            &&& call.phase is Replace || call.phase is Append ==> call.searched == s.entries && !known(
                s.entries,
                call.key,
            )
            &&& call.phase is Done ==> known(s.entries, call.key)
        }
    &&& s.inserter matches Some(id) ==> s.calls.contains_key(id)
}

/// Every step keeps what [`shared_order`] says, and keeps every entry: at the most a new one
/// stands behind those that were there, or behind copies of them. So no entry that a thread
/// adds is lost to another thread.
pub proof fn law_no_entry_is_lost<K: Hash + PartialEq + Clone, V: Clone, S: BuildHasher>(
    hasher: S,
    s: SharedShard<K, V>,
    id: int,
    look: Look<K, V>,
    t: SharedShard<K, V>,
)
    requires
        lawful_key::<K>(),
        lawful_hasher::<K, S>(hasher),
        shared_order(hasher, s),
        shared_next(hasher, s, id, look, t),
    ensures
        shared_order(hasher, t),
        outlasts(hasher, s.entries, t.entries),
        forall|i: int| 0 <= i < s.entries.len() ==> (#[trigger] t.entries[i]).hash == s.entries[i].hash,
        t.entries.len() <= s.entries.len() + 1,
        t.entries.len() > s.entries.len() ==> s.inserter == Some(id) && !known(s.entries, s.calls[id].key),
{
    assert(s.entries.take(s.entries.len() as int) =~= s.entries);
    let call = s.calls[id];
    match look {
        Look::Write { carried, entry } => {
            assert(carried_over(hasher, s.entries, carried));
            assert(t.entries.take(s.entries.len() as int) =~= carried);
            lemma_push_keeps_distinct(hasher, s.entries, carried, call.key, entry);
            lemma_push_keeps_hashed(hasher, s.entries, carried, call.key, entry);
            assert forall|i: int| 0 <= i < s.entries.len() implies (#[trigger] t.entries[i]).hash
                == s.entries[i].hash by {
                assert(t.entries[i] == carried[i]);
            }
            assert forall|other: int| #[trigger] t.calls.contains_key(other) && t.calls[other].phase is Done implies
                known(t.entries, t.calls[other].key) by {
                if other == id {
                    lemma_pushed_is_known(carried, call.key, entry);
                } else {
                    assert(s.calls.contains_key(other));
                    lemma_known_stays(hasher, s.entries, carried, s.calls[other].key, entry);
                }
            }
        },
        Look::Read { seen, .. } => {
            if seen is Miss {
                law_one_hash_for_each_key(hasher, s.entries, call.hash, call.key);
                assert(!known(s.entries, call.key));
            }
        },
        Look::Begin { .. } => {},
    }
}

/// A key has an entry once one for a clone of it was added.
proof fn lemma_pushed_is_known<K: PartialEq + Clone, V>(carried: Seq<Entry<K, V>>, key: K, entry: Entry<K, V>)
    requires
        lawful_key::<K>(),
        cloned(key, entry.key),
    ensures
        known(carried.push(entry), key),
{
    reveal(vstd::laws_eq::obeys_eq_spec_properties);
    assert(key.eq_spec(&entry.key));
    assert(carried.push(entry)[carried.len() as int].key.eq_spec(&key));
}

/// A key that has an entry still has one where the entries are copies and one more is added.
proof fn lemma_known_stays<K: Hash + PartialEq + Clone, V: Clone, S: BuildHasher>(
    hasher: S,
    entries: Seq<Entry<K, V>>,
    carried: Seq<Entry<K, V>>,
    key: K,
    entry: Entry<K, V>,
)
    requires
        lawful_key::<K>(),
        carried_over(hasher, entries, carried),
        known(entries, key),
    ensures
        known(carried.push(entry), key),
{
    reveal(vstd::laws_eq::obeys_eq_spec_properties);
    let i = choose|i: int| 0 <= i < entries.len() && (#[trigger] entries[i]).key.eq_spec(&key);
    assert(entries[i].key.eq_spec(&carried[i].key));
    assert(carried[i].key.eq_spec(&entries[i].key));
    assert(carried.push(entry)[i].key.eq_spec(&key));
}

/// The steps lead from one state to the next.
pub open spec fn shared_run<K: Hash + PartialEq + Clone, V: Clone, S: BuildHasher>(
    hasher: S,
    states: Seq<SharedShard<K, V>>,
    ids: Seq<int>,
    looks: Seq<Look<K, V>>,
) -> bool {
    &&& states.len() == looks.len() + 1
    &&& ids.len() == looks.len()
    &&& forall|i: int|
        0 <= i < looks.len() ==> #[trigger] shared_next(hasher, states[i], ids[i], looks[i], states[i + 1])
}

/// In whatever order the threads make their steps, no key gets two entries, at most one thread is
/// about to add an entry, and every lookup that is done has an entry for its key.
pub proof fn law_every_shared_run_keeps_order<K: Hash + PartialEq + Clone, V: Clone, S: BuildHasher>(
    hasher: S,
    states: Seq<SharedShard<K, V>>,
    ids: Seq<int>,
    looks: Seq<Look<K, V>>,
    at: int,
)
    requires
        lawful_key::<K>(),
        lawful_hasher::<K, S>(hasher),
        shared_run(hasher, states, ids, looks),
        states[0] == shared_start::<K, V>(),
        0 <= at < states.len(),
    ensures
        shared_order(hasher, states[at]),
    decreases at,
{
    if at > 0 {
        law_every_shared_run_keeps_order(hasher, states, ids, looks, at - 1);
        assert(shared_next(hasher, states[at - 1], ids[at - 1], looks[at - 1], states[at - 1 + 1]));
        law_no_entry_is_lost(hasher, states[at - 1], ids[at - 1], looks[at - 1], states[at]);
    }
}

/// An entry that is in the shard at some time is in it, under the same hash and in the same
/// place, at every later time, for a key that equals its key. It has the same value, where a
/// clone of a value is that value.
pub proof fn law_entries_outlast_every_run<K: Hash + PartialEq + Clone, V: Clone, S: BuildHasher>(
    hasher: S,
    states: Seq<SharedShard<K, V>>,
    ids: Seq<int>,
    looks: Seq<Look<K, V>>,
    from: int,
    to: int,
    i: int,
)
    requires
        lawful_key::<K>(),
        lawful_hasher::<K, S>(hasher),
        shared_run(hasher, states, ids, looks),
        states[0] == shared_start::<K, V>(),
        0 <= from <= to < states.len(),
        0 <= i < states[from].entries.len(),
    ensures
        i < states[to].entries.len(),
        states[to].entries[i].hash == states[from].entries[i].hash,
        states[from].entries[i].key.eq_spec(&states[to].entries[i].key),
        faithful_clone::<V>() ==> states[to].entries[i].value == states[from].entries[i].value,
    decreases to - from,
{
    reveal(vstd::laws_eq::obeys_eq_spec_properties);
    if from == to {
        let key = states[from].entries[i].key;
        assert(cloned(key, key));
    } else {
        law_entries_outlast_every_run(hasher, states, ids, looks, from, to - 1, i);
        law_every_shared_run_keeps_order(hasher, states, ids, looks, to - 1);
        let s = states[to - 1];
        let t = states[to];
        assert(shared_next(hasher, s, ids[to - 1], looks[to - 1], states[to - 1 + 1]));
        law_no_entry_is_lost(hasher, s, ids[to - 1], looks[to - 1], t);
        assert(t.entries.take(s.entries.len() as int)[i] == t.entries[i]);
        assert(s.entries[i].key.eq_spec(&t.entries[i].key));
    }
}

/// Every entry was added by a lookup of its key, with a value that the lookup computed. A lookup has
/// computed a value only if it added an entry. A lookup that is done was handed an entry for its
/// key, with the value that is kept for the key.
pub open spec fn shared_results<K: PartialEq, V>(s: SharedShard<K, V>) -> bool {
    &&& s.makers.len() == s.entries.len()
    &&& forall|i: int|
        0 <= i < s.entries.len() ==> {
            let maker = s.calls[#[trigger] s.makers[i]];
            &&& s.calls.contains_key(s.makers[i])
            &&& maker.computed
            &&& maker.key.eq_spec(&s.entries[i].key)
            &&& (maker.value)(s.entries[i].value)
        }
    &&& forall|id: int| #[trigger]
        s.calls.contains_key(id) ==> {
            let call = s.calls[id];
            &&& call.computed ==> call.phase is Done && s.makers.contains(id)
            &&& call.phase is Done <==> call.result is Some
            &&& call.result matches Some(entry) ==> entry.0.eq_spec(&call.key) && held(
                s.entries,
                call.key,
                entry.1,
            )
        }
}

/// A value that is kept is kept where the entries are copies and one more is added.
proof fn lemma_held_stays<K: Hash + PartialEq + Clone, V: Clone, S: BuildHasher>(
    hasher: S,
    entries: Seq<Entry<K, V>>,
    carried: Seq<Entry<K, V>>,
    key: K,
    value: V,
    entry: Entry<K, V>,
)
    requires
        lawful_key::<K>(),
        faithful_clone::<V>(),
        carried_over(hasher, entries, carried),
        held(entries, key, value),
    ensures
        held(carried.push(entry), key, value),
{
    reveal(vstd::laws_eq::obeys_eq_spec_properties);
    let i = choose|i: int|
        0 <= i < entries.len() && (#[trigger] entries[i]).key.eq_spec(&key) && entries[i].value == value;
    assert(carried[i].value == entries[i].value);
    assert(entries[i].key.eq_spec(&carried[i].key));
    assert(carried[i].key.eq_spec(&entries[i].key));
    assert(carried.push(entry)[i].key.eq_spec(&key));
}

/// Every step keeps what [`shared_results`] says.
pub proof fn law_results_stay<K: Hash + PartialEq + Clone, V: Clone, S: BuildHasher>(
    hasher: S,
    s: SharedShard<K, V>,
    id: int,
    look: Look<K, V>,
    t: SharedShard<K, V>,
)
    requires
        lawful_key::<K>(),
        lawful_hasher::<K, S>(hasher),
        faithful_clone::<V>(),
        shared_order(hasher, s),
        shared_results(s),
        shared_next(hasher, s, id, look, t),
    ensures
        shared_results(t),
{
    reveal(vstd::laws_eq::obeys_eq_spec_properties);
    let call = s.calls[id];
    match look {
        Look::Write { carried, entry } => {
            assert(carried_over(hasher, s.entries, carried));
            assert forall|i: int| 0 <= i < t.entries.len() implies {
                let maker = t.calls[#[trigger] t.makers[i]];
                &&& t.calls.contains_key(t.makers[i])
                &&& maker.computed
                &&& maker.key.eq_spec(&t.entries[i].key)
                &&& (maker.value)(t.entries[i].value)
            } by {
                if i < s.entries.len() {
                    assert(t.makers[i] == s.makers[i]);
                    assert(t.entries[i] == carried[i]);
                    assert(s.entries[i].key.eq_spec(&carried[i].key));
                    assert(s.calls[s.makers[i]].computed);
                    assert(s.makers[i] != id);
                } else {
                    assert(call.key.eq_spec(&entry.key));
                }
            }
            assert forall|other: int| #[trigger] t.calls.contains_key(other) implies {
                let call = t.calls[other];
                &&& call.computed ==> call.phase is Done && t.makers.contains(other)
                &&& call.phase is Done <==> call.result is Some
                &&& call.result matches Some(entry) ==> entry.0.eq_spec(&call.key) && held(
                    t.entries,
                    call.key,
                    entry.1,
                )
            } by {
                if other == id {
                    let last = carried.len() as int;
                    assert(t.makers[last] == id);
                    assert(call.key.eq_spec(&entry.key));
                    assert(entry.key.eq_spec(&call.key));
                    assert(t.entries[last] == entry);
                } else {
                    assert(s.calls.contains_key(other));
                    if s.calls[other].computed {
                        let i = choose|i: int| 0 <= i < s.makers.len() && s.makers[i] == other;
                        assert(t.makers[i] == other);
                    }
                    if let Some(handed) = s.calls[other].result {
                        lemma_held_stays(hasher, s.entries, carried, s.calls[other].key, handed.1, entry);
                    }
                }
            }
        },
        Look::Read { seen, found } => {
            assert forall|i: int| 0 <= i < t.entries.len() implies {
                let maker = t.calls[#[trigger] t.makers[i]];
                &&& t.calls.contains_key(t.makers[i])
                &&& maker.computed
                &&& maker.key.eq_spec(&t.entries[i].key)
                &&& (maker.value)(t.entries[i].value)
            } by {
                assert(s.calls[s.makers[i]].computed);
            }
            if seen is Hit {
                assert(s.entries[found].key.eq_spec(&call.key));
                assert(held(t.entries, call.key, s.entries[found].value));
            }
        },
        Look::Begin { .. } => {
            assert forall|i: int| 0 <= i < t.entries.len() implies {
                let maker = t.calls[#[trigger] t.makers[i]];
                &&& t.calls.contains_key(t.makers[i])
                &&& maker.computed
                &&& maker.key.eq_spec(&t.entries[i].key)
                &&& (maker.value)(t.entries[i].value)
            } by {
                assert(s.calls.contains_key(s.makers[i]));
            }
        },
    }
}

/// In whatever order the threads make their steps, [`shared_results`] holds.
pub proof fn law_every_shared_run_keeps_results<K: Hash + PartialEq + Clone, V: Clone, S: BuildHasher>(
    hasher: S,
    states: Seq<SharedShard<K, V>>,
    ids: Seq<int>,
    looks: Seq<Look<K, V>>,
    at: int,
)
    requires
        lawful_key::<K>(),
        lawful_hasher::<K, S>(hasher),
        faithful_clone::<V>(),
        shared_run(hasher, states, ids, looks),
        states[0] == shared_start::<K, V>(),
        0 <= at < states.len(),
    ensures
        shared_results(states[at]),
    decreases at,
{
    if at > 0 {
        law_every_shared_run_keeps_results(hasher, states, ids, looks, at - 1);
        law_every_shared_run_keeps_order(hasher, states, ids, looks, at - 1);
        assert(shared_next(hasher, states[at - 1], ids[at - 1], looks[at - 1], states[at - 1 + 1]));
        law_results_stay(hasher, states[at - 1], ids[at - 1], looks[at - 1], states[at]);
    }
}

/// In whatever order the threads make their steps, all lookups of one key are handed one entry, and
/// its value is the only one that was computed for the key.
///
/// `one` and `other` are lookups of one key that are done, perhaps the same. They were handed equal
/// keys and one value. Exactly one lookup of the key has computed a value, and it is that one.
pub proof fn law_one_value_for_all_threads<K: Hash + PartialEq + Clone, V: Clone, S: BuildHasher>(
    hasher: S,
    states: Seq<SharedShard<K, V>>,
    ids: Seq<int>,
    looks: Seq<Look<K, V>>,
    at: int,
    one: int,
    other: int,
)
    requires
        lawful_key::<K>(),
        lawful_hasher::<K, S>(hasher),
        faithful_clone::<V>(),
        shared_run(hasher, states, ids, looks),
        states[0] == shared_start::<K, V>(),
        0 <= at < states.len(),
        states[at].calls.contains_key(one) && states[at].calls[one].phase is Done,
        states[at].calls.contains_key(other) && states[at].calls[other].phase is Done,
        states[at].calls[one].key.eq_spec(&states[at].calls[other].key),
    ensures
        states[at].calls[one].result is Some,
        states[at].calls[other].result is Some,
        handed_out(states[at], one).0.eq_spec(&handed_out(states[at], other).0),
        handed_out(states[at], one).1 == handed_out(states[at], other).1,
        exists|maker: int| #[trigger]
            only_maker(states[at], states[at].calls[one].key, maker) && (states[at].calls[maker].value)(
                handed_out(states[at], one).1,
            ),
{
    reveal(vstd::laws_eq::obeys_eq_spec_properties);
    law_every_shared_run_keeps_order(hasher, states, ids, looks, at);
    law_every_shared_run_keeps_results(hasher, states, ids, looks, at);
    let s = states[at];
    let key = s.calls[one].key;
    let first = handed_out(s, one);
    let second = handed_out(s, other);
    lemma_one_value_held(s.entries, key, first.1, s.calls[other].key, second.1);
    assert(s.calls[other].key.eq_spec(&second.0));
    assert(first.0.eq_spec(&s.calls[other].key));
    let i = choose|i: int|
        0 <= i < s.entries.len() && (#[trigger] s.entries[i]).key.eq_spec(&key) && s.entries[i].value == first.1;
    let maker = s.makers[i];
    assert(s.calls.contains_key(maker));
    assert(s.calls[maker].key.eq_spec(&key));
    assert forall|id: int| #[trigger] s.calls.contains_key(id) && s.calls[id].computed && s.calls[id].key.eq_spec(
        &key,
    ) implies id == maker by {
        let j = choose|j: int| 0 <= j < s.makers.len() && s.makers[j] == id;
        assert(s.calls[s.makers[j]].key.eq_spec(&s.entries[j].key));
        assert(s.entries[j].key.eq_spec(&s.calls[id].key));
        assert(s.entries[j].key.eq_spec(&key));
        assert(key.eq_spec(&s.entries[i].key));
        assert(key.eq_spec(&s.entries[j].key));
        assert(s.entries[i].key.eq_spec(&s.entries[j].key));
        assert(s.entries[j].key.eq_spec(&s.entries[i].key));
    }
    assert(only_maker(s, key, maker));
}

/// The entry that was handed out to a lookup that is done.
pub open spec fn handed_out<K, V>(s: SharedShard<K, V>, id: int) -> (K, V) {
    s.calls[id].result->0
}

/// The lookup is one of the key and has computed a value, and no other lookup of the key has.
pub open spec fn only_maker<K: PartialEq, V>(s: SharedShard<K, V>, key: K, maker: int) -> bool {
    &&& s.calls.contains_key(maker)
    &&& s.calls[maker].computed
    &&& s.calls[maker].key.eq_spec(&key)
    &&& forall|id: int| #[trigger]
        s.calls.contains_key(id) && s.calls[id].computed && s.calls[id].key.eq_spec(&key) ==> id == maker
}

/// In whatever order the threads make their steps, no two of them compute a value at the same time:
/// a thread does so while it replaces the shard or adds to it, and holds the insert lock then.
pub proof fn law_one_thread_computes<K: Hash + PartialEq + Clone, V: Clone, S: BuildHasher>(
    hasher: S,
    states: Seq<SharedShard<K, V>>,
    ids: Seq<int>,
    looks: Seq<Look<K, V>>,
    at: int,
    one: int,
    other: int,
)
    requires
        lawful_key::<K>(),
        lawful_hasher::<K, S>(hasher),
        shared_run(hasher, states, ids, looks),
        states[0] == shared_start::<K, V>(),
        0 <= at < states.len(),
        computes(states[at], one),
        computes(states[at], other),
    ensures
        one == other,
        states[at].inserter == Some(one),
{
    law_every_shared_run_keeps_order(hasher, states, ids, looks, at);
}

/// The lookup is in a phase in which its value is computed.
pub open spec fn computes<K, V>(s: SharedShard<K, V>, id: int) -> bool {
    s.calls.contains_key(id) && (s.calls[id].phase is Replace || s.calls[id].phase is Append)
}

/// How far a lookup has come that no other step came between.
pub open spec fn came_alone<K: Hash + PartialEq + Clone, V: Clone, S: BuildHasher>(
    hasher: S,
    before: Seq<Entry<K, V>>,
    call: Call<K, V>,
    entries: Seq<Entry<K, V>>,
) -> bool {
    match call.phase {
        Phase::Done => call.result matches Some(entry) && (found_before(before, entries, call.key, entry) || inserted(
            hasher,
            before,
            entries,
            call.hash,
            call.key,
            call.value,
            entry,
        )),
        Phase::Replace | Phase::Append => entries == before && call.searched == before && !present(
            before,
            call.hash,
            call.key,
        ),
        _ => entries == before,
    }
}

/// The steps of one lookup, with no step of another between, come to what the lookup comes to where
/// one thread has the shard for itself.
///
/// `looks` are all the steps of the lookup `id`, from the first on. Once it is done, either an entry
/// for its key was there, nothing changed, and that entry was handed out; or there was none under the
/// hash, and now there is one, with a value that was computed, which was handed out.
pub proof fn law_lookup_alone<K: Hash + PartialEq + Clone, V: Clone, S: BuildHasher>(
    hasher: S,
    states: Seq<SharedShard<K, V>>,
    looks: Seq<Look<K, V>>,
    id: int,
)
    requires
        shared_run(hasher, states, Seq::new(looks.len(), |i: int| id), looks),
        !states[0].calls.contains_key(id),
        states.last().calls.contains_key(id) && states.last().calls[id].phase is Done,
    ensures
        states.last().calls[id].result is Some,
        found_before(
            states[0].entries,
            states.last().entries,
            states.last().calls[id].key,
            handed_out(states.last(), id),
        ) || inserted(
            hasher,
            states[0].entries,
            states.last().entries,
            states.last().calls[id].hash,
            states.last().calls[id].key,
            states.last().calls[id].value,
            handed_out(states.last(), id),
        ),
        looks[0] == (Look::<K, V>::Begin {
            hash: states.last().calls[id].hash,
            key: states.last().calls[id].key,
            value: states.last().calls[id].value,
        }),
{
    lemma_came_alone(hasher, states, looks, id, states.len() - 1);
}

/// Every step of the lookup brings it on.
proof fn lemma_came_alone<K: Hash + PartialEq + Clone, V: Clone, S: BuildHasher>(
    hasher: S,
    states: Seq<SharedShard<K, V>>,
    looks: Seq<Look<K, V>>,
    id: int,
    at: int,
)
    requires
        shared_run(hasher, states, Seq::new(looks.len(), |i: int| id), looks),
        !states[0].calls.contains_key(id),
        0 <= at < states.len(),
    ensures
        at == 0 || states[at].calls.contains_key(id) && came_alone(
            hasher,
            states[0].entries,
            states[at].calls[id],
            states[at].entries,
        ) && looks[0] == (Look::<K, V>::Begin {
            hash: states[at].calls[id].hash,
            key: states[at].calls[id].key,
            value: states[at].calls[id].value,
        }),
    decreases at,
{
    if at > 0 {
        lemma_came_alone(hasher, states, looks, id, at - 1);
        let ids = Seq::new(looks.len(), |i: int| id);
        assert(shared_next(hasher, states[at - 1], ids[at - 1], looks[at - 1], states[at - 1 + 1]));
        let before = states[0].entries;
        let s = states[at - 1];
        let t = states[at];
        if at > 1 {
            match looks[at - 1] {
                Look::Read { seen, found } => {
                    if seen is Hit {
                        assert(is_entry(before, found, t.calls[id].result->0));
                    }
                },
                Look::Write { carried, entry } => {
                    assert(t.entries.drop_last() =~= carried);
                    assert(carried_over(hasher, before, carried));
                },
                Look::Begin { .. } => {},
            }
        }
    }
}

} // verus!
