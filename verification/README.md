# cachemap3

A cache map: for each key it keeps the value that was computed for it first, and hands it out ever
after. The keys are split over shards by their hashes. Each shard stands behind a reader-writer
lock that lookups share, and beside it there is a lock for the one thread that adds an entry.

The library is verified with [Verus](https://github.com/verus-lang/verus).

## Layout

- `src/raw.rs` is one shard: entries in the order in which they came, found by their hashes.
  `src/index.rs` is the hash table of hashbrown behind it, `src/hash.rs` the hashing of keys.
- `src/map.rs` is the map over many shards, `src/sharding.rs` says how many there are and which of
  them a hash belongs to.
- `src/protocol.rs` looks a key up in a shard that others use too, step by step, and
  proves that no entry is lost, and that all who look one key up are handed one value, in whatever
  order the steps of the threads come.
- `src/history.rs` says what holds over any number of lookups: the first value for a key wins, the
  order of different keys does not matter, and a map answers as one shard would.
- `src/word.rs`, `src/shared.rs`, `src/exclusive.rs` and `src/mutex.rs` are the steps of a
  reader-writer lock and of a mutex on their words; `src/spin.rs` and `src/wait.rs` are what these
  have in common. `src/lock.rs` applies them to atomic words.
- `src/rw_system.rs` and `src/mutex_system.rs` put the steps of all threads together: a writer is
  alone, the readers are counted, and no thread that is parked is forgotten.
- `app/` is what needs threads that sleep and guards: the locks as implementations of the traits
  of lock_api, and the shards and the map behind them.

## What is not proved

What an operation on an atomic word answers is whatever the word held at that moment. The contracts
say which operations are made, in which order, and what follows from each answer. That no others
change the word holds of the functions that are handed the operations: they need leave for each
change, have leave for one, and give it back where they made none. Verus asks of every loop that it
ends, so what goes on until it succeeds is told for how many rounds, and says where these are used
up; `app/` goes on then. Which hash a hasher gives is left to the hasher; where a law needs that equal keys have one hash, or that a clone
of a key equals the key, it says so.
