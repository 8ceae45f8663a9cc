//! A cache map: keys, each with the value that was cached for it first, split over shards.
//!
//! [`map`] holds the map, [`raw`] one shard of it, and [`protocol`] how threads share a shard.
//! [`history`] says what holds over any number of lookups.
//! [`lock`] holds a reader-writer lock and a mutex, as words on which threads work in steps;
//! [`rw_system`] and [`mutex_system`] say what holds in whatever order the steps come, and
//! [`alone`] what holds while no other thread changes the word. [`atomic`] says what each of those
//! who use a lock may do to its word.

pub mod alone;
pub mod atomic;
pub mod exclusive;
pub mod hash;
pub mod history;
pub mod index;
pub mod lock;
pub mod map;
pub mod mutex;
pub mod mutex_system;
pub mod protocol;
pub mod raw;
pub mod rw_system;
pub mod sharding;
pub mod shared;
pub mod spin;
pub mod wait;
pub mod word;

pub use map::{CacheMap, CacheMapShard};
