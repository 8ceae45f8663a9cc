//! What may be done to the words of the locks, and by whom.
//!
//! A lock is told of its word no more than what the operation in question may do to it: who wants
//! to come in can look at the word, let itself in where that is allowed, and mark the word; who
//! goes can do what there is to do then, and nothing else.

use core::sync::atomic::{AtomicU8, AtomicUsize, Ordering};
use vstd::prelude::*;

use crate::exclusive::{only_readers_wait, only_writers_wait};
use crate::mutex::{marks, release_fits, takes, word_after, Release, LOCKED};
use crate::shared::last_before_writers;
use crate::word::{
    enters_exclusive, enters_shared, leaves_exclusive, marks_readers, marks_writers, ONE_READER, ONE_WRITER,
    WRITERS_PARKED,
};

verus! {

/// The word of a reader-writer lock.
pub trait Word: Sized {
    /// A load of the word can give `found`.
    spec fn loads(&self, found: usize) -> bool;

    /// An exchange of the word, with the given ordering where it succeeds, can end in `end`.
    spec fn exchanges(&self, from: usize, to: usize, order: Ordering, end: Result<usize, usize>) -> bool;

    /// An exchange of the word that may fail for no reason, with the given ordering where it
    /// succeeds, can end in `end`.
    spec fn exchanges_weakly(&self, from: usize, to: usize, order: Ordering, end: Result<usize, usize>) -> bool;

    /// The word can be set.
    spec fn stores(&self, to: usize, order: Ordering) -> bool;

    /// To take `count` out of the word can give the word `before`.
    spec fn subtracts(&self, count: usize, before: usize) -> bool;

    /// To keep no more of the word than `bits` can give the word `before`.
    spec fn intersects(&self, bits: usize, before: usize) -> bool;

    /// Looks at the word.
    fn look(&self) -> (found: usize)
        ensures
            self.loads(found),
    ;
}

/// What a writer may do that comes in at once or not at all.
pub trait ExclusiveTry: Word {
    /// Takes a lock that nobody holds and that has no mark.
    fn enter_vacant(&self) -> (end: Result<usize, usize>)
        ensures
            self.exchanges(0, ONE_WRITER, Ordering::Acquire, end),
    ;
}

/// What a writer may do that wants to come in.
pub trait ExclusiveEntry: Word {
    /// Takes a lock that nobody holds and that has no mark, if it does not fail for no reason.
    fn enter_vacant_weakly(&self) -> (end: Result<usize, usize>)
        ensures
            self.exchanges_weakly(0, ONE_WRITER, Ordering::Acquire, end),
    ;

    /// Takes a lock that nobody holds.
    fn enter_exclusive(&self, from: usize, to: usize) -> (end: Result<usize, usize>)
        requires
            enters_exclusive(from, to, true) || enters_exclusive(from, to, false),
        ensures
            self.exchanges_weakly(from, to, Ordering::Acquire, end),
    ;

    /// Says that writers are parked.
    fn mark_writers(&self, from: usize, to: usize) -> (end: Result<usize, usize>)
        requires
            marks_writers(from, to),
        ensures
            self.exchanges_weakly(from, to, Ordering::Relaxed, end),
    ;
}

/// What the writer may do that holds the lock and wants to go.
pub trait ExclusiveExit: Word {
    /// Gives the lock back.
    fn exit_exclusive(&self, from: usize, to: usize) -> (end: Result<usize, usize>)
        requires
            leaves_exclusive(from, to),
        ensures
            self.exchanges(from, to, Ordering::Release, end),
    ;

    /// Gives the lock back where both kinds are parked.
    fn exit_to_readers(&self)
        requires
            both_kinds_seen(*self),
        ensures
            self.stores(WRITERS_PARKED, Ordering::Release),
    ;
}

/// What the writer may do that holds the lock and wants to become a reader.
pub trait StepDown: Word {
    /// Becomes a reader.
    fn become_reader(&self) -> (before: usize)
        ensures
            self.intersects(ONE_READER | WRITERS_PARKED, before),
    ;
}

/// What a reader may do that wants to come in.
pub trait SharedEntry: Word {
    /// Takes the lock.
    fn enter_shared(&self, from: usize, to: usize) -> (end: Result<usize, usize>)
        requires
            enters_shared(from, to),
        ensures
            self.exchanges_weakly(from, to, Ordering::Acquire, end),
    ;

    /// Says that readers are parked.
    fn mark_readers(&self, from: usize, to: usize) -> (end: Result<usize, usize>)
        requires
            marks_readers(from, to),
        ensures
            self.exchanges_weakly(from, to, Ordering::Relaxed, end),
    ;
}

/// What a reader may do that holds the lock and wants to go.
pub trait SharedExit: Word {
    /// Gives the lock back.
    fn exit_shared(&self) -> (before: usize)
        ensures
            self.subtracts(ONE_READER, before),
    ;

    /// Takes back the mark of the writers, as the last reader.
    fn clear_writers(&self) -> (end: Result<usize, usize>)
        requires
            last_out(*self),
        ensures
            self.exchanges(WRITERS_PARKED, 0, Ordering::Relaxed, end),
    ;
}

/// A word was seen in which a writer is in and both kinds are parked: it was loaded, or the
/// exchange that was to let the writer out found it.
pub open spec fn both_kinds_seen<W: Word>(state: W) -> bool {
    exists|from: usize| #[trigger]
        state.loads(from) && (from == usize::MAX || ((only_readers_wait(from) || only_writers_wait(from))
            && state.exchanges(from, 0, Ordering::Release, Err(usize::MAX))))
}

/// A reader was taken out of the word that was the last one in, while only writers were parked.
pub open spec fn last_out<W: Word>(state: W) -> bool {
    exists|before: usize| #[trigger] state.subtracts(ONE_READER, before) && last_before_writers(before)
}

/// The word is `word`, and no other thread changes it: as long as the thread that asks has not
/// changed it either, this is what it is answered.
pub open spec fn word_alone<W: Word>(state: W, word: usize) -> bool {
    &&& forall|found: usize| #[trigger] state.loads(found) ==> found == word
    &&& forall|from: usize, to: usize, order: Ordering, end: Result<usize, usize>| #[trigger]
        state.exchanges(from, to, order, end) ==> end == if from == word {
            Ok::<usize, usize>(word)
        } else {
            Err::<usize, usize>(word)
        }
    &&& forall|from: usize, to: usize, order: Ordering, end: Result<usize, usize>| #[trigger]
        state.exchanges_weakly(from, to, order, end) ==> match end {
            Ok(found) => from == word && found == word,
            Err(found) => found == word,
        }
    &&& forall|count: usize, before: usize| #[trigger] state.subtracts(count, before) ==> before == word
    &&& forall|bits: usize, before: usize| #[trigger] state.intersects(bits, before) ==> before == word
}

impl Word for AtomicUsize {
    open spec fn loads(&self, found: usize) -> bool {
        call_ensures(AtomicUsize::load, (self, Ordering::Relaxed), found)
    }

    open spec fn exchanges(&self, from: usize, to: usize, order: Ordering, end: Result<usize, usize>) -> bool {
        call_ensures(AtomicUsize::compare_exchange, (self, from, to, order, Ordering::Relaxed), end)
    }

    open spec fn exchanges_weakly(
        &self,
        from: usize,
        to: usize,
        order: Ordering,
        end: Result<usize, usize>,
    ) -> bool {
        call_ensures(AtomicUsize::compare_exchange_weak, (self, from, to, order, Ordering::Relaxed), end)
    }

    open spec fn stores(&self, to: usize, order: Ordering) -> bool {
        call_ensures(AtomicUsize::store, (self, to, order), ())
    }

    open spec fn subtracts(&self, count: usize, before: usize) -> bool {
        call_ensures(AtomicUsize::fetch_sub, (self, count, Ordering::Release), before)
    }

    open spec fn intersects(&self, bits: usize, before: usize) -> bool {
        call_ensures(AtomicUsize::fetch_and, (self, bits, Ordering::Release), before)
    }

    fn look(&self) -> (found: usize) {
        self.load(Ordering::Relaxed)
    }
}

impl ExclusiveTry for AtomicUsize {
    fn enter_vacant(&self) -> (end: Result<usize, usize>) {
        self.compare_exchange(0, ONE_WRITER, Ordering::Acquire, Ordering::Relaxed)
    }
}

impl ExclusiveEntry for AtomicUsize {
    fn enter_vacant_weakly(&self) -> (end: Result<usize, usize>) {
        self.compare_exchange_weak(0, ONE_WRITER, Ordering::Acquire, Ordering::Relaxed)
    }

    fn enter_exclusive(&self, from: usize, to: usize) -> (end: Result<usize, usize>) {
        self.compare_exchange_weak(from, to, Ordering::Acquire, Ordering::Relaxed)
    }

    fn mark_writers(&self, from: usize, to: usize) -> (end: Result<usize, usize>) {
        self.compare_exchange_weak(from, to, Ordering::Relaxed, Ordering::Relaxed)
    }
}

impl ExclusiveExit for AtomicUsize {
    fn exit_exclusive(&self, from: usize, to: usize) -> (end: Result<usize, usize>) {
        self.compare_exchange(from, to, Ordering::Release, Ordering::Relaxed)
    }

    fn exit_to_readers(&self) {
        self.store(WRITERS_PARKED, Ordering::Release)
    }
}

impl StepDown for AtomicUsize {
    fn become_reader(&self) -> (before: usize) {
        self.fetch_and(ONE_READER | WRITERS_PARKED, Ordering::Release)
    }
}

impl SharedEntry for AtomicUsize {
    fn enter_shared(&self, from: usize, to: usize) -> (end: Result<usize, usize>) {
        self.compare_exchange_weak(from, to, Ordering::Acquire, Ordering::Relaxed)
    }

    fn mark_readers(&self, from: usize, to: usize) -> (end: Result<usize, usize>) {
        self.compare_exchange_weak(from, to, Ordering::Relaxed, Ordering::Relaxed)
    }
}

impl SharedExit for AtomicUsize {
    fn exit_shared(&self) -> (before: usize) {
        self.fetch_sub(ONE_READER, Ordering::Release)
    }

    fn clear_writers(&self) -> (end: Result<usize, usize>) {
        self.compare_exchange(WRITERS_PARKED, 0, Ordering::Relaxed, Ordering::Relaxed)
    }
}

/// The word of a mutex.
pub trait Byte: Sized {
    /// A load of the word can give `found`.
    spec fn loads(&self, found: u8) -> bool;

    /// An exchange of the word, with the given ordering where it succeeds, can end in `end`.
    spec fn exchanges(&self, from: u8, to: u8, order: Ordering, end: Result<u8, u8>) -> bool;

    /// An exchange of the word that may fail for no reason, with the given ordering where it
    /// succeeds, can end in `end`.
    spec fn exchanges_weakly(&self, from: u8, to: u8, order: Ordering, end: Result<u8, u8>) -> bool;

    /// The word can be set.
    spec fn stores(&self, to: u8, order: Ordering) -> bool;

    /// Looks at the word.
    fn look(&self) -> (found: u8)
        ensures
            self.loads(found),
    ;
}

/// What a thread may do that wants the mutex.
pub trait MutexEntry: Byte {
    /// Takes a mutex that nobody holds and that has no mark, if it does not fail for no reason.
    fn take_vacant_weakly(&self) -> (end: Result<u8, u8>)
        ensures
            self.exchanges_weakly(0, LOCKED, Ordering::Acquire, end),
    ;

    /// Takes a mutex that nobody holds.
    fn take_mutex(&self, from: u8, to: u8) -> (end: Result<u8, u8>)
        requires
            takes(from, to),
        ensures
            self.exchanges_weakly(from, to, Ordering::Acquire, end),
    ;

    /// Says that threads are parked.
    fn mark_mutex(&self, from: u8, to: u8) -> (end: Result<u8, u8>)
        requires
            marks(from, to),
        ensures
            self.exchanges_weakly(from, to, Ordering::Relaxed, end),
    ;
}

/// What the thread may do that holds the mutex and wants to give it back.
pub trait MutexExit: Byte {
    /// Gives back a mutex that has no mark.
    fn exit_unmarked(&self) -> (end: Result<u8, u8>)
        ensures
            self.exchanges(LOCKED, 0, Ordering::Release, end),
    ;

    /// Gives back a mutex that has a mark, once a parked thread was taken out of the queue:
    /// `unparked` threads were, there are `more` of them, and the release has to be `fair`.
    fn exit_marked(&self, unparked: usize, more: bool, fair: bool, to: u8)
        requires
            exists|release: Release|
                release_fits(release, unparked != 0, more, fair) && !(release is HandOver) && to
                    == #[trigger] word_after(release),
        ensures
            byte_stored(*self, to),
    ;
}

/// A word was stored in the byte: one that says that the mutex is free, for others to see what was
/// done under it, or one with which it stays held.
pub open spec fn byte_stored<B: Byte>(state: B, to: u8) -> bool {
    if to == LOCKED {
        state.stores(to, Ordering::Relaxed)
    } else {
        state.stores(to, Ordering::Release)
    }
}

/// The word is `word`, and no other thread changes it: as long as the thread that asks has not
/// changed it either, this is what it is answered.
pub open spec fn byte_alone<B: Byte>(state: B, word: u8) -> bool {
    &&& forall|found: u8| #[trigger] state.loads(found) ==> found == word
    &&& forall|from: u8, to: u8, order: Ordering, end: Result<u8, u8>| #[trigger]
        state.exchanges(from, to, order, end) ==> end == if from == word {
            Ok::<u8, u8>(word)
        } else {
            Err::<u8, u8>(word)
        }
    &&& forall|from: u8, to: u8, order: Ordering, end: Result<u8, u8>| #[trigger]
        state.exchanges_weakly(from, to, order, end) ==> match end {
            Ok(found) => from == word && found == word,
            Err(found) => found == word,
        }
}

impl Byte for AtomicU8 {
    open spec fn loads(&self, found: u8) -> bool {
        call_ensures(AtomicU8::load, (self, Ordering::Relaxed), found)
    }

    open spec fn exchanges(&self, from: u8, to: u8, order: Ordering, end: Result<u8, u8>) -> bool {
        call_ensures(AtomicU8::compare_exchange, (self, from, to, order, Ordering::Relaxed), end)
    }

    open spec fn exchanges_weakly(&self, from: u8, to: u8, order: Ordering, end: Result<u8, u8>) -> bool {
        call_ensures(AtomicU8::compare_exchange_weak, (self, from, to, order, Ordering::Relaxed), end)
    }

    open spec fn stores(&self, to: u8, order: Ordering) -> bool {
        call_ensures(AtomicU8::store, (self, to, order), ())
    }

    fn look(&self) -> (found: u8) {
        self.load(Ordering::Relaxed)
    }
}

impl MutexEntry for AtomicU8 {
    fn take_vacant_weakly(&self) -> (end: Result<u8, u8>) {
        self.compare_exchange_weak(0, LOCKED, Ordering::Acquire, Ordering::Relaxed)
    }

    fn take_mutex(&self, from: u8, to: u8) -> (end: Result<u8, u8>) {
        self.compare_exchange_weak(from, to, Ordering::Acquire, Ordering::Relaxed)
    }

    fn mark_mutex(&self, from: u8, to: u8) -> (end: Result<u8, u8>) {
        self.compare_exchange_weak(from, to, Ordering::Relaxed, Ordering::Relaxed)
    }
}

impl MutexExit for AtomicU8 {
    fn exit_unmarked(&self) -> (end: Result<u8, u8>) {
        self.compare_exchange(LOCKED, 0, Ordering::Release, Ordering::Relaxed)
    }

    fn exit_marked(&self, unparked: usize, more: bool, fair: bool, to: u8) {
        if to == LOCKED {
            self.store(to, Ordering::Relaxed)
        } else {
            self.store(to, Ordering::Release)
        }
    }
}

} // verus!
