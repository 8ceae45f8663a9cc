//! The locks themselves: an atomic word each, and the operations on it.
//!
//! No operation puts a thread to sleep or wakes one: where that is due, the operation ends
//! and says so. An operation that goes on until something comes about goes on for as many rounds as
//! it is told to, and says where that was not enough.

use core::sync::atomic::{AtomicU8, AtomicUsize, Ordering};
use vstd::prelude::*;

use crate::alone::{
    law_reader_gets_in_if_it_fits, law_reader_is_counted_once, law_reader_waits_for_writer,
    law_thread_gets_mutex_if_free, law_thread_waits_for_holder, law_writer_waits_for_all, told_alone,
};
use crate::atomic::{
    both_kinds_seen, byte_alone, byte_stored, last_out, word_alone, Byte, ExclusiveEntry, ExclusiveExit, ExclusiveTry,
    MutexEntry, MutexExit, SharedEntry, SharedExit, StepDown, Word,
};
use crate::exclusive::{
    self, exclusive_outcome, exclusive_trace, lemma_exclusive_trace, ExclusiveLook, ExclusiveWaiter,
};
use crate::mutex::{
    self, gives_back, lemma_mutex_trace, locked, marks, mutex_outcome, mutex_trace, release_fits, takes, token_of, word_after,
    MutexLook, MutexWaiter, Release, LOCKED, PARKED,
};
use crate::shared::{
    self, last_before_writers, lemma_shared_trace, lemma_tried_once, lemma_tried_repeatedly, retried, shared_outcome,
    shared_trace, SharedLook, SharedWaiter,
};
use crate::wait::{answers, bare, ends, settle, Answers, Attempt, Permit, Wait, Wake};
use crate::word::{
    enters_exclusive, enters_shared, leaves_exclusive, lemma_word, marks_readers, marks_writers, reader_fits,
    readers_marked, vacant, writer_in, writers_marked, ONE_READER, ONE_WRITER, WRITERS_PARKED,
};

verus! {

/// A load of the word can give `found`.
pub open spec fn word_loaded<W: Word>(state: W, found: usize) -> bool {
    state.loads(found)
}

/// An exchange of the word, with the given ordering where it succeeds, can end in `end`.
pub open spec fn word_exchanged<W: Word>(
    state: W,
    from: usize,
    to: usize,
    order: Ordering,
    end: Result<usize, usize>,
) -> bool {
    state.exchanges(from, to, order, end)
}

/// An exchange of the word that may fail for no reason, with the given ordering where it
/// succeeds, can end in `end`.
pub open spec fn word_exchanged_weakly<W: Word>(
    state: W,
    from: usize,
    to: usize,
    order: Ordering,
    end: Result<usize, usize>,
) -> bool {
    state.exchanges_weakly(from, to, order, end)
}

/// What the word can answer to a thread that wants to enter and to one that wants to park.
pub open spec fn word_answers<W: Word>(state: W) -> Answers<usize, Permit> {
    Answers {
        load: |found: usize| word_loaded(state, found),
        enter: |permit: Permit, from: usize, to: usize, end: Result<usize, (usize, Permit)>|
            word_exchanged_weakly(state, from, to, Ordering::Acquire, bare(end)),
        mark: |permit: Permit, from: usize, to: usize, end: Result<usize, (usize, Permit)>|
            word_exchanged_weakly(state, from, to, Ordering::Relaxed, bare(end)),
    }
}

/// One attempt to enter as a reader came to this.
pub open spec fn entered_at_once<W: Word>(state: W, acquired: bool) -> bool {
    exists|word: usize, left: Option<Permit>|
        word_loaded(state, word) && #[trigger] shared::tried_once(
            word_answers(state).enter,
            Attempt { word, permit: Permit },
            left,
        ) && acquired == left is None
}

/// Repeated attempts to enter as a reader came to this.
pub open spec fn entered_in_turn<W: Word>(state: W, rounds: u64, acquired: Option<bool>) -> bool {
    exists|left: Option<Permit>| #[trigger]
        retried(word_answers(state).load, word_answers(state).enter, Permit, rounds, acquired, left)
}

/// What a word that no other thread changes answers.
proof fn lemma_word_alone<W: Word>(state: W, word: usize)
    requires
        word_alone(state, word),
    ensures
        told_alone(word_answers(state), word),
{
}

/// What one attempt to enter as a reader comes to while no other thread changes the word.
proof fn lemma_alone_at_once<W: Word>(state: W)
    requires
        entered_at_once(state, true),
    ensures
        forall|word: usize| #[trigger] word_alone(state, word) ==> reader_fits(word),
{
    assert forall|word: usize| #[trigger] word_alone(state, word) implies reader_fits(word) by {
        lemma_word_alone(state, word);
        let (found, left) = choose|found: usize, left: Option<Permit>|
            word_loaded(state, found) && #[trigger] shared::tried_once(
                word_answers(state).enter,
                Attempt { word: found, permit: Permit },
                left,
            ) && left is None;
        law_reader_is_counted_once(word_answers(state).enter, word, Permit, left);
    }
}

/// What repeated attempts to enter as a reader come to while no other thread changes the word.
proof fn lemma_alone_in_turn<W: Word>(state: W, rounds: u64, acquired: Option<bool>)
    requires
        entered_in_turn(state, rounds, acquired),
    ensures
        forall|word: usize| #[trigger]
            word_alone(state, word) ==> (acquired matches Some(entered) ==> entered == reader_fits(word)),
{
    let told = word_answers(state);
    let left = choose|left: Option<Permit>| #[trigger]
        retried(told.load, told.enter, Permit, rounds, acquired, left);
    let attempts = choose|attempts: Seq<Attempt<usize, Permit>>| #[trigger]
        shared::failed_in_turn(told.enter, attempts) && (told.load)(attempts[0].word) && attempts[0].permit == Permit
            && shared::tried_repeatedly(told.enter, attempts, rounds, acquired, left);
    assert forall|word: usize| #[trigger] word_alone(state, word) implies (acquired matches Some(entered) ==> entered
        == reader_fits(word)) by {
        lemma_word_alone(state, word);
        law_reader_gets_in_if_it_fits(told.enter, word, attempts, rounds, acquired, left);
    }
}

/// A reader-writer lock.
pub struct RawRwLock<W = AtomicUsize> {
    /// The word of the lock.
    pub state: W,
}

impl RawRwLock {
    /// A lock that nobody holds.
    pub fn new() -> (lock: RawRwLock)
        ensures
            call_ensures(AtomicUsize::new, (0,), lock.state),
    {
        RawRwLock { state: AtomicUsize::new(0) }
    }
}

impl<W: ExclusiveTry> RawRwLock<W> {

    /// Takes the lock as a writer if nobody holds it and no thread is parked.
    pub fn try_lock_exclusive(&self) -> (acquired: bool)
        ensures
            exists|end: Result<usize, usize>| #[trigger]
                word_exchanged(self.state, 0, ONE_WRITER, Ordering::Acquire, end) && acquired == end is Ok,
            forall|word: usize| #[trigger] word_alone(self.state, word) ==> acquired == (word == 0),
    {
        let enter = |from: usize, to: usize| -> (end: Result<usize, usize>)
            requires
                from == 0 && to == ONE_WRITER,
            ensures
                word_exchanged(self.state, from, to, Ordering::Acquire, end),
            { self.state.enter_vacant() };
        exclusive::enter_vacant(enter)
    }
}

impl<W: ExclusiveEntry> RawRwLock<W> {
    /// Takes the lock as a writer if that takes no waiting. `false` says that the writer has
    /// to go on with [`RawRwLock::lock_exclusive_slow`].
    pub fn lock_exclusive(&self) -> (acquired: bool)
        ensures
            exists|end: Result<usize, usize>| #[trigger]
                word_exchanged_weakly(self.state, 0, ONE_WRITER, Ordering::Acquire, end) && acquired
                    == end is Ok,
            forall|word: usize| #[trigger] word_alone(self.state, word) && acquired ==> word == 0,
    {
        let enter = |from: usize, to: usize| -> (end: Result<usize, usize>)
            requires
                from == 0 && to == ONE_WRITER,
            ensures
                word_exchanged_weakly(self.state, from, to, Ordering::Acquire, end),
            { self.state.enter_vacant_weakly() };
        exclusive::enter_vacant(enter)
    }

    /// Takes the lock as a writer, or goes as far as the writer has to park. After as many looks at
    /// the word as `rounds`, it says that the writer has to go on.
    pub fn lock_exclusive_slow(&self, waiter: &mut ExclusiveWaiter, rounds: u64) -> (wait: Wait)
        ensures
            exists|looks: Seq<ExclusiveLook<Permit>>| #[trigger]
                exclusive_trace(word_answers(self.state), old(waiter).was_parked(), Permit, looks)
                    && exclusive_outcome(
                    word_answers(self.state),
                    looks,
                    *old(waiter),
                    *final(waiter),
                    rounds,
                    wait,
                ),
            forall|word: usize| #[trigger]
                word_alone(self.state, word) ==> match wait {
                    Wait::Acquired => vacant(word),
                    Wait::Park => !vacant(word),
                    Wait::Overflow => false,
                    Wait::Again => true,
                },
    {
        let ghost was_parked = waiter.was_parked();
        let load = || -> (found: usize)
            ensures
                word_loaded(self.state, found),
            { self.state.look() };
        let enter = |permit: Permit, from: usize, to: usize| -> (end: Result<usize, (usize, Permit)>)
            requires
                enters_exclusive(from, to, was_parked),
            ensures
                word_exchanged_weakly(self.state, from, to, Ordering::Acquire, bare(end)),
            { settle(permit, self.state.enter_exclusive(from, to)) };
        let mark = |permit: Permit, from: usize, to: usize| -> (end: Result<usize, (usize, Permit)>)
            requires
                marks_writers(from, to),
            ensures
                word_exchanged_weakly(self.state, from, to, Ordering::Relaxed, bare(end)),
            { settle(permit, self.state.mark_writers(from, to)) };
        let (wait, _left) = waiter.wait(Permit, load, enter, mark, rounds);
        proof {
            let told = answers(load, enter, mark);
            let looks = choose|looks: Seq<ExclusiveLook<Permit>>| #[trigger]
                exclusive_trace(told, was_parked, Permit, looks) && exclusive_outcome(
                    told,
                    looks,
                    *old(waiter),
                    *waiter,
                    rounds,
                    wait,
                );
            let told = word_answers(self.state);
            lemma_exclusive_trace(answers(load, enter, mark), told, was_parked, Permit, looks, wait);
            assert forall|word: usize| #[trigger] word_alone(self.state, word) implies match wait {
                Wait::Acquired => vacant(word),
                Wait::Park => !vacant(word),
                Wait::Overflow => false,
                Wait::Again => true,
            } by {
                lemma_word_alone(self.state, word);
                law_writer_waits_for_all(told, word, was_parked, Permit, looks, wait);
            }
        }
        wait
    }

    /// A writer that waits has to park.
    pub fn writer_must_park(&self) -> (park: bool)
        ensures
            exists|word: usize| #[trigger]
                word_loaded(self.state, word) && park == (!vacant(word) && writers_marked(word)),
            forall|word: usize| #[trigger]
                word_alone(self.state, word) ==> park == (!vacant(word) && writers_marked(word)),
    {
        let word: usize = self.state.look();
        assert(word_loaded(self.state, word));
        exclusive::writer_must_park(word)
    }
}

impl<W: ExclusiveExit> RawRwLock<W> {
    /// Gives the lock back as the writer that holds it, and says whom to wake.
    ///
    /// `None` says that the word was not one that this writer can come upon: then it does not
    /// hold the lock.
    pub fn unlock_exclusive(&self) -> (wake: Option<Wake>)
        ensures
            match wake {
                Some(Wake::Nobody) => exists|found: usize| #[trigger]
                    word_exchanged(self.state, ONE_WRITER, 0, Ordering::Release, Ok(found)),
                Some(Wake::Writer) => exists|from: usize, found: usize| #[trigger]
                    word_exchanged(self.state, from, 0, Ordering::Release, Ok(found)) && word_loaded(
                        self.state,
                        from,
                    ) && exclusive::only_writers_wait(from),
                Some(Wake::Readers) => {
                    ||| exists|from: usize, found: usize| #[trigger]
                        word_exchanged(self.state, from, 0, Ordering::Release, Ok(found)) && word_loaded(
                            self.state,
                            from,
                        ) && exclusive::only_readers_wait(from)
                    ||| both_kinds_seen(self.state) && self.state.stores(WRITERS_PARKED, Ordering::Release)
                },
                None => exists|from: usize| #[trigger]
                    word_loaded(self.state, from) && (!writer_in(from) || from == ONE_WRITER || (from
                        != usize::MAX && exists|found: usize|
                        found != usize::MAX && #[trigger] word_exchanged(
                            self.state,
                            from,
                            0,
                            Ordering::Release,
                            Err(found),
                        ))),
            },
            wake != Some(Wake::Nobody) ==> exists|found: usize| #[trigger]
                word_exchanged(self.state, ONE_WRITER, 0, Ordering::Release, Err(found)),
            forall|word: usize| #[trigger]
                word_alone(self.state, word) ==> wake == if !writer_in(word) {
                    None
                } else if readers_marked(word) {
                    Some(Wake::Readers)
                } else if writers_marked(word) {
                    Some(Wake::Writer)
                } else {
                    Some(Wake::Nobody)
                },
    {
        let leave = |permit: Permit, from: usize, to: usize| -> (end: Result<usize, (usize, Permit)>)
            requires
                leaves_exclusive(from, to),
            ensures
                word_exchanged(self.state, from, to, Ordering::Release, bare(end)),
            { settle(permit, self.state.exit_exclusive(from, to)) };
        let load = || -> (found: usize)
            ensures
                word_loaded(self.state, found),
            { self.state.look() };
        let store = |permit: Permit, to: usize|
            requires
                to == WRITERS_PARKED,
                both_kinds_seen(self.state),
            ensures
                self.state.stores(to, Ordering::Release),
            { self.state.exit_to_readers() };
        let (wake, _left) = exclusive::leave_exclusive(Permit, leave, load, store);
        proof {
            lemma_word(ONE_WRITER);
            assert forall|word: usize| #[trigger] word_alone(self.state, word) implies wake == if !writer_in(word) {
                None
            } else if readers_marked(word) {
                Some(Wake::Readers)
            } else if writers_marked(word) {
                Some(Wake::Writer)
            } else {
                Some(Wake::Nobody)
            } by {
                lemma_word(word);
            }
        }
        wake
    }
}

impl<W: StepDown> RawRwLock<W> {
    /// Turns the writer that holds the lock into a reader, and says whom to wake.
    pub fn downgrade(&self) -> (wake: Wake)
        ensures
            exists|before: usize| #[trigger]
                self.state.intersects(ONE_READER | WRITERS_PARKED, before) && wake == if readers_marked(before) {
                    Wake::Readers
                } else {
                    Wake::Nobody
                },
            forall|word: usize| #[trigger]
                word_alone(self.state, word) ==> (wake is Readers <==> readers_marked(word)),
    {
        let intersect = |bits: usize| -> (before: usize)
            requires
                bits == ONE_READER | WRITERS_PARKED,
            ensures
                self.state.intersects(bits, before),
            { self.state.become_reader() };
        exclusive::step_down(intersect)
    }
}

impl<W: SharedEntry> RawRwLock<W> {
    /// Takes the lock as a reader if one attempt is enough.
    pub fn try_lock_shared_fast(&self) -> (acquired: bool)
        ensures
            entered_at_once(self.state, acquired),
            forall|word: usize| #[trigger] word_alone(self.state, word) && acquired ==> reader_fits(word),
    {
        let word: usize = self.state.look();
        assert(word_loaded(self.state, word));
        let enter = |permit: Permit, from: usize, to: usize| -> (end: Result<usize, (usize, Permit)>)
            requires
                enters_shared(from, to),
            ensures
                word_exchanged_weakly(self.state, from, to, Ordering::Acquire, bare(end)),
            { settle(permit, self.state.enter_shared(from, to)) };
        let left = shared::enter_once(Permit, word, enter);
        proof {
            lemma_tried_once(
                ends(enter),
                word_answers(self.state).enter,
                Attempt { word, permit: Permit },
                left,
            );
        }
        assert forall|alone: usize| #[trigger] word_alone(self.state, alone) && left is None implies reader_fits(
            alone,
        ) by {
            lemma_word_alone(self.state, alone);
            law_reader_is_counted_once(word_answers(self.state).enter, alone, Permit, left);
        }
        left.is_none()
    }

    /// Takes the lock as a reader, unless a word is seen in which no reader can be counted.
    ///
    /// Exchanges that fail are repeated. `None` says that as many of them as `rounds` have all failed,
    /// and that the reader has to go on trying.
    pub fn try_lock_shared_slow(&self, rounds: u64) -> (acquired: Option<bool>)
        ensures
            entered_in_turn(self.state, rounds, acquired),
            forall|word: usize| #[trigger]
                word_alone(self.state, word) ==> (acquired matches Some(entered) ==> entered == reader_fits(word)),
    {
        let word: usize = self.state.look();
        let enter = |permit: Permit, from: usize, to: usize| -> (end: Result<usize, (usize, Permit)>)
            requires
                enters_shared(from, to),
            ensures
                word_exchanged_weakly(self.state, from, to, Ordering::Acquire, bare(end)),
            { settle(permit, self.state.enter_shared(from, to)) };
        let (acquired, left) = shared::enter_repeatedly(Permit, word, enter, rounds);
        proof {
            let attempts = choose|attempts: Seq<Attempt<usize, Permit>>| #[trigger]
                shared::failed_in_turn(ends(enter), attempts) && attempts[0] == (Attempt { word, permit: Permit })
                    && shared::tried_repeatedly(ends(enter), attempts, rounds, acquired, left);
            assert((word_answers(self.state).load)(attempts[0].word));
            lemma_tried_repeatedly(ends(enter), word_answers(self.state).enter, attempts, rounds, acquired, left);
            let told = word_answers(self.state);
            assert(retried(told.load, told.enter, Permit, rounds, acquired, left));
        }
        proof {
            lemma_alone_in_turn(self.state, rounds, acquired);
        }
        acquired
    }

    /// Takes the lock as a reader, unless a word is seen in which no reader can be counted.
    ///
    /// Exchanges that fail are repeated. `None` says that as many of them as `rounds` have all failed,
    /// and that the reader has to go on trying with [`RawRwLock::try_lock_shared_slow`].
    pub fn try_lock_shared(&self, rounds: u64) -> (acquired: Option<bool>)
        ensures
            entered_at_once(self.state, true) && acquired == Some(true) || entered_at_once(self.state, false)
                && entered_in_turn(self.state, rounds, acquired),
            forall|word: usize| #[trigger]
                word_alone(self.state, word) ==> (acquired matches Some(entered) ==> entered == reader_fits(word)),
    {
        let acquired = if self.lock_shared() {
            Some(true)
        } else {
            self.try_lock_shared_slow(rounds)
        };
        proof {
            if acquired == Some(true) && entered_at_once(self.state, true) {
                lemma_alone_at_once(self.state);
            }
        }
        acquired
    }

    /// Takes the lock as a reader if that takes no waiting. `false` says that the reader has
    /// to go on with [`RawRwLock::lock_shared_slow`].
    pub fn lock_shared(&self) -> (acquired: bool)
        ensures
            entered_at_once(self.state, acquired),
            forall|word: usize| #[trigger] word_alone(self.state, word) && acquired ==> reader_fits(word),
    {
        self.try_lock_shared_fast()
    }

    /// Takes the lock as a reader, or goes as far as the reader has to park. After as many looks at
    /// the word as `rounds`, it says that the reader has to go on.
    pub fn lock_shared_slow(&self, waiter: &mut SharedWaiter, rounds: u64) -> (wait: Wait)
        ensures
            exists|looks: Seq<SharedLook<Permit>>| #[trigger]
                shared_trace(word_answers(self.state), Permit, looks) && shared_outcome(
                    word_answers(self.state),
                    looks,
                    *old(waiter),
                    *final(waiter),
                    rounds,
                    wait,
                ),
            forall|word: usize| #[trigger]
                word_alone(self.state, word) ==> match wait {
                    Wait::Acquired => reader_fits(word),
                    Wait::Park => writer_in(word),
                    Wait::Overflow => !writer_in(word) && !reader_fits(word),
                    Wait::Again => true,
                },
    {
        let load = || -> (found: usize)
            ensures
                word_loaded(self.state, found),
            { self.state.look() };
        let enter = |permit: Permit, from: usize, to: usize| -> (end: Result<usize, (usize, Permit)>)
            requires
                enters_shared(from, to),
            ensures
                word_exchanged_weakly(self.state, from, to, Ordering::Acquire, bare(end)),
            { settle(permit, self.state.enter_shared(from, to)) };
        let mark = |permit: Permit, from: usize, to: usize| -> (end: Result<usize, (usize, Permit)>)
            requires
                marks_readers(from, to),
            ensures
                word_exchanged_weakly(self.state, from, to, Ordering::Relaxed, bare(end)),
            { settle(permit, self.state.mark_readers(from, to)) };
        let (wait, _left) = waiter.wait(Permit, load, enter, mark, rounds);
        proof {
            let told = answers(load, enter, mark);
            let looks = choose|looks: Seq<SharedLook<Permit>>| #[trigger]
                shared_trace(told, Permit, looks) && shared_outcome(
                    told,
                    looks,
                    *old(waiter),
                    *waiter,
                    rounds,
                    wait,
                );
            let told = word_answers(self.state);
            lemma_shared_trace(answers(load, enter, mark), told, Permit, looks, wait);
            assert forall|word: usize| #[trigger] word_alone(self.state, word) implies match wait {
                Wait::Acquired => reader_fits(word),
                Wait::Park => writer_in(word),
                Wait::Overflow => !writer_in(word) && !reader_fits(word),
                Wait::Again => true,
            } by {
                lemma_word_alone(self.state, word);
                law_reader_waits_for_writer(told, word, Permit, looks, wait);
            }
        }
        wait
    }

    /// A reader that waits has to park.
    pub fn reader_must_park(&self) -> (park: bool)
        ensures
            exists|word: usize| #[trigger]
                word_loaded(self.state, word) && park == (writer_in(word) && readers_marked(word)),
            forall|word: usize| #[trigger]
                word_alone(self.state, word) ==> park == (writer_in(word) && readers_marked(word)),
    {
        let word: usize = self.state.look();
        assert(word_loaded(self.state, word));
        shared::reader_must_park(word)
    }
}

impl<W: SharedExit> RawRwLock<W> {
    /// Gives the lock back as one of the readers that hold it, and says whom to wake.
    pub fn unlock_shared(&self) -> (wake: Wake)
        ensures
            wake is Nobody || wake is Writer,
            exists|before: usize| #[trigger]
                self.state.subtracts(ONE_READER, before)
                    && if last_before_writers(before) {
                    exists|end: Result<usize, usize>| #[trigger]
                        word_exchanged(self.state, WRITERS_PARKED, 0, Ordering::Relaxed, end) && (
                        wake is Writer <==> end is Ok)
                } else {
                    wake is Nobody
                },
            forall|word: usize| #[trigger]
                word_alone(self.state, word) && !last_before_writers(word) ==> wake is Nobody,
    {
        let subtract = |count: usize| -> (before: usize)
            requires
                count == ONE_READER,
            ensures
                self.state.subtracts(count, before),
            { self.state.exit_shared() };
        let clear = |from: usize, to: usize| -> (end: Result<usize, usize>)
            requires
                from == WRITERS_PARKED && to == 0,
                last_out(self.state),
            ensures
                word_exchanged(self.state, from, to, Ordering::Relaxed, end),
            { self.state.clear_writers() };
        shared::leave_shared(subtract, clear)
    }
}

/// A load of the byte can give `found`.
pub open spec fn byte_loaded<B: Byte>(state: B, found: u8) -> bool {
    state.loads(found)
}

/// An exchange of the byte that may fail for no reason, with the given ordering where it
/// succeeds, can end in `end`.
pub open spec fn byte_exchanged_weakly<B: Byte>(
    state: B,
    from: u8,
    to: u8,
    order: Ordering,
    end: Result<u8, u8>,
) -> bool {
    state.exchanges_weakly(from, to, order, end)
}

/// What the byte can answer to a thread that wants to take the mutex and to one that wants to
/// park.
pub open spec fn byte_answers<B: Byte>(state: B) -> Answers<u8, Permit> {
    Answers {
        load: |found: u8| byte_loaded(state, found),
        enter: |permit: Permit, from: u8, to: u8, end: Result<u8, (u8, Permit)>|
            byte_exchanged_weakly(state, from, to, Ordering::Acquire, bare(end)),
        mark: |permit: Permit, from: u8, to: u8, end: Result<u8, (u8, Permit)>|
            byte_exchanged_weakly(state, from, to, Ordering::Relaxed, bare(end)),
    }
}

/// What a byte that no other thread changes answers.
proof fn lemma_byte_alone<B: Byte>(state: B, word: u8)
    requires
        byte_alone(state, word),
    ensures
        told_alone(byte_answers(state), word),
{
}

/// A mutex.
pub struct RawMutex<B = AtomicU8> {
    /// The word of the mutex.
    pub state: B,
}

impl RawMutex {
    /// A mutex that nobody holds.
    pub fn new() -> (mutex: RawMutex)
        ensures
            call_ensures(AtomicU8::new, (0,), mutex.state),
    {
        RawMutex { state: AtomicU8::new(0) }
    }
}

impl<B: MutexEntry> RawMutex<B> {

    /// Takes the mutex, unless a word is seen in which a thread holds it.
    ///
    /// Exchanges that fail are repeated. `None` says that as many of them as `rounds` have all failed,
    /// and that the thread has to go on trying.
    pub fn try_lock(&self, rounds: u64) -> (acquired: Option<bool>)
        ensures
            exists|attempts: Seq<Attempt<u8, Permit>>, left: Option<Permit>|
                mutex::failed_in_turn(byte_answers(self.state).enter, attempts) && byte_loaded(
                    self.state,
                    attempts[0].word,
                ) && #[trigger] mutex::tried_repeatedly(
                    byte_answers(self.state).enter,
                    attempts,
                    rounds,
                    acquired,
                    left,
                ),
            forall|word: u8| #[trigger]
                byte_alone(self.state, word) ==> (acquired matches Some(taken) ==> taken == !locked(word)),
    {
        let word: u8 = self.state.look();
        let take = |permit: Permit, from: u8, to: u8| -> (end: Result<u8, (u8, Permit)>)
            requires
                takes(from, to),
            ensures
                byte_exchanged_weakly(self.state, from, to, Ordering::Acquire, bare(end)),
            { settle(permit, self.state.take_mutex(from, to)) };
        let (acquired, left) = mutex::take_repeatedly(Permit, word, take, rounds);
        proof {
            let attempts = choose|attempts: Seq<Attempt<u8, Permit>>| #[trigger]
                mutex::failed_in_turn(ends(take), attempts) && attempts[0] == (Attempt { word, permit: Permit })
                    && mutex::tried_repeatedly(ends(take), attempts, rounds, acquired, left);
            mutex::lemma_tried_repeatedly(
                ends(take),
                byte_answers(self.state).enter,
                attempts,
                rounds,
                acquired,
                left,
            );
        }
        assert forall|alone: u8| #[trigger] byte_alone(self.state, alone) implies (acquired matches Some(taken)
            ==> taken == !locked(alone)) by {
            let told = byte_answers(self.state);
            let attempts = choose|attempts: Seq<Attempt<u8, Permit>>| #[trigger]
                mutex::failed_in_turn(told.enter, attempts) && byte_loaded(self.state, attempts[0].word)
                    && mutex::tried_repeatedly(told.enter, attempts, rounds, acquired, left);
            lemma_byte_alone(self.state, alone);
            law_thread_gets_mutex_if_free(told.enter, alone, attempts, rounds, acquired, left);
        }
        acquired
    }

    /// Takes the mutex if that takes no waiting. `false` says that the thread has to go on
    /// with [`RawMutex::lock_slow`].
    pub fn lock(&self) -> (acquired: bool)
        ensures
            exists|end: Result<u8, u8>| #[trigger]
                byte_exchanged_weakly(self.state, 0, LOCKED, Ordering::Acquire, end) && acquired == end is Ok,
            forall|word: u8| #[trigger] byte_alone(self.state, word) && acquired ==> word == 0,
    {
        let take = |from: u8, to: u8| -> (end: Result<u8, u8>)
            requires
                from == 0 && to == LOCKED,
            ensures
                byte_exchanged_weakly(self.state, from, to, Ordering::Acquire, end),
            { self.state.take_vacant_weakly() };
        mutex::take_vacant(take)
    }

    /// Takes the mutex, or goes as far as the thread has to park. After as many looks at the word as
    /// `rounds`, it says that the thread has to go on.
    pub fn lock_slow(&self, waiter: &mut MutexWaiter, rounds: u64) -> (wait: Wait)
        ensures
            exists|looks: Seq<MutexLook<Permit>>| #[trigger]
                mutex_trace(byte_answers(self.state), Permit, looks) && mutex_outcome(
                    byte_answers(self.state),
                    looks,
                    *old(waiter),
                    *final(waiter),
                    rounds,
                    wait,
                ),
            forall|word: u8| #[trigger]
                byte_alone(self.state, word) ==> match wait {
                    Wait::Acquired => !locked(word),
                    Wait::Park => locked(word),
                    Wait::Overflow => false,
                    Wait::Again => true,
                },
    {
        let load = || -> (found: u8)
            ensures
                byte_loaded(self.state, found),
            { self.state.look() };
        let take = |permit: Permit, from: u8, to: u8| -> (end: Result<u8, (u8, Permit)>)
            requires
                takes(from, to),
            ensures
                byte_exchanged_weakly(self.state, from, to, Ordering::Acquire, bare(end)),
            { settle(permit, self.state.take_mutex(from, to)) };
        let mark = |permit: Permit, from: u8, to: u8| -> (end: Result<u8, (u8, Permit)>)
            requires
                marks(from, to),
            ensures
                byte_exchanged_weakly(self.state, from, to, Ordering::Relaxed, bare(end)),
            { settle(permit, self.state.mark_mutex(from, to)) };
        let (wait, _left) = waiter.wait(Permit, load, take, mark, rounds);
        proof {
            let told = answers(load, take, mark);
            let looks = choose|looks: Seq<MutexLook<Permit>>| #[trigger]
                mutex_trace(told, Permit, looks) && mutex_outcome(
                    told,
                    looks,
                    *old(waiter),
                    *waiter,
                    rounds,
                    wait,
                );
            let told = byte_answers(self.state);
            lemma_mutex_trace(answers(load, take, mark), told, Permit, looks, wait);
            assert forall|word: u8| #[trigger] byte_alone(self.state, word) implies match wait {
                Wait::Acquired => !locked(word),
                Wait::Park => locked(word),
                Wait::Overflow => false,
                Wait::Again => true,
            } by {
                lemma_byte_alone(self.state, word);
                law_thread_waits_for_holder(told, word, Permit, looks, wait);
            }
        }
        wait
    }

    /// A thread that waits has to park.
    pub fn must_park(&self) -> (park: bool)
        ensures
            exists|word: u8| #[trigger]
                byte_loaded(self.state, word) && park == (word == LOCKED + PARKED),
            forall|word: u8| #[trigger] byte_alone(self.state, word) ==> park == (word == LOCKED + PARKED),
    {
        let word: u8 = self.state.look();
        assert(byte_loaded(self.state, word));
        mutex::must_park(word)
    }
}

impl<B: MutexExit> RawMutex<B> {
    /// Gives the mutex back as the thread that holds it, if no thread is parked. `false` says
    /// that a parked thread has to be taken out of the queue, and that the mutex is given back
    /// with [`RawMutex::unlock_slow`] while the queue is held.
    pub fn unlock(&self) -> (released: bool)
        ensures
            exists|end: Result<u8, u8>| #[trigger]
                self.state.exchanges(LOCKED, 0u8, Ordering::Release, end) && released == end is Ok,
            forall|word: u8| #[trigger] byte_alone(self.state, word) ==> released == (word == LOCKED),
    {
        let release = |from: u8, to: u8| -> (end: Result<u8, u8>)
            requires
                gives_back(from, to),
            ensures
                self.state.exchanges(from, to, Ordering::Release, end),
            { self.state.exit_unmarked() };
        mutex::release_unmarked(release)
    }

    /// Gives the mutex back once a parked thread was taken out of the queue: `unparked` threads
    /// were, there are `more` of them, and the release has to be `fair`. The result is the
    /// token with which the thread is woken.
    pub fn unlock_slow(&self, unparked: usize, more: bool, fair: bool) -> (token: usize)
        ensures
            exists|release: Release|
                release_fits(release, unparked != 0, more, fair) && token == #[trigger] token_of(release) && (
                release is HandOver || byte_stored(self.state, word_after(release))),
    {
        let store = |to: u8|
            requires
                exists|release: Release|
                    release_fits(release, unparked != 0, more, fair) && !(release is HandOver) && to
                        == #[trigger] word_after(release),
            ensures
                byte_stored(self.state, to),
            { self.state.exit_marked(unparked, more, fair, to) };
        mutex::give_back_marked(unparked, more, fair, store)
    }
}

} // verus!
