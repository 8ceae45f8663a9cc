//! The steps of the mutex.
//!
//! The word of a mutex has two bits: one says that a thread holds the mutex, one that threads
//! may be parked.

use parking_lot_core::SpinWait;
use vstd::prelude::*;

use crate::spin::{spin_count, spin_limit};
use crate::wait::{
    among, answers, ends, ends_among, granted, lemma_more_ends, refused, Answers, Attempt, Wait,
};

verus! {

/// Set while a thread holds the mutex.
pub const LOCKED: u8 = 0b01;

/// Set just before a thread parks that waits for the mutex.
pub const PARKED: u8 = 0b10;

/// Tells the thread that is woken to try to take the mutex again.
pub const TOKEN_NORMAL: usize = 0;

/// Tells the thread that is woken that it holds the mutex.
pub const TOKEN_HANDOFF: usize = 1;

/// A thread holds the mutex.
pub open spec fn locked(word: u8) -> bool {
    word as int % 2 == 1
}

/// The word says that threads may be parked.
pub open spec fn marked(word: u8) -> bool {
    word as int / 2 % 2 == 1
}

/// A thread takes the mutex.
pub open spec fn takes(from: u8, to: u8) -> bool {
    !locked(from) && to == from + LOCKED
}

/// A thread that is about to park says so.
pub open spec fn marks(from: u8, to: u8) -> bool {
    locked(from) && !marked(from) && to == from + PARKED
}

/// A thread gives the mutex back while no thread is parked.
pub open spec fn gives_back(from: u8, to: u8) -> bool {
    from == LOCKED && to == 0
}

/// What the bit operations on a word mean.
pub proof fn lemma_bits(word: u8)
    ensures
        word & LOCKED != 0 <==> locked(word),
        word & PARKED != 0 <==> marked(word),
        !locked(word) ==> word | LOCKED == word + LOCKED,
        !marked(word) ==> word | PARKED == word + PARKED,
        LOCKED | PARKED == 3,
{
    assert(word & 1 == word % 2 && word & 2 == 2 * (word / 2 % 2) && 1u8 | 2u8 == 3) by (bit_vector);
    assert((word % 2 == 0 ==> word | 1 == word + 1) && (word / 2 % 2 == 0 ==> word | 2 == word + 2))
        by (bit_vector);
}

/// One attempt to take a mutex that nobody holds and that has no mark.
pub fn take_vacant<X: FnOnce(u8, u8) -> Result<u8, u8>>(take: X) -> (acquired: bool)
    requires
        call_requires(take, (0, LOCKED)),
    ensures
        exists|end: Result<u8, u8>| #[trigger] call_ensures(take, (0, LOCKED), end) && acquired == end is Ok,
{
    take(0, LOCKED).is_ok()
}

/// Attempts to take the mutex, until it is taken or a word is seen in which a thread holds
/// it. `None` says that as many exchanges as `rounds` have all failed. The permit is left over where
/// the mutex is not taken.
pub fn take_repeatedly<P, X: Fn(P, u8, u8) -> Result<u8, (u8, P)>>(
    permit: P,
    word: u8,
    take: X,
    rounds: u64,
) -> (out: (Option<bool>, Option<P>))
    requires
        forall|permit: P, from: u8, to: u8|
            takes(from, to) ==> #[trigger] call_requires(take, (permit, from, to)),
    ensures
        exists|attempts: Seq<Attempt<u8, P>>| #[trigger]
            failed_in_turn(ends(take), attempts) && attempts[0] == (Attempt { word, permit }) && tried_repeatedly(
                ends(take),
                attempts,
                rounds,
                out.0,
                out.1,
            ),
{
    let mut last: u8 = word;
    let mut held: P = permit;
    let mut left: u64 = rounds;
    let ghost mut attempts: Seq<Attempt<u8, P>> = seq![Attempt { word, permit }];
    while left > 0
        invariant
            left <= rounds,
            forall|permit: P, from: u8, to: u8|
                takes(from, to) ==> #[trigger] call_requires(take, (permit, from, to)),
            failed_in_turn(ends(take), attempts),
            attempts[0] == (Attempt { word, permit }),
            attempts.last() == (Attempt { word: last, permit: held }),
            attempts.len() == rounds - left + 1,
        decreases left,
    {
        left = left - 1;
        let ghost attempt = attempts.last();
        proof {
            lemma_bits(last);
        }
        if last & LOCKED != 0 {
            return (Some(false), Some(held));
        }
        let to: u8 = last | LOCKED;
        match take(held, last, to) {
            Ok(found) => {
                assert(ends(take)(attempt.permit, attempt.word, to, Ok(found)));
                assert(granted(ends(take), attempt.permit, attempt.word, to));
                return (Some(true), None);
            },
            Err((found, back)) => {
                proof {
                    let next = Attempt { word: found, permit: back };
                    assert(refused(ends(take), attempt.permit, attempt.word, to, next.word, next.permit));
                    assert(fails_over(ends(take), attempt, next));
                    attempts = attempts.push(next);
                }
                last = found;
                held = back;
            },
        }
    }
    (None, Some(held))
}

/// The exchange that was to take the mutex failed, and the next attempt starts from what it
/// found.
pub open spec fn fails_over<P>(
    take: spec_fn(P, u8, u8, Result<u8, (u8, P)>) -> bool,
    attempt: Attempt<u8, P>,
    next: Attempt<u8, P>,
) -> bool {
    exists|to: u8|
        takes(attempt.word, to) && #[trigger] refused(
            take,
            attempt.permit,
            attempt.word,
            to,
            next.word,
            next.permit,
        )
}

/// Each of the attempts starts from what the one before found when it failed.
pub open spec fn failed_in_turn<P>(
    take: spec_fn(P, u8, u8, Result<u8, (u8, P)>) -> bool,
    attempts: Seq<Attempt<u8, P>>,
) -> bool {
    &&& attempts.len() > 0
    &&& forall|i: int| 0 <= i < attempts.len() - 1 ==> #[trigger] fails_over(take, attempts[i], attempts[i + 1])
}

/// What the last of the attempts comes to: the exchange succeeded, or a thread holds the mutex, or
/// there is none left. Where the mutex is not taken, the permit of the last attempt is left over.
pub open spec fn tried_repeatedly<P>(
    take: spec_fn(P, u8, u8, Result<u8, (u8, P)>) -> bool,
    attempts: Seq<Attempt<u8, P>>,
    rounds: u64,
    acquired: Option<bool>,
    left: Option<P>,
) -> bool {
    let last = attempts.last();
    &&& left == if acquired == Some(true) {
        None
    } else {
        Some(last.permit)
    }
    &&& match acquired {
        Some(true) => attempts.len() <= rounds && exists|to: u8|
            takes(last.word, to) && #[trigger] granted(take, last.permit, last.word, to),
        Some(false) => attempts.len() <= rounds && locked(last.word),
        None => attempts.len() == rounds + 1,
    }
}

/// What repeated attempts come to, they can come to where more answers are possible.
pub proof fn lemma_tried_repeatedly<P>(
    some: spec_fn(P, u8, u8, Result<u8, (u8, P)>) -> bool,
    all: spec_fn(P, u8, u8, Result<u8, (u8, P)>) -> bool,
    attempts: Seq<Attempt<u8, P>>,
    rounds: u64,
    acquired: Option<bool>,
    left: Option<P>,
)
    requires
        ends_among(some, all),
        failed_in_turn(some, attempts),
        tried_repeatedly(some, attempts, rounds, acquired, left),
    ensures
        failed_in_turn(all, attempts),
        tried_repeatedly(all, attempts, rounds, acquired, left),
{
    lemma_more_ends(some, all);
    assert forall|i: int| 0 <= i < attempts.len() - 1 implies #[trigger] fails_over(
        all,
        attempts[i],
        attempts[i + 1],
    ) by {
        assert(fails_over(some, attempts[i], attempts[i + 1]));
    }
}

/// While nobody else changes the word, a thread is not turned away from a mutex that is free: the
/// attempts end with the mutex taken, from that very word, or are used up.
pub proof fn law_alone_thread_takes<P>(
    take: spec_fn(P, u8, u8, Result<u8, (u8, P)>) -> bool,
    attempts: Seq<Attempt<u8, P>>,
    word: u8,
    rounds: u64,
    acquired: Option<bool>,
    left: Option<P>,
)
    requires
        forall|permit: P, from: u8, to: u8, found: u8, back: P| #[trigger]
            refused(take, permit, from, to, found, back) ==> found == word,
        failed_in_turn(take, attempts),
        attempts[0].word == word,
        !locked(word),
        tried_repeatedly(take, attempts, rounds, acquired, left),
    ensures
        acquired != Some(false),
        acquired == Some(true) ==> exists|permit: P, to: u8|
            takes(word, to) && #[trigger] granted(take, permit, word, to),
{
    let last = attempts.last();
    if attempts.len() > 1 {
        let i = attempts.len() - 2;
        assert(fails_over(take, attempts[i], attempts[i + 1]));
    }
    assert(last.word == word);
}

/// What a thread that waits for the mutex does next.
#[derive(Clone, Copy, Debug, PartialEq, Eq, Structural)]
pub enum MutexStep {
    /// Take the mutex.
    Take { from: u8, to: u8 },
    /// Look at the word again.
    Reload,
    /// Say that threads are parked.
    Mark { from: u8, to: u8 },
    /// Park.
    Park,
}

/// A thread that waits for the mutex.
pub struct MutexWaiter {
    spin: SpinWait,
}

impl MutexWaiter {
    /// How often the thread has looked again since it last slept.
    pub closed spec fn spins(self) -> nat {
        spin_count(self.spin)
    }

    /// A thread that has not waited yet.
    pub fn new() -> (waiter: MutexWaiter)
        ensures
            waiter.spins() == 0,
    {
        MutexWaiter { spin: SpinWait::new() }
    }

    /// What to do about `word`.
    ///
    /// While nobody holds the mutex, the thread takes it, even if others are parked. While it
    /// is held, the thread looks again a few times if no thread is parked, then marks the
    /// word, and parks once the word is marked.
    pub fn observe(&mut self, word: u8) -> (step: MutexStep)
        ensures
            match step {
                MutexStep::Take { from, to } => from == word && takes(from, to),
                MutexStep::Reload => locked(word) && !marked(word) && old(self).spins() < spin_limit(),
                MutexStep::Mark { from, to } => from == word && marks(from, to) && old(self).spins()
                    >= spin_limit(),
                MutexStep::Park => locked(word) && marked(word),
            },
            final(self).spins() == old(self).spins() + if step is Reload {
                1int
            } else {
                0
            },
    {
        proof {
            lemma_bits(word);
        }
        if word & LOCKED == 0 {
            return MutexStep::Take { from: word, to: word | LOCKED };
        }
        if word & PARKED == 0 && self.spin.spin() {
            return MutexStep::Reload;
        }
        if word & PARKED == 0 {
            return MutexStep::Mark { from: word, to: word | PARKED };
        }
        MutexStep::Park
    }

    /// The thread has slept and was woken with `token`, or was kept from sleeping (`None`).
    /// Either it holds the mutex now, or it starts over.
    pub fn woken(&mut self, token: Option<usize>) -> (acquired: bool)
        ensures
            acquired == (token == Some(TOKEN_HANDOFF)),
            final(self).spins() == if acquired {
                old(self).spins()
            } else {
                0
            },
    {
        match token {
            Some(token) => {
                if token == TOKEN_HANDOFF {
                    return true;
                }
            },
            None => {},
        }
        self.spin.reset();
        false
    }

    /// Attempts to take the mutex, up to the moment at which the thread has to park.
    ///
    /// `take` is asked for nothing but to take the mutex, `mark` for nothing but to say that
    /// threads are parked, and one of them succeeds once at the most. The permit is left over where
    /// none did.
    pub fn wait<
        P,
        L: Fn() -> u8,
        X: Fn(P, u8, u8) -> Result<u8, (u8, P)>,
        M: Fn(P, u8, u8) -> Result<u8, (u8, P)>,
    >(&mut self, permit: P, load: L, take: X, mark: M, rounds: u64) -> (out: (Wait, Option<P>))
        requires
            call_requires(load, ()),
            forall|permit: P, from: u8, to: u8|
                takes(from, to) ==> #[trigger] call_requires(take, (permit, from, to)),
            forall|permit: P, from: u8, to: u8|
                marks(from, to) ==> #[trigger] call_requires(mark, (permit, from, to)),
        ensures
            exists|looks: Seq<MutexLook<P>>| #[trigger]
                mutex_trace(answers(load, take, mark), permit, looks) && mutex_outcome(
                    answers(load, take, mark),
                    looks,
                    *old(self),
                    *final(self),
                    rounds,
                    out.0,
                ) && out.1 == mutex_left(looks.last(), out.0),
    {
        let mut word: u8 = load();
        let mut held: P = permit;
        let mut left: u64 = rounds;
        let ghost told = answers(load, take, mark);
        let ghost mut looks: Seq<MutexLook<P>> = seq![MutexLook { word, permit, spins: self.spins() }];
        while left > 0
            invariant
                left <= rounds,
                call_requires(load, ()),
                forall|permit: P, from: u8, to: u8|
                    takes(from, to) ==> #[trigger] call_requires(take, (permit, from, to)),
                forall|permit: P, from: u8, to: u8|
                    marks(from, to) ==> #[trigger] call_requires(mark, (permit, from, to)),
                told == answers(load, take, mark),
                mutex_trace(told, permit, looks),
                looks.len() == rounds - left + 1,
                looks[0].spins == old(self).spins(),
                looks.last() == (MutexLook { word, permit: held, spins: self.spins() }),
            decreases left,
        {
            left = left - 1;
            let ghost last = looks.last();
            match self.observe(word) {
                MutexStep::Take { from, to } => match take(held, from, to) {
                    Ok(found) => {
                        assert((told.enter)(last.permit, from, to, Ok(found)));
                        assert(granted(told.enter, last.permit, last.word, to));
                        return (Wait::Acquired, None);
                    },
                    Err((found, back)) => {
                        word = found;
                        held = back;
                        proof {
                            let next = MutexLook { word, permit: held, spins: self.spins() };
                            assert(refused(told.enter, last.permit, last.word, to, next.word, next.permit));
                            assert(mutex_goes_on(told, last, next));
                        }
                    },
                },
                MutexStep::Reload => {
                    word = load();
                    assert((told.load)(word));
                },
                MutexStep::Mark { from, to } => match mark(held, from, to) {
                    Ok(found) => {
                        assert((told.mark)(last.permit, from, to, Ok(found)));
                        assert(granted(told.mark, last.permit, last.word, to));
                        return (Wait::Park, None);
                    },
                    Err((found, back)) => {
                        word = found;
                        held = back;
                        proof {
                            let next = MutexLook { word, permit: held, spins: self.spins() };
                            assert(refused(told.mark, last.permit, last.word, to, next.word, next.permit));
                            assert(mutex_goes_on(told, last, next));
                        }
                    },
                },
                MutexStep::Park => {
                    return (Wait::Park, Some(held));
                },
            }
            proof {
                let next = MutexLook { word, permit: held, spins: self.spins() };
                assert(mutex_goes_on(told, last, next));
                looks = looks.push(next);
            }
        }
        (Wait::Again, Some(held))
    }
}

/// What a thread that waits looks at, and how long it has waited by then.
pub ghost struct MutexLook<P> {
    /// The word.
    pub word: u8,
    /// The permit that the thread holds.
    pub permit: P,
    /// How often the thread has looked again since it last slept.
    pub spins: nat,
}

/// How a thread that waits comes from one look to the next: the exchange that was to take the
/// mutex failed, or the mutex is held and it looks again, or the exchange that was to mark the
/// word failed.
pub open spec fn mutex_goes_on<P>(told: Answers<u8, P>, look: MutexLook<P>, next: MutexLook<P>) -> bool {
    if !locked(look.word) {
        &&& exists|to: u8|
            takes(look.word, to) && #[trigger] refused(
                told.enter,
                look.permit,
                look.word,
                to,
                next.word,
                next.permit,
            )
        &&& next.spins == look.spins
    } else if look.spins < spin_limit() {
        &&& !marked(look.word)
        &&& (told.load)(next.word)
        &&& next.permit == look.permit
        &&& next.spins == look.spins + 1
    } else {
        &&& exists|to: u8|
            marks(look.word, to) && #[trigger] refused(
                told.mark,
                look.permit,
                look.word,
                to,
                next.word,
                next.permit,
            )
        &&& next.spins == look.spins
    }
}

/// The looks of a thread that waits, one after the other.
pub open spec fn mutex_trace<P>(told: Answers<u8, P>, permit: P, looks: Seq<MutexLook<P>>) -> bool {
    &&& looks.len() > 0
    &&& looks[0].permit == permit
    &&& (told.load)(looks[0].word)
    &&& forall|i: int| 0 <= i < looks.len() - 1 ==> #[trigger] mutex_goes_on(told, looks[i], looks[i + 1])
}

/// How a thread's wait ends at the last of its looks.
pub open spec fn mutex_ends<P>(told: Answers<u8, P>, look: MutexLook<P>, wait: Wait) -> bool {
    match wait {
        Wait::Acquired => exists|to: u8|
            takes(look.word, to) && #[trigger] granted(told.enter, look.permit, look.word, to),
        Wait::Overflow => false,
        Wait::Park => locked(look.word) && (marked(look.word) || (look.spins >= spin_limit() && exists|to: u8|
            marks(look.word, to) && #[trigger] granted(told.mark, look.permit, look.word, to))),
        Wait::Again => true,
    }
}

/// The permit that is left over at the end of a thread's wait: none where the mutex is taken or the
/// word was marked, else the one that the thread held last.
pub open spec fn mutex_left<P>(look: MutexLook<P>, wait: Wait) -> Option<P> {
    match wait {
        Wait::Acquired => None,
        Wait::Park => if marked(look.word) {
            Some(look.permit)
        } else {
            None
        },
        _ => Some(look.permit),
    }
}

/// What a thread's wait comes to.
pub open spec fn mutex_outcome<P>(
    told: Answers<u8, P>,
    looks: Seq<MutexLook<P>>,
    before: MutexWaiter,
    after: MutexWaiter,
    rounds: u64,
    wait: Wait,
) -> bool {
    &&& looks[0].spins == before.spins()
    &&& if wait is Again {
        looks.len() == rounds + 1
    } else {
        looks.len() <= rounds
    }
    &&& mutex_ends(told, looks.last(), wait)
    &&& after.spins() == looks.last().spins
}

/// A trace of a thread's wait is one too where more answers are possible.
pub proof fn lemma_mutex_trace<P>(
    some: Answers<u8, P>,
    all: Answers<u8, P>,
    permit: P,
    looks: Seq<MutexLook<P>>,
    wait: Wait,
)
    requires
        among(some, all),
        mutex_trace(some, permit, looks),
        mutex_ends(some, looks.last(), wait),
    ensures
        mutex_trace(all, permit, looks),
        mutex_ends(all, looks.last(), wait),
{
    lemma_more_ends(some.enter, all.enter);
    lemma_more_ends(some.mark, all.mark);
    assert forall|i: int| 0 <= i < looks.len() - 1 implies #[trigger] mutex_goes_on(all, looks[i], looks[i + 1]) by {
        assert(mutex_goes_on(some, looks[i], looks[i + 1]));
    }
}

/// A thread has to park: the mutex is held, and the word says that threads are parked.
pub fn must_park(word: u8) -> (park: bool)
    ensures
        park == (word == LOCKED + PARKED),
{
    proof {
        lemma_bits(word);
    }
    word == LOCKED | PARKED
}

/// Gives the mutex back while no thread is parked. `false` says that threads may be parked.
pub fn release_unmarked<X: FnOnce(u8, u8) -> Result<u8, u8>>(release: X) -> (released: bool)
    requires
        forall|from: u8, to: u8| gives_back(from, to) ==> #[trigger] call_requires(release, (from, to)),
    ensures
        exists|end: Result<u8, u8>| #[trigger] call_ensures(release, (LOCKED, 0), end) && released == end is Ok,
{
    release(LOCKED, 0).is_ok()
}

/// How the mutex is given back to the threads that are parked.
#[derive(Clone, Copy, Debug, PartialEq, Eq, Structural)]
pub enum Release {
    /// The mutex stays held, for the thread that was woken, and others are parked still.
    HandOver,
    /// The mutex stays held, for the thread that was woken, and no other is parked.
    HandOverLast,
    /// The mutex is free for any thread, and others are parked still.
    Free,
    /// The mutex is free for any thread, and no other is parked.
    FreeLast,
}

/// The mutex is handed over if there is a thread to hand it to and the release has to be
/// fair, and the mark stays if there are more threads.
pub open spec fn release_fits(release: Release, found: bool, more: bool, fair: bool) -> bool {
    match release {
        Release::HandOver => found && fair && more,
        Release::HandOverLast => found && fair && !more,
        Release::Free => !(found && fair) && more,
        Release::FreeLast => !(found && fair) && !more,
    }
}

/// Decides how to give the mutex back once a parked thread was taken out of the queue:
/// `unparked` threads were, there are `more` of them, and the release has to be `fair`.
pub fn release_marked(unparked: usize, more: bool, fair: bool) -> (release: Release)
    ensures
        release_fits(release, unparked != 0, more, fair),
{
    if unparked != 0 && fair {
        if !more {
            return Release::HandOverLast;
        }
        return Release::HandOver;
    }
    if more {
        Release::Free
    } else {
        Release::FreeLast
    }
}

/// Gives the mutex back once a parked thread was taken out of the queue: `unparked` threads were,
/// there are `more` of them, and the release has to be `fair`. The result is the token with which
/// the thread is woken.
///
/// Nothing is stored where the mutex is handed over while others are parked: the word stays as
/// it is.
pub fn give_back_marked<S: FnOnce(u8)>(unparked: usize, more: bool, fair: bool, store: S) -> (token: usize)
    requires
        forall|release: Release|
            release_fits(release, unparked != 0, more, fair) && !(release is HandOver) ==> call_requires(
                store,
                (#[trigger] word_after(release),),
            ),
    ensures
        exists|release: Release|
            release_fits(release, unparked != 0, more, fair) && token == #[trigger] token_of(release) && (
            release is HandOver || call_ensures(store, (word_after(release),), ())),
{
    let release = release_marked(unparked, more, fair);
    assert(release is HandOver || call_requires(store, (word_after(release),)));
    let token: usize = match release {
        Release::HandOver => TOKEN_HANDOFF,
        Release::HandOverLast => {
            store(LOCKED);
            TOKEN_HANDOFF
        },
        Release::Free => {
            store(PARKED);
            TOKEN_NORMAL
        },
        Release::FreeLast => {
            store(0);
            TOKEN_NORMAL
        },
    };
    assert(token == token_of(release));
    token
}

/// The word that a release leaves in the place of one in which both bits are set.
pub open spec fn word_after(release: Release) -> u8 {
    match release {
        Release::HandOver => 3,
        Release::HandOverLast => LOCKED,
        Release::Free => PARKED,
        Release::FreeLast => 0,
    }
}

/// The token with which the thread is woken.
pub open spec fn token_of(release: Release) -> usize {
    if release is HandOver || release is HandOverLast {
        TOKEN_HANDOFF
    } else {
        TOKEN_NORMAL
    }
}

} // verus!
