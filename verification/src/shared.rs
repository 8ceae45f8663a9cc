//! The reader's side of the reader-writer lock.

use parking_lot_core::SpinWait;
use vstd::prelude::*;

use crate::spin::{spin_count, spin_limit};
use crate::wait::{
    among, answers, ends, ends_among, granted, lemma_more_ends, refused, Answers, Attempt, Wait, Wake,
};
use crate::word::{
    enters_shared, lemma_word, marks_readers, reader_fits, readers_in, readers_marked, writer_in,
    writers_marked, ONE_READER, ONE_WRITER, READERS_PARKED, WRITERS_PARKED,
};

verus! {

/// The word in which one more reader is counted, if one more can be counted.
pub fn reader_entry(word: usize) -> (to: Option<usize>)
    ensures
        to is Some <==> reader_fits(word),
        to matches Some(to) ==> enters_shared(word, to),
{
    match word.checked_add(ONE_READER) {
        Some(to) => {
            proof {
                lemma_word(to);
            }
            if to & ONE_WRITER != ONE_WRITER {
                Some(to)
            } else {
                None
            }
        },
        None => None,
    }
}

/// One attempt to take the lock as a reader, from the word last seen. The permit is left over
/// where the lock is not taken.
///
/// The exchange is asked for nothing but to count one more reader.
pub fn enter_once<P, X: FnOnce(P, usize, usize) -> Result<usize, (usize, P)>>(
    permit: P,
    word: usize,
    enter: X,
) -> (left: Option<P>)
    requires
        forall|permit: P, from: usize, to: usize|
            enters_shared(from, to) ==> #[trigger] call_requires(enter, (permit, from, to)),
    ensures
        tried_once(ends(enter), Attempt { word, permit }, left),
{
    let ghost attempt = Attempt { word, permit };
    if let Some(to) = reader_entry(word) {
        return match enter(permit, word, to) {
            Ok(found) => {
                assert(ends(enter)(attempt.permit, attempt.word, to, Ok(found)));
                assert(granted(ends(enter), attempt.permit, attempt.word, to));
                assert(tried_once(ends(enter), attempt, None));
                None
            },
            Err((found, back)) => {
                proof {
                    let next = Attempt { word: found, permit: back };
                    assert(refused(ends(enter), attempt.permit, attempt.word, to, next.word, next.permit));
                    assert(fails_over(ends(enter), attempt, next));
                    assert(tried_once(ends(enter), attempt, Some(back)));
                }
                Some(back)
            },
        };
    }
    Some(permit)
}

/// What one attempt comes to: the exchange succeeded, or no reader could be counted, or the
/// exchange failed.
pub open spec fn tried_once<P>(
    enter: spec_fn(P, usize, usize, Result<usize, (usize, P)>) -> bool,
    attempt: Attempt<usize, P>,
    left: Option<P>,
) -> bool {
    match left {
        None => exists|to: usize|
            enters_shared(attempt.word, to) && #[trigger] granted(enter, attempt.permit, attempt.word, to),
        Some(back) => {
            ||| !reader_fits(attempt.word) && back == attempt.permit
            ||| exists|next: Attempt<usize, P>| #[trigger]
                fails_over(enter, attempt, next) && next.permit == back
        },
    }
}

/// Attempts to take the lock as a reader, until it is taken or a word is seen in which no
/// reader can be counted. `None` says that as many exchanges as `rounds` have all failed. The
/// permit is left over where the lock is not taken.
pub fn enter_repeatedly<P, X: Fn(P, usize, usize) -> Result<usize, (usize, P)>>(
    permit: P,
    word: usize,
    enter: X,
    rounds: u64,
) -> (out: (Option<bool>, Option<P>))
    requires
        forall|permit: P, from: usize, to: usize|
            enters_shared(from, to) ==> #[trigger] call_requires(enter, (permit, from, to)),
    ensures
        exists|attempts: Seq<Attempt<usize, P>>| #[trigger]
            failed_in_turn(ends(enter), attempts) && attempts[0] == (Attempt { word, permit }) && tried_repeatedly(
                ends(enter),
                attempts,
                rounds,
                out.0,
                out.1,
            ),
{
    let mut last: usize = word;
    let mut held: P = permit;
    let mut left: u64 = rounds;
    let ghost mut attempts: Seq<Attempt<usize, P>> = seq![Attempt { word, permit }];
    while left > 0
        invariant
            left <= rounds,
            forall|permit: P, from: usize, to: usize|
                enters_shared(from, to) ==> #[trigger] call_requires(enter, (permit, from, to)),
            failed_in_turn(ends(enter), attempts),
            attempts[0] == (Attempt { word, permit }),
            attempts.last() == (Attempt { word: last, permit: held }),
            attempts.len() == rounds - left + 1,
        decreases left,
    {
        left = left - 1;
        let ghost attempt = attempts.last();
        match reader_entry(last) {
            Some(to) => match enter(held, last, to) {
                Ok(found) => {
                    assert(ends(enter)(attempt.permit, attempt.word, to, Ok(found)));
                    assert(granted(ends(enter), attempt.permit, attempt.word, to));
                    return (Some(true), None);
                },
                Err((found, back)) => {
                    proof {
                        let next = Attempt { word: found, permit: back };
                        assert(refused(ends(enter), attempt.permit, attempt.word, to, next.word, next.permit));
                        assert(fails_over(ends(enter), attempt, next));
                        attempts = attempts.push(next);
                    }
                    last = found;
                    held = back;
                },
            },
            None => {
                return (Some(false), Some(held));
            },
        }
    }
    (None, Some(held))
}

/// One attempt to take the lock as a reader and, where it fails, attempts from the word that is
/// loaded then, until the lock is taken or a word is seen in which no reader can be counted.
/// `None` says that as many of the latter as `rounds` have all failed. The permit is left over where
/// the lock is not taken.
pub fn enter_or_retry<P, L: Fn() -> usize, X: Fn(P, usize, usize) -> Result<usize, (usize, P)>>(
    permit: P,
    load: L,
    enter: X,
    rounds: u64,
) -> (out: (Option<bool>, Option<P>))
    requires
        call_requires(load, ()),
        forall|permit: P, from: usize, to: usize|
            enters_shared(from, to) ==> #[trigger] call_requires(enter, (permit, from, to)),
    ensures
        exists|word: usize, left: Option<P>|
            call_ensures(load, (), word) && #[trigger] tried_once(ends(enter), Attempt { word, permit }, left)
                && match left {
                None => out == (Some(true), None::<P>),
                Some(back) => retried(
                    |found: usize| call_ensures(load, (), found),
                    ends(enter),
                    back,
                    rounds,
                    out.0,
                    out.1,
                ),
            },
{
    let first: usize = load();
    let ghost attempt = Attempt { word: first, permit };
    let mut held: P = permit;
    if let Some(to) = reader_entry(first) {
        match enter(held, first, to) {
            Ok(found) => {
                assert(ends(enter)(attempt.permit, attempt.word, to, Ok(found)));
                assert(granted(ends(enter), attempt.permit, attempt.word, to));
                assert(tried_once(ends(enter), attempt, None));
                return (Some(true), None);
            },
            Err((found, back)) => {
                proof {
                    let next = Attempt { word: found, permit: back };
                    assert(refused(ends(enter), attempt.permit, attempt.word, to, next.word, next.permit));
                    assert(fails_over(ends(enter), attempt, next));
                    assert(tried_once(ends(enter), attempt, Some(back)));
                }
                held = back;
            },
        }
    }
    assert(tried_once(ends(enter), attempt, Some(held)));
    let ghost back = held;
    let word: usize = load();
    let out = enter_repeatedly(held, word, enter, rounds);
    proof {
        let loaded = |found: usize| call_ensures(load, (), found);
        let attempts = choose|attempts: Seq<Attempt<usize, P>>| #[trigger]
            failed_in_turn(ends(enter), attempts) && attempts[0] == (Attempt { word, permit: back })
                && tried_repeatedly(ends(enter), attempts, rounds, out.0, out.1);
        assert(loaded(word));
        assert(retried(loaded, ends(enter), back, rounds, out.0, out.1));
    }
    out
}

/// Repeated attempts, with this permit and from a word that was loaded, came to this.
pub open spec fn retried<P>(
    load: spec_fn(usize) -> bool,
    enter: spec_fn(P, usize, usize, Result<usize, (usize, P)>) -> bool,
    permit: P,
    rounds: u64,
    acquired: Option<bool>,
    left: Option<P>,
) -> bool {
    exists|attempts: Seq<Attempt<usize, P>>| #[trigger]
        failed_in_turn(enter, attempts) && load(attempts[0].word) && attempts[0].permit == permit
            && tried_repeatedly(enter, attempts, rounds, acquired, left)
}

/// The exchange that was to count one more reader failed, and the next attempt starts from what
/// it found.
pub open spec fn fails_over<P>(
    enter: spec_fn(P, usize, usize, Result<usize, (usize, P)>) -> bool,
    attempt: Attempt<usize, P>,
    next: Attempt<usize, P>,
) -> bool {
    exists|to: usize|
        enters_shared(attempt.word, to) && #[trigger] refused(
            enter,
            attempt.permit,
            attempt.word,
            to,
            next.word,
            next.permit,
        )
}

/// Each of the attempts starts from what the one before found when it failed.
pub open spec fn failed_in_turn<P>(
    enter: spec_fn(P, usize, usize, Result<usize, (usize, P)>) -> bool,
    attempts: Seq<Attempt<usize, P>>,
) -> bool {
    &&& attempts.len() > 0
    &&& forall|i: int|
        0 <= i < attempts.len() - 1 ==> #[trigger] fails_over(enter, attempts[i], attempts[i + 1])
}

/// What the last of the attempts comes to: the exchange succeeded, or no reader can be counted,
/// or there is none left. Where the lock is not taken, the permit of the last attempt is left over.
pub open spec fn tried_repeatedly<P>(
    enter: spec_fn(P, usize, usize, Result<usize, (usize, P)>) -> bool,
    attempts: Seq<Attempt<usize, P>>,
    rounds: u64,
    acquired: Option<bool>,
    left: Option<P>,
) -> bool {
    let last = attempts.last();
    &&& left == if acquired == Some(true) {
        None
    } else {
        Some(last.permit)
    }
    &&& match acquired {
        Some(true) => attempts.len() <= rounds && exists|to: usize|
            enters_shared(last.word, to) && #[trigger] granted(enter, last.permit, last.word, to),
        Some(false) => attempts.len() <= rounds && !reader_fits(last.word),
        None => attempts.len() == rounds + 1,
    }
}

/// What repeated attempts come to, they can come to where more answers are possible.
pub proof fn lemma_tried_repeatedly<P>(
    some: spec_fn(P, usize, usize, Result<usize, (usize, P)>) -> bool,
    all: spec_fn(P, usize, usize, Result<usize, (usize, P)>) -> bool,
    attempts: Seq<Attempt<usize, P>>,
    rounds: u64,
    acquired: Option<bool>,
    left: Option<P>,
)
    requires
        ends_among(some, all),
        failed_in_turn(some, attempts),
        tried_repeatedly(some, attempts, rounds, acquired, left),
    ensures
        failed_in_turn(all, attempts),
        tried_repeatedly(all, attempts, rounds, acquired, left),
{
    lemma_more_ends(some, all);
    assert forall|i: int| 0 <= i < attempts.len() - 1 implies #[trigger] fails_over(
        all,
        attempts[i],
        attempts[i + 1],
    ) by {
        assert(fails_over(some, attempts[i], attempts[i + 1]));
    }
}

/// What one attempt comes to, it can come to where more answers are possible.
pub proof fn lemma_tried_once<P>(
    some: spec_fn(P, usize, usize, Result<usize, (usize, P)>) -> bool,
    all: spec_fn(P, usize, usize, Result<usize, (usize, P)>) -> bool,
    attempt: Attempt<usize, P>,
    left: Option<P>,
)
    requires
        ends_among(some, all),
        tried_once(some, attempt, left),
    ensures
        tried_once(all, attempt, left),
{
    lemma_more_ends(some, all);
    assert forall|next: Attempt<usize, P>| #[trigger] fails_over(some, attempt, next) implies fails_over(
        all,
        attempt,
        next,
    ) by {
        let to = choose|to: usize|
            enters_shared(attempt.word, to) && #[trigger] refused(
                some,
                attempt.permit,
                attempt.word,
                to,
                next.word,
                next.permit,
            );
        assert(refused(all, attempt.permit, attempt.word, to, next.word, next.permit));
    }
}

/// While nobody else changes the word, a reader that fits in it is not turned away: the attempts end
/// with the lock taken, from that very word, or are used up.
pub proof fn law_alone_reader_enters<P>(
    enter: spec_fn(P, usize, usize, Result<usize, (usize, P)>) -> bool,
    attempts: Seq<Attempt<usize, P>>,
    word: usize,
    rounds: u64,
    acquired: Option<bool>,
    left: Option<P>,
)
    requires
        forall|permit: P, from: usize, to: usize, found: usize, back: P| #[trigger]
            refused(enter, permit, from, to, found, back) ==> found == word,
        failed_in_turn(enter, attempts),
        attempts[0].word == word,
        reader_fits(word),
        tried_repeatedly(enter, attempts, rounds, acquired, left),
    ensures
        acquired != Some(false),
        acquired == Some(true) ==> exists|permit: P, to: usize|
            enters_shared(word, to) && #[trigger] granted(enter, permit, word, to),
{
    let last = attempts.last();
    if attempts.len() > 1 {
        let i = attempts.len() - 2;
        assert(fails_over(enter, attempts[i], attempts[i + 1]));
    }
    assert(last.word == word);
}

/// What a reader that waits for the lock does next.
#[derive(Clone, Copy, Debug, PartialEq, Eq, Structural)]
pub enum SharedStep {
    /// Count one more reader.
    Enter { from: usize, to: usize },
    /// Give up: the word cannot count one more reader.
    Overflow,
    /// Look at the word again.
    Reload,
    /// Say that readers are parked.
    Mark { from: usize, to: usize },
    /// Park.
    Park,
}

/// A reader that waits for the lock.
pub struct SharedWaiter {
    spin: SpinWait,
    backoff: SpinWait,
}

impl SharedWaiter {
    /// How often the reader has looked again since it last slept.
    pub closed spec fn spins(self) -> nat {
        spin_count(self.spin)
    }

    /// How long the reader waits after an exchange that failed.
    pub closed spec fn backoff(self) -> nat {
        spin_count(self.backoff)
    }

    /// A reader that has not waited yet.
    pub fn new() -> (waiter: SharedWaiter)
        ensures
            waiter.spins() == 0,
            waiter.backoff() == 0,
    {
        SharedWaiter { spin: SpinWait::new(), backoff: SpinWait::new() }
    }

    /// What to do about `word`.
    ///
    /// While no writer is in, the reader enters. While one is in, it looks again a few
    /// times, then marks the word, and parks once the word is marked.
    pub fn observe(&mut self, word: usize) -> (step: SharedStep)
        ensures
            match step {
                SharedStep::Enter { from, to } => from == word && enters_shared(from, to),
                SharedStep::Overflow => !writer_in(word) && !reader_fits(word),
                SharedStep::Reload => writer_in(word) && !readers_marked(word) && old(self).spins()
                    < spin_limit(),
                SharedStep::Mark { from, to } => from == word && marks_readers(from, to) && old(self).spins()
                    >= spin_limit(),
                SharedStep::Park => writer_in(word) && readers_marked(word),
            },
            final(self).spins() == old(self).spins() + if step is Reload {
                1int
            } else {
                0
            },
            final(self).backoff() == if writer_in(word) {
                0
            } else {
                old(self).backoff()
            },
    {
        proof {
            lemma_word(word);
        }
        match word.checked_add(ONE_READER) {
            Some(to) => {
                proof {
                    lemma_word(to);
                }
                if to & ONE_WRITER == ONE_WRITER {
                    return SharedStep::Overflow;
                }
                SharedStep::Enter { from: word, to }
            },
            None => {
                self.backoff = SpinWait::new();
                if word & READERS_PARKED == 0 {
                    if self.spin.spin() {
                        return SharedStep::Reload;
                    }
                    return SharedStep::Mark { from: word, to: word | READERS_PARKED };
                }
                SharedStep::Park
            },
        }
    }

    /// An exchange that was to count the reader failed: wait a little, longer each time.
    pub fn back_off(&mut self)
        ensures
            final(self).spins() == old(self).spins(),
            final(self).backoff() == if old(self).backoff() < spin_limit() {
                old(self).backoff() + 1
            } else {
                spin_limit()
            },
    {
        self.backoff.spin_no_yield();
    }

    /// The reader has slept, or was kept from sleeping: it starts over.
    pub fn woken(&mut self)
        ensures
            final(self).spins() == 0,
            final(self).backoff() == 0,
    {
        self.spin = SpinWait::new();
        self.backoff = SpinWait::new();
    }

    /// Attempts to take the lock, up to the moment at which the reader has to park.
    ///
    /// `enter` is asked for nothing but to count one more reader, `mark` for nothing but to
    /// say that readers are parked, and one of them succeeds once at the most. The permit is left
    /// over where none did.
    pub fn wait<
        P,
        L: Fn() -> usize,
        X: Fn(P, usize, usize) -> Result<usize, (usize, P)>,
        M: Fn(P, usize, usize) -> Result<usize, (usize, P)>,
    >(&mut self, permit: P, load: L, enter: X, mark: M, rounds: u64) -> (out: (Wait, Option<P>))
        requires
            call_requires(load, ()),
            forall|permit: P, from: usize, to: usize|
                enters_shared(from, to) ==> #[trigger] call_requires(enter, (permit, from, to)),
            forall|permit: P, from: usize, to: usize|
                marks_readers(from, to) ==> #[trigger] call_requires(mark, (permit, from, to)),
        ensures
            exists|looks: Seq<SharedLook<P>>| #[trigger]
                shared_trace(answers(load, enter, mark), permit, looks) && shared_outcome(
                    answers(load, enter, mark),
                    looks,
                    *old(self),
                    *final(self),
                    rounds,
                    out.0,
                ) && out.1 == shared_left(looks.last(), out.0),
    {
        let mut word: usize = load();
        let mut held: P = permit;
        let mut left: u64 = rounds;
        let ghost told = answers(load, enter, mark);
        let ghost mut looks: Seq<SharedLook<P>> = seq![
            SharedLook { word, permit, spins: self.spins(), backoff: self.backoff() },
        ];
        while left > 0
            invariant
                left <= rounds,
                call_requires(load, ()),
                forall|permit: P, from: usize, to: usize|
                    enters_shared(from, to) ==> #[trigger] call_requires(enter, (permit, from, to)),
                forall|permit: P, from: usize, to: usize|
                    marks_readers(from, to) ==> #[trigger] call_requires(mark, (permit, from, to)),
                told == answers(load, enter, mark),
                shared_trace(told, permit, looks),
                looks.len() == rounds - left + 1,
                looks[0].spins == old(self).spins(),
                looks[0].backoff == old(self).backoff(),
                looks.last() == (SharedLook { word, permit: held, spins: self.spins(), backoff: self.backoff() }),
            decreases left,
        {
            left = left - 1;
            let ghost last = looks.last();
            match self.observe(word) {
                SharedStep::Enter { from, to } => match enter(held, from, to) {
                    Ok(found) => {
                        assert((told.enter)(last.permit, from, to, Ok(found)));
                        assert(granted(told.enter, last.permit, last.word, to));
                        return (Wait::Acquired, None);
                    },
                    Err((found, back)) => {
                        assert(refused(told.enter, last.permit, last.word, to, found, back));
                        held = back;
                        self.back_off();
                        word = load();
                        proof {
                            let next = SharedLook {
                                word,
                                permit: held,
                                spins: self.spins(),
                                backoff: self.backoff(),
                            };
                            assert((told.load)(word));
                            assert(refused(told.enter, last.permit, last.word, to, found, next.permit));
                            assert(shared_goes_on(told, last, next));
                        }
                    },
                },
                SharedStep::Overflow => {
                    return (Wait::Overflow, Some(held));
                },
                SharedStep::Reload => {
                    word = load();
                    assert((told.load)(word));
                },
                SharedStep::Mark { from, to } => match mark(held, from, to) {
                    Ok(found) => {
                        assert((told.mark)(last.permit, from, to, Ok(found)));
                        assert(granted(told.mark, last.permit, last.word, to));
                        return (Wait::Park, None);
                    },
                    Err((found, back)) => {
                        word = found;
                        held = back;
                        proof {
                            let next = SharedLook {
                                word,
                                permit: held,
                                spins: self.spins(),
                                backoff: self.backoff(),
                            };
                            assert(refused(told.mark, last.permit, last.word, to, next.word, next.permit));
                            assert(shared_goes_on(told, last, next));
                        }
                    },
                },
                SharedStep::Park => {
                    return (Wait::Park, Some(held));
                },
            }
            proof {
                let next = SharedLook { word, permit: held, spins: self.spins(), backoff: self.backoff() };
                assert(shared_goes_on(told, last, next));
                looks = looks.push(next);
            }
        }
        (Wait::Again, Some(held))
    }
}

/// What a reader that waits looks at, and how long it has waited by then.
pub ghost struct SharedLook<P> {
    /// The word.
    pub word: usize,
    /// The permit that the reader holds.
    pub permit: P,
    /// How often the reader has looked again since it last slept.
    pub spins: nat,
    /// How long the reader waits after an exchange that failed.
    pub backoff: nat,
}

/// How a reader that waits comes from one look to the next: the exchange that was to count it
/// failed, or a writer is in and it looks again, or the exchange that was to mark the word
/// failed.
pub open spec fn shared_goes_on<P>(told: Answers<usize, P>, look: SharedLook<P>, next: SharedLook<P>) -> bool {
    if !writer_in(look.word) {
        &&& exists|to: usize, found: usize|
            enters_shared(look.word, to) && #[trigger] refused(
                told.enter,
                look.permit,
                look.word,
                to,
                found,
                next.permit,
            )
        &&& (told.load)(next.word)
        &&& next.spins == look.spins
        &&& next.backoff == if look.backoff < spin_limit() {
            look.backoff + 1
        } else {
            spin_limit()
        }
    } else if look.spins < spin_limit() {
        &&& !readers_marked(look.word)
        &&& (told.load)(next.word)
        &&& next.permit == look.permit
        &&& next.spins == look.spins + 1
        &&& next.backoff == 0
    } else {
        &&& exists|to: usize|
            marks_readers(look.word, to) && #[trigger] refused(
                told.mark,
                look.permit,
                look.word,
                to,
                next.word,
                next.permit,
            )
        &&& next.spins == look.spins
        &&& next.backoff == 0
    }
}

/// The looks of a reader that waits, one after the other.
pub open spec fn shared_trace<P>(told: Answers<usize, P>, permit: P, looks: Seq<SharedLook<P>>) -> bool {
    &&& looks.len() > 0
    &&& looks[0].permit == permit
    &&& (told.load)(looks[0].word)
    &&& forall|i: int| 0 <= i < looks.len() - 1 ==> #[trigger] shared_goes_on(told, looks[i], looks[i + 1])
}

/// How a reader's wait ends at the last of its looks.
pub open spec fn shared_ends<P>(told: Answers<usize, P>, look: SharedLook<P>, wait: Wait) -> bool {
    match wait {
        Wait::Acquired => exists|to: usize|
            enters_shared(look.word, to) && #[trigger] granted(told.enter, look.permit, look.word, to),
        Wait::Overflow => !writer_in(look.word) && !reader_fits(look.word),
        Wait::Park => writer_in(look.word) && (readers_marked(look.word) || (look.spins >= spin_limit()
            && exists|to: usize|
            marks_readers(look.word, to) && #[trigger] granted(told.mark, look.permit, look.word, to))),
        Wait::Again => true,
    }
}

/// The permit that is left over at the end of a reader's wait: none where the lock is taken or the
/// word was marked, else the one that the reader held last.
pub open spec fn shared_left<P>(look: SharedLook<P>, wait: Wait) -> Option<P> {
    match wait {
        Wait::Acquired => None,
        Wait::Park => if readers_marked(look.word) {
            Some(look.permit)
        } else {
            None
        },
        _ => Some(look.permit),
    }
}

/// What a reader's wait comes to.
pub open spec fn shared_outcome<P>(
    told: Answers<usize, P>,
    looks: Seq<SharedLook<P>>,
    before: SharedWaiter,
    after: SharedWaiter,
    rounds: u64,
    wait: Wait,
) -> bool {
    &&& looks[0].spins == before.spins() && looks[0].backoff == before.backoff()
    &&& if wait is Again {
        looks.len() == rounds + 1
    } else {
        looks.len() <= rounds
    }
    &&& shared_ends(told, looks.last(), wait)
    &&& after.spins() == looks.last().spins
    &&& after.backoff() == if wait is Park {
        0
    } else {
        looks.last().backoff
    }
}

/// A trace of a reader's wait is one too where more answers are possible.
pub proof fn lemma_shared_trace<P>(
    some: Answers<usize, P>,
    all: Answers<usize, P>,
    permit: P,
    looks: Seq<SharedLook<P>>,
    wait: Wait,
)
    requires
        among(some, all),
        shared_trace(some, permit, looks),
        shared_ends(some, looks.last(), wait),
    ensures
        shared_trace(all, permit, looks),
        shared_ends(all, looks.last(), wait),
{
    lemma_more_ends(some.enter, all.enter);
    lemma_more_ends(some.mark, all.mark);
    assert forall|i: int| 0 <= i < looks.len() - 1 implies #[trigger] shared_goes_on(all, looks[i], looks[i + 1]) by {
        assert(shared_goes_on(some, looks[i], looks[i + 1]));
    }
}

/// A reader has to park: a writer is in, and the word says that readers are parked.
pub fn reader_must_park(word: usize) -> (park: bool)
    ensures
        park == (writer_in(word) && readers_marked(word)),
{
    proof {
        lemma_word(word);
    }
    (word & ONE_WRITER == ONE_WRITER) && (word & READERS_PARKED != 0)
}

/// Gives the lock back as a reader, and says whom to wake.
///
/// `subtract` takes the reader out of the word and gives the word before. Where that was the
/// last reader and only writers are parked, `clear` takes back the mark of the writers, and
/// one of them is woken if nobody came in between. Only then is `clear` asked for anything.
pub fn leave_shared<D: FnOnce(usize) -> usize, X: FnOnce(usize, usize) -> Result<usize, usize>>(
    subtract: D,
    clear: X,
) -> (wake: Wake)
    requires
        call_requires(subtract, (ONE_READER,)),
        forall|before: usize| #[trigger]
            call_ensures(subtract, (ONE_READER,), before) && last_before_writers(before) ==> call_requires(
                clear,
                (WRITERS_PARKED, 0),
            ),
    ensures
        wake is Nobody || wake is Writer,
        exists|before: usize| #[trigger]
            call_ensures(subtract, (ONE_READER,), before) && if last_before_writers(before) {
                exists|end: Result<usize, usize>| #[trigger]
                    call_ensures(clear, (WRITERS_PARKED, 0), end) && (wake is Writer <==> end is Ok)
            } else {
                wake is Nobody
            },
{
    let before: usize = subtract(ONE_READER);
    proof {
        lemma_word(before);
    }
    if before == ONE_READER | WRITERS_PARKED {
        return match clear(WRITERS_PARKED, 0) {
            Ok(_) => Wake::Writer,
            Err(_) => Wake::Nobody,
        };
    }
    Wake::Nobody
}

/// One reader is in, writers are parked, and no reader is.
pub open spec fn last_before_writers(word: usize) -> bool {
    readers_in(word) == 1 && writers_marked(word) && !readers_marked(word)
}

} // verus!
