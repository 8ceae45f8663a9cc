//! The writer's side of the reader-writer lock.

use parking_lot_core::SpinWait;
use vstd::prelude::*;

use crate::spin::{spin_count, spin_limit};
use crate::wait::{among, answers, ends, granted, lemma_more_ends, refused, Answers, Wait, Wake};
use crate::word::{
    enters_exclusive, leaves_exclusive, lemma_word, marks_writers, readers_marked, vacant, writer_in,
    writers_marked, ONE_READER, ONE_WRITER, READERS_PARKED, WRITERS_PARKED,
};

verus! {

/// One attempt to take a lock that nobody holds and that has no mark.
///
/// The exchange is asked for nothing but to put the word of a writer in the place of zero.
pub fn enter_vacant<X: FnOnce(usize, usize) -> Result<usize, usize>>(enter: X) -> (acquired: bool)
    requires
        call_requires(enter, (0, ONE_WRITER)),
    ensures
        exists|end: Result<usize, usize>| #[trigger]
            call_ensures(enter, (0, ONE_WRITER), end) && acquired == end is Ok,
{
    enter(0, ONE_WRITER).is_ok()
}

/// What a writer that waits for the lock does next.
#[derive(Clone, Copy, Debug, PartialEq, Eq, Structural)]
pub enum ExclusiveStep {
    /// Let the writer in.
    Enter { from: usize, to: usize },
    /// Look at the word again.
    Reload,
    /// Say that writers are parked.
    Mark { from: usize, to: usize },
    /// Park.
    Park,
}

/// A writer that waits for the lock.
pub struct ExclusiveWaiter {
    was_parked: bool,
    spin: SpinWait,
}

impl ExclusiveWaiter {
    /// The writer was parked before: there may be others that are parked still.
    pub closed spec fn was_parked(self) -> bool {
        self.was_parked
    }

    /// How often the writer has looked again since it last slept.
    pub closed spec fn spins(self) -> nat {
        spin_count(self.spin)
    }

    /// A writer that has not waited yet.
    pub fn new() -> (waiter: ExclusiveWaiter)
        ensures
            !waiter.was_parked(),
            waiter.spins() == 0,
    {
        ExclusiveWaiter { was_parked: false, spin: SpinWait::new() }
    }

    /// What to do about `word`.
    ///
    /// While the lock is vacant, the writer enters. While it is held, the writer looks again
    /// a few times, then marks the word, and parks once the word is marked.
    pub fn observe(&mut self, word: usize) -> (step: ExclusiveStep)
        ensures
            match step {
                ExclusiveStep::Enter { from, to } => from == word && enters_exclusive(
                    from,
                    to,
                    old(self).was_parked(),
                ),
                ExclusiveStep::Reload => !vacant(word) && !writers_marked(word) && old(self).spins()
                    < spin_limit(),
                ExclusiveStep::Mark { from, to } => from == word && marks_writers(from, to) && old(
                    self,
                ).spins() >= spin_limit(),
                ExclusiveStep::Park => !vacant(word) && writers_marked(word),
            },
            final(self).was_parked() == old(self).was_parked(),
            final(self).spins() == old(self).spins() + if step is Reload {
                1int
            } else {
                0
            },
    {
        proof {
            lemma_word(word);
        }
        if word & ONE_WRITER == 0 {
            let acquire_with: usize = if self.was_parked {
                WRITERS_PARKED
            } else {
                0
            };
            return ExclusiveStep::Enter { from: word, to: word | ONE_WRITER | acquire_with };
        }
        if word & WRITERS_PARKED == 0 {
            if self.spin.spin() {
                return ExclusiveStep::Reload;
            }
            return ExclusiveStep::Mark { from: word, to: word | WRITERS_PARKED };
        }
        ExclusiveStep::Park
    }

    /// The writer has slept, or was kept from sleeping: it starts over.
    pub fn woken(&mut self)
        ensures
            final(self).was_parked(),
            final(self).spins() == 0,
    {
        self.was_parked = true;
        self.spin = SpinWait::new();
    }

    /// Attempts to take the lock, up to the moment at which the writer has to park.
    ///
    /// `enter` is asked for nothing but to let the writer in, `mark` for nothing but to say
    /// that writers are parked, and one of them succeeds once at the most. The permit is left over
    /// where none did.
    pub fn wait<
        P,
        L: Fn() -> usize,
        X: Fn(P, usize, usize) -> Result<usize, (usize, P)>,
        M: Fn(P, usize, usize) -> Result<usize, (usize, P)>,
    >(&mut self, permit: P, load: L, enter: X, mark: M, rounds: u64) -> (out: (Wait, Option<P>))
        requires
            call_requires(load, ()),
            forall|permit: P, from: usize, to: usize|
                enters_exclusive(from, to, old(self).was_parked()) ==> #[trigger] call_requires(
                    enter,
                    (permit, from, to),
                ),
            forall|permit: P, from: usize, to: usize|
                marks_writers(from, to) ==> #[trigger] call_requires(mark, (permit, from, to)),
        ensures
            exists|looks: Seq<ExclusiveLook<P>>| #[trigger]
                exclusive_trace(answers(load, enter, mark), old(self).was_parked(), permit, looks)
                    && exclusive_outcome(
                    answers(load, enter, mark),
                    looks,
                    *old(self),
                    *final(self),
                    rounds,
                    out.0,
                ) && out.1 == exclusive_left(looks.last(), out.0),
    {
        let mut word: usize = load();
        let mut held: P = permit;
        let mut left: u64 = rounds;
        let ghost told = answers(load, enter, mark);
        let ghost was_parked = self.was_parked();
        let ghost mut looks: Seq<ExclusiveLook<P>> = seq![ExclusiveLook { word, permit, spins: self.spins() }];
        while left > 0
            invariant
                left <= rounds,
                call_requires(load, ()),
                forall|permit: P, from: usize, to: usize|
                    enters_exclusive(from, to, was_parked) ==> #[trigger] call_requires(enter, (permit, from, to)),
                forall|permit: P, from: usize, to: usize|
                    marks_writers(from, to) ==> #[trigger] call_requires(mark, (permit, from, to)),
                told == answers(load, enter, mark),
                was_parked == old(self).was_parked(),
                self.was_parked() == was_parked,
                exclusive_trace(told, was_parked, permit, looks),
                looks.len() == rounds - left + 1,
                looks[0].spins == old(self).spins(),
                looks.last() == (ExclusiveLook { word, permit: held, spins: self.spins() }),
            decreases left,
        {
            left = left - 1;
            let ghost last = looks.last();
            match self.observe(word) {
                ExclusiveStep::Enter { from, to } => match enter(held, from, to) {
                    Ok(found) => {
                        assert((told.enter)(last.permit, from, to, Ok(found)));
                        assert(granted(told.enter, last.permit, last.word, to));
                        return (Wait::Acquired, None);
                    },
                    Err((found, back)) => {
                        word = found;
                        held = back;
                        proof {
                            let next = ExclusiveLook { word, permit: held, spins: self.spins() };
                            assert(refused(told.enter, last.permit, last.word, to, next.word, next.permit));
                            assert(exclusive_goes_on(told, was_parked, last, next));
                        }
                    },
                },
                ExclusiveStep::Reload => {
                    word = load();
                    assert((told.load)(word));
                },
                ExclusiveStep::Mark { from, to } => match mark(held, from, to) {
                    Ok(found) => {
                        assert((told.mark)(last.permit, from, to, Ok(found)));
                        assert(granted(told.mark, last.permit, last.word, to));
                        return (Wait::Park, None);
                    },
                    Err((found, back)) => {
                        word = found;
                        held = back;
                        proof {
                            let next = ExclusiveLook { word, permit: held, spins: self.spins() };
                            assert(refused(told.mark, last.permit, last.word, to, next.word, next.permit));
                            assert(exclusive_goes_on(told, was_parked, last, next));
                        }
                    },
                },
                ExclusiveStep::Park => {
                    return (Wait::Park, Some(held));
                },
            }
            proof {
                let next = ExclusiveLook { word, permit: held, spins: self.spins() };
                assert(exclusive_goes_on(told, was_parked, last, next));
                looks = looks.push(next);
            }
        }
        (Wait::Again, Some(held))
    }
}

/// What a writer that waits looks at, and how long it has waited by then.
pub ghost struct ExclusiveLook<P> {
    /// The word.
    pub word: usize,
    /// The permit that the writer holds.
    pub permit: P,
    /// How often the writer has looked again since it last slept.
    pub spins: nat,
}

/// How a writer that waits comes from one look to the next: the exchange that was to let it in
/// failed, or the lock is held and it looks again, or the exchange that was to mark the word
/// failed.
pub open spec fn exclusive_goes_on<P>(
    told: Answers<usize, P>,
    was_parked: bool,
    look: ExclusiveLook<P>,
    next: ExclusiveLook<P>,
) -> bool {
    if vacant(look.word) {
        &&& exists|to: usize|
            enters_exclusive(look.word, to, was_parked) && #[trigger] refused(
                told.enter,
                look.permit,
                look.word,
                to,
                next.word,
                next.permit,
            )
        &&& next.spins == look.spins
    } else if look.spins < spin_limit() {
        &&& !writers_marked(look.word)
        &&& (told.load)(next.word)
        &&& next.permit == look.permit
        &&& next.spins == look.spins + 1
    } else {
        &&& exists|to: usize|
            marks_writers(look.word, to) && #[trigger] refused(
                told.mark,
                look.permit,
                look.word,
                to,
                next.word,
                next.permit,
            )
        &&& next.spins == look.spins
    }
}

/// The looks of a writer that waits, one after the other.
pub open spec fn exclusive_trace<P>(
    told: Answers<usize, P>,
    was_parked: bool,
    permit: P,
    looks: Seq<ExclusiveLook<P>>,
) -> bool {
    &&& looks.len() > 0
    &&& looks[0].permit == permit
    &&& (told.load)(looks[0].word)
    &&& forall|i: int|
        0 <= i < looks.len() - 1 ==> #[trigger] exclusive_goes_on(told, was_parked, looks[i], looks[i + 1])
}

/// How a writer's wait ends at the last of its looks.
pub open spec fn exclusive_ends<P>(
    told: Answers<usize, P>,
    was_parked: bool,
    look: ExclusiveLook<P>,
    wait: Wait,
) -> bool {
    match wait {
        Wait::Acquired => exists|to: usize|
            enters_exclusive(look.word, to, was_parked) && #[trigger] granted(told.enter, look.permit, look.word, to),
        Wait::Overflow => false,
        Wait::Park => !vacant(look.word) && (writers_marked(look.word) || (look.spins >= spin_limit()
            && exists|to: usize|
            marks_writers(look.word, to) && #[trigger] granted(told.mark, look.permit, look.word, to))),
        Wait::Again => true,
    }
}

/// The permit that is left over at the end of a writer's wait: none where the lock is taken or the
/// word was marked, else the one that the writer held last.
pub open spec fn exclusive_left<P>(look: ExclusiveLook<P>, wait: Wait) -> Option<P> {
    match wait {
        Wait::Acquired => None,
        Wait::Park => if writers_marked(look.word) {
            Some(look.permit)
        } else {
            None
        },
        _ => Some(look.permit),
    }
}

/// What a writer's wait comes to.
pub open spec fn exclusive_outcome<P>(
    told: Answers<usize, P>,
    looks: Seq<ExclusiveLook<P>>,
    before: ExclusiveWaiter,
    after: ExclusiveWaiter,
    rounds: u64,
    wait: Wait,
) -> bool {
    &&& looks[0].spins == before.spins()
    &&& if wait is Again {
        looks.len() == rounds + 1
    } else {
        looks.len() <= rounds
    }
    &&& exclusive_ends(told, before.was_parked(), looks.last(), wait)
    &&& after.was_parked() == before.was_parked()
    &&& after.spins() == looks.last().spins
}

/// A trace of a writer's wait is one too where more answers are possible.
pub proof fn lemma_exclusive_trace<P>(
    some: Answers<usize, P>,
    all: Answers<usize, P>,
    was_parked: bool,
    permit: P,
    looks: Seq<ExclusiveLook<P>>,
    wait: Wait,
)
    requires
        among(some, all),
        exclusive_trace(some, was_parked, permit, looks),
        exclusive_ends(some, was_parked, looks.last(), wait),
    ensures
        exclusive_trace(all, was_parked, permit, looks),
        exclusive_ends(all, was_parked, looks.last(), wait),
{
    lemma_more_ends(some.enter, all.enter);
    lemma_more_ends(some.mark, all.mark);
    assert forall|i: int| 0 <= i < looks.len() - 1 implies #[trigger] exclusive_goes_on(
        all,
        was_parked,
        looks[i],
        looks[i + 1],
    ) by {
        assert(exclusive_goes_on(some, was_parked, looks[i], looks[i + 1]));
    }
}

/// A writer has to park: the lock is held, and the word says that writers are parked.
pub fn writer_must_park(word: usize) -> (park: bool)
    ensures
        park == (!vacant(word) && writers_marked(word)),
{
    proof {
        lemma_word(word);
    }
    (word & ONE_WRITER != 0) && (word & WRITERS_PARKED != 0)
}

/// Gives the lock back as a writer, and says whom to wake.
///
/// Where both kinds are parked, the readers are woken, and the mark of the writers stays in
/// the word; the store is made only then. The lock is given back once at the most, by an exchange
/// or by the store. `None` says that the word was not one that the thread which holds the lock can
/// come upon; then the lock is not given back, and the permit is left over.
pub fn leave_exclusive<
    P,
    X: Fn(P, usize, usize) -> Result<usize, (usize, P)>,
    L: FnOnce() -> usize,
    S: FnOnce(P, usize),
>(permit: P, leave: X, load: L, store: S) -> (out: (Option<Wake>, Option<P>))
    requires
        forall|permit: P, from: usize, to: usize|
            leaves_exclusive(from, to) ==> #[trigger] call_requires(leave, (permit, from, to)),
        call_requires(load, ()),
        forall|from: usize, back: P, held: P|
            call_ensures(load, (), from) && #[trigger] both_kinds_wait(ends(leave), back, from, held)
                ==> call_requires(store, (held, WRITERS_PARKED)),
    ensures
        out.0 == Some(Wake::Nobody) ==> granted(ends(leave), permit, ONE_WRITER, 0) && out.1 is None,
        out.0 != Some(Wake::Nobody) ==> exists|found: usize, back: P| #[trigger]
            refused(ends(leave), permit, ONE_WRITER, 0, found, back) && left_marked(
                leave,
                load,
                store,
                back,
                out.0,
                out.1,
            ),
{
    proof {
        lemma_word(ONE_WRITER);
    }
    let mut held: P = match leave(permit, ONE_WRITER, 0) {
        Ok(found) => {
            assert(ends(leave)(permit, ONE_WRITER, 0, Ok(found)));
            return (Some(Wake::Nobody), None);
        },
        Err((found, back)) => {
            assert(refused(ends(leave), permit, ONE_WRITER, 0, found, back));
            back
        },
    };
    let ghost back = held;
    let word: usize = load();
    assert(call_ensures(load, (), word));
    proof {
        lemma_word(word);
    }
    if word & ONE_WRITER != ONE_WRITER {
        return (None, Some(held));
    }
    let mut parked: usize = word & (READERS_PARKED | WRITERS_PARKED);
    if parked == 0 {
        return (None, Some(held));
    }
    if parked != READERS_PARKED | WRITERS_PARKED {
        match leave(held, word, 0) {
            Ok(found) => {
                assert(ends(leave)(back, word, 0, Ok(found)));
                assert(granted(ends(leave), back, word, 0));
                if parked == READERS_PARKED {
                    return (Some(Wake::Readers), None);
                }
                return (Some(Wake::Writer), None);
            },
            Err((found, again)) => {
                assert(refused(ends(leave), back, word, 0, found, again));
                if found != ONE_WRITER | READERS_PARKED | WRITERS_PARKED {
                    return (None, Some(again));
                }
                held = again;
            },
        }
    }
    assert(both_kinds_wait(ends(leave), back, word, held));
    store(held, WRITERS_PARKED);
    (Some(Wake::Readers), None)
}

/// What it comes to, to give the lock back as a writer where the word has a mark. `back` is the
/// permit that the first exchange gave back.
pub open spec fn left_marked<
    P,
    X: Fn(P, usize, usize) -> Result<usize, (usize, P)>,
    L: FnOnce() -> usize,
    S: FnOnce(P, usize),
>(leave: X, load: L, store: S, back: P, wake: Option<Wake>, left: Option<P>) -> bool {
    exists|from: usize| #[trigger]
        call_ensures(load, (), from) && match wake {
            Some(Wake::Nobody) => false,
            Some(Wake::Writer) => left is None && only_writers_wait(from) && granted(ends(leave), back, from, 0),
            Some(Wake::Readers) => left is None && {
                ||| only_readers_wait(from) && granted(ends(leave), back, from, 0)
                ||| exists|held: P| #[trigger]
                    both_kinds_wait(ends(leave), back, from, held) && call_ensures(
                        store,
                        (held, WRITERS_PARKED),
                        (),
                    )
            },
            None => {
                ||| (!writer_in(from) || from == ONE_WRITER) && left == Some(back)
                ||| from != usize::MAX && exists|found: usize, again: P|
                    found != usize::MAX && #[trigger] refused(ends(leave), back, from, 0, found, again) && left
                        == Some(again)
            },
        }
}

/// A writer is in, and only readers are parked.
pub open spec fn only_readers_wait(word: usize) -> bool {
    writer_in(word) && readers_marked(word) && !writers_marked(word)
}

/// A writer is in, and only writers are parked.
pub open spec fn only_writers_wait(word: usize) -> bool {
    writer_in(word) && writers_marked(word) && !readers_marked(word)
}

/// A word was seen in which a writer is in and both kinds are parked: `from`, which was loaded, or
/// one that the exchange found which was to let the writer out, with the permit `back`. The writer
/// still holds a permit then.
pub open spec fn both_kinds_wait<P>(
    leave: spec_fn(P, usize, usize, Result<usize, (usize, P)>) -> bool,
    back: P,
    from: usize,
    held: P,
) -> bool {
    ||| from == usize::MAX && held == back
    ||| (only_readers_wait(from) || only_writers_wait(from)) && refused(leave, back, from, 0, usize::MAX, held)
}

/// Turns the writer into a reader, and says whom to wake.
///
/// `intersect` keeps the bits it is given in the word and gives the word before.
pub fn step_down<I: FnOnce(usize) -> usize>(intersect: I) -> (wake: Wake)
    requires
        call_requires(intersect, (ONE_READER | WRITERS_PARKED,)),
    ensures
        exists|before: usize| #[trigger]
            call_ensures(intersect, (ONE_READER | WRITERS_PARKED,), before) && wake == if readers_marked(
                before,
            ) {
                Wake::Readers
            } else {
                Wake::Nobody
            },
{
    let before: usize = intersect(ONE_READER | WRITERS_PARKED);
    proof {
        lemma_word(before);
    }
    if before & READERS_PARKED != 0 {
        return Wake::Readers;
    }
    Wake::Nobody
}

} // verus!
