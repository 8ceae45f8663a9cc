//! The reader-writer lock together with all the threads that use it.
//!
//! A thread works on the lock in steps, each of which changes the word at once or not at all.
//! The steps of different threads come in any order. What is proved here holds in every state
//! that some order leads to.

use vstd::prelude::*;

use crate::shared::last_before_writers;
use crate::word::{
    clears_writers, downgrades, enters_exclusive, enters_shared, leaves_exclusive, leaves_shared, marks_readers,
    marks_writers, readers_in, readers_marked, vacant, writer_in, writers_marked, ONE_WRITER,
};

verus! {

/// The word, and how many threads are where.
pub ghost struct RwSystem {
    /// The word of the lock.
    pub word: usize,
    /// Readers that hold the lock.
    pub readers: nat,
    /// Writers that hold the lock.
    pub writers: nat,
    /// Readers that wait for the lock and are awake.
    pub waiting_readers: nat,
    /// Readers that are parked.
    pub parked_readers: nat,
    /// Writers that wait for the lock, are awake and have been told to park before.
    pub returning_writers: nat,
    /// Writers that are parked.
    pub parked_writers: nat,
    /// Threads that have yet to wake every reader that is parked.
    pub calls_to_readers: nat,
    /// Threads that have yet to wake one writer that is parked.
    pub calls_to_writer: nat,
    /// Readers that were the last to leave while writers were parked, and have yet to take
    /// back the mark of the writers.
    pub last_out: nat,
}

/// One step of one thread.
pub ghost enum RwStep {
    /// A reader starts to wait.
    ReaderArrives,
    /// A reader takes the lock, after having waited or at once.
    ReaderEnters { waited: bool },
    /// A reader that waits marks the word.
    ReaderMarks,
    /// A reader that waits parks: the word still says that it has to.
    ReaderParks,
    /// A reader gives the lock back.
    ReaderLeaves,
    /// A reader that was the last to leave tries to take back the mark of the writers.
    ReaderClears,
    /// A writer takes the lock.
    WriterEnters { again: bool },
    /// A writer that waits marks the word.
    WriterMarks,
    /// A writer that waits parks: the word still says that it has to.
    WriterParks { again: bool },
    /// A writer that was told to park is kept from it.
    WriterStaysAwake,
    /// A writer gives the lock back.
    WriterLeaves,
    /// A writer becomes a reader.
    WriterStepsDown,
    /// Every reader that is parked is woken.
    ReadersWake,
    /// One writer that is parked is woken, if there is one.
    WriterWakes,
}

/// Nobody has come to the lock yet.
pub open spec fn rw_start() -> RwSystem {
    RwSystem {
        word: 0,
        readers: 0,
        writers: 0,
        waiting_readers: 0,
        parked_readers: 0,
        returning_writers: 0,
        parked_writers: 0,
        calls_to_readers: 0,
        calls_to_writer: 0,
        last_out: 0,
    }
}

/// The step leads from `s` to `t`.
pub open spec fn rw_next(s: RwSystem, step: RwStep, t: RwSystem) -> bool {
    match step {
        RwStep::ReaderArrives => t == (RwSystem { waiting_readers: s.waiting_readers + 1, ..s }),
        RwStep::ReaderEnters { waited } => {
            &&& waited ==> s.waiting_readers > 0
            &&& enters_shared(s.word, t.word)
            &&& t == (RwSystem {
                word: t.word,
                readers: s.readers + 1,
                waiting_readers: less(s.waiting_readers, waited),
                ..s
            })
        },
        RwStep::ReaderMarks => {
            &&& s.waiting_readers > 0
            &&& marks_readers(s.word, t.word)
            &&& t == (RwSystem { word: t.word, ..s })
        },
        RwStep::ReaderParks => {
            &&& s.waiting_readers > 0
            &&& writer_in(s.word) && readers_marked(s.word)
            &&& t == (RwSystem {
                waiting_readers: less(s.waiting_readers, true),
                parked_readers: s.parked_readers + 1,
                ..s
            })
        },
        RwStep::ReaderLeaves => {
            &&& s.readers > 0
            &&& leaves_shared(s.word, t.word)
            &&& t == (RwSystem {
                word: t.word,
                readers: less(s.readers, true),
                last_out: more(s.last_out, last_before_writers(s.word)),
                ..s
            })
        },
        RwStep::ReaderClears => {
            &&& s.last_out > 0
            &&& if clears_writers(s.word, 0) {
                t == (RwSystem {
                    word: 0,
                    last_out: less(s.last_out, true),
                    calls_to_writer: s.calls_to_writer + 1,
                    ..s
                })
            } else {
                t == (RwSystem { last_out: less(s.last_out, true), ..s })
            }
        },
        RwStep::WriterEnters { again } => {
            &&& again ==> s.returning_writers > 0
            &&& enters_exclusive(s.word, t.word, again)
            &&& t == (RwSystem {
                word: t.word,
                writers: s.writers + 1,
                returning_writers: less(s.returning_writers, again),
                ..s
            })
        },
        RwStep::WriterMarks => {
            &&& marks_writers(s.word, t.word)
            &&& t == (RwSystem { word: t.word, ..s })
        },
        RwStep::WriterParks { again } => {
            &&& again ==> s.returning_writers > 0
            &&& !vacant(s.word) && writers_marked(s.word)
            &&& t == (RwSystem {
                returning_writers: less(s.returning_writers, again),
                parked_writers: s.parked_writers + 1,
                ..s
            })
        },
        RwStep::WriterStaysAwake => t == (RwSystem { returning_writers: s.returning_writers + 1, ..s }),
        RwStep::WriterLeaves => {
            &&& s.writers > 0
            &&& leaves_exclusive(s.word, t.word)
            &&& t == (RwSystem {
                word: t.word,
                writers: less(s.writers, true),
                calls_to_readers: more(s.calls_to_readers, readers_marked(s.word)),
                calls_to_writer: more(
                    s.calls_to_writer,
                    writers_marked(s.word) && !readers_marked(s.word),
                ),
                ..s
            })
        },
        RwStep::WriterStepsDown => {
            &&& s.writers > 0
            &&& downgrades(s.word, t.word)
            &&& t == (RwSystem {
                word: t.word,
                writers: less(s.writers, true),
                readers: s.readers + 1,
                calls_to_readers: more(s.calls_to_readers, readers_marked(s.word)),
                ..s
            })
        },
        RwStep::ReadersWake => {
            &&& s.calls_to_readers > 0
            &&& t == (RwSystem {
                calls_to_readers: less(s.calls_to_readers, true),
                waiting_readers: s.waiting_readers + s.parked_readers,
                parked_readers: 0,
                ..s
            })
        },
        RwStep::WriterWakes => {
            &&& s.calls_to_writer > 0
            &&& t == (RwSystem {
                calls_to_writer: less(s.calls_to_writer, true),
                returning_writers: more(s.returning_writers, s.parked_writers > 0),
                parked_writers: less(s.parked_writers, s.parked_writers > 0),
                ..s
            })
        },
    }
}

/// One more if `yes`.
pub open spec fn more(count: nat, yes: bool) -> nat {
    if yes {
        count + 1
    } else {
        count
    }
}

/// One less if `yes`.
pub open spec fn less(count: nat, yes: bool) -> nat {
    if yes && count > 0 {
        (count - 1) as nat
    } else {
        count
    }
}

/// The steps lead from one state to the next.
pub open spec fn rw_run(states: Seq<RwSystem>, steps: Seq<RwStep>) -> bool {
    &&& states.len() == steps.len() + 1
    &&& forall|i: int| 0 <= i < steps.len() ==> #[trigger] rw_next(states[i], steps[i], states[i + 1])
}

/// A writer holds the lock alone, and the word counts the readers that hold it.
pub open spec fn rw_exclusive(s: RwSystem) -> bool {
    &&& s.writers <= 1
    &&& s.writers == 1 ==> s.readers == 0
    &&& s.writers == 1 <==> writer_in(s.word)
    &&& s.readers == readers_in(s.word)
}

/// For every thread that is parked there is one that will see to it that it is woken.
pub open spec fn rw_attended(s: RwSystem) -> bool {
    // Readers park only while a writer is in.
    &&& readers_marked(s.word) ==> writer_in(s.word) && s.parked_readers + s.waiting_readers > 0
    &&& s.parked_readers > 0 ==> readers_marked(s.word) || s.calls_to_readers > 0
    &&& s.parked_writers > 0 ==> writers_marked(s.word) || s.calls_to_writer > 0 || s.returning_writers > 0
    // The mark of the writers stays in the word of a vacant lock only while a reader is yet
    // to come, or to go, that takes it back.
    &&& vacant(s.word) && writers_marked(s.word) ==> s.last_out > 0 || s.waiting_readers > 0 || (
    s.calls_to_readers > 0 && s.parked_readers > 0)
}

/// Every step keeps what [`rw_exclusive`] and [`rw_attended`] say.
pub proof fn law_step_keeps_order(s: RwSystem, step: RwStep, t: RwSystem)
    requires
        rw_exclusive(s),
        rw_attended(s),
        rw_next(s, step, t),
    ensures
        rw_exclusive(t),
        rw_attended(t),
{
}

/// In whatever order the threads make their steps, a writer holds the lock alone, the word
/// counts the readers that hold it, and no thread that is parked is forgotten.
pub proof fn law_every_run_keeps_order(states: Seq<RwSystem>, steps: Seq<RwStep>, at: int)
    requires
        rw_run(states, steps),
        states[0] == rw_start(),
        0 <= at < states.len(),
    ensures
        rw_exclusive(states[at]),
        rw_attended(states[at]),
    decreases at,
{
    if at > 0 {
        law_every_run_keeps_order(states, steps, at - 1);
        assert(rw_next(states[at - 1], steps[at - 1], states[at - 1 + 1]));
        law_step_keeps_order(states[at - 1], steps[at - 1], states[at]);
    }
}

/// While nobody holds the lock, a thread that is parked has others under way that wake it: a
/// thread that has yet to make the call, a writer that was woken and marks the word again when
/// it enters, or a reader that takes back the mark of the writers when it leaves.
pub proof fn law_nobody_is_forgotten(s: RwSystem)
    requires
        rw_exclusive(s),
        rw_attended(s),
        s.readers == 0,
        s.writers == 0,
    ensures
        s.parked_readers > 0 ==> s.calls_to_readers > 0,
        s.parked_writers > 0 ==> {
            ||| s.calls_to_writer > 0
            ||| s.calls_to_readers > 0
            ||| s.returning_writers > 0
            ||| s.waiting_readers > 0
            ||| s.last_out > 0
        },
{
}

/// While a writer holds the lock, the other threads can do no more to the word than mark it.
pub proof fn law_others_only_mark(states: Seq<RwSystem>, steps: Seq<RwStep>, from: int, to: int)
    requires
        rw_run(states, steps),
        0 <= from <= to < states.len(),
        rw_exclusive(states[from]),
        rw_attended(states[from]),
        states[from].writers == 1,
        forall|i: int| from <= i < to ==> !(#[trigger] steps[i] is WriterLeaves) && !(steps[i] is WriterStepsDown),
    ensures
        rw_exclusive(states[to]),
        rw_attended(states[to]),
        states[to].writers == 1,
        readers_marked(states[from].word) ==> readers_marked(states[to].word),
        writers_marked(states[from].word) ==> writers_marked(states[to].word),
    decreases to - from,
{
    if from < to {
        law_others_only_mark(states, steps, from, to - 1);
        assert(rw_next(states[to - 1], steps[to - 1], states[to - 1 + 1]));
        assert(!(steps[to - 1] is WriterLeaves));
        law_step_keeps_order(states[to - 1], steps[to - 1], states[to]);
    }
}

/// The writer that holds the lock can always give it back. Where its first exchange failed, at
/// `first`, the word it loads after that, at `second`, has a mark; and where the word is
/// another one at the next exchange, at `third`, it has both.
pub proof fn law_release_succeeds(
    states: Seq<RwSystem>,
    steps: Seq<RwStep>,
    first: int,
    second: int,
    third: int,
)
    requires
        rw_run(states, steps),
        0 <= first <= second <= third < states.len(),
        rw_exclusive(states[first]),
        rw_attended(states[first]),
        states[first].writers == 1,
        states[first].word != ONE_WRITER,
        forall|i: int|
            first <= i < third ==> !(#[trigger] steps[i] is WriterLeaves) && !(steps[i] is WriterStepsDown),
    ensures
        writer_in(states[second].word),
        states[second].word != ONE_WRITER,
        states[third].word != states[second].word ==> states[third].word == usize::MAX,
        states[second].word == usize::MAX ==> states[third].word == usize::MAX,
{
    crate::word::lemma_word(ONE_WRITER);
    law_others_only_mark(states, steps, first, second);
    law_others_only_mark(states, steps, second, third);
}

} // verus!
