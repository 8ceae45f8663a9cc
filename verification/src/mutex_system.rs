//! The mutex together with all the threads that use it.
//!
//! A thread works on the mutex in steps, each of which changes the word at once or not at all.
//! The steps of different threads come in any order. What is proved here holds in every state
//! that some order leads to.

use vstd::prelude::*;

use crate::mutex::{
    gives_back, locked, marked, marks, release_fits, takes, token_of, word_after, Release, LOCKED, PARKED,
    TOKEN_HANDOFF,
};
use crate::rw_system::{less, more};

verus! {

/// The word, and how many threads are where.
pub ghost struct MutexSystem {
    /// The word of the mutex.
    pub word: u8,
    /// Threads that hold the mutex.
    pub holders: nat,
    /// Threads that are parked.
    pub parked: nat,
    /// Threads that were woken to try again, and are awake.
    pub woken: nat,
}

/// One step of one thread.
pub ghost enum MutexAct {
    /// A thread takes the mutex.
    Takes { woken: bool },
    /// A thread that waits marks the word.
    Marks,
    /// A thread that waits parks: the word still says that it has to.
    Parks { woken: bool },
    /// The thread that holds the mutex gives it back while the word has no mark.
    Releases,
    /// The thread that holds the mutex gives it back while the word has a mark: one thread is
    /// taken out of the queue, if there is one.
    ReleasesMarked { release: Release, fair: bool },
}

/// Nobody has come to the mutex yet.
pub open spec fn mutex_start() -> MutexSystem {
    MutexSystem { word: 0, holders: 0, parked: 0, woken: 0 }
}

/// The step leads from `s` to `t`.
pub open spec fn mutex_next(s: MutexSystem, act: MutexAct, t: MutexSystem) -> bool {
    match act {
        MutexAct::Takes { woken } => {
            &&& woken ==> s.woken > 0
            &&& takes(s.word, t.word)
            &&& t == (MutexSystem {
                word: t.word,
                holders: s.holders + 1,
                woken: less(s.woken, woken),
                ..s
            })
        },
        MutexAct::Marks => {
            &&& marks(s.word, t.word)
            &&& t == (MutexSystem { word: t.word, ..s })
        },
        MutexAct::Parks { woken } => {
            &&& woken ==> s.woken > 0
            &&& s.word == LOCKED + PARKED
            &&& t == (MutexSystem { parked: s.parked + 1, woken: less(s.woken, woken), ..s })
        },
        MutexAct::Releases => {
            &&& s.holders > 0
            &&& gives_back(s.word, t.word)
            &&& t == (MutexSystem { word: t.word, holders: less(s.holders, true), ..s })
        },
        MutexAct::ReleasesMarked { release, fair } => {
            let handed_over = token_of(release) == TOKEN_HANDOFF;
            &&& s.holders > 0
            &&& !gives_back(s.word, 0)
            &&& release_fits(release, s.parked > 0, s.parked > 1, fair)
            &&& t == (MutexSystem {
                word: if release is HandOver {
                    s.word
                } else {
                    word_after(release)
                },
                holders: less(s.holders, !handed_over),
                parked: less(s.parked, true),
                woken: more(s.woken, s.parked > 0 && !handed_over),
            })
        },
    }
}

/// The steps lead from one state to the next.
pub open spec fn mutex_run(states: Seq<MutexSystem>, acts: Seq<MutexAct>) -> bool {
    &&& states.len() == acts.len() + 1
    &&& forall|i: int| 0 <= i < acts.len() ==> #[trigger] mutex_next(states[i], acts[i], states[i + 1])
}

/// At most one thread holds the mutex, and the word says whether one does.
pub open spec fn mutex_exclusive(s: MutexSystem) -> bool {
    &&& s.word <= LOCKED + PARKED
    &&& s.holders <= 1
    &&& s.holders == 1 <==> locked(s.word)
}

/// The word is marked while threads are parked, and while they are and nobody holds the
/// mutex, one that was woken is on its way.
pub open spec fn mutex_attended(s: MutexSystem) -> bool {
    &&& s.parked > 0 ==> marked(s.word)
    &&& s.parked > 0 && s.holders == 0 ==> s.woken > 0
}

/// Every step keeps what [`mutex_exclusive`] and [`mutex_attended`] say.
pub proof fn law_act_keeps_order(s: MutexSystem, act: MutexAct, t: MutexSystem)
    requires
        mutex_exclusive(s),
        mutex_attended(s),
        mutex_next(s, act, t),
    ensures
        mutex_exclusive(t),
        mutex_attended(t),
{
}

/// In whatever order the threads make their steps, at most one of them holds the mutex, and
/// while threads are parked, one holds it or one that was woken is on its way.
pub proof fn law_every_mutex_run_keeps_order(states: Seq<MutexSystem>, acts: Seq<MutexAct>, at: int)
    requires
        mutex_run(states, acts),
        states[0] == mutex_start(),
        0 <= at < states.len(),
    ensures
        mutex_exclusive(states[at]),
        mutex_attended(states[at]),
    decreases at,
{
    if at > 0 {
        law_every_mutex_run_keeps_order(states, acts, at - 1);
        assert(mutex_next(states[at - 1], acts[at - 1], states[at - 1 + 1]));
        law_act_keeps_order(states[at - 1], acts[at - 1], states[at]);
    }
}

/// While a thread holds the mutex, the other threads can do no more to the word than mark it.
pub proof fn law_others_only_mark_mutex(states: Seq<MutexSystem>, acts: Seq<MutexAct>, from: int, to: int)
    requires
        mutex_run(states, acts),
        0 <= from <= to < states.len(),
        mutex_exclusive(states[from]),
        mutex_attended(states[from]),
        states[from].holders == 1,
        forall|i: int| from <= i < to ==> !(#[trigger] acts[i] is Releases) && !(acts[i] is ReleasesMarked),
    ensures
        mutex_exclusive(states[to]),
        mutex_attended(states[to]),
        states[to].holders == 1,
        locked(states[to].word),
        marked(states[from].word) ==> marked(states[to].word),
    decreases to - from,
{
    if from < to {
        law_others_only_mark_mutex(states, acts, from, to - 1);
        assert(mutex_next(states[to - 1], acts[to - 1], states[to - 1 + 1]));
        assert(!(acts[to - 1] is Releases));
        law_act_keeps_order(states[to - 1], acts[to - 1], states[to]);
    }
}

/// The thread that holds the mutex can always give it back: where its exchange failed, at `first`,
/// the word has both bits set when it stores, at `second`.
pub proof fn law_mutex_release_succeeds(states: Seq<MutexSystem>, acts: Seq<MutexAct>, first: int, second: int)
    requires
        mutex_run(states, acts),
        0 <= first <= second < states.len(),
        mutex_exclusive(states[first]),
        mutex_attended(states[first]),
        states[first].holders == 1,
        states[first].word != LOCKED,
        forall|i: int| first <= i < second ==> !(#[trigger] acts[i] is Releases) && !(acts[i] is ReleasesMarked),
    ensures
        states[second].word == LOCKED + PARKED,
{
    law_others_only_mark_mutex(states, acts, first, second);
}

/// A thread that gives the mutex back while the word has a mark finds both bits set, and
/// what it stores depends on that.
pub proof fn law_marked_release_finds_both(s: MutexSystem, release: Release, fair: bool, t: MutexSystem)
    requires
        mutex_exclusive(s),
        mutex_attended(s),
        mutex_next(s, MutexAct::ReleasesMarked { release, fair }, t),
    ensures
        s.word == LOCKED + PARKED,
        t.word == word_after(release),
{
}

/// A thread that takes a mutex which nobody holds and which has no mark, and gives it back, while no
/// other thread does anything, leaves everything as it was. It finds no mark, so that no thread is
/// woken, and the mutex can be taken again.
pub proof fn law_thread_restores(s: MutexSystem, held: MutexSystem, act: MutexAct, t: MutexSystem)
    requires
        mutex_exclusive(s),
        s.word == 0,
        mutex_next(s, MutexAct::Takes { woken: false }, held),
        act is Releases || act is ReleasesMarked,
        mutex_next(held, act, t),
    ensures
        held.word == LOCKED,
        held.holders == 1,
        act is Releases,
        t == s,
        takes(t.word, LOCKED),
{
}

} // verus!
