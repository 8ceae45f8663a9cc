//! What it comes to, to take a lock while no other thread changes its word.
//!
//! The laws speak of a call by the word that it comes upon and by its result. They say who is let in
//! and who is not, and what becomes of the word.

use vstd::prelude::*;

use crate::exclusive::{exclusive_ends, exclusive_goes_on, exclusive_trace, ExclusiveLook};
use crate::mutex::{self, locked, marked, marks, mutex_ends, mutex_goes_on, mutex_trace, takes, MutexLook, LOCKED};
use crate::shared::{self, shared_ends, shared_goes_on, shared_trace, tried_once, SharedLook};
use crate::wait::{granted, refused, Answers, Attempt, Wait};
use crate::word::{
    enters_exclusive, enters_shared, lemma_word, marks_readers, marks_writers, reader_fits, readers_in, readers_marked,
    vacant, writer_in, writers_marked, ONE_READER, ONE_WRITER,
};

verus! {

/// The exchange is one of a word that is `word` and that no other thread changes. It may fail for no
/// reason.
pub open spec fn exchange_alone<W, P>(exchange: spec_fn(P, W, W, Result<W, (W, P)>) -> bool, word: W) -> bool {
    forall|permit: P, from: W, to: W, end: Result<W, (W, P)>| #[trigger]
        exchange(permit, from, to, end) ==> match end {
            Ok(found) => from == word && found == word,
            Err(failed) => failed.0 == word,
        }
}

/// The answers are those of a word that is `word` and that no other thread changes.
pub open spec fn told_alone<W, P>(told: Answers<W, P>, word: W) -> bool {
    &&& forall|found: W| #[trigger] (told.load)(found) ==> found == word
    &&& exchange_alone(told.enter, word)
    &&& exchange_alone(told.mark, word)
}

/// On such a word, an exchange succeeds only from the word itself, and fails only by finding it.
proof fn lemma_exchange_alone<W, P>(exchange: spec_fn(P, W, W, Result<W, (W, P)>) -> bool, word: W)
    requires
        exchange_alone(exchange, word),
    ensures
        forall|permit: P, from: W, to: W| #[trigger] granted(exchange, permit, from, to) ==> from == word,
        forall|permit: P, from: W, to: W, found: W, back: P| #[trigger]
            refused(exchange, permit, from, to, found, back) ==> found == word,
{
}

/// A writer that waits, while no other thread changes the word, gets in only where nobody holds the
/// lock, and parks only where somebody does. The word becomes that of a writer, with the marks that
/// were there and one for those that are parked beside it, or gets the mark of the writers, or stays
/// as it was.
pub proof fn law_writer_waits_for_all<P>(
    told: Answers<usize, P>,
    word: usize,
    was_parked: bool,
    permit: P,
    looks: Seq<ExclusiveLook<P>>,
    wait: Wait,
)
    requires
        told_alone(told, word),
        exclusive_trace(told, was_parked, permit, looks),
        exclusive_ends(told, was_parked, looks.last(), wait),
    ensures
        looks.last().word == word,
        wait is Acquired ==> vacant(word) && exists|to: usize|
            enters_exclusive(word, to, was_parked) && #[trigger] granted(told.enter, looks.last().permit, word, to),
        wait is Park ==> !vacant(word) && (writers_marked(word) || exists|to: usize|
            marks_writers(word, to) && #[trigger] granted(told.mark, looks.last().permit, word, to)),
        !(wait is Overflow),
{
    lemma_exchange_alone(told.enter, word);
    lemma_exchange_alone(told.mark, word);
    if looks.len() > 1 {
        let i = looks.len() - 2;
        assert(exclusive_goes_on(told, was_parked, looks[i], looks[i + 1]));
    }
}

/// A reader that waits, while no other thread changes the word, gets in only where it can be counted
/// and no writer is in, parks only where a writer is in, and is told of too many readers only where
/// there are. The word counts one reader more, or gets the mark of the readers, or stays as it was.
pub proof fn law_reader_waits_for_writer<P>(
    told: Answers<usize, P>,
    word: usize,
    permit: P,
    looks: Seq<SharedLook<P>>,
    wait: Wait,
)
    requires
        told_alone(told, word),
        shared_trace(told, permit, looks),
        shared_ends(told, looks.last(), wait),
    ensures
        looks.last().word == word,
        wait is Acquired ==> reader_fits(word) && exists|to: usize|
            enters_shared(word, to) && #[trigger] granted(told.enter, looks.last().permit, word, to),
        wait is Park ==> writer_in(word) && (readers_marked(word) || exists|to: usize|
            marks_readers(word, to) && #[trigger] granted(told.mark, looks.last().permit, word, to)),
        wait is Overflow ==> !writer_in(word) && !reader_fits(word),
{
    lemma_exchange_alone(told.enter, word);
    lemma_exchange_alone(told.mark, word);
    if looks.len() > 1 {
        let i = looks.len() - 2;
        assert(shared_goes_on(told, looks[i], looks[i + 1]));
    }
}

/// A thread that waits for a mutex, while no other thread changes the word, gets it only where nobody
/// holds it, and parks only where somebody does. The word becomes that of a mutex that is held, or
/// gets a mark, or stays as it was.
pub proof fn law_thread_waits_for_holder<P>(
    told: Answers<u8, P>,
    word: u8,
    permit: P,
    looks: Seq<MutexLook<P>>,
    wait: Wait,
)
    requires
        told_alone(told, word),
        mutex_trace(told, permit, looks),
        mutex_ends(told, looks.last(), wait),
    ensures
        looks.last().word == word,
        wait is Acquired ==> !locked(word) && exists|to: u8|
            takes(word, to) && #[trigger] granted(told.enter, looks.last().permit, word, to),
        wait is Park ==> locked(word) && (marked(word) || exists|to: u8|
            marks(word, to) && #[trigger] granted(told.mark, looks.last().permit, word, to)),
        !(wait is Overflow),
{
    lemma_exchange_alone(told.enter, word);
    lemma_exchange_alone(told.mark, word);
    if looks.len() > 1 {
        let i = looks.len() - 2;
        assert(mutex_goes_on(told, looks[i], looks[i + 1]));
    }
}

/// One attempt of a reader, while no other thread changes the word, succeeds only where the reader
/// can be counted, and then counts it once.
pub proof fn law_reader_is_counted_once<P>(
    enter: spec_fn(P, usize, usize, Result<usize, (usize, P)>) -> bool,
    word: usize,
    permit: P,
    left: Option<P>,
)
    requires
        exchange_alone(enter, word),
        tried_once(enter, Attempt { word, permit }, left),
    ensures
        left is None ==> reader_fits(word) && exists|to: usize|
            enters_shared(word, to) && readers_in(to) == readers_in(word) + 1 && #[trigger] granted(
                enter,
                permit,
                word,
                to,
            ),
{
    if left is None {
        let attempt = Attempt { word, permit };
        let to = choose|to: usize|
            enters_shared(attempt.word, to) && #[trigger] granted(enter, attempt.permit, attempt.word, to);
        assert(granted(enter, permit, word, to));
    }
}

/// Repeated attempts of a reader, while no other thread changes the word, end with the lock taken if
/// and only if the reader can be counted, unless they are used up.
pub proof fn law_reader_gets_in_if_it_fits<P>(
    enter: spec_fn(P, usize, usize, Result<usize, (usize, P)>) -> bool,
    word: usize,
    attempts: Seq<Attempt<usize, P>>,
    rounds: u64,
    acquired: Option<bool>,
    left: Option<P>,
)
    requires
        exchange_alone(enter, word),
        shared::failed_in_turn(enter, attempts),
        attempts[0].word == word,
        shared::tried_repeatedly(enter, attempts, rounds, acquired, left),
    ensures
        acquired matches Some(entered) ==> entered == reader_fits(word),
        acquired == Some(true) <==> left is None,
        !reader_fits(word) && rounds > 0 ==> acquired == Some(false),
{
    lemma_exchange_alone(enter, word);
    if attempts.len() > 1 {
        let i = attempts.len() - 2;
        assert(shared::fails_over(enter, attempts[i], attempts[i + 1]));
        assert(shared::fails_over(enter, attempts[0], attempts[0int + 1]));
    }
}

/// Repeated attempts to take a mutex, while no other thread changes the word, end with the mutex
/// taken if and only if nobody holds it, unless they are used up.
pub proof fn law_thread_gets_mutex_if_free<P>(
    take: spec_fn(P, u8, u8, Result<u8, (u8, P)>) -> bool,
    word: u8,
    attempts: Seq<Attempt<u8, P>>,
    rounds: u64,
    acquired: Option<bool>,
    left: Option<P>,
)
    requires
        exchange_alone(take, word),
        mutex::failed_in_turn(take, attempts),
        attempts[0].word == word,
        mutex::tried_repeatedly(take, attempts, rounds, acquired, left),
    ensures
        acquired matches Some(taken) ==> taken == !locked(word),
        acquired == Some(true) <==> left is None,
        locked(word) && rounds > 0 ==> acquired == Some(false),
{
    lemma_exchange_alone(take, word);
    if attempts.len() > 1 {
        let i = attempts.len() - 2;
        assert(mutex::fails_over(take, attempts[i], attempts[i + 1]));
        assert(mutex::fails_over(take, attempts[0], attempts[0int + 1]));
    }
}

/// Once a reader has come in, no writer does, while no other thread changes the word: it parks.
pub proof fn law_no_writer_beside_reader<P>(
    word: usize,
    held: usize,
    told: Answers<usize, P>,
    was_parked: bool,
    permit: P,
    looks: Seq<ExclusiveLook<P>>,
    wait: Wait,
)
    requires
        enters_shared(word, held),
        told_alone(told, held),
        exclusive_trace(told, was_parked, permit, looks),
        exclusive_ends(told, was_parked, looks.last(), wait),
    ensures
        held != 0,
        wait is Park || wait is Again,
{
    law_writer_waits_for_all(told, held, was_parked, permit, looks, wait);
}

/// Once a writer has come in, nobody does, while no other thread changes the word: writers and
/// readers park.
pub proof fn law_nobody_beside_writer<P>(
    word: usize,
    was_parked: bool,
    held: usize,
    told: Answers<usize, P>,
    permit: P,
    writer_was_parked: bool,
    writer_looks: Seq<ExclusiveLook<P>>,
    writer_wait: Wait,
    reader_looks: Seq<SharedLook<P>>,
    reader_wait: Wait,
)
    requires
        enters_exclusive(word, held, was_parked),
        told_alone(told, held),
        exclusive_trace(told, writer_was_parked, permit, writer_looks),
        exclusive_ends(told, writer_was_parked, writer_looks.last(), writer_wait),
        shared_trace(told, permit, reader_looks),
        shared_ends(told, reader_looks.last(), reader_wait),
    ensures
        held != 0,
        !reader_fits(held),
        writer_wait is Park || writer_wait is Again,
        reader_wait is Park || reader_wait is Again,
{
    law_writer_waits_for_all(told, held, writer_was_parked, permit, writer_looks, writer_wait);
    law_reader_waits_for_writer(told, held, permit, reader_looks, reader_wait);
}

/// Once a thread has taken a mutex, no other does, while the word is not changed: one that tries is
/// refused, and one that waits parks.
pub proof fn law_no_second_holder<P>(
    word: u8,
    held: u8,
    told: Answers<u8, P>,
    permit: P,
    attempts: Seq<Attempt<u8, P>>,
    rounds: u64,
    acquired: Option<bool>,
    left: Option<P>,
    looks: Seq<MutexLook<P>>,
    wait: Wait,
)
    requires
        takes(word, held),
        told_alone(told, held),
        mutex::failed_in_turn(told.enter, attempts),
        attempts[0].word == held,
        mutex::tried_repeatedly(told.enter, attempts, rounds, acquired, left),
        mutex_trace(told, permit, looks),
        mutex_ends(told, looks.last(), wait),
    ensures
        held != 0,
        acquired != Some(true),
        wait is Park || wait is Again,
{
    law_thread_gets_mutex_if_free(told.enter, held, attempts, rounds, acquired, left);
    law_thread_waits_for_holder(told, held, permit, looks, wait);
}

/// An exchange of a word that is `word` and that no other thread changes ends like this, and leaves
/// the word `after`. One that is `weak` may fail for no reason.
pub open spec fn exchanged_alone<W>(word: W, from: W, to: W, weak: bool, end: Result<W, W>, after: W) -> bool {
    match end {
        Ok(found) => from == word && found == word && after == to,
        Err(found) => (weak || from != word) && found == word && after == word,
    }
}

/// To take a reader-writer lock as a writer at once succeeds, while no other thread changes the word,
/// if and only if nobody holds the lock and it has no mark. Then a writer is in, and there is no mark;
/// else the word is what it was. A weak exchange may also fail on a lock that is free.
pub proof fn law_writer_at_once(word: usize, weak: bool, end: Result<usize, usize>, after: usize, acquired: bool)
    requires
        exchanged_alone(word, 0, ONE_WRITER, weak, end, after),
        acquired == end is Ok,
    ensures
        acquired ==> vacant(word) && !readers_marked(word) && !writers_marked(word),
        !weak && vacant(word) && !readers_marked(word) && !writers_marked(word) ==> acquired,
        acquired ==> writer_in(after) && !readers_marked(after) && !writers_marked(after),
        !acquired ==> after == word,
        !vacant(word) ==> !acquired,
{
    lemma_word(ONE_WRITER);
}

/// To take a mutex at once succeeds, while no other thread changes the word, only if nobody holds it
/// and it has no mark. Then it is held, and who tries again fails; else the word is what it was.
pub proof fn law_thread_at_once(
    word: u8,
    end: Result<u8, u8>,
    after: u8,
    acquired: bool,
    other_end: Result<u8, u8>,
    other_after: u8,
    other_acquired: bool,
)
    requires
        exchanged_alone(word, 0, LOCKED, true, end, after),
        acquired == end is Ok,
        exchanged_alone(after, 0, LOCKED, true, other_end, other_after),
        other_acquired == other_end is Ok,
    ensures
        acquired ==> !locked(word) && !marked(word),
        acquired ==> locked(after) && !marked(after) && !other_acquired && other_after == after,
        !acquired ==> after == word,
{
}

/// To take a mutex at once and to give it back, while no other thread changes the word, leaves the
/// word as it was; the exchange that gives it back does not fail.
pub proof fn law_mutex_taken_and_given_back(
    word: u8,
    end: Result<u8, u8>,
    held: u8,
    other_end: Result<u8, u8>,
    after: u8,
)
    requires
        exchanged_alone(word, 0, LOCKED, true, end, held),
        end is Ok,
        exchanged_alone(held, LOCKED, 0, false, other_end, after),
    ensures
        other_end is Ok,
        after == word,
{
}

/// A reader that comes in at once and goes, while no other thread changes the word, is counted once
/// in between, and leaves the word as it was.
pub proof fn law_reader_in_and_out(word: usize, to: usize, end: Result<usize, usize>, held: usize, after: int)
    requires
        enters_shared(word, to),
        exchanged_alone(word, word, to, true, end, held),
        after == held - ONE_READER,
    ensures
        end is Ok ==> readers_in(held) == readers_in(word) + 1 && held == word + ONE_READER && after == word,
        end is Err ==> held == word,
{
}

} // verus!
