use std::cell::{Cell, RefCell};
use std::sync::atomic::{AtomicUsize, Ordering};

use cachemap3::exclusive::{
    enter_vacant, leave_exclusive, step_down, writer_must_park, ExclusiveStep, ExclusiveWaiter,
};
use cachemap3::lock::RawRwLock;
use cachemap3::shared::{
    enter_once, enter_or_retry, enter_repeatedly, leave_shared, reader_entry, reader_must_park, SharedStep, SharedWaiter,
};
use cachemap3::wait::{Wait, Wake};
use cachemap3::word::{ONE_READER, ONE_WRITER, READERS_PARKED, WRITERS_PARKED};

const BOTH: usize = READERS_PARKED | WRITERS_PARKED;

fn lock_at(word: usize) -> RawRwLock {
    RawRwLock { state: AtomicUsize::new(word) }
}

fn word(lock: &RawRwLock) -> usize {
    lock.state.load(Ordering::Relaxed)
}

#[test]
fn the_parts_of_the_word() {
    assert_eq!(READERS_PARKED, 1);
    assert_eq!(WRITERS_PARKED, 2);
    assert_eq!(ONE_READER, 4);
    assert_eq!(ONE_WRITER, usize::MAX - 3);
}

#[test]
fn a_new_lock_is_free() {
    assert_eq!(word(&RawRwLock::new()), 0);
}

#[test]
fn a_writer_keeps_everybody_out() {
    let lock = RawRwLock::new();
    assert!(lock.try_lock_exclusive());
    assert_eq!(word(&lock), ONE_WRITER);
    assert!(!lock.try_lock_exclusive());
    assert!(!lock.lock_exclusive());
    assert!(!lock.try_lock_shared_fast());
    assert_eq!(lock.try_lock_shared_slow(100), Some(false));
    assert_eq!(lock.try_lock_shared(100), Some(false));
    assert!(!lock.lock_shared());
    assert_eq!(word(&lock), ONE_WRITER);
    assert_eq!(lock.unlock_exclusive(), Some(Wake::Nobody));
    assert_eq!(word(&lock), 0);
}

#[test]
fn readers_share_and_keep_writers_out() {
    let lock = RawRwLock::new();
    assert_eq!(lock.try_lock_shared(100), Some(true));
    assert_eq!(lock.try_lock_shared_slow(100), Some(true));
    assert_eq!(lock.try_lock_shared(100), Some(true));
    assert_eq!(word(&lock), 3 * ONE_READER);
    assert!(!lock.try_lock_exclusive());
    assert_eq!(lock.unlock_shared(), Wake::Nobody);
    assert_eq!(lock.unlock_shared(), Wake::Nobody);
    assert!(!lock.try_lock_exclusive());
    assert_eq!(lock.unlock_shared(), Wake::Nobody);
    assert_eq!(word(&lock), 0);
    assert!(lock.try_lock_exclusive());
}

#[test]
fn the_count_of_readers_never_stands_for_a_writer() {
    // One reader more than this would be a writer.
    let last = ONE_WRITER - 2 * ONE_READER;
    assert_eq!(reader_entry(last), Some(ONE_WRITER - ONE_READER));
    assert_eq!(reader_entry(ONE_WRITER - ONE_READER), None);
    assert_eq!(reader_entry(ONE_WRITER - ONE_READER + 3), None);
    assert_eq!(reader_entry(ONE_WRITER), None);
    assert_eq!(reader_entry(usize::MAX), None);
    let lock = lock_at(ONE_WRITER - ONE_READER);
    assert_eq!(lock.try_lock_shared(100), Some(false));
    let mut waiter = SharedWaiter::new();
    assert_eq!(lock.lock_shared_slow(&mut waiter, 100), Wait::Overflow);
    assert_eq!(word(&lock), ONE_WRITER - ONE_READER);
}

#[test]
fn a_reader_waits_spins_marks_and_parks() {
    let mut waiter = SharedWaiter::new();
    for _ in 0..10 {
        assert_eq!(waiter.observe(ONE_WRITER), SharedStep::Reload);
    }
    assert_eq!(
        waiter.observe(ONE_WRITER),
        SharedStep::Mark { from: ONE_WRITER, to: ONE_WRITER | READERS_PARKED }
    );
    assert_eq!(waiter.observe(ONE_WRITER | READERS_PARKED), SharedStep::Park);
    assert_eq!(
        waiter.observe(ONE_WRITER | WRITERS_PARKED),
        SharedStep::Mark { from: ONE_WRITER | WRITERS_PARKED, to: usize::MAX }
    );
    waiter.woken();
    assert_eq!(waiter.observe(ONE_WRITER), SharedStep::Reload);
    assert_eq!(waiter.observe(0), SharedStep::Enter { from: 0, to: ONE_READER });
    assert_eq!(
        waiter.observe(WRITERS_PARKED),
        SharedStep::Enter { from: WRITERS_PARKED, to: ONE_READER | WRITERS_PARKED }
    );
    assert_eq!(waiter.observe(ONE_WRITER - ONE_READER), SharedStep::Overflow);
    waiter.back_off();
    assert_eq!(waiter.observe(ONE_WRITER), SharedStep::Reload);
}

#[test]
fn a_writer_waits_spins_marks_and_parks() {
    let mut waiter = ExclusiveWaiter::new();
    assert_eq!(waiter.observe(0), ExclusiveStep::Enter { from: 0, to: ONE_WRITER });
    for _ in 0..10 {
        assert_eq!(waiter.observe(ONE_READER), ExclusiveStep::Reload);
    }
    assert_eq!(
        waiter.observe(ONE_READER),
        ExclusiveStep::Mark { from: ONE_READER, to: ONE_READER | WRITERS_PARKED }
    );
    assert_eq!(waiter.observe(ONE_READER | WRITERS_PARKED), ExclusiveStep::Park);
    assert_eq!(waiter.observe(usize::MAX), ExclusiveStep::Park);
    // Woken, it marks the word for the writers that may be parked still.
    waiter.woken();
    assert_eq!(waiter.observe(0), ExclusiveStep::Enter { from: 0, to: ONE_WRITER | WRITERS_PARKED });
    assert_eq!(
        waiter.observe(WRITERS_PARKED),
        ExclusiveStep::Enter { from: WRITERS_PARKED, to: ONE_WRITER | WRITERS_PARKED }
    );
    assert_eq!(waiter.observe(ONE_WRITER), ExclusiveStep::Reload);
}

#[test]
fn waiting_on_a_held_lock_ends_in_a_mark() {
    let lock = RawRwLock::new();
    assert!(lock.try_lock_exclusive());
    let mut reader = SharedWaiter::new();
    assert_eq!(lock.lock_shared_slow(&mut reader, 100), Wait::Park);
    assert_eq!(word(&lock), ONE_WRITER | READERS_PARKED);
    assert!(lock.reader_must_park());
    assert!(!lock.writer_must_park());
    let mut writer = ExclusiveWaiter::new();
    assert_eq!(lock.lock_exclusive_slow(&mut writer, 100), Wait::Park);
    assert_eq!(word(&lock), ONE_WRITER | BOTH);
    assert!(lock.writer_must_park());
    // Readers go before writers, and the mark of the writers stays.
    assert_eq!(lock.unlock_exclusive(), Some(Wake::Readers));
    assert_eq!(word(&lock), WRITERS_PARKED);
    reader.woken();
    assert_eq!(lock.lock_shared_slow(&mut reader, 100), Wait::Acquired);
    assert_eq!(word(&lock), ONE_READER | WRITERS_PARKED);
    assert!(!lock.reader_must_park());
    assert!(lock.writer_must_park());
    // The last reader wakes a writer.
    assert_eq!(lock.unlock_shared(), Wake::Writer);
    assert_eq!(word(&lock), 0);
    writer.woken();
    assert_eq!(lock.lock_exclusive_slow(&mut writer, 100), Wait::Acquired);
    assert_eq!(word(&lock), ONE_WRITER | WRITERS_PARKED);
    assert_eq!(lock.unlock_exclusive(), Some(Wake::Writer));
    assert_eq!(word(&lock), 0);
}

#[test]
fn a_release_wakes_whom_the_marks_name() {
    let lock = lock_at(ONE_WRITER | READERS_PARKED);
    assert_eq!(lock.unlock_exclusive(), Some(Wake::Readers));
    assert_eq!(word(&lock), 0);
    let lock = lock_at(ONE_WRITER | WRITERS_PARKED);
    assert_eq!(lock.unlock_exclusive(), Some(Wake::Writer));
    assert_eq!(word(&lock), 0);
    let lock = lock_at(2 * ONE_READER | WRITERS_PARKED);
    assert_eq!(lock.unlock_shared(), Wake::Nobody);
    assert_eq!(word(&lock), ONE_READER | WRITERS_PARKED);
}

#[test]
fn a_lock_that_is_not_held_is_not_given_back() {
    for held in [0, ONE_READER, WRITERS_PARKED, 5 * ONE_READER | WRITERS_PARKED] {
        let lock = lock_at(held);
        assert_eq!(lock.unlock_exclusive(), None);
        assert_eq!(word(&lock), held);
    }
}

#[test]
fn a_writer_steps_down() {
    for (before, after, wake) in [
        (ONE_WRITER, ONE_READER, Wake::Nobody),
        (ONE_WRITER | READERS_PARKED, ONE_READER, Wake::Readers),
        (ONE_WRITER | WRITERS_PARKED, ONE_READER | WRITERS_PARKED, Wake::Nobody),
        (ONE_WRITER | BOTH, ONE_READER | WRITERS_PARKED, Wake::Readers),
    ] {
        let lock = lock_at(before);
        assert_eq!(lock.downgrade(), wake);
        assert_eq!(word(&lock), after);
        assert_eq!(lock.try_lock_shared(100), Some(true));
    }
}

#[test]
fn who_has_to_park() {
    assert!(!writer_must_park(0));
    assert!(!writer_must_park(WRITERS_PARKED));
    assert!(!writer_must_park(ONE_WRITER | READERS_PARKED));
    assert!(writer_must_park(ONE_READER | WRITERS_PARKED));
    assert!(writer_must_park(ONE_WRITER | WRITERS_PARKED));
    assert!(!reader_must_park(ONE_WRITER));
    assert!(!reader_must_park(ONE_READER | WRITERS_PARKED));
    assert!(reader_must_park(ONE_WRITER | READERS_PARKED));
    assert!(reader_must_park(usize::MAX));
}

#[test]
fn an_attempt_hands_the_exchange_the_words_it_has_to() {
    let asked = Cell::new((0, 0));
    let left = enter_once("permit", 8, |_, from, to| {
        asked.set((from, to));
        Ok(from)
    });
    assert_eq!(left, None);
    assert_eq!(asked.get(), (8, 12));
    assert_eq!(enter_once("permit", 8, |permit, _, _| Err((8, permit))), Some("permit"));
    let left = enter_once("permit", ONE_WRITER, |_, _, _| panic!("asked for nothing"));
    assert_eq!(left, Some("permit"));
    assert!(enter_vacant(|from, to| {
        asked.set((from, to));
        Ok(from)
    }));
    assert_eq!(asked.get(), (0, ONE_WRITER));
    assert!(!enter_vacant(|_, _| Err(1)));
}

#[test]
fn failed_exchanges_are_repeated_from_the_word_found() {
    let asked = RefCell::new(Vec::new());
    let answers = RefCell::new(vec![Ok(12), Err((12, 2)), Err((8, 1))]);
    let acquired = enter_repeatedly(
        0,
        0,
        |permit, from, to| {
            asked.borrow_mut().push((permit, from, to));
            answers.borrow_mut().pop().unwrap()
        },
        10,
    );
    assert_eq!(acquired, (Some(true), None));
    assert_eq!(*asked.borrow(), vec![(0, 0, 4), (1, 8, 12), (2, 12, 16)]);
    assert_eq!(enter_repeatedly((), 0, |p, _, _| Err((ONE_WRITER, p)), 10), (Some(false), Some(())));
    assert_eq!(enter_repeatedly((), 0, |p, _, _| Err((0, p)), 10), (None, Some(())));
    assert_eq!(enter_repeatedly((), 0, |p, _, _| Err((ONE_WRITER, p)), 1), (None, Some(())));
    assert_eq!(enter_repeatedly((), ONE_WRITER, |_, _, _| Ok(0), 0), (None, Some(())));
}

#[test]
fn a_reader_enters_at_the_first_attempt_or_at_a_later_one() {
    // The first attempt is enough.
    let asked = Cell::new(0);
    let acquired = enter_or_retry(
        (),
        || 8,
        |_, from, to| {
            asked.set(asked.get() + 1);
            assert_eq!((from, to), (8, 12));
            Ok(from)
        },
        10,
    );
    assert_eq!(acquired, (Some(true), None));
    assert_eq!(asked.get(), 1);
    // It fails, and the word is loaded again.
    let words = RefCell::new(vec![4, 8]);
    let asked = RefCell::new(Vec::new());
    let acquired = enter_or_retry(
        (),
        || words.borrow_mut().pop().unwrap(),
        |permit, from, _| {
            asked.borrow_mut().push(from);
            if from == 12 {
                Ok(from)
            } else {
                Err((12, permit))
            }
        },
        10,
    );
    assert_eq!(acquired, (Some(true), None));
    assert_eq!(*asked.borrow(), vec![8, 4, 12]);
    assert_eq!(enter_or_retry((), || ONE_WRITER, |_, _, _| panic!("a writer is in"), 10), (Some(false), Some(())));
    assert_eq!(enter_or_retry((), || 0, |p, _, _| Err((0, p)), 10), (None, Some(())));
}

#[test]
fn one_reader_is_counted_beside_the_mark_of_the_writers() {
    let lock = lock_at(WRITERS_PARKED);
    assert_eq!(lock.try_lock_shared(100), Some(true));
    assert_eq!(word(&lock), ONE_READER | WRITERS_PARKED);
    assert_eq!(lock.unlock_shared(), Wake::Writer);
    assert_eq!(word(&lock), 0);
}

#[test]
fn who_comes_and_goes_leaves_the_word_as_it_was() {
    for held in [0, ONE_READER, 7 * ONE_READER, 2 * ONE_READER | WRITERS_PARKED] {
        let lock = lock_at(held);
        assert_eq!(lock.try_lock_shared(100), Some(true));
        assert_eq!(word(&lock), held + ONE_READER);
        assert_eq!(lock.unlock_shared(), Wake::Nobody);
        assert_eq!(word(&lock), held);
    }
    let lock = RawRwLock::new();
    assert!(lock.try_lock_exclusive());
    assert_eq!(lock.unlock_exclusive(), Some(Wake::Nobody));
    assert_eq!(word(&lock), 0);
}

#[test]
fn a_waiting_reader_loads_again_after_a_failure() {
    let words = RefCell::new(vec![ONE_WRITER | READERS_PARKED, 8, 4]);
    let wait = SharedWaiter::new().wait(
        (),
        || words.borrow_mut().pop().unwrap(),
        |p, _, _| Err((0, p)),
        |_, _, _| panic!("marked already"),
        100,
    );
    assert_eq!(wait, (Wait::Park, Some(())));
    assert!(words.borrow().is_empty());
    let wait = SharedWaiter::new().wait((), || 0, |p, _, _| Err((0, p)), |p, _, _| Err((0, p)), 5);
    assert_eq!(wait, (Wait::Again, Some(())));
    let wait = SharedWaiter::new().wait(
        (),
        || ONE_WRITER,
        |_, _, _| panic!("a writer is in"),
        |p, from, to| {
            assert_eq!((from, to), (ONE_WRITER, ONE_WRITER | READERS_PARKED));
            Err((ONE_WRITER | READERS_PARKED, p))
        },
        100,
    );
    assert_eq!(wait, (Wait::Park, Some(())));
}

#[test]
fn a_waiting_writer_goes_on_from_the_word_found() {
    let wait = ExclusiveWaiter::new().wait(
        (),
        || WRITERS_PARKED,
        |p, from, to| {
            if from == WRITERS_PARKED {
                assert_eq!(to, ONE_WRITER | WRITERS_PARKED);
                Err((ONE_READER | WRITERS_PARKED, p))
            } else {
                panic!("the lock is held")
            }
        },
        |_, _, _| panic!("marked already"),
        100,
    );
    assert_eq!(wait, (Wait::Park, Some(())));
    let wait = ExclusiveWaiter::new().wait((), || 0, |p, _, _| Err((0, p)), |p, _, _| Err((0, p)), 5);
    assert_eq!(wait, (Wait::Again, Some(())));
}

#[test]
fn the_permit_is_left_over_unless_the_word_was_changed() {
    let word = ONE_READER;
    let mut waiter = ExclusiveWaiter::new();
    let marked = waiter.wait("permit", || word, |_, _, _| panic!("held"), |_, from, _| Ok(from), 100);
    assert_eq!(marked, (Wait::Park, None));
    let mut waiter = SharedWaiter::new();
    let entered = waiter.wait("permit", || 0, |_, from, _| Ok(from), |_, _, _| panic!("free"), 100);
    assert_eq!(entered, (Wait::Acquired, None));
    let full = ONE_WRITER - ONE_READER;
    let overflow = waiter.wait("permit", || full, |_, _, _| panic!("full"), |_, _, _| panic!("free"), 100);
    assert_eq!(overflow, (Wait::Overflow, Some("permit")));
    let parked = waiter.wait("permit", || usize::MAX, |_, _, _| panic!("held"), |_, _, _| panic!("marked"), 100);
    assert_eq!(parked, (Wait::Park, Some("permit")));
    let released = leave_exclusive(
        "permit",
        |permit, _, _| Err((ONE_READER, permit)),
        || ONE_READER,
        |_, _| panic!("not held"),
    );
    assert_eq!(released, (None, Some("permit")));
}

#[test]
fn a_release_that_is_overtaken_by_a_mark_stores() {
    // A reader marks the word between the load and the exchange.
    let stored = Cell::new(0);
    let wake = leave_exclusive(
        (),
        |p, from, to| {
            assert_eq!(to, 0);
            if from == ONE_WRITER {
                Err((ONE_WRITER | WRITERS_PARKED, p))
            } else {
                Err((usize::MAX, p))
            }
        },
        || ONE_WRITER | WRITERS_PARKED,
        |_, word| stored.set(word),
    );
    assert_eq!(wake, (Some(Wake::Readers), None));
    assert_eq!(stored.get(), WRITERS_PARKED);
    let wake = leave_exclusive(
        (),
        |p, _, _| Err((ONE_WRITER | WRITERS_PARKED, p)),
        || ONE_WRITER | WRITERS_PARKED,
        |_, _| panic!("not held"),
    );
    assert_eq!(wake, (None, Some(())));
}

#[test]
fn nothing_is_stored_unless_both_kinds_are_parked() {
    for (held, wake) in [
        (ONE_WRITER | READERS_PARKED, Wake::Readers),
        (ONE_WRITER | WRITERS_PARKED, Wake::Writer),
    ] {
        let woken = leave_exclusive(
            (),
            |p, from, _| if from == held { Ok(from) } else { Err((held, p)) },
            || held,
            |_, _| panic!("the lock is given back already"),
        );
        assert_eq!(woken, (Some(wake), None));
    }
    let woken = leave_exclusive(
        (),
        |_, from, _| Ok(from),
        || panic!("the lock is given back already"),
        |_, _| panic!("the lock is given back already"),
    );
    assert_eq!(woken, (Some(Wake::Nobody), None));
}

#[test]
fn the_last_reader_leaves_the_writers_to_one_who_came_in_between() {
    let wake = leave_shared(
        |count| {
            assert_eq!(count, ONE_READER);
            ONE_READER | WRITERS_PARKED
        },
        |from, to| {
            assert_eq!((from, to), (WRITERS_PARKED, 0));
            Err(ONE_READER | WRITERS_PARKED)
        },
    );
    assert_eq!(wake, Wake::Nobody);
    let wake = leave_shared(|_| ONE_READER, |_, _| panic!("no writer is parked"));
    assert_eq!(wake, Wake::Nobody);
    assert_eq!(step_down(|bits| bits | ONE_WRITER), Wake::Nobody);
    assert_eq!(step_down(|_| usize::MAX), Wake::Readers);
}
