use std::cell::RefCell;
use std::sync::atomic::{AtomicU8, Ordering};

use cachemap3::lock::RawMutex;
use cachemap3::mutex::{
    give_back_marked, must_park, release_marked, release_unmarked, take_repeatedly, take_vacant, MutexStep, MutexWaiter, Release,
    LOCKED, PARKED, TOKEN_HANDOFF, TOKEN_NORMAL,
};
use cachemap3::wait::Wait;

fn mutex_at(word: u8) -> RawMutex {
    RawMutex { state: AtomicU8::new(word) }
}

fn word(mutex: &RawMutex) -> u8 {
    mutex.state.load(Ordering::Relaxed)
}

#[test]
fn one_thread_at_a_time() {
    let mutex = RawMutex::new();
    assert_eq!(word(&mutex), 0);
    assert_eq!(mutex.try_lock(100), Some(true));
    assert_eq!(word(&mutex), LOCKED);
    assert_eq!(mutex.try_lock(100), Some(false));
    assert!(!mutex.lock());
    assert!(mutex.unlock());
    assert_eq!(word(&mutex), 0);
    assert_eq!(mutex.try_lock(100), Some(true));
}

#[test]
fn a_free_mutex_is_taken_even_if_threads_are_parked() {
    let mutex = mutex_at(PARKED);
    assert!(!mutex.lock());
    assert_eq!(mutex.try_lock(100), Some(true));
    assert_eq!(word(&mutex), LOCKED | PARKED);
}

#[test]
fn waiting_ends_in_a_mark() {
    let mutex = RawMutex::new();
    assert_eq!(mutex.try_lock(100), Some(true));
    assert!(!mutex.must_park());
    let mut waiter = MutexWaiter::new();
    assert_eq!(mutex.lock_slow(&mut waiter, 100), Wait::Park);
    assert_eq!(word(&mutex), LOCKED | PARKED);
    assert!(mutex.must_park());
    assert!(!mutex.unlock());
    assert_eq!(mutex.unlock_slow(1, false, false), TOKEN_NORMAL);
    assert_eq!(word(&mutex), 0);
    assert!(!waiter.woken(Some(TOKEN_NORMAL)));
    assert_eq!(mutex.lock_slow(&mut waiter, 100), Wait::Acquired);
    assert_eq!(word(&mutex), LOCKED);
}

#[test]
fn what_a_waiting_thread_does() {
    let mut waiter = MutexWaiter::new();
    assert_eq!(waiter.observe(0), MutexStep::Take { from: 0, to: LOCKED });
    assert_eq!(waiter.observe(PARKED), MutexStep::Take { from: PARKED, to: LOCKED | PARKED });
    for _ in 0..10 {
        assert_eq!(waiter.observe(LOCKED), MutexStep::Reload);
    }
    assert_eq!(waiter.observe(LOCKED), MutexStep::Mark { from: LOCKED, to: LOCKED | PARKED });
    assert_eq!(waiter.observe(LOCKED | PARKED), MutexStep::Park);
    assert!(waiter.woken(Some(TOKEN_HANDOFF)));
    assert_eq!(waiter.observe(LOCKED), MutexStep::Mark { from: LOCKED, to: LOCKED | PARKED });
    assert!(!waiter.woken(None));
    assert_eq!(waiter.observe(LOCKED), MutexStep::Reload);
}

#[test]
fn how_a_marked_mutex_is_given_back() {
    for (unparked, more, fair, after, token) in [
        (1, true, true, LOCKED | PARKED, TOKEN_HANDOFF),
        (1, false, true, LOCKED, TOKEN_HANDOFF),
        (1, true, false, PARKED, TOKEN_NORMAL),
        (1, false, false, 0, TOKEN_NORMAL),
        (0, false, true, 0, TOKEN_NORMAL),
        (0, false, false, 0, TOKEN_NORMAL),
    ] {
        let mutex = mutex_at(LOCKED | PARKED);
        assert_eq!(mutex.unlock_slow(unparked, more, fair), token);
        assert_eq!(word(&mutex), after);
    }
    assert_eq!(release_marked(1, true, true), Release::HandOver);
    assert_eq!(release_marked(1, false, true), Release::HandOverLast);
    assert_eq!(release_marked(0, true, true), Release::Free);
    assert_eq!(release_marked(0, false, true), Release::FreeLast);
}

#[test]
fn only_a_held_and_marked_word_lets_a_thread_park() {
    assert!(!must_park(0));
    assert!(!must_park(LOCKED));
    assert!(!must_park(PARKED));
    assert!(must_park(LOCKED | PARKED));
}

#[test]
fn exchanges_of_the_mutex() {
    assert!(take_vacant(|from, to| {
        assert_eq!((from, to), (0, LOCKED));
        Ok(0)
    }));
    assert!(!take_vacant(|_, _| Err(PARKED)));
    assert!(release_unmarked(|from, to| {
        assert_eq!((from, to), (LOCKED, 0));
        Ok(LOCKED)
    }));
    assert!(!release_unmarked(|_, _| Err(LOCKED | PARKED)));
    let asked = RefCell::new(Vec::new());
    let answers = RefCell::new(vec![Ok(PARKED), Err((PARKED, 1))]);
    let acquired = take_repeatedly(
        0,
        0,
        |permit, from, to| {
            asked.borrow_mut().push((permit, from, to));
            answers.borrow_mut().pop().unwrap()
        },
        10,
    );
    assert_eq!(acquired, (Some(true), None));
    assert_eq!(*asked.borrow(), vec![(0, 0, LOCKED), (1, PARKED, LOCKED | PARKED)]);
    assert_eq!(take_repeatedly((), 0, |p, _, _| Err((LOCKED, p)), 10), (Some(false), Some(())));
    assert_eq!(take_repeatedly((), LOCKED, |_, _, _| panic!("held"), 10), (Some(false), Some(())));
    assert_eq!(take_repeatedly((), 0, |p, _, _| Err((0, p)), 10), (None, Some(())));
    let wait = MutexWaiter::new().wait((), || 0, |p, _, _| Err((0, p)), |p, _, _| Err((0, p)), 5);
    assert_eq!(wait, (Wait::Again, Some(())));
}

#[test]
fn nothing_is_stored_where_the_mutex_is_handed_over_while_others_are_parked() {
    let token = give_back_marked(1, true, true, |_| panic!("the word stays"));
    assert_eq!(token, TOKEN_HANDOFF);
    for (unparked, more, fair, after, token) in [
        (1, false, true, LOCKED, TOKEN_HANDOFF),
        (1, true, false, PARKED, TOKEN_NORMAL),
        (0, true, true, PARKED, TOKEN_NORMAL),
        (0, false, false, 0, TOKEN_NORMAL),
    ] {
        let given = give_back_marked(unparked, more, fair, |word| assert_eq!(word, after));
        assert_eq!(given, token);
    }
}

#[test]
fn who_takes_a_free_mutex_and_gives_it_back_leaves_it_free() {
    let mutex = RawMutex::new();
    for _ in 0..3 {
        assert_eq!(mutex.try_lock(100), Some(true));
        assert_eq!(word(&mutex), LOCKED);
        assert!(mutex.unlock());
        assert_eq!(word(&mutex), 0);
    }
}
