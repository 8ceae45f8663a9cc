use std::cell::{Cell, RefCell};

use cachemap3::protocol::{lookup, Phase, Seen};

#[test]
fn an_entry_that_is_there_is_handed_out_at_once() {
    assert_eq!(Phase::first(), Phase::Search);
    assert_eq!(Phase::Search.next(Seen::Hit), Phase::Done);
}

#[test]
fn a_missing_entry_is_looked_for_twice() {
    for full in [false, true] {
        let phase = Phase::first().next(Seen::Miss { full });
        assert_eq!(phase, Phase::Lock);
        let phase = phase.next(Seen::Locked);
        assert_eq!(phase, Phase::Recheck);
        assert_eq!(phase.next(Seen::Hit), Phase::Done);
        let phase = phase.next(Seen::Miss { full });
        assert_eq!(phase, if full { Phase::Replace } else { Phase::Append });
        assert_eq!(phase.next(Seen::Published), Phase::Done);
    }
}

#[test]
fn a_lookup_that_finds_the_entry_takes_no_lock() {
    let entry = lookup(
        1,
        "value",
        |read| -> Result<u8, (i32, bool)> {
            assert_eq!(read, 1);
            Ok(5)
        },
        |_| -> (i32, i32) { panic!("locked") },
        |_, _, _| panic!("replaced"),
        |_, _, _| panic!("added"),
    );
    assert_eq!(entry, 5);
}

#[test]
fn a_lookup_looks_again_under_the_insert_lock() {
    let searches = Cell::new(0);
    let entry = lookup(
        0,
        (),
        |read| {
            searches.set(searches.get() + 1);
            if read == 2 {
                Ok("another thread was faster")
            } else {
                Err((read + 1, true))
            }
        },
        |read| (read + 1, "guard"),
        |_, _, ()| panic!("replaced"),
        |_, _, ()| panic!("added"),
    );
    assert_eq!(entry, "another thread was faster");
    assert_eq!(searches.get(), 2);
}

#[test]
fn a_lookup_that_finds_nothing_adds_the_entry_under_the_insert_lock() {
    for full in [false, true] {
        let done = RefCell::new(Vec::new());
        let entry = lookup(
            0,
            || 42,
            |read| -> Result<u8, (i32, bool)> {
                done.borrow_mut().push("search");
                Err((read + 1, full))
            },
            |read| {
                done.borrow_mut().push("lock");
                (read + 1, "guard")
            },
            |read, guard, value| {
                done.borrow_mut().push("replace");
                assert_eq!((read, guard), (3, "guard"));
                value()
            },
            |read, guard, value| {
                done.borrow_mut().push("append");
                assert_eq!((read, guard), (3, "guard"));
                value()
            },
        );
        assert_eq!(entry, 42);
        let last = if full { "replace" } else { "append" };
        assert_eq!(*done.borrow(), vec!["search", "lock", "search", last]);
    }
}
