//! What a thread that works on a lock can come to know of the lock's word.

use vstd::prelude::*;

verus! {

/// How far a thread got in its attempts to take a lock.
#[derive(Clone, Copy, Debug, PartialEq, Eq, Structural)]
pub enum Wait {
    /// The lock is taken.
    Acquired,
    /// The thread has to park until it is woken.
    Park,
    /// The lock cannot count one more reader.
    Overflow,
    /// The attempts are used up; the thread has to go on trying.
    Again,
}

/// Whom a thread that gives a lock back has to wake.
#[derive(Clone, Copy, Debug, PartialEq, Eq, Structural)]
pub enum Wake {
    /// No thread.
    Nobody,
    /// Every reader that is parked.
    Readers,
    /// One of the writers that are parked.
    Writer,
}

/// Leave to change the word of a lock once.
///
/// Whoever changes the word gives its permit away, and gets it back only where the change did
/// not come about. The functions that make such changes leave open of what type the permit is:
/// so they can neither make one nor copy one.
pub struct Permit;

/// Gives the permit back where the exchange failed.
pub fn settle<W, P>(permit: P, end: Result<W, W>) -> (settled: Result<W, (W, P)>)
    ensures
        settled matches Err(failed) ==> failed.1 == permit,
        bare(settled) == end,
{
    match end {
        Ok(found) => Ok(found),
        Err(found) => Err((found, permit)),
    }
}

/// The result of an exchange without the permit.
pub open spec fn bare<W, P>(end: Result<W, (W, P)>) -> Result<W, W> {
    match end {
        Ok(found) => Ok(found),
        Err(failed) => Err(failed.0),
    }
}

/// What the operations on a word can answer to a thread that wants the lock.
///
/// `W` is the type of the word, `P` that of the permit.
#[verifier::reject_recursive_types(W)]
#[verifier::reject_recursive_types(P)]
pub ghost struct Answers<W, P> {
    /// The words that a load can give.
    pub load: spec_fn(W) -> bool,
    /// How the exchange can end that is to take the lock: with which permit, from which word, to
    /// which, and with which result.
    pub enter: spec_fn(P, W, W, Result<W, (W, P)>) -> bool,
    /// How the exchange can end that is to mark the word.
    pub mark: spec_fn(P, W, W, Result<W, (W, P)>) -> bool,
}

/// What these three operations can answer.
pub open spec fn answers<
    L: Fn() -> W,
    X: Fn(P, W, W) -> Result<W, (W, P)>,
    M: Fn(P, W, W) -> Result<W, (W, P)>,
    W,
    P,
>(load: L, enter: X, mark: M) -> Answers<W, P> {
    Answers {
        load: |found: W| call_ensures(load, (), found),
        enter: |permit: P, from: W, to: W, end: Result<W, (W, P)>| call_ensures(enter, (permit, from, to), end),
        mark: |permit: P, from: W, to: W, end: Result<W, (W, P)>| call_ensures(mark, (permit, from, to), end),
    }
}

/// What the exchange can answer.
pub open spec fn ends<X: FnOnce(P, W, W) -> Result<W, (W, P)>, W, P>(
    exchange: X,
) -> spec_fn(P, W, W, Result<W, (W, P)>) -> bool {
    |permit: P, from: W, to: W, end: Result<W, (W, P)>| call_ensures(exchange, (permit, from, to), end)
}

/// The exchange can put `to` in the place of `from`, with this permit.
pub open spec fn granted<W, P>(
    exchange: spec_fn(P, W, W, Result<W, (W, P)>) -> bool,
    permit: P,
    from: W,
    to: W,
) -> bool {
    exists|found: W| #[trigger] exchange(permit, from, to, Ok::<W, (W, P)>(found))
}

/// The exchange of `from` for `to`, with this permit, can fail, find `found` and give `back` a
/// permit.
pub open spec fn refused<W, P>(
    exchange: spec_fn(P, W, W, Result<W, (W, P)>) -> bool,
    permit: P,
    from: W,
    to: W,
    found: W,
    back: P,
) -> bool {
    exchange(permit, from, to, Err::<W, (W, P)>((found, back)))
}

/// The word from which an attempt starts, and the permit for it.
pub ghost struct Attempt<W, P> {
    /// The word.
    pub word: W,
    /// The permit.
    pub permit: P,
}

/// However the first exchange can end, the second can end too.
pub open spec fn ends_among<W, P>(
    some: spec_fn(P, W, W, Result<W, (W, P)>) -> bool,
    all: spec_fn(P, W, W, Result<W, (W, P)>) -> bool,
) -> bool {
    forall|permit: P, from: W, to: W, end: Result<W, (W, P)>| #[trigger]
        some(permit, from, to, end) ==> all(permit, from, to, end)
}

/// Whatever the first can answer, the second can answer too.
pub open spec fn among<W, P>(some: Answers<W, P>, all: Answers<W, P>) -> bool {
    &&& forall|found: W| #[trigger] (some.load)(found) ==> (all.load)(found)
    &&& ends_among(some.enter, all.enter)
    &&& ends_among(some.mark, all.mark)
}

/// What one exchange grants or refuses, one that can end in more ways can grant or refuse too.
pub proof fn lemma_more_ends<W, P>(
    some: spec_fn(P, W, W, Result<W, (W, P)>) -> bool,
    all: spec_fn(P, W, W, Result<W, (W, P)>) -> bool,
)
    requires
        ends_among(some, all),
    ensures
        forall|permit: P, from: W, to: W| #[trigger]
            granted(some, permit, from, to) ==> granted(all, permit, from, to),
        forall|permit: P, from: W, to: W, found: W, back: P| #[trigger]
            refused(some, permit, from, to, found, back) ==> refused(all, permit, from, to, found, back),
{
}

} // verus!
