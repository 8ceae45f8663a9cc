//! Busy waiting.

use parking_lot_core::SpinWait;
use vstd::prelude::*;

verus! {

/// The backoff counter of `parking_lot_core`.
#[verifier::external_type_specification]
#[verifier::external_body]
pub struct ExSpinWait(SpinWait);

/// How far a [`SpinWait`] has counted since it was made or reset: the value of its
/// counter.
pub uninterp spec fn spin_count(spin: SpinWait) -> nat;

/// The count at which [`SpinWait`] stops.
pub open spec fn spin_limit() -> nat {
    10
}

/// `SpinWait::new` starts a counter at zero.
pub assume_specification[ SpinWait::new ]() -> (spin: SpinWait)
    ensures
        spin_count(spin) == 0,
;

/// `SpinWait::reset` sets the counter back to zero.
pub assume_specification[ SpinWait::reset ](spin: &mut SpinWait)
    ensures
        spin_count(*final(spin)) == 0,
;

/// `SpinWait::spin` answers `false` once the counter has reached its limit, and leaves it
/// there. Before that it counts on, lets some time pass and answers `true`.
pub assume_specification[ SpinWait::spin ](spin: &mut SpinWait) -> (spun: bool)
    ensures
        spun == (spin_count(*old(spin)) < spin_limit()),
        spin_count(*final(spin)) == spin_count(*old(spin)) + if spun {
            1int
        } else {
            0
        },
;

/// `SpinWait::spin_no_yield` counts on, up to the limit, and lets some time pass.
pub assume_specification[ SpinWait::spin_no_yield ](spin: &mut SpinWait)
    ensures
        spin_count(*final(spin)) == if spin_count(*old(spin)) + 1 > spin_limit() {
            spin_limit()
        } else {
            spin_count(*old(spin)) + 1
        },
;

} // verus!
