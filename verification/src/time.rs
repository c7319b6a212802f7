//! Lengths of time and the clock.

use core::time::Duration;
use vstd::prelude::*;

verus! {

/// The value that `Duration::from_millis` makes of a number of milliseconds.
pub uninterp spec fn duration_of_millis(ms: u64) -> Duration;

/// `Duration::from_millis`. A `Duration` is opaque here: what is known of it is
/// the number it was made from.
pub assume_specification[ Duration::from_millis ](ms: u64) -> (d: Duration)
    ensures
        d == duration_of_millis(ms),
;

/// The value that `Duration::from_secs` makes of a number of seconds.
pub uninterp spec fn duration_of_secs(secs: u64) -> Duration;

/// `Duration::from_secs`, opaque in the same way.
pub assume_specification[ Duration::from_secs ](secs: u64) -> (d: Duration)
    ensures
        d == duration_of_secs(secs),
;

} // verus!
