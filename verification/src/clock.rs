//! The system clock.

use vstd::prelude::*;

verus! {

/// The time by the system clock, in whole seconds since the Unix epoch: what
/// `std::time::SystemTime::now` reports, measured from `UNIX_EPOCH` with
/// `duration_since`, and 0 where the clock stands before the epoch.
///
/// Nothing is claimed of the value: two calls may differ in any way.
#[verifier::external_body]
pub(crate) fn unix_time() -> u64 {
    match std::time::SystemTime::now().duration_since(std::time::UNIX_EPOCH) {
        Ok(elapsed) => elapsed.as_secs(),
        Err(_) => 0,
    }
}

} // verus!
