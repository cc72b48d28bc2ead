//! Wall-clock access.  The engine itself never reads the clock: every
//! state transition takes the current time as an argument, so all of its
//! behaviour is verified for every time value.  This wrapper is how the
//! surrounding process obtains that argument.

use vstd::prelude::*;

verus! {

/// Seconds elapsed since the Unix epoch, or zero if the system clock is set
/// before it.
///
/// Relies on `std::time::SystemTime::now` and `duration_since`: nothing is
/// assumed of the value, since the clock is outside the engine.
#[verifier::external_body]
pub fn now() -> u64 {
    match std::time::SystemTime::now().duration_since(std::time::UNIX_EPOCH) {
        Ok(d) => d.as_secs(),
        Err(_) => 0,
    }
}

} // verus!
