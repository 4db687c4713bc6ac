//! Wall-clock access. The store stamps rows with the current time; everything
//! downstream treats the stamp as an arbitrary value, so nothing is assumed
//! about what the clock returns.

use vstd::prelude::*;

verus! {

/// Relies on chrono::Utc::now and DateTime::timestamp: the current wall-clock
/// time as whole seconds since the Unix epoch (negative before 1970). The
/// value depends on when the call is made, so no ensures pins it down.
#[verifier::external_body]
fn epoch_seconds_now() -> i64 {
    chrono::Utc::now().timestamp()
}

/// The current time as seconds since the Unix epoch, clamped to zero for
/// clocks set before 1970. Callers treat the result as an arbitrary stamp.
pub fn current_time_seconds() -> u64 {
    let t = epoch_seconds_now();
    if t < 0 {
        0
    } else {
        t as u64
    }
}

} // verus!
