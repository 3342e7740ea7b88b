//! The one clock access of the library. Everything the core proves is
//! stated over an explicit timestamp argument; this wrapper is how the
//! convenience entry points obtain that argument.

use vstd::prelude::*;

verus! {

/// Relies on `std::time::SystemTime::now`: the current Unix timestamp in
/// seconds, negative when the system clock is set before the epoch and
/// clamped to the `i64` range. The value depends on the wall clock, so
/// nothing is promised of it; callers treat it as an arbitrary `i64`. Every
/// path in the body is total: a pre-epoch clock comes back through the
/// error's duration instead of aborting.
#[verifier::external_body]
pub(crate) fn now_timestamp() -> i64 {
    match std::time::SystemTime::now().duration_since(std::time::UNIX_EPOCH) {
        Ok(since) if since.as_secs() <= i64::MAX as u64 => since.as_secs() as i64,
        Ok(_) => i64::MAX,
        Err(e) if e.duration().as_secs() <= i64::MAX as u64 => -(e.duration().as_secs() as i64),
        Err(_) => i64::MIN,
    }
}

} // verus!
