//! Helpers around session tokens that the surrounding session service hands
//! to the core. The core performs no credential checks of its own; it only
//! picks which of two optionally supplied tokens to use and decides whether
//! a session record has expired at a given instant.

use vstd::prelude::*;

verus! {

/// Picks the session token to use when a caller may supply it under either
/// of two parameter spellings. The second spelling wins when both are given.
pub fn pick_session_token(first: Option<String>, second: Option<String>) -> (r: Option<String>)
    ensures
        second is Some ==> r == second,
        second is None ==> r == first,
{
    match second {
        Some(t) => Some(t),
        None => first,
    }
}

/// Decides whether a session with the given optional expiry is still valid
/// at time `now`: a session without an expiry never expires, one with an
/// expiry is valid until that instant (inclusive).
pub fn session_is_valid(expires_at: Option<i64>, now: i64) -> (r: bool)
    ensures
        r == match expires_at {
            Some(exp) => now <= exp,
            None => true,
        },
{
    match expires_at {
        Some(exp) => now <= exp,
        None => true,
    }
}

} // verus!
