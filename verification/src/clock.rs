//! Access to the system clock. Every rule in this crate takes the
//! current instant as an explicit argument, so the clock is read once at
//! the boundary and nothing is assumed of its value.

use vstd::prelude::*;

verus! {

/// Relies on std's SystemTime: the seconds of the system clock since the
/// Unix epoch; nothing is assumed of the value.
#[verifier::external_body]
pub fn now_seconds() -> u64 {
    match std::time::SystemTime::now().duration_since(std::time::SystemTime::UNIX_EPOCH) {
        Ok(d) => d.as_secs(),
        Err(_) => 0,
    }
}

} // verus!
