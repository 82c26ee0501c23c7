//! Reading the clock: the one call outside the library's own logic.

use std::time::{SystemTime, UNIX_EPOCH};

use vstd::prelude::*;

verus! {

/// Relies on std's `SystemTime::now` and `SystemTime::duration_since`:
/// the current time in whole seconds since the Unix epoch, and zero for a
/// clock set before the epoch. Neither call panics. Nothing is promised
/// of the value: it depends on the clock.
#[verifier::external_body]
pub(crate) fn now_timestamp() -> i64 {
    match SystemTime::now().duration_since(UNIX_EPOCH) {
        Ok(d) => d.as_secs() as i64,
        Err(_) => 0,
    }
}

} // verus!
