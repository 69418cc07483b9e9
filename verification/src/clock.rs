//! The clock: the one place the library asks the host for the current time.

use vstd::prelude::*;

verus! {

/// Relies on chrono's `Local::now` and `DateTime::to_rfc3339`: the current
/// local date and time rendered as an RFC 3339 timestamp, which is never
/// empty. Nothing more is assumed of it: the value depends on the clock.
#[verifier::external_body]
pub(crate) fn now_rfc3339() -> (r: Vec<u8>)
    ensures
        r@.len() > 0,
{
    chrono::Local::now().to_rfc3339().into_bytes()
}

} // verus!
