//! The one place the wall clock is read.

use vstd::prelude::*;

verus! {

/// Relies on `chrono::Utc::now`: the current UTC time, in milliseconds since
/// the Unix epoch. Nothing is assumed of the value; callers state what holds
/// whatever the clock returns.
#[verifier::external_body]
pub(crate) fn now_millis() -> (r: i64)
{
    chrono::Utc::now().timestamp_millis()
}

} // verus!
