//! The wall clock, behind a trusted binding.

use vstd::prelude::*;

verus! {

/// Relies on `chrono::Utc::now` and `chrono::DateTime::timestamp_millis`
/// for the wall clock; nothing is assumed of the value. `Utc::now` panics
/// when the host clock reads before the Unix epoch — chrono offers no
/// non-panicking reading, so that degenerate machine state is inherited
/// here and nowhere else.
#[verifier::external_body]
pub(crate) fn now_millis() -> i64 {
    chrono::Utc::now().timestamp_millis()
}

} // verus!
