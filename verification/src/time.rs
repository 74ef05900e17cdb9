//! Arrival timestamps for orders.

use vstd::prelude::*;

verus! {

/// Relies on `chrono::Utc::now().timestamp_nanos_opt()`: the current wall
/// clock as nanoseconds since the Unix epoch. The result depends on the
/// clock, so nothing is promised of it; the call panics if the clock is
/// outside the range that fits in an `i64` of nanoseconds (years 1677-2262).
#[verifier::external_body]
pub fn timestamp() -> i64 {
    chrono::Utc::now().timestamp_nanos_opt().unwrap()
}

} // verus!
