//! The process clock, behind a single trusted call.

use vstd::prelude::*;

verus! {

/// Relies on `time::OffsetDateTime::now_utc` and `unix_timestamp`: the
/// current moment as whole seconds since the Unix epoch.  The value
/// depends on the machine's clock, so nothing is assumed of it.
#[verifier::external_body]
pub fn now_unix_seconds() -> i64 {
    time::OffsetDateTime::now_utc().unix_timestamp()
}

} // verus!
