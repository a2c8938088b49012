//! Random draws for the synthetic example report, behind a single
//! trusted call.

use vstd::prelude::*;

verus! {

/// Relies on `rand::random_range`: a value drawn from `0..bound`, which
/// the documentation promises lies in the range; an empty range would
/// panic, so the bound must be positive.  Which value comes back is
/// random, so nothing more is assumed.
#[verifier::external_body]
pub fn sample_below(bound: u64) -> (r: u64)
    requires
        1 <= bound,
    ensures
        r < bound,
{
    rand::random_range(0..bound)
}

} // verus!
