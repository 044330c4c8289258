//! The one randomness source of the solver: a uniform draw below a bound.
//! Everything else about ant sampling is verified arithmetic on the drawn
//! value.

use vstd::prelude::*;
use rand::Rng;

verus! {

/// Relies on rand's `Rng::gen_range(0..bound)` (through `thread_rng`),
/// which returns a value of the half-open range and panics only when the
/// range is empty; the bound is required positive, so the range never is.
/// Nothing is assumed about which value comes back.
#[verifier::external_body]
pub fn random_below(bound: u64) -> (r: u64)
    requires
        bound >= 1,
    ensures
        r < bound,
{
    rand::thread_rng().gen_range(0..bound)
}

} // verus!
