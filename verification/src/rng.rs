//! The one source of randomness.  Selection strategies and the session
//! shuffle draw through this wrapper; everything proved about them holds
//! for every value the generator may return.

use vstd::prelude::*;

verus! {

/// Relies on rand::random_range: a value drawn uniformly from the given
/// half-open range, which the precondition keeps non-empty.
#[verifier::external_body]
pub(crate) fn rand_below(n: u128) -> (r: u128)
    requires
        n > 0,
    ensures
        r < n,
{
    rand::random_range(0..n)
}

} // verus!
