//! The crate's single source of randomness.

use vstd::prelude::*;

verus! {

/// Relies on `rand::random_range`: a draw from the thread-local generator
/// lands inside the given half-open range, and the call panics only when the
/// range is empty, which the precondition rules out. Nothing more is assumed
/// of the draw: callers must hold for every value below `n`.
#[verifier::external_body]
pub(crate) fn rand_below(n: u32) -> (r: u32)
    requires
        1 <= n,
    ensures
        r < n,
{
    rand::random_range(0..n)
}

} // verus!
