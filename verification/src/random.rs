//! Random draws from the thread-local generator of `rand`.
use rand::Rng;
use vstd::prelude::*;

verus! {

/// Calls `rand::Rng::gen_range(low, high)` on `rand::thread_rng()`.
/// rand documents a value in `[low, high)` and a panic where `low >= high`;
/// the value itself is left to chance, and nothing more is claimed of it.
#[verifier::external_body]
pub(crate) fn random_in(low: usize, high: usize) -> (r: usize)
    requires
        low < high,
    ensures
        low <= r < high,
{
    rand::thread_rng().gen_range(low, high)
}

} // verus!
