//! The random draws of the search.

use vstd::prelude::*;

verus! {

/// A uniformly drawn number in `low..high`.
///
/// Relies on `rand::Rng::gen_range` (rand 0.7) on the thread-local
/// generator `rand::thread_rng`: it returns a value in `[low, high)` and
/// panics when `low >= high`.
#[verifier::external_body]
pub(crate) fn random_in(low: usize, high: usize) -> (r: usize)
    requires
        low < high,
    ensures
        low <= r < high,
{
    rand::Rng::gen_range(&mut rand::thread_rng(), low, high)
}

} // verus!
