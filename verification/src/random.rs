//! Random numbers, drawn from the generator of the running thread.

use rand::Rng;
use vstd::prelude::*;

verus! {

/// `Rng::gen_range` of rand on `thread_rng()`, for the range from `low` up to
/// but without `high`: some number of that range comes back, and nothing
/// more is known of it. rand panics on an empty range, which is left out; it
/// also panics if the system gives the generator of the thread no seed.
#[verifier::external_body]
pub(crate) fn random_between(low: usize, high: usize) -> (r: usize)
    requires
        low < high,
    ensures
        low <= r < high,
{
    rand::thread_rng().gen_range(low..high)
}

} // verus!
