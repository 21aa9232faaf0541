//! Trusted access to the `rand` crate: the seedable generator each solver
//! carries, and the drawing of a random index sample.  These are the only
//! places where the library leans on unverified code.

use vstd::prelude::*;
use rand::SeedableRng;
use rand::rngs::StdRng;

verus! {

#[verifier::external_type_specification]
#[verifier::external_body]
pub struct ExStdRng(StdRng);

/// Relies on rand's `StdRng::seed_from_u64`: builds a generator from a
/// `u64` seed.  Nothing is promised of the stream it will produce.
#[verifier::external_body]
pub(crate) fn rng_from_seed(seed: u64) -> (r: StdRng) {
    StdRng::seed_from_u64(seed)
}

/// Relies on rand's `seq::index::sample`: draws exactly `amount` distinct
/// indices from `0..length`, in random order.  The call panics only when
/// `amount > length`, which the precondition rules out; which indices come
/// back is random, so only their count, range and distinctness are stated.
#[verifier::external_body]
pub(crate) fn sample_indices(rng: &mut StdRng, length: usize, amount: usize) -> (r: Vec<usize>)
    requires
        amount <= length,
    ensures
        r@.len() == amount,
        forall|i: int| 0 <= i < r@.len() ==> #[trigger] r@[i] < length,
        forall|i: int, j: int| 0 <= i < j < r@.len() ==> r@[i] != r@[j],
{
    rand::seq::index::sample(rng, length, amount).into_vec()
}

} // verus!
