//! Random choices, drawn from `rand`'s thread-local generator.

use rand::Rng;
use vstd::prelude::*;

verus! {

#[verifier::external_type_specification]
#[verifier::external_body]
pub struct ExThreadRng(rand::rngs::ThreadRng);

/// Calls `rand::thread_rng`. Nothing is claimed of the generator it returns.
#[verifier::external_body]
pub(crate) fn thread_rng() -> rand::rngs::ThreadRng {
    rand::thread_rng()
}

/// Calls `rand::Rng::gen_range` with the range `0..n`, which panics when the
/// range is empty; hence `n > 0` is required. Claimed: the result lies in
/// the range. Which value comes out is left open: it is random.
#[verifier::external_body]
pub(crate) fn gen_index(rng: &mut rand::rngs::ThreadRng, n: usize) -> (r: usize)
    requires
        n > 0,
    ensures
        r < n,
{
    rng.gen_range(0..n)
}

} // verus!
