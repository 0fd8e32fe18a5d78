//! Randomness, drawn from the rand crate behind trusted wrappers.
//!
//! The verified code treats every sample as an arbitrary value within
//! the stated range: nothing downstream depends on more than that.

use vstd::prelude::*;

verus! {

/// The rand crate's thread-local generator, opaque to the verifier.
#[verifier::external_type_specification]
#[verifier::external_body]
pub struct ExThreadRng(rand::rngs::ThreadRng);

/// Relies on rand::thread_rng: hands out the thread-local generator.
/// Nothing is promised of the handle.
#[verifier::external_body]
pub(crate) fn fresh_rng() -> rand::rngs::ThreadRng {
    rand::thread_rng()
}

/// Relies on rand::Rng::gen_range over `0..n`: the sample lies in the
/// half-open range, whatever the generator's state.  The range is
/// nonempty, so the call cannot panic.
#[verifier::external_body]
pub(crate) fn next_below(rng: &mut rand::rngs::ThreadRng, n: u64) -> (r: u64)
    requires
        n > 0,
    ensures
        r < n,
{
    rand::Rng::gen_range(rng, 0..n)
}

} // verus!
