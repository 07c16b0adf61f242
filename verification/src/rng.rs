//! The crate's only randomness: a seedable generator from the `rand` crate,
//! threaded explicitly through construction and carving so that runs are
//! reproducible for a fixed seed.

use vstd::prelude::*;

verus! {

#[verifier::external_type_specification]
#[verifier::external_body]
pub struct ExStdRng(rand::rngs::StdRng);

/// Relies on rand's `RngExt::random_range` over `0..n`: it returns a value
/// of the range, and panics only when the range is empty, which `n > 0`
/// rules out. Nothing more is assumed of the draw.
#[verifier::external_body]
pub(crate) fn gen_index(rng: &mut rand::rngs::StdRng, n: usize) -> (r: usize)
    requires
        n > 0,
    ensures
        r < n,
{
    rand::RngExt::random_range(rng, 0..n)
}

} // verus!
