//! The library's only source of randomness: a `rand` generator, consulted
//! through one trusted wrapper.  Nothing is assumed about which number comes
//! back beyond its range, so every caller is verified for every outcome.

use vstd::prelude::*;

use rand::Rng;
use rand::rngs::StdRng;

verus! {

/// The concrete pseudo-random generator threaded through randomized
/// enumeration.  Declared so that it may appear in verified signatures;
/// its state is opaque to verification.
#[verifier::external_type_specification]
#[verifier::external_body]
pub struct ExStdRng(StdRng);

/// Relies on `rand::Rng::gen_range` over `0..n`: it returns a value of the
/// (non-empty) range.  Nothing else is assumed of the draw.
#[verifier::external_body]
pub(crate) fn rand_index_below(rng: &mut StdRng, n: usize) -> (r: usize)
    requires
        n >= 1,
    ensures
        r < n,
{
    rng.gen_range(0..n)
}

} // verus!
