use vstd::prelude::*;
use rand::Rng;
use rand_pcg::Lcg128Xsl64;

verus! {

/// The random generator that a sampling run owns (rand_pcg's `Pcg64`).
#[verifier::external_type_specification]
#[verifier::external_body]
pub struct ExLcg128Xsl64(Lcg128Xsl64);

/// Relies on `rand::Rng::gen_range` (rand 0.8): draws a value uniformly from
/// `0..bound`. It panics on an empty range, which `requires` leaves out.
#[verifier::external_body]
pub(crate) fn draw_below(rng: &mut Lcg128Xsl64, bound: usize) -> (r: usize)
    requires
        bound > 0,
    ensures
        r < bound,
{
    rng.gen_range(0..bound)
}

} // verus!
