//! The random number generator of the solvers (`rand_pcg::Pcg64Mcg`) and the
//! draws that the library makes from it.
use vstd::prelude::*;
use rand::Rng;

verus! {

/// The generator `rand_pcg::Mcg128Xsl64` (alias `Pcg64Mcg`), carried through
/// opaquely.
#[verifier::external_type_specification]
#[verifier::external_body]
pub struct ExMcg128Xsl64(rand_pcg::Mcg128Xsl64);

/// `rng.gen_range(lo..=hi)` of `rand::Rng`: a draw from `lo..=hi`. Only that
/// it lies in the range is stated; which value comes depends on the state of
/// the generator.
#[verifier::external_body]
pub(crate) fn gen_range_inclusive(rng: &mut rand_pcg::Mcg128Xsl64, lo: usize, hi: usize) -> (r: usize)
    requires
        lo <= hi,
    ensures
        lo <= r <= hi,
{
    rng.gen_range(lo..=hi)
}

} // verus!
