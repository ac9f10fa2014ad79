//! The random source of the growth: `rand`'s seeded generator, seen through
//! the two calls that the growth rules make.

use vstd::prelude::*;

use rand::rngs::StdRng;
use rand::Rng;

verus! {

/// `rand`'s standard seeded generator, carried through the growth opaquely.
#[verifier::external_type_specification]
#[verifier::external_body]
pub struct ExStdRng(StdRng);

/// Calls `rand::Rng::gen_range` on the half-open range `lo..hi`.
/// The drawn value is left to chance; the contract claims only what `rand`
/// documents, that it lies in the range. `rand` panics on an empty range,
/// which `requires` leaves out.
#[verifier::external_body]
pub(crate) fn gen_range(rng: &mut StdRng, lo: i32, hi: i32) -> (r: i32)
    requires
        lo < hi,
    ensures
        lo <= r < hi,
{
    rng.gen_range(lo..hi)
}

/// Calls `rand::Rng::gen` for an `i32`. Any `i32` can come back, so the
/// contract claims nothing of the result.
#[verifier::external_body]
pub(crate) fn gen_i32(rng: &mut StdRng) -> i32 {
    rng.gen::<i32>()
}

} // verus!
