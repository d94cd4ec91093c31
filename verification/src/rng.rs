//! The trusted boundary to the random number generator.

use vstd::prelude::*;

use rand::rngs::StdRng;
use rand::Rng;

verus! {

#[verifier::external_type_specification]
#[verifier::external_body]
pub struct ExStdRng(StdRng);

/// Relies on rand's Rng::gen_range over an inclusive usize range: the result
/// lies between the bounds. The range is non-empty by the requires, so the
/// call cannot panic.
#[verifier::external_body]
pub(crate) fn rand_usize(rng: &mut StdRng, lo: usize, hi: usize) -> (r: usize)
    requires
        lo <= hi,
    ensures
        lo <= r <= hi,
{
    rng.gen_range(lo..=hi)
}

/// Relies on rand's Rng::gen_range over an inclusive i64 range: the result
/// lies between the bounds. The range is non-empty by the requires, so the
/// call cannot panic.
#[verifier::external_body]
pub(crate) fn rand_i64(rng: &mut StdRng, lo: i64, hi: i64) -> (r: i64)
    requires
        lo <= hi,
    ensures
        lo <= r <= hi,
{
    rng.gen_range(lo..=hi)
}

/// Relies on rand's Rng::gen for bool: one of the two truth values; nothing
/// more is assumed of which one comes back.
#[verifier::external_body]
pub(crate) fn rand_bool(rng: &mut StdRng) -> bool {
    rng.gen()
}

} // verus!
