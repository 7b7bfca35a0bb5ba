//! Random numbers from `fastrand`.
//!
//! The numbers are drawn from a seeded generator whose state Verus cannot see, so
//! the contracts only bound each draw; two draws with the same arguments may differ.
use vstd::prelude::*;
use fastrand::Rng;

verus! {

#[verifier::external_type_specification]
#[verifier::external_body]
pub struct ExRng(Rng);

/// `fastrand::Rng::with_seed`: a generator seeded with `seed`. Nothing about its
/// state is stated.
#[verifier::external_body]
pub(crate) fn rng_with_seed(seed: u64) -> (rng: Rng) {
    Rng::with_seed(seed)
}

/// `fastrand::Rng::u8` on the range `low..high`: a number in that range. The crate
/// panics on an empty range.
#[verifier::external_body]
pub(crate) fn random_u8(rng: &Rng, low: u8, high: u8) -> (x: u8)
    requires
        low < high,
    ensures
        low <= x < high,
{
    rng.u8(low..high)
}

/// `fastrand::Rng::usize` on the range `low..high`: a number in that range. The
/// crate panics on an empty range.
#[verifier::external_body]
pub(crate) fn random_usize(rng: &Rng, low: usize, high: usize) -> (x: usize)
    requires
        low < high,
    ensures
        low <= x < high,
{
    rng.usize(low..high)
}

} // verus!
