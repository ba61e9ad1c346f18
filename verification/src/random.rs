//! The source of randomness that the probabilistic tests draw from.
//!
//! Nothing in this file is proved. What is stated of a draw holds of every
//! outcome: the bounds, and nothing about which value comes.

use crate::bignum::big_value;
use num_bigint::BigUint;
use num_bigint::RandBigInt;
use rand::rngs::ThreadRng;
use rand::Rng;
use vstd::prelude::*;

verus! {

/// `rand::rngs::ThreadRng`, the handle to the generator of the current thread.
#[verifier::external_type_specification]
#[verifier::external_body]
pub struct ExThreadRng(rand::rngs::ThreadRng);

/// `rand::thread_rng`: the generator of the current thread. Nothing is
/// claimed of it.
#[verifier::external_body]
pub(crate) fn thread_rng() -> ThreadRng {
    rand::thread_rng()
}

/// `Rng::gen_range` on `u64`: some value in `low..high`, the upper bound
/// excluded. An empty range panics, so the caller rules it out.
#[verifier::external_body]
pub(crate) fn random_u64_in(rng: &mut ThreadRng, low: u64, high: u64) -> (r: u64)
    requires
        low < high,
    ensures
        low <= r < high,
{
    rng.gen_range(low, high)
}

/// `RandBigInt::gen_biguint_range`: some value in `low..high`, the upper bound
/// excluded. An empty range panics, so the caller rules it out.
#[verifier::external_body]
pub(crate) fn random_biguint_in(rng: &mut ThreadRng, low: &BigUint, high: &BigUint) -> (r:
    BigUint)
    requires
        big_value(*low) < big_value(*high),
    ensures
        big_value(*low) <= big_value(r) < big_value(*high),
{
    rng.gen_biguint_range(low, high)
}

} // verus!
