//! Arbitrary-precision integers, as `num_bigint::BigUint` provides them.
//!
//! Nothing in this file is proved. Each function wraps one operation of
//! `num_bigint` and states, over the integer that a `BigUint` holds, what that
//! operation is documented to return. The tests built on these functions are
//! proved from these statements.

use num_bigint::BigInt;
use num_bigint::BigUint;
use vstd::arithmetic::power::pow;
use vstd::arithmetic::power2::pow2;
use vstd::prelude::*;

verus! {

/// `num_bigint::BigUint`, whose digits are private to its crate.
#[verifier::external_type_specification]
#[verifier::external_body]
pub struct ExBigUint(num_bigint::BigUint);

/// The natural number that a `BigUint` holds.
pub uninterp spec fn big_value(n: BigUint) -> nat;

/// `BigUint::from(u8)`: the result holds `v`.
#[verifier::external_body]
pub(crate) fn big_from_u8(v: u8) -> (r: BigUint)
    ensures
        big_value(r) == v,
{
    BigUint::from(v)
}

/// `u128::try_from(&BigUint)`: the held number where it fits in 128 bits,
/// nothing where it does not.
#[verifier::external_body]
pub(crate) fn big_to_u128(n: &BigUint) -> (r: Option<u128>)
    ensures
        match r {
            Some(v) => v == big_value(*n),
            None => big_value(*n) > u128::MAX,
        },
{
    u128::try_from(n).ok()
}

/// `BigUint::bits`: the fewest bits that express the held number, which is
/// therefore below 2 to that many.
#[verifier::external_body]
pub(crate) fn big_bits(n: &BigUint) -> (r: u64)
    ensures
        big_value(*n) < pow2(r as nat),
{
    n.bits()
}

/// `BigUint::clone`: the copy holds the same number.
#[verifier::external_body]
pub(crate) fn big_clone(n: &BigUint) -> (r: BigUint)
    ensures
        big_value(r) == big_value(*n),
{
    n.clone()
}

/// `==` on `BigUint`: true exactly when both hold the same number.
#[verifier::external_body]
pub(crate) fn big_eq(a: &BigUint, b: &BigUint) -> (r: bool)
    ensures
        r == (big_value(*a) == big_value(*b)),
{
    a == b
}

/// `>` on `BigUint`: the order of the held numbers.
#[verifier::external_body]
pub(crate) fn big_gt(a: &BigUint, b: &BigUint) -> (r: bool)
    ensures
        r == (big_value(*a) > big_value(*b)),
{
    a > b
}

/// `&BigUint + u8`: the sum.
#[verifier::external_body]
pub(crate) fn big_add_u8(a: &BigUint, b: u8) -> (r: BigUint)
    ensures
        big_value(r) == big_value(*a) + b,
{
    a + b
}

/// `&BigUint - u8`: the difference. The subtraction panics where the result
/// would be negative, so the caller rules that out.
#[verifier::external_body]
pub(crate) fn big_sub_u8(a: &BigUint, b: u8) -> (r: BigUint)
    requires
        big_value(*a) >= b,
    ensures
        big_value(r) == big_value(*a) - b,
{
    a - b
}

/// `&BigUint / u8`: the quotient, rounded down. Division by zero panics, so
/// the caller rules it out.
#[verifier::external_body]
pub(crate) fn big_div_u8(a: &BigUint, b: u8) -> (r: BigUint)
    requires
        b != 0,
    ensures
        big_value(r) == big_value(*a) / (b as nat),
{
    a / b
}

/// `&BigUint % u8`: the remainder. A zero divisor panics, so the caller rules
/// it out.
#[verifier::external_body]
pub(crate) fn big_rem_u8(a: &BigUint, b: u8) -> (r: BigUint)
    requires
        b != 0,
    ensures
        big_value(r) == big_value(*a) % (b as nat),
{
    a % b
}

/// `&BigUint % &BigUint`: the remainder. A zero divisor panics, so the caller
/// rules it out.
#[verifier::external_body]
pub(crate) fn big_rem(a: &BigUint, b: &BigUint) -> (r: BigUint)
    requires
        big_value(*b) != 0,
    ensures
        big_value(r) == big_value(*a) % big_value(*b),
{
    a % b
}

/// `BigUint::pow`: the held number raised to `exponent`.
#[verifier::external_body]
pub(crate) fn big_pow(a: &BigUint, exponent: u32) -> (r: BigUint)
    ensures
        big_value(r) == pow(big_value(*a) as int, exponent as nat),
{
    a.pow(exponent)
}

/// `BigUint::modpow`: the held number raised to `exponent`, reduced modulo
/// `modulus`. A zero modulus panics; the claim is made for moduli above 1.
#[verifier::external_body]
pub(crate) fn big_modpow(a: &BigUint, exponent: &BigUint, modulus: &BigUint) -> (r: BigUint)
    requires
        big_value(*modulus) > 1,
    ensures
        big_value(r) == pow(big_value(*a) as int, big_value(*exponent)) % (big_value(
            *modulus,
        ) as int),
{
    a.modpow(exponent, modulus)
}

/// `num_bigint::BigInt`, the signed counterpart of `BigUint`.
#[verifier::external_type_specification]
#[verifier::external_body]
pub struct ExBigInt(num_bigint::BigInt);

/// The integer that a `BigInt` holds.
pub uninterp spec fn bigint_value(n: BigInt) -> int;

/// `BigInt::from(u64)`: the result holds `v`.
#[verifier::external_body]
pub(crate) fn bigint_from_u64(v: u64) -> (r: BigInt)
    ensures
        bigint_value(r) == v,
{
    BigInt::from(v)
}

/// `BigInt::clone`: the copy holds the same integer.
#[verifier::external_body]
pub(crate) fn bigint_clone(n: &BigInt) -> (r: BigInt)
    ensures
        bigint_value(r) == bigint_value(*n),
{
    n.clone()
}

/// `==` on `BigInt`: true exactly when both hold the same integer.
#[verifier::external_body]
pub(crate) fn bigint_eq(a: &BigInt, b: &BigInt) -> (r: bool)
    ensures
        r == (bigint_value(*a) == bigint_value(*b)),
{
    a == b
}

/// `&BigInt - &BigInt`: the difference.
#[verifier::external_body]
pub(crate) fn bigint_sub(a: &BigInt, b: &BigInt) -> (r: BigInt)
    ensures
        bigint_value(r) == bigint_value(*a) - bigint_value(*b),
{
    a - b
}

/// `-&BigInt`: the negation.
#[verifier::external_body]
pub(crate) fn bigint_neg(a: &BigInt) -> (r: BigInt)
    ensures
        bigint_value(r) == -bigint_value(*a),
{
    -a
}

/// `&BigInt % &BigInt` for a positive divisor: the remainder of the division
/// that rounds towards zero, which has the sign of the dividend. A zero
/// divisor panics; the claim is made for positive divisors.
#[verifier::external_body]
pub(crate) fn bigint_rem(a: &BigInt, b: &BigInt) -> (r: BigInt)
    requires
        bigint_value(*b) > 0,
    ensures
        bigint_value(r) == (if bigint_value(*a) >= 0 {
            bigint_value(*a) % bigint_value(*b)
        } else {
            -((-bigint_value(*a)) % bigint_value(*b))
        }),
{
    a % b
}

} // verus!
