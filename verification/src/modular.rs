//! Modular multiplication and exponentiation on 64-bit integers.

use vstd::arithmetic::div_mod::*;
use vstd::arithmetic::mul::*;
use vstd::arithmetic::power::*;
use vstd::calc;
use vstd::prelude::*;

verus! {

/// `b` to the power `e`, reduced modulo `m`.
pub open spec fn pow_mod(b: nat, e: nat, m: nat) -> nat {
    (pow(b as int, e) % (m as int)) as nat
}

/// A power reduced modulo `m > 0` lies in `0..m`.
pub proof fn lemma_pow_mod_bound(b: nat, e: nat, m: nat)
    requires
        m > 0,
    ensures
        pow_mod(b, e, m) < m,
        pow_mod(b, e, m) == pow(b as int, e) % (m as int),
{
    lemma_mod_bound(pow(b as int, e), m as int);
}

/// Squaring a reduced power doubles the exponent.
pub proof fn lemma_pow_mod_square(b: nat, e: nat, m: nat)
    requires
        m > 0,
    ensures
        pow_mod(pow_mod(b, e, m), 2, m) == pow_mod(b, 2 * e, m),
{
    let p = pow(b as int, e);
    lemma_mod_bound(p, m as int);
    lemma_pow_mod_noop(p, 2, m as int);
    lemma_pow_multiplies(b as int, e, 2);
    assert(e * 2 == 2 * e) by (nonlinear_arith);
}

/// One round of square-and-multiply keeps `acc * b^e` unchanged modulo `m`.
proof fn lemma_square_and_multiply_step(acc: int, b: int, e: nat, m: int)
    requires
        m > 0,
        e > 0,
    ensures
        ((if e % 2 == 1 {
            (acc * b) % m
        } else {
            acc
        }) * pow((b * b) % m, e / 2)) % m == (acc * pow(b, e)) % m,
{
    let h = e / 2;
    let sq = (b * b) % m;
    assert(pow(sq, h) % m == pow(b, 2 * h) % m) by {
        lemma_pow_mod_noop(b * b, h, m);
        lemma_square_is_pow2(b);
        lemma_pow_multiplies(b, 2, h);
    }
    if e % 2 == 1 {
        assert(e == 2 * h + 1);
        assert(pow(b, e) == b * pow(b, 2 * h)) by {
            lemma_pow_adds(b, 1, 2 * h);
            lemma_pow1(b);
        }
        let step = (acc * b) % m;
        calc! {
            (==)
            (step * pow(sq, h)) % m; {
                lemma_mul_mod_noop_general(acc * b, pow(sq, h), m);
            }
            (step * (pow(sq, h) % m)) % m; {}
            (step * (pow(b, 2 * h) % m)) % m; {
                lemma_mul_mod_noop_general(acc * b, pow(b, 2 * h), m);
            }
            ((acc * b) * pow(b, 2 * h)) % m; {
                lemma_mul_is_associative(acc, b, pow(b, 2 * h));
            }
            (acc * pow(b, e)) % m;
        }
    } else {
        assert(e == 2 * h);
        calc! {
            (==)
            (acc * pow(sq, h)) % m; {
                lemma_mul_mod_noop_right(acc, pow(sq, h), m);
            }
            (acc * (pow(sq, h) % m)) % m; {}
            (acc * (pow(b, e) % m)) % m; {
                lemma_mul_mod_noop_right(acc, pow(b, e), m);
            }
            (acc * pow(b, e)) % m;
        }
    }
}

/// `a * b mod m`, without overflow: the product is taken in 64 bits where it
/// fits and in 128 bits where it does not.
pub fn modmul_u64(a: u64, b: u64, m: u64) -> (r: u64)
    requires
        m > 0,
    ensures
        r == (a as nat * b as nat) % (m as nat),
        r < m,
{
    match a.checked_mul(b) {
        Some(product) => product % m,
        None => {
            assert((a as u128) * (b as u128) <= u128::MAX) by (nonlinear_arith)
                requires
                    a <= u64::MAX,
                    b <= u64::MAX,
            ;
            let wide: u128 = (a as u128) * (b as u128) % (m as u128);
            wide as u64
        },
    }
}

/// `base` to the power `exponent` modulo `modulus`, by square-and-multiply
/// over the bits of the exponent, lowest first.
///
/// Every integer is 0 modulo 1; otherwise exponent 0 gives 1.
pub fn modpow(base: u64, exponent: u64, modulus: u64) -> (r: u64)
    requires
        modulus > 0,
    ensures
        r == pow_mod(base as nat, exponent as nat, modulus as nat),
        r < modulus,
{
    if modulus == 1 {
        proof {
            lemma_pow_mod_bound(base as nat, exponent as nat, 1);
        }
        return 0;
    }
    let mut result: u64 = 1;
    let mut b: u64 = base % modulus;
    let mut e: u64 = exponent;
    proof {
        lemma_pow_mod_noop(base as int, exponent as nat, modulus as int);
        lemma_mul_basics(pow(b as int, e as nat));
    }
    while e > 0
        invariant
            modulus > 1,
            result < modulus,
            b < modulus,
            (result * pow(b as int, e as nat)) % (modulus as int) == pow(
                base as int,
                exponent as nat,
            ) % (modulus as int),
        decreases e,
    {
        proof {
            lemma_square_and_multiply_step(result as int, b as int, e as nat, modulus as int);
        }
        if e % 2 == 1 {
            result = modmul_u64(result, b, modulus);
        }
        assert(e >> 1 == e / 2) by (bit_vector);
        e = e >> 1;
        b = modmul_u64(b, b, modulus);
    }
    proof {
        lemma_pow0(b as int);
        lemma_small_mod(result as nat, modulus as nat);
    }
    result
}

} // verus!
