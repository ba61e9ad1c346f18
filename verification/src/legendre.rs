//! The Legendre symbol, computed by quadratic reciprocity.
//!
//! The modulus is not checked for primality, so what is computed is the
//! Jacobi generalisation of the symbol: it is 0 exactly when the reduction ends
//! on a common factor of the two arguments. For an odd prime modulus `p` it is
//! the Legendre symbol: 1 where `a` is a square modulo `p` and -1 where it is
//! not, which by Euler's criterion is the residue of `a^((p-1)/2)`.

use crate::bignum::{big_clone, big_div_u8, big_eq, big_rem, big_rem_u8, big_value};
use crate::modular::pow_mod;
use crate::number_theory::{
    common_factor, divides, is_prime, lemma_common_factor_halve, lemma_common_factor_remainder,
    lemma_residue_shrinks,
};
use crate::reciprocity::{lemma_prime_is_euler_probable_prime, lemma_symbol_is_legendre};
use crate::residues::is_square_mod;
use num_bigint::BigUint;
use vstd::arithmetic::div_mod::{lemma_mod_self_0, lemma_small_mod};
use vstd::prelude::*;

verus! {

/// The symbol `(a | n)`, by the three rules that the reduction applies:
///
/// - `(0 | n)` is 1 for `n = 1` and 0 otherwise;
/// - for even `a`, `(a | n) = (2 | n) * (a/2 | n)`, where `(2 | n)` is `-1`
///   exactly when `n` is 3 or 5 modulo 8;
/// - for odd `a`, `(a | n) = ±(n mod a | a)`, with the minus sign exactly when
///   both `a` and `n` are 3 modulo 4.
pub open spec fn jacobi(a: nat, n: nat) -> int
    decreases a + n, (if a >= n { 1nat } else { 0nat }),
{
    if a == 0 {
        if n == 1 {
            1
        } else {
            0
        }
    } else if a % 2 == 0 {
        let rest = jacobi(a / 2, n);
        if n % 8 == 3 || n % 8 == 5 {
            -rest
        } else {
            rest
        }
    } else {
        proof {
            lemma_residue_shrinks(n, a);
        }
        let rest = jacobi(n % a, a);
        if a % 4 == 3 && n % 4 == 3 {
            -rest
        } else {
            rest
        }
    }
}

/// `x` with the sign `sign`, which is 1 or -1.
pub open spec fn with_sign(sign: int, x: int) -> int {
    if sign == 1 {
        x
    } else {
        -x
    }
}

/// The symbol is -1, 0 or 1.
pub proof fn lemma_jacobi_range(a: nat, n: nat)
    ensures
        -1 <= jacobi(a, n) <= 1,
    decreases a + n, (if a >= n { 1nat } else { 0nat }),
{
    if a == 0 {
    } else if a % 2 == 0 {
        lemma_jacobi_range(a / 2, n);
    } else {
        lemma_residue_shrinks(n, a);
        lemma_jacobi_range(n % a, a);
    }
}

/// For an odd modulus the symbol is 0 exactly when the two arguments share a
/// divisor other than 1.
pub proof fn lemma_jacobi_zero(a: nat, n: nat)
    requires
        n % 2 == 1,
    ensures
        jacobi(a, n) == 0 <==> common_factor(a, n),
    decreases a + n, (if a >= n { 1nat } else { 0nat }),
{
    if a == 0 {
        if n == 1 {
            assert forall|d: nat| d >= 2 implies !(#[trigger] divides(d, a) && divides(d, n)) by {
                lemma_small_mod(1, d);
            }
        } else {
            lemma_small_mod(0, n);
            lemma_mod_self_0(n as int);
            assert(divides(n, a) && divides(n, n));
        }
    } else if a % 2 == 0 {
        lemma_jacobi_zero(a / 2, n);
        lemma_common_factor_halve(a, n);
    } else {
        lemma_residue_shrinks(n, a);
        lemma_jacobi_zero(n % a, a);
        lemma_common_factor_remainder(a, n);
    }
}

/// The symbol `(a | n)` for an odd modulus `n > 1` and `a` in `2..n`.
pub fn legendre_symbol_u64(a: u64, n: u64) -> (symbol: i8)
    requires
        n > 1,
        n % 2 == 1,
        2 <= a < n,
    ensures
        symbol == jacobi(a as nat, n as nat),
        -1 <= symbol <= 1,
        symbol == 0 <==> common_factor(a as nat, n as nat),
        is_prime(n as nat) ==> symbol == (if is_square_mod(a as nat, n as nat) {
            1int
        } else {
            -1int
        }),
        is_prime(n as nat) ==> pow_mod(a as nat, ((n - 1) / 2) as nat, n as nat) == (if symbol
            == 1 {
            1
        } else {
            n - 1
        }),
{
    let ghost goal = jacobi(a as nat, n as nat);
    proof {
        lemma_jacobi_zero(a as nat, n as nat);
        if is_prime(n as nat) {
            lemma_small_mod(a as nat, n as nat);
            lemma_prime_is_euler_probable_prime(n as nat, a as nat);
            lemma_symbol_is_legendre(n as nat, a as nat);
        }
    }
    let mut a = a;
    let mut n = n;
    let mut sign: i8 = 1;
    while a != 0
        invariant
            sign == 1 || sign == -1,
            a < n,
            with_sign(sign as int, jacobi(a as nat, n as nat)) == goal,
        decreases n,
    {
        while a % 2 == 0
            invariant
                sign == 1 || sign == -1,
                0 < a < n,
                with_sign(sign as int, jacobi(a as nat, n as nat)) == goal,
            decreases a,
        {
            a /= 2;
            let r = n % 8;
            if r == 3 || r == 5 {
                sign = -sign;
            }
        }
        let odd = a;
        a = n;
        n = odd;
        if a % 4 == 3 && n % 4 == 3 {
            sign = -sign;
        }
        a = a % n;
    }
    proof {
        lemma_jacobi_range(a as nat, n as nat);
    }
    if n == 1 {
        sign
    } else {
        0i8
    }
}

/// The symbol `(a | n)` in arbitrary precision, for an odd modulus `n > 1` and
/// `a` in `2..n`. The constants that the reduction compares against are
/// handed in, so that a caller in a loop builds them once.
pub fn legendre_symbol_biguint(
    a: &BigUint,
    n: &BigUint,
    zero: &BigUint,
    one: &BigUint,
    three: &BigUint,
    five: &BigUint,
) -> (symbol: i8)
    requires
        big_value(*n) > 1,
        big_value(*n) % 2 == 1,
        2 <= big_value(*a) < big_value(*n),
        big_value(*zero) == 0,
        big_value(*one) == 1,
        big_value(*three) == 3,
        big_value(*five) == 5,
    ensures
        symbol == jacobi(big_value(*a), big_value(*n)),
        -1 <= symbol <= 1,
        symbol == 0 <==> common_factor(big_value(*a), big_value(*n)),
        is_prime(big_value(*n)) ==> symbol == (if is_square_mod(big_value(*a), big_value(*n)) {
            1int
        } else {
            -1int
        }),
        is_prime(big_value(*n)) ==> pow_mod(
            big_value(*a),
            ((big_value(*n) - 1) / 2) as nat,
            big_value(*n),
        ) == (if symbol == 1 {
            1
        } else {
            big_value(*n) - 1
        }),
{
    let ghost goal = jacobi(big_value(*a), big_value(*n));
    proof {
        lemma_jacobi_zero(big_value(*a), big_value(*n));
        if is_prime(big_value(*n)) {
            lemma_small_mod(big_value(*a), big_value(*n));
            lemma_prime_is_euler_probable_prime(big_value(*n), big_value(*a));
            lemma_symbol_is_legendre(big_value(*n), big_value(*a));
        }
    }
    let mut a = big_clone(a);
    let mut n = big_clone(n);
    let mut sign: i8 = 1;
    while !big_eq(&a, zero)
        invariant
            big_value(*zero) == 0,
            big_value(*three) == 3,
            big_value(*five) == 5,
            sign == 1 || sign == -1,
            big_value(a) < big_value(n),
            with_sign(sign as int, jacobi(big_value(a), big_value(n))) == goal,
        decreases big_value(n),
    {
        while big_eq(&big_rem_u8(&a, 2), zero)
            invariant
                big_value(*zero) == 0,
                big_value(*three) == 3,
                big_value(*five) == 5,
                sign == 1 || sign == -1,
                0 < big_value(a) < big_value(n),
                with_sign(sign as int, jacobi(big_value(a), big_value(n))) == goal,
            decreases big_value(a),
        {
            a = big_div_u8(&a, 2);
            let r = big_rem_u8(&n, 8);
            if big_eq(&r, three) || big_eq(&r, five) {
                sign = -sign;
            }
        }
        std::mem::swap(&mut a, &mut n);
        let r1 = big_rem_u8(&a, 4);
        let r2 = big_rem_u8(&n, 4);
        if big_eq(&r1, three) && big_eq(&r2, three) {
            sign = -sign;
        }
        a = big_rem(&a, &n);
    }
    proof {
        lemma_jacobi_range(big_value(a), big_value(n));
    }
    if big_eq(&n, one) {
        sign
    } else {
        0i8
    }
}

} // verus!
