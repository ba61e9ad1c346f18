//! How many bases let a composite pass the Solovay–Strassen check: at most
//! half of them.
//!
//! The bases that pass are closed under multiplication, and some base without
//! a common factor with `n` fails. Multiplying by that base takes every base
//! that passes to one that fails, and different ones to different ones.

use crate::fermat::{distinct_within, lemma_distinct_length, lemma_euclid};
use crate::gauss::{
    inverse_of, lemma_coprime_cancel, lemma_flips_of_minus_one, lemma_gauss,
    lemma_inverse_exists, lemma_prime_shares_nothing, lemma_sign_multiplicative,
    lemma_sign_of_residue, lemma_signed_congruences_multiply,
};
use crate::legendre::{jacobi, lemma_jacobi_range, lemma_jacobi_zero};
use crate::modular::lemma_pow_mod_bound;
use crate::number_theory::{
    common_factor, divides, is_prime, least_divisor, lemma_common_factor_remainder,
    lemma_divides_product, lemma_divides_sum, lemma_divides_transitive,
    lemma_least_divisor_is_prime, lemma_multiple_divides, lemma_residue_shrinks,
};
use crate::reciprocity::{
    lemma_common_factor_symmetric, lemma_jacobi_is_gauss_sign, lemma_product_parity,
    lemma_reciprocity,
};
use crate::residues::lemma_power_not_always_one;
use crate::solovay_strassen::euler_probable_prime;
use crate::strong_liars::lemma_powers_of_minus_one;
use vstd::arithmetic::div_mod::{
    lemma_add_mod_noop, lemma_fundamental_div_mod, lemma_fundamental_div_mod_converse,
    lemma_mod_equivalence, lemma_mod_multiples_basic, lemma_mod_self_0, lemma_mod_twice,
    lemma_mul_mod_noop_general, lemma_mul_mod_noop_left, lemma_mul_mod_noop_right,
    lemma_small_mod,
};
use vstd::arithmetic::power::{
    lemma1_pow, lemma_pow0, lemma_pow1, lemma_pow_adds, lemma_pow_distributes,
    lemma_pow_mod_noop, pow,
};
use vstd::prelude::*;

verus! {

/// A product of two numbers without a common factor with `n` has no common
/// factor with `n`.
pub proof fn lemma_coprime_product(a: nat, b: nat, n: nat)
    requires
        !common_factor(a, n),
        !common_factor(b, n),
    ensures
        !common_factor(a * b, n),
{
    if common_factor(a * b, n) {
        let d = choose|d: nat| d >= 2 && #[trigger] divides(d, a * b) && divides(d, n);
        let q = least_divisor(d, 2);
        lemma_least_divisor_is_prime(d);
        lemma_divides_transitive(q, d, a * b);
        lemma_divides_transitive(q, d, n);
        lemma_euclid(q, a, b);
        assert(divides(q, a) && divides(q, n) || divides(q, b) && divides(q, n));
    }
}

/// Reducing modulo `n` neither adds nor removes a common factor with `n`.
pub proof fn lemma_coprime_residue(a: nat, n: nat)
    requires
        n >= 1,
    ensures
        common_factor(a % n, n) == common_factor(a, n),
{
    lemma_common_factor_remainder(n, a);
    lemma_common_factor_symmetric(n, a);
}

/// The symbol depends on `a` through its residue modulo `n` only.
pub proof fn lemma_jacobi_of_residue(a: nat, n: nat)
    requires
        n % 2 == 1,
        !common_factor(a, n),
    ensures
        jacobi(a % n, n) == jacobi(a, n),
{
    lemma_coprime_residue(a, n);
    lemma_jacobi_is_gauss_sign(a, n);
    lemma_jacobi_is_gauss_sign(a % n, n);
    lemma_sign_of_residue(a, n, n / 2);
}

/// The symbol is multiplicative in its first argument.
pub proof fn lemma_jacobi_multiplicative(a: nat, b: nat, n: nat)
    requires
        n % 2 == 1,
        !common_factor(a, n),
        !common_factor(b, n),
    ensures
        jacobi(a * b, n) == jacobi(a, n) * jacobi(b, n),
        jacobi(a, n) == 1 || jacobi(a, n) == -1,
        jacobi(b, n) == 1 || jacobi(b, n) == -1,
{
    lemma_coprime_product(a, b, n);
    lemma_jacobi_is_gauss_sign(a, n);
    lemma_jacobi_is_gauss_sign(b, n);
    lemma_jacobi_is_gauss_sign(a * b, n);
    lemma_sign_multiplicative(a, b, n);
    let x = jacobi(a, n);
    let y = jacobi(b, n);
    assert(x * y == (if (x == -1) != (y == -1) {
        -1int
    } else {
        1int
    })) by (nonlinear_arith)
        requires
            x == 1 || x == -1,
            y == 1 || y == -1,
    ;
}

/// What passing the check says of the power `a^((n-1)/2)`: it is congruent to
/// the symbol, which is 1 or -1.
pub proof fn lemma_passing_power(n: nat, a: nat)
    requires
        n > 2,
        euler_probable_prime(n, a),
    ensures
        jacobi(a, n) == 1 || jacobi(a, n) == -1,
        if jacobi(a, n) == -1 {
            (pow(a as int, ((n - 1) / 2) as nat) + 1) % (n as int) == 0
        } else {
            pow(a as int, ((n - 1) / 2) as nat) % (n as int) == 1int % (n as int)
        },
{
    let e = ((n - 1) / 2) as nat;
    lemma_jacobi_range(a, n);
    lemma_pow_mod_bound(a, e, n);
    lemma_small_mod(1, n);
    if jacobi(a, n) == -1 {
        lemma_mod_equivalence(pow(a as int, e), -1, n as int);
        lemma_mod_equivalence((n - 1) as int, -1, n as int);
        lemma_mod_self_0(n as int);
        lemma_small_mod((n - 1) as nat, n);
    }
}

/// The converse: a power congruent to a symbol that is 1 or -1 means that the
/// check is passed.
pub proof fn lemma_power_passing(n: nat, a: nat)
    requires
        n > 2,
        jacobi(a, n) == 1 || jacobi(a, n) == -1,
        if jacobi(a, n) == -1 {
            (pow(a as int, ((n - 1) / 2) as nat) + 1) % (n as int) == 0
        } else {
            pow(a as int, ((n - 1) / 2) as nat) % (n as int) == 1int % (n as int)
        },
    ensures
        euler_probable_prime(n, a),
{
    let e = ((n - 1) / 2) as nat;
    lemma_pow_mod_bound(a, e, n);
    lemma_small_mod(1, n);
    if jacobi(a, n) == -1 {
        lemma_mod_equivalence(pow(a as int, e), -1, n as int);
        lemma_mod_equivalence((n - 1) as int, -1, n as int);
        lemma_mod_self_0(n as int);
        lemma_small_mod((n - 1) as nat, n);
    }
}

/// If `a` passes the check and so does the residue of `a b`, then `b` passes
/// too: the bases that pass are closed under division.
pub proof fn lemma_passing_quotient(n: nat, a: nat, b: nat)
    requires
        n > 2,
        n % 2 == 1,
        !common_factor(b, n),
        euler_probable_prime(n, a),
        euler_probable_prime(n, (a * b) % n),
    ensures
        euler_probable_prime(n, b),
{
    let e = ((n - 1) / 2) as nat;
    let m = n as int;
    let c = (a * b) % n;
    let pa = pow(a as int, e);
    let pb = pow(b as int, e);
    let pc = pow(c as int, e);
    lemma_jacobi_zero(a, n);
    lemma_jacobi_multiplicative(a, b, n);
    lemma_coprime_product(a, b, n);
    lemma_jacobi_of_residue(a * b, n);
    lemma_passing_power(n, a);
    lemma_passing_power(n, c);
    assert(pc % m == (pa * pb) % m) by {
        lemma_pow_mod_noop((a * b) as int, e, m);
        lemma_pow_distributes(a as int, b as int, e);
    }
    let fa = jacobi(a, n) == -1;
    let fc = jacobi(c, n) == -1;
    lemma_signed_congruences_multiply(pa, 1, pa, 1, m, fa, fa);
    if fc {
        lemma_mod_equivalence(pc, -1, m);
        lemma_mod_equivalence(pa * pb, -1, m);
    }
    lemma_signed_congruences_multiply(pa, 1, pa * pb, 1, m, fa, fc);
    assert((pa * pa) * pb == pa * (pa * pb)) by (nonlinear_arith);
    lemma_mul_mod_noop_left(pa * pa, pb, m);
    lemma_mul_mod_noop_left(1, pb, m);
    assert(1 * pb == pb);
    assert(1int * 1int == 1);
    if fa != fc {
        lemma_mod_equivalence(pa * (pa * pb), -1, m);
        lemma_mod_equivalence(pb, -1, m);
    }
    lemma_power_passing(n, b);
}

/// The symbol is multiplicative in its second argument: for odd `b`, `m1`
/// and `m2`, the symbol of `b` over `m1 m2` is the product of the symbols over
/// `m1` and over `m2`.
pub proof fn lemma_jacobi_of_product_modulus(b: nat, m1: nat, m2: nat)
    requires
        b % 2 == 1,
        m1 % 2 == 1,
        m2 % 2 == 1,
        !common_factor(b, m1),
        !common_factor(b, m2),
    ensures
        jacobi(b, m1 * m2) == jacobi(b, m1) * jacobi(b, m2),
{
    let m = m1 * m2;
    lemma_product_parity(m1, m2);
    lemma_common_factor_symmetric(b, m1);
    lemma_common_factor_symmetric(b, m2);
    lemma_coprime_product(m1, m2, b);
    lemma_common_factor_symmetric(b, m);
    lemma_jacobi_is_gauss_sign(b, m);
    lemma_jacobi_is_gauss_sign(b, m1);
    lemma_jacobi_is_gauss_sign(b, m2);
    lemma_reciprocity(b, m);
    lemma_reciprocity(b, m1);
    lemma_reciprocity(b, m2);
    lemma_sign_multiplicative(m1, m2, b);
    lemma_mul_mod_noop_general(m1 as int, m2 as int, 4);
    let r1 = m1 % 4;
    let r2 = m2 % 4;
    assert(r1 == 1 || r1 == 3);
    assert(r2 == 1 || r2 == 3);
    assert((r1 * r2) % 4 == (if (r1 == 3) != (r2 == 3) {
        3nat
    } else {
        1nat
    })) by {
        if r1 == 1 {
            assert(r1 * r2 == r2) by (nonlinear_arith)
                requires
                    r1 == 1,
            ;
        } else if r2 == 1 {
            assert(r1 * r2 == r1) by (nonlinear_arith)
                requires
                    r2 == 1,
            ;
        } else {
            assert(r1 * r2 == 9) by (nonlinear_arith)
                requires
                    r1 == 3,
                    r2 == 3,
            ;
        }
    }
    let x = jacobi(b, m1);
    let y = jacobi(b, m2);
    assert(x * y == (if (x == -1) != (y == -1) {
        -1int
    } else {
        1int
    })) by (nonlinear_arith)
        requires
            x == 1 || x == -1,
            y == 1 || y == -1,
    ;
}

/// Where `c^2` is a multiple of `n`, the powers of `1 + c` are `1 + k c`
/// modulo `n`.
proof fn lemma_powers_of_one_plus(c: nat, n: nat, k: nat)
    requires
        n >= 1,
        (c * c) % n == 0,
    ensures
        pow((1 + c) as int, k) % (n as int) == ((1 + k * c) as int) % (n as int),
    decreases k,
{
    let b = (1 + c) as int;
    let m = n as int;
    if k == 0 {
        lemma_pow0(b);
        assert(0 * c == 0);
    } else {
        let j = (k - 1) as nat;
        lemma_powers_of_one_plus(c, n, j);
        lemma_pow_adds(b, j, 1);
        lemma_pow1(b);
        lemma_mul_mod_noop_left(pow(b, j), b, m);
        lemma_mul_mod_noop_left((1 + j * c) as int, b, m);
        assert((1 + j * c) * (1 + c) == (1 + k * c) + j * (c * c)) by (nonlinear_arith)
            requires
                k == j + 1,
        ;
        lemma_mul_mod_noop_right(j as int, (c * c) as int, m);
        assert(j * 0 == 0);
        lemma_small_mod(0, n);
        lemma_add_mod_noop((1 + k * c) as int, (j * (c * c)) as int, m);
        lemma_mod_twice((1 + k * c) as int, m);
    }
}

/// A number that divides `x` and `x + 1` is 1.
pub proof fn lemma_no_factor_of_successor(d: nat, x: nat)
    requires
        d >= 2,
        divides(d, x),
    ensures
        !divides(d, x + 1),
{
    lemma_divides_sum(d, x, 1);
    lemma_small_mod(1, d);
}

/// A composite odd number with a repeated prime factor `q` has a base
/// that fails the check without sharing a factor with it: `1 + n / q`.
proof fn lemma_repeated_factor_witness(n: nat, q: nat) -> (b: nat)
    requires
        n % 2 == 1,
        is_prime(q),
        divides(q, n),
        divides(q, n / q),
        n / q >= 1,
    ensures
        1 <= b < n,
        !common_factor(b, n),
        !euler_probable_prime(n, b),
{
    let c = n / q;
    let b = 1 + c;
    let e = ((n - 1) / 2) as nat;
    let m = n as int;
    lemma_divides_product(q, n);
    lemma_divides_product(q, c);
    let rest = c / q;
    assert(c * c == rest * n) by (nonlinear_arith)
        requires
            n == q * c,
            c == q * rest,
    ;
    lemma_mod_multiples_basic(rest as int, m);
    assert(2 * c <= n) by (nonlinear_arith)
        requires
            n == q * c,
            q >= 2,
    ;
    assert(n >= 4) by (nonlinear_arith)
        requires
            n == q * c,
            c == q * rest,
            q >= 2,
            c >= 1,
    ;
    if common_factor(b, n) {
        let d = choose|d: nat| d >= 2 && #[trigger] divides(d, b) && divides(d, n);
        let r = least_divisor(d, 2);
        lemma_least_divisor_is_prime(d);
        lemma_divides_transitive(r, d, b);
        lemma_divides_transitive(r, d, n);
        lemma_euclid(r, q, c);
        if q % r == 0 {
            if r < q {
                assert(divides(r, q));
            } else if r > q {
                lemma_small_mod(q, r);
            }
            assert(r == q);
        }
        assert(divides(r, c));
        lemma_no_factor_of_successor(r, c);
    }
    if euler_probable_prime(n, b) {
        let pb = pow(b as int, e);
        lemma_passing_power(n, b);
        let f = jacobi(b, n) == -1;
        lemma_signed_congruences_multiply(pb, 1, pb, 1, m, f, f);
        lemma_pow_adds(b as int, e, e);
        assert(e + e == n - 1);
        lemma_powers_of_one_plus(c, n, (n - 1) as nat);
        assert(1int * 1int == 1);
        lemma_mod_equivalence((1 + (n - 1) * c) as int, 1, m);
        assert((n - 1) * c == c * n - c) by (nonlinear_arith);
        lemma_mod_multiples_basic(c as int, m);
        lemma_mod_equivalence((c * n) as int, c as int, m);
        lemma_small_mod(c, n);
    }
    b
}

/// The symbol of 1 is 1.
pub proof fn lemma_jacobi_of_one(n: nat)
    requires
        n >= 1,
    ensures
        jacobi(1, n) == 1,
{
    assert(n % 1 == 0);
    assert(jacobi(0, 1) == 1);
}

/// A composite odd number `q c`, with `q` a prime that does not divide `c`,
/// has a base that fails the check without sharing a factor with it: one that
/// is 1 modulo `c` and not a square modulo `q`.
proof fn lemma_distinct_factor_witness(n: nat, q: nat) -> (b: nat)
    requires
        n % 2 == 1,
        is_prime(q),
        divides(q, n),
        q < n,
        !divides(q, n / q),
    ensures
        1 <= b < n,
        !common_factor(b, n),
        !euler_probable_prime(n, b),
{
    let c = n / q;
    let e = ((n - 1) / 2) as nat;
    let h = q / 2;
    lemma_divides_product(q, n);
    assert(c >= 2) by (nonlinear_arith)
        requires
            n == q * c,
            q < n,
            q >= 1,
    ;
    lemma_product_parity(q, c);
    assert(c >= 3 && q >= 3);
    // A number whose power modulo q is -1.
    lemma_power_not_always_one(q);
    let g = choose|g: nat| 1 <= g < q && #[trigger] pow(g as int, h) % (q as int) != 1;
    lemma_small_mod(g, q);
    lemma_gauss(q, g);
    lemma_prime_shares_nothing(q, g);
    lemma_jacobi_is_gauss_sign(g, q);
    assert(jacobi(g, q) == -1);
    // An inverse of c modulo q.
    lemma_prime_shares_nothing(q, c);
    lemma_inverse_exists(c, q);
    let u = choose|u: nat| #[trigger] inverse_of(c, u, q);
    lemma_small_mod(1, q);
    // The base: 1 modulo c and g modulo q, made odd.
    let shift = (g + q - 1) as nat;
    let k = shift * u;
    let first = 1 + c * k;
    let big = if first % 2 == 0 {
        first + n
    } else {
        first
    };
    let cofactor = if first % 2 == 0 {
        k + q
    } else {
        k
    };
    assert(big == cofactor * c + 1) by (nonlinear_arith)
        requires
            big == (if first % 2 == 0 {
                first + n
            } else {
                first
            }),
            cofactor == (if first % 2 == 0 {
                k + q
            } else {
                k
            }),
            first == 1 + c * k,
            n == q * c,
    ;
    lemma_small_mod(1, c);
    lemma_fundamental_div_mod_converse(big as int, c as int, cofactor as int, 1);
    assert(big % c == 1);
    assert(big % q == g) by {
        let qi = q as int;
        assert(c * k == (c * u) * shift) by (nonlinear_arith)
            requires
                k == shift * u,
        ;
        lemma_mul_mod_noop_left((c * u) as int, shift as int, qi);
        assert(1 * shift == shift);
        lemma_fundamental_div_mod_converse(shift as int, qi, 1, g - 1);
        assert((c * k) % q == g - 1);
        lemma_add_mod_noop(1, (c * k) as int, qi);
        assert(first % q == g);
        lemma_mod_multiples_basic(c as int, qi);
        assert(n == c * q) by (nonlinear_arith)
            requires
                n == q * c,
        ;
        lemma_add_mod_noop(first as int, n as int, qi);
        lemma_mod_twice(first as int, qi);
    }
    assert(big % 2 == 1);
    // It shares no factor with q, with c or with n.
    lemma_prime_shares_nothing(q, big);
    assert(!common_factor(big, c)) by {
        if common_factor(big, c) {
            let d = choose|d: nat| d >= 2 && #[trigger] divides(d, big) && divides(d, c);
            lemma_multiple_divides(c, cofactor);
            lemma_divides_transitive(d, c, cofactor * c);
            lemma_no_factor_of_successor(d, cofactor * c);
        }
    }
    lemma_common_factor_symmetric(big, q);
    lemma_common_factor_symmetric(big, c);
    lemma_coprime_product(q, c, big);
    lemma_common_factor_symmetric(big, n);
    // Its symbol over n is -1.
    lemma_jacobi_of_product_modulus(big, q, c);
    lemma_jacobi_of_residue(big, q);
    lemma_jacobi_of_residue(big, c);
    lemma_jacobi_of_one(c);
    assert(jacobi(big, q) * jacobi(big, c) == -1) by (nonlinear_arith)
        requires
            jacobi(big, q) == -1,
            jacobi(big, c) == 1,
    ;
    assert(jacobi(big, n) == -1);
    // Its residue modulo n is the base.
    let b = big % n;
    lemma_residue_shrinks(big, n);
    lemma_coprime_residue(big, n);
    lemma_jacobi_of_residue(big, n);
    if b == 0 {
        lemma_small_mod(0, n);
        lemma_mod_self_0(n as int);
        assert(divides(n, b) && divides(n, n));
    }
    if euler_probable_prime(n, b) {
        let pb = pow(b as int, e);
        let pbig = pow(big as int, e);
        lemma_passing_power(n, b);
        lemma_pow_mod_noop(big as int, e, n as int);
        lemma_pow_mod_noop(big as int, e, c as int);
        lemma1_pow(e);
        lemma_mod_equivalence(pb, -1, n as int);
        lemma_mod_equivalence(pbig, -1, n as int);
        // n divides pbig + 1, and so does c.
        let t = (pbig + 1) / (n as int);
        lemma_fundamental_div_mod(pbig + 1, n as int);
        assert(pbig + 1 == (t * q) * c) by (nonlinear_arith)
            requires
                pbig + 1 == n * t,
                n == q * c,
        ;
        lemma_mod_multiples_basic(t * q, c as int);
        lemma_add_mod_noop(pbig, 1, c as int);
        lemma_small_mod(2, c);
    }
    b
}

/// Every composite odd number above 3 has a base in `1..n` that fails the
/// check without sharing a factor with it.
pub proof fn lemma_some_unit_fails(n: nat) -> (b: nat)
    requires
        n > 3,
        n % 2 == 1,
        !is_prime(n),
    ensures
        1 <= b < n,
        !common_factor(b, n),
        !euler_probable_prime(n, b),
{
    let q = least_divisor(n, 2);
    lemma_least_divisor_is_prime(n);
    lemma_divides_product(q, n);
    assert(n / q >= 1) by (nonlinear_arith)
        requires
            n == q * (n / q),
            n > 0,
    ;
    if divides(q, n / q) {
        lemma_repeated_factor_witness(n, q)
    } else {
        lemma_distinct_factor_witness(n, q)
    }
}

/// The residues of the products of the entries of `s` with `w`.
pub open spec fn scaled(s: Seq<nat>, w: nat, n: nat) -> Seq<nat> {
    Seq::new(s.len(), |i: int| (s[i] * w) % n)
}

/// The base `n - 1`, which is `-1` modulo `n`, lets every odd `n` from 3 on
/// pass the check: its symbol and its power are both `(-1)^((n-1)/2)`. So no
/// number, prime or not, is refuted by every base in `2..n`.
pub proof fn lemma_minus_one_passes(n: nat)
    requires
        n >= 3,
        n % 2 == 1,
    ensures
        euler_probable_prime(n, (n - 1) as nat),
{
    let a = (n - 1) as nat;
    let e = ((n - 1) / 2) as nat;
    if common_factor(a, n) {
        let d = choose|d: nat| d >= 2 && #[trigger] divides(d, a) && divides(d, n);
        lemma_no_factor_of_successor(d, a);
    }
    lemma_jacobi_is_gauss_sign(a, n);
    lemma_flips_of_minus_one(n, n / 2);
    lemma_mod_self_0(n as int);
    lemma_powers_of_minus_one(a as int, e, n as int);
    lemma_power_passing(n, a);
}

/// At most half of the numbers in `1..n` let an odd composite `n` pass the
/// check: any list of different bases in `1..n` that all pass is at most
/// `(n-1)/2` long.
pub proof fn lemma_passing_bases_at_most_half(n: nat, bases: Seq<nat>)
    requires
        n > 3,
        n % 2 == 1,
        !is_prime(n),
        distinct_within(bases, (n - 1) as nat),
        forall|i: int| 0 <= i < bases.len() ==> euler_probable_prime(n, #[trigger] bases[i]),
    ensures
        2 * bases.len() <= n - 1,
{
    let w = lemma_some_unit_fails(n);
    let images = scaled(bases, w, n);
    let all = bases + images;
    assert forall|i: int| 0 <= i < images.len() implies 1 <= #[trigger] images[i] <= n - 1
        && !euler_probable_prime(n, images[i]) by {
        let a = bases[i];
        lemma_residue_shrinks(a * w, n);
        lemma_jacobi_zero(a, n);
        if (a * w) % n == 0 {
            lemma_coprime_product(a, w, n);
            lemma_coprime_residue(a * w, n);
            lemma_small_mod(0, n);
            lemma_mod_self_0(n as int);
            assert(divides(n, 0) && divides(n, n));
        }
        if euler_probable_prime(n, images[i]) {
            lemma_passing_quotient(n, a, w);
        }
    }
    assert forall|i: int, j: int| 0 <= i < j < images.len() implies #[trigger] images[i]
        != #[trigger] images[j] by {
        let a = bases[i];
        let c = bases[j];
        if images[i] == images[j] {
            let (low, high) = if a < c {
                (a, c)
            } else {
                (c, a)
            };
            let gap = (high - low) as nat;
            lemma_mod_equivalence((high * w) as int, (low * w) as int, n as int);
            assert(high * w - low * w == w * gap) by (nonlinear_arith)
                requires
                    gap == high - low,
            ;
            lemma_coprime_cancel(w, gap, n);
            lemma_small_mod(gap, n);
        }
    }
    assert forall|i: int| 0 <= i < all.len() implies 1 <= #[trigger] all[i] <= n - 1 by {
        if i < bases.len() {
            assert(all[i] == bases[i]);
        } else {
            assert(all[i] == images[i - bases.len()]);
        }
    }
    assert forall|i: int, j: int| 0 <= i < j < all.len() implies #[trigger] all[i]
        != #[trigger] all[j] by {
        let k = bases.len() as int;
        if j < k {
            assert(all[i] == bases[i] && all[j] == bases[j]);
        } else if i >= k {
            assert(all[i] == images[i - k] && all[j] == images[j - k]);
        } else {
            assert(all[i] == bases[i] && all[j] == images[j - k]);
        }
    }
    lemma_distinct_length(all, (n - 1) as nat);
}

/// At least half of the draws refute a composite: of the `n - 2` bases in
/// `2..n` that a round of the test can draw, at most `(n-3)/2` let an odd
/// composite `n` pass.
pub proof fn lemma_drawn_bases_at_most_half(n: nat, bases: Seq<nat>)
    requires
        n > 3,
        n % 2 == 1,
        !is_prime(n),
        distinct_within(bases, (n - 1) as nat),
        forall|i: int| 0 <= i < bases.len() ==> #[trigger] bases[i] >= 2 && euler_probable_prime(
            n,
            bases[i],
        ),
    ensures
        2 * bases.len() <= n - 3,
{
    let e = ((n - 1) / 2) as nat;
    let with_one = bases.push(1);
    lemma_jacobi_of_one(n);
    lemma1_pow(e);
    lemma_small_mod(1, n);
    assert(euler_probable_prime(n, 1));
    assert forall|i: int| 0 <= i < with_one.len() implies euler_probable_prime(
        n,
        #[trigger] with_one[i],
    ) by {
        if i < bases.len() {
            assert(with_one[i] == bases[i]);
        }
    }
    assert(distinct_within(with_one, (n - 1) as nat)) by {
        assert forall|i: int| 0 <= i < with_one.len() implies 1 <= #[trigger] with_one[i] <= n
            - 1 by {
            if i < bases.len() {
                assert(with_one[i] == bases[i]);
            }
        }
        assert forall|i: int, j: int| 0 <= i < j < with_one.len() implies #[trigger] with_one[i]
            != #[trigger] with_one[j] by {
            assert(with_one[i] == bases[i]);
            if j < bases.len() {
                assert(with_one[j] == bases[j]);
            }
        }
    }
    lemma_passing_bases_at_most_half(n, with_one);
}

} // verus!
