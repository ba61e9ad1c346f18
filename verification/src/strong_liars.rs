//! A base that lets `n` pass the Miller–Rabin check lets it pass the
//! Solovay–Strassen check too, so at most half of the bases let a composite
//! pass the Miller–Rabin check.

use crate::fermat::{distinct_within, lemma_fermat_little};
use crate::gauss::lemma_signed_congruences_multiply;
use crate::legendre::jacobi;
use crate::liars::{
    lemma_coprime_product, lemma_coprime_residue, lemma_drawn_bases_at_most_half,
    lemma_jacobi_multiplicative, lemma_jacobi_of_one, lemma_jacobi_of_product_modulus,
    lemma_jacobi_of_residue, lemma_passing_power, lemma_power_passing,
};
use crate::miller_rabin::{
    lemma_split_twos, odd_part, reaches_minus_one, strong_probable_prime, two_exponent,
};
use crate::modular::{lemma_pow_mod_bound, pow_mod};
use crate::number_theory::{
    common_factor, divides, is_prime, least_divisor, lemma_divides_product, lemma_divides_sum,
    lemma_divides_transitive, lemma_least_divisor_is_prime, lemma_multiple_divides,
};
use crate::reciprocity::{lemma_prime_is_euler_probable_prime, lemma_product_parity};
use crate::solovay_strassen::euler_probable_prime;
use vstd::arithmetic::div_mod::{
    lemma_add_mod_noop, lemma_fundamental_div_mod, lemma_fundamental_div_mod_converse,
    lemma_mod_equivalence, lemma_mod_multiples_basic, lemma_mod_self_0, lemma_mod_twice,
    lemma_mul_mod_noop_general, lemma_small_mod,
};
use vstd::arithmetic::power::{
    lemma1_pow, lemma_pow0, lemma_pow1, lemma_pow_adds, lemma_pow_mod_noop, lemma_pow_multiplies,
    lemma_pow_positive, pow,
};
use vstd::arithmetic::power2::{lemma2_to64, lemma_pow2_adds, lemma_pow2_pos, lemma_pow2_unfold, pow2};
use vstd::prelude::*;

verus! {

/// The powers of a number that is `-1` modulo `m` are 1 and `-1` in turn.
pub proof fn lemma_powers_of_minus_one(y: int, k: nat, m: int)
    requires
        m > 0,
        (y + 1) % m == 0,
    ensures
        if k % 2 == 1 {
            (pow(y, k) + 1) % m == 0
        } else {
            pow(y, k) % m == 1int % m
        },
    decreases k,
{
    if k == 0 {
        lemma_pow0(y);
    } else {
        let j = (k - 1) as nat;
        lemma_powers_of_minus_one(y, j, m);
        lemma_pow_adds(y, j, 1);
        lemma_pow1(y);
        lemma_signed_congruences_multiply(pow(y, j), 1, y, 1, m, j % 2 == 1, true);
        assert(1int * 1int == 1);
    }
}

/// The powers of a number that is 1 modulo `m` are 1 modulo `m`.
pub proof fn lemma_powers_of_one(y: int, k: nat, m: int)
    requires
        m > 0,
        y % m == 1int % m,
    ensures
        pow(y, k) % m == 1int % m,
{
    lemma_pow_mod_noop(y, k, m);
    lemma_pow_mod_noop(1, k, m);
    lemma1_pow(k);
}

/// A power of a number without a common factor with `n` has none either, and
/// its symbol is that of the number for an odd exponent and 1 for an even
/// one.
pub proof fn lemma_jacobi_of_power(a: nat, k: nat, n: nat)
    requires
        n % 2 == 1,
        !common_factor(a, n),
    ensures
        pow(a as int, k) >= 0,
        !common_factor(pow(a as int, k) as nat, n),
        jacobi(pow(a as int, k) as nat, n) == (if k % 2 == 1 {
            jacobi(a, n)
        } else {
            1
        }),
    decreases k,
{
    if k == 0 {
        lemma_pow0(a as int);
        lemma_jacobi_of_one(n);
        assert forall|d: nat| d >= 2 implies !(#[trigger] divides(d, 1) && divides(d, n)) by {
            lemma_small_mod(1, d);
        }
    } else {
        let j = (k - 1) as nat;
        lemma_jacobi_of_power(a, j, n);
        lemma_pow_adds(a as int, j, 1);
        lemma_pow1(a as int);
        let before = pow(a as int, j) as nat;
        assert(pow(a as int, k) == before * a);
        lemma_coprime_product(before, a, n);
        lemma_jacobi_multiplicative(before, a, n);
        let x = jacobi(before, n);
        let y = jacobi(a, n);
        assert(x * y == (if x == 1 {
            y
        } else {
            -y
        })) by (nonlinear_arith)
            requires
                x == 1 || x == -1,
        ;
    }
}

/// The two classes modulo `2 * half` that the factors of `n` fall in: 1 and
/// `1 + half`. A product is in the first class where both factors are in the
/// same class, and in the second where they are not.
proof fn lemma_class_product(x: nat, y: nat, half: nat)
    requires
        half >= 2,
        half % 2 == 0,
        x % (2 * half) == 1 || x % (2 * half) == 1 + half,
        y % (2 * half) == 1 || y % (2 * half) == 1 + half,
    ensures
        (x * y) % (2 * half) == (if (x % (2 * half) == 1) == (y % (2 * half) == 1) {
            1nat
        } else {
            1 + half
        }),
{
    let m = 2 * half;
    let rx = x % m;
    let ry = y % m;
    let w = half / 2;
    lemma_mul_mod_noop_general(x as int, y as int, m as int);
    lemma_small_mod(1, m);
    lemma_small_mod(1 + half, m);
    if rx == 1 {
        assert(rx * ry == ry) by (nonlinear_arith)
            requires
                rx == 1,
        ;
    } else if ry == 1 {
        assert(rx * ry == rx) by (nonlinear_arith)
            requires
                ry == 1,
        ;
    } else {
        assert(rx * ry == (1 + w) * m + 1) by (nonlinear_arith)
            requires
                rx == 1 + half,
                ry == 1 + half,
                half == 2 * w,
                m == 2 * half,
        ;
        lemma_fundamental_div_mod_converse((rx * ry) as int, m as int, (1 + w) as int, 1);
    }
}

/// A positive number that leaves `2^k` modulo `2^(k+1)` has exactly `k`
/// factors 2.
proof fn lemma_two_exponent_exact(m: nat, k: nat)
    requires
        m % pow2(k + 1) == pow2(k),
    ensures
        two_exponent(m) == k,
        m > 0,
    decreases k,
{
    lemma_pow2_pos(k);
    lemma_pow2_unfold(k + 1);
    let top = pow2(k + 1);
    let t = m / top;
    lemma_fundamental_div_mod(m as int, top as int);
    if k == 0 {
        lemma2_to64();
        assert(m == 2 * t + 1);
    } else {
        lemma_pow2_unfold(k);
        let lower = pow2(k);
        let least = pow2((k - 1) as nat);
        assert(m == 2 * (t * lower + least)) by (nonlinear_arith)
            requires
                m == top * t + lower,
                top == 2 * lower,
                lower == 2 * least,
        ;
        assert(m / 2 == t * lower + least);
        lemma_pow2_pos((k - 1) as nat);
        lemma_fundamental_div_mod_converse((m / 2) as int, lower as int, t as int, least as int);
        lemma_two_exponent_exact(m / 2, (k - 1) as nat);
    }
}

/// A positive multiple of `2^k` has at least `k` factors 2.
proof fn lemma_two_exponent_at_least(m: nat, k: nat)
    requires
        m > 0,
        m % pow2(k) == 0,
    ensures
        two_exponent(m) >= k,
    decreases k,
{
    if k > 0 {
        lemma_pow2_pos(k);
        lemma_pow2_unfold(k);
        let top = pow2(k);
        let lower = pow2((k - 1) as nat);
        let t = m / top;
        lemma_fundamental_div_mod(m as int, top as int);
        assert(m == 2 * (t * lower)) by (nonlinear_arith)
            requires
                m == top * t,
                top == 2 * lower,
        ;
        assert(m / 2 == t * lower);
        lemma_pow2_pos((k - 1) as nat);
        lemma_mod_multiples_basic(t as int, lower as int);
        lemma_two_exponent_at_least(m / 2, (k - 1) as nat);
    }
}

/// Modulo 3 or more, 1 is not `-1`.
proof fn lemma_one_is_not_minus_one(v: int, m: int)
    requires
        m >= 3,
        v % m == 1int % m,
    ensures
        (v + 1) % m != 0,
{
    lemma_small_mod(1, m as nat);
    lemma_small_mod(2, m as nat);
    lemma_add_mod_noop(v, 1, m);
}

/// A power of 2 above the first is even.
proof fn lemma_pow2_parity(g: nat)
    ensures
        pow2(g) % 2 == 1 <==> g == 0,
{
    if g == 0 {
        lemma2_to64();
    } else {
        lemma_pow2_unfold(g);
    }
}

/// A multiple of `n` is a multiple of every divisor of `n`.
proof fn lemma_multiple_of_divisor(x: int, q: nat, n: nat)
    requires
        n >= 1,
        divides(q, n),
        x % (n as int) == 0,
    ensures
        x % (q as int) == 0,
{
    let t = x / (n as int);
    let c = n / q;
    lemma_fundamental_div_mod(x, n as int);
    lemma_divides_product(q, n);
    assert(x == (t * c) * q) by (nonlinear_arith)
        requires
            x == n * t,
            n == q * c,
    ;
    lemma_mod_multiples_basic(t * c, q as int);
}

/// A number without a common factor with `n` has none with a divisor of `n`.
proof fn lemma_coprime_to_divisor(a: nat, m: nat, n: nat)
    requires
        !common_factor(a, n),
        divides(m, n),
    ensures
        !common_factor(a, m),
{
    if common_factor(a, m) {
        let d = choose|d: nat| d >= 2 && #[trigger] divides(d, a) && divides(d, m);
        lemma_divides_transitive(d, m, n);
        assert(divides(d, a) && divides(d, n));
    }
}

/// The case of a prime factor `q` of `n`: if `a^(d 2^i)` is `-1` modulo `q`,
/// for an odd `d`, then `q - 1` has at least `i + 1` factors 2, and the
/// symbol of `a` is `-1` exactly when it has no more.
proof fn lemma_prime_factor_class(q: nat, a: nat, d: nat, i: nat)
    requires
        is_prime(q),
        q % 2 == 1,
        d % 2 == 1,
        a % q != 0,
        (pow(a as int, d * pow2(i)) + 1) % (q as int) == 0,
    ensures
        jacobi(a, q) == 1 && q % pow2(i + 2) == 1 || jacobi(a, q) == -1 && q % pow2(i + 2) == 1
            + pow2(i + 1),
{
    let m = q as int;
    let below = (q - 1) as nat;
    let h = (below / 2) as nat;
    let s = two_exponent(below);
    let t = odd_part(below);
    let ai = a as int;
    lemma_split_twos(below);
    assert(s >= 1);
    lemma_pow2_unfold(s);
    let lower = pow2((s - 1) as nat);
    assert(h == t * lower) by (nonlinear_arith)
        requires
            below == t * (2 * lower),
            h == below / 2,
    ;
    let x = pow(ai, d);
    let y = pow(ai, d * pow2(i));
    lemma_pow_multiplies(ai, d, pow2(i));
    assert(y == pow(x, pow2(i)));
    // The power x^h is the symbol, modulo q.
    lemma_prime_is_euler_probable_prime(q, a);
    lemma_passing_power(q, a);
    lemma_pow_multiplies(ai, h, d);
    lemma_pow_multiplies(ai, d, h);
    assert(h * d == d * h) by (nonlinear_arith);
    let xh = pow(x, h);
    assert(xh == pow(pow(ai, h), d));
    if jacobi(a, q) == -1 {
        lemma_powers_of_minus_one(pow(ai, h), d, m);
    } else {
        lemma_powers_of_one(pow(ai, h), d, m);
    }
    lemma_pow2_pos(i);
    lemma_pow2_pos(i + 1);
    lemma_pow2_unfold(i + 1);
    lemma_pow2_unfold(i + 2);
    let half = pow2(i + 1);
    let full = pow2(i + 2);
    if s >= i + 1 {
        let g = (s - 1 - i) as nat;
        lemma_pow2_adds(i, g);
        lemma_pow2_pos(g);
        let rest = pow2(g) * t;
        assert(h == pow2(i) * rest) by (nonlinear_arith)
            requires
                h == t * lower,
                lower == pow2(i) * pow2(g),
                rest == pow2(g) * t,
        ;
        lemma_pow_multiplies(x, pow2(i), rest);
        assert(xh == pow(y, rest));
        lemma_powers_of_minus_one(y, rest, m);
        lemma_pow2_parity(g);
        lemma_product_parity(pow2(g), t);
        if g == 0 {
            if jacobi(a, q) != -1 {
                lemma_one_is_not_minus_one(xh, m);
            }
            let u = t / 2;
            lemma2_to64();
            assert(q == u * full + (1 + half)) by (nonlinear_arith)
                requires
                    q - 1 == t * (2 * lower),
                    lower == pow2(i) * pow2(g),
                    pow2(g) == 1,
                    half == 2 * pow2(i),
                    full == 2 * half,
                    t == 2 * u + 1,
            ;
            lemma_fundamental_div_mod_converse(q as int, full as int, u as int, (1 + half) as int);
        } else {
            if jacobi(a, q) == -1 {
                lemma_one_is_not_minus_one(xh, m);
            }
            let j = (g - 1) as nat;
            lemma_pow2_unfold(g);
            let most = t * pow2(j);
            assert(q == most * full + 1) by (nonlinear_arith)
                requires
                    q - 1 == t * (2 * lower),
                    lower == pow2(i) * pow2(g),
                    pow2(g) == 2 * pow2(j),
                    half == 2 * pow2(i),
                    full == 2 * half,
                    most == t * pow2(j),
            ;
            lemma_fundamental_div_mod_converse(q as int, full as int, most as int, 1);
        }
    } else {
        let g = (i - s) as nat;
        lemma_pow2_adds(s, g);
        lemma_pow2_pos(g);
        // x^(2^i t) is -1, being an odd power of y.
        lemma_pow_multiplies(x, pow2(i), t);
        lemma_powers_of_minus_one(y, t, m);
        // It is also 1, being a power of x^(q-1).
        lemma_fermat_little(q, a);
        lemma_small_mod(1, q);
        lemma_pow_multiplies(ai, below, d);
        lemma_pow_multiplies(ai, d, below);
        assert(below * d == d * below) by (nonlinear_arith);
        lemma_powers_of_one(pow(ai, below), d, m);
        lemma_pow_multiplies(x, below, pow2(g));
        lemma_powers_of_one(pow(x, below), pow2(g), m);
        assert(pow2(i) * t == below * pow2(g)) by (nonlinear_arith)
            requires
                below == t * pow2(s),
                pow2(i) == pow2(s) * pow2(g),
        ;
        lemma_one_is_not_minus_one(pow(x, pow2(i) * t), m);
    }
}

/// Every divisor `m` of `n` falls in one of two classes modulo `2^(i+2)`,
/// and the symbol of `a` over `m` tells which: this holds of the prime
/// factors, and it is kept by products.
proof fn lemma_divisor_class(m: nat, n: nat, a: nat, d: nat, i: nat)
    requires
        n % 2 == 1,
        m >= 1,
        divides(m, n),
        a % 2 == 1,
        !common_factor(a, n),
        d % 2 == 1,
        (pow(a as int, d * pow2(i)) + 1) % (n as int) == 0,
    ensures
        jacobi(a, m) == 1 && m % pow2(i + 2) == 1 || jacobi(a, m) == -1 && m % pow2(i + 2) == 1
            + pow2(i + 1),
    decreases m,
{
    lemma_pow2_pos(i);
    lemma_pow2_unfold(i + 1);
    lemma_pow2_unfold(i + 2);
    let half = pow2(i + 1);
    let full = pow2(i + 2);
    if m == 1 {
        lemma_small_mod(1, full);
        assert(jacobi(a, 1) == 1) by {
            if a == 0 {
            } else {
                assert(1nat % a == 1 || a == 1) by {
                    if a > 1 {
                        lemma_small_mod(1, a);
                    }
                }
                if a == 1 {
                    lemma_jacobi_of_one(1);
                } else {
                    lemma_jacobi_of_one(a);
                }
            }
        }
    } else {
        let q = least_divisor(m, 2);
        lemma_least_divisor_is_prime(m);
        let c = m / q;
        lemma_divides_product(q, m);
        lemma_divides_transitive(q, m, n);
        assert(c >= 1 && c < m) by (nonlinear_arith)
            requires
                m == q * c,
                q >= 2,
                m >= 1,
        ;
        lemma_multiple_divides(c, q);
        lemma_divides_transitive(c, m, n);
        lemma_divides_product(m, n);
        lemma_product_parity(m, n / m);
        lemma_product_parity(q, c);
        if a % q == 0 {
            assert(divides(q, a) && divides(q, n));
        }
        lemma_multiple_of_divisor(pow(a as int, d * pow2(i)) + 1, q, n);
        lemma_prime_factor_class(q, a, d, i);
        lemma_divisor_class(c, n, a, d, i);
        lemma_coprime_to_divisor(a, q, n);
        lemma_coprime_to_divisor(a, c, n);
        lemma_jacobi_of_product_modulus(a, q, c);
        lemma_class_product(q, c, half);
        let x = jacobi(a, q);
        let y = jacobi(a, c);
        assert(x * y == (if (x == -1) != (y == -1) {
            -1int
        } else {
            1int
        })) by (nonlinear_arith)
            requires
                x == 1 || x == -1,
                y == 1 || y == -1,
        ;
    }
}

/// A base with a power that is 1 or `-1` modulo `n` has no factor in common
/// with `n`.
proof fn lemma_unit_from_power(a: nat, k: nat, n: nat)
    requires
        n >= 3,
        k >= 1,
        pow_mod(a, k, n) == 1 || pow_mod(a, k, n) == n - 1,
    ensures
        !common_factor(a, n),
{
    if common_factor(a, n) {
        let f = choose|f: nat| f >= 2 && #[trigger] divides(f, a) && divides(f, n);
        let before = (k - 1) as nat;
        lemma_pow_adds(a as int, 1, before);
        lemma_pow1(a as int);
        if a > 0 {
            lemma_pow_positive(a as int, before);
        } else {
            assert(0 * pow(0, before) == 0);
        }
        let rest = pow(a as int, before);
        let power = pow(a as int, k) as nat;
        assert(power == a * rest);
        if a > 0 {
            lemma_multiple_divides(a, rest as nat);
            lemma_divides_transitive(f, a, power);
        }
        lemma_small_mod(0, f);
        assert(divides(f, power));
        let t = power / n;
        let r = power % n;
        lemma_fundamental_div_mod(power as int, n as int);
        lemma_pow_mod_bound(a, k, n);
        lemma_multiple_divides(n, t);
        if t > 0 {
            lemma_divides_transitive(f, n, n * t);
        } else {
            assert(n * 0 == 0);
        }
        lemma_divides_sum(f, n * t, r);
        lemma_small_mod(1, f);
        if r == n - 1 {
            crate::liars::lemma_no_factor_of_successor(f, r);
        }
    }
}

/// A base that lets `n` pass the Miller–Rabin check lets it pass the
/// Solovay–Strassen check.
pub proof fn lemma_strong_implies_euler(n: nat, a: nat)
    requires
        n >= 3,
        n % 2 == 1,
        strong_probable_prime(n, a),
    ensures
        euler_probable_prime(n, a),
{
    let m = n as int;
    let below = (n - 1) as nat;
    let r = two_exponent(below);
    let d = odd_part(below);
    let e = (below / 2) as nat;
    let ai = a as int;
    lemma_split_twos(below);
    assert(r >= 1);
    lemma_pow2_unfold(r);
    let lower = pow2((r - 1) as nat);
    assert(e == d * lower) by (nonlinear_arith)
        requires
            below == d * (2 * lower),
            e == below / 2,
    ;
    lemma_small_mod(1, n);
    if pow_mod(a, d, n) == 1 {
        lemma_unit_from_power(a, d, n);
        lemma_pow_mod_bound(a, d, n);
        lemma_pow_multiplies(ai, d, lower);
        lemma_powers_of_one(pow(ai, d), lower, m);
        lemma_jacobi_of_power(a, d, n);
        lemma_jacobi_of_residue(pow(ai, d) as nat, n);
        lemma_jacobi_of_one(n);
        lemma_power_passing(n, a);
    } else {
        let i = choose|i: nat| i <= r && #[trigger] reaches_minus_one(n, a, d, i);
        let k = d * pow2(i);
        lemma_pow2_pos(i);
        assert(k >= 1) by (nonlinear_arith)
            requires
                k == d * pow2(i),
                d >= 1,
                pow2(i) >= 1,
        ;
        lemma_unit_from_power(a, k, n);
        lemma_pow_mod_bound(a, k, n);
        let y = pow(ai, k);
        lemma_mod_equivalence(y, -1, m);
        lemma_mod_equivalence((n - 1) as int, -1, m);
        lemma_mod_self_0(m);
        lemma_small_mod((n - 1) as nat, n);
        assert((y + 1) % m == 0);
        // An odd number with the same residue and the same symbol.
        let odd = if a % 2 == 0 {
            a + n
        } else {
            a
        };
        lemma_add_mod_noop(ai, m, m);
        lemma_mod_twice(ai, m);
        assert(odd % n == a % n);
        lemma_coprime_residue(a, n);
        lemma_coprime_residue(odd, n);
        lemma_jacobi_of_residue(a, n);
        lemma_jacobi_of_residue(odd, n);
        lemma_pow_mod_noop(ai, k, m);
        lemma_pow_mod_noop(odd as int, k, m);
        lemma_mod_equivalence(pow(odd as int, k), -1, m);
        lemma_divisor_class(n, n, odd, d, i);
        lemma_pow2_unfold(i + 1);
        lemma_pow2_unfold(i + 2);
        let half = pow2(i + 1);
        let full = pow2(i + 2);
        let t = n / full;
        lemma_fundamental_div_mod(n as int, full as int);
        if jacobi(a, n) == 1 {
            assert(below == t * full) by (nonlinear_arith)
                requires
                    n == full * t + 1,
                    below == n - 1,
            ;
            lemma_mod_multiples_basic(t as int, full as int);
            lemma_two_exponent_at_least(below, i + 2);
            let g = (r - 1 - i) as nat;
            lemma_pow2_adds(i, g);
            lemma_pow2_parity(g);
            assert(e == k * pow2(g)) by (nonlinear_arith)
                requires
                    e == d * lower,
                    lower == pow2(i) * pow2(g),
                    k == d * pow2(i),
            ;
            lemma_pow_multiplies(ai, k, pow2(g));
            lemma_powers_of_minus_one(y, pow2(g), m);
        } else {
            assert(below == t * full + half) by (nonlinear_arith)
                requires
                    n == full * t + (1 + half),
                    below == n - 1,
            ;
            lemma_pow2_pos(i + 1);
            lemma_fundamental_div_mod_converse(below as int, full as int, t as int, half as int);
            lemma_two_exponent_exact(below, (i + 1) as nat);
            assert(e == k);
        }
        lemma_power_passing(n, a);
    }
}

/// At least half of the draws refute a composite: of the `n - 3` bases in
/// `2..=n - 2` that a round of the Miller–Rabin test can draw, at most
/// `(n-3)/2` let an odd composite `n` pass.
pub proof fn lemma_strong_bases_at_most_half(n: nat, bases: Seq<nat>)
    requires
        n > 4,
        n % 2 == 1,
        !is_prime(n),
        distinct_within(bases, (n - 2) as nat),
        forall|i: int| 0 <= i < bases.len() ==> #[trigger] bases[i] >= 2 && strong_probable_prime(
            n,
            bases[i],
        ),
    ensures
        2 * bases.len() <= n - 3,
{
    assert forall|i: int| 0 <= i < bases.len() implies #[trigger] bases[i] >= 2
        && euler_probable_prime(n, bases[i]) by {
        lemma_strong_implies_euler(n, bases[i]);
    }
    lemma_drawn_bases_at_most_half(n, bases);
}

} // verus!
