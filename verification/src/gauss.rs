//! Gauss's count: the sign that counts how many of the multiples `a`, `2a`,
//! ..., `((n-1)/2) a` fall in the upper half modulo an odd `n`.
//!
//! For a prime modulus the sign is the residue of `a^((n-1)/2)` (Gauss's
//! lemma). For every odd modulus it follows the rules by which the Legendre
//! symbol is computed, which is shown in the module on reciprocity.

use crate::fermat::{
    distinct_within, factorial, lemma_distinct_length, lemma_distinct_remove,
    lemma_distinct_without_top, lemma_euclid, lemma_prime_spares_factorial,
    lemma_product_of_rearrangement, product,
};
use crate::number_theory::{
    common_factor, divides, is_prime, lemma_common_factor_remainder, lemma_residue_shrinks,
};
use vstd::arithmetic::div_mod::{
    lemma_add_mod_noop, lemma_fundamental_div_mod, lemma_fundamental_div_mod_converse,
    lemma_mod_equivalence, lemma_mod_multiples_basic, lemma_mod_self_0, lemma_mul_mod_noop_left,
    lemma_mul_mod_noop_right, lemma_small_mod,
};
use vstd::arithmetic::power::{lemma_pow0, lemma_pow1, lemma_pow_adds, lemma_pow_positive, pow};
use vstd::prelude::*;

verus! {

/// Whether an odd number of the entries of `s` satisfy `f`.
pub open spec fn parity_over(s: Seq<nat>, f: spec_fn(nat) -> bool) -> bool
    decreases s.len(),
{
    if s.len() == 0 {
        false
    } else {
        parity_over(s.drop_last(), f) != f(s.last())
    }
}

/// Whether an odd number of the numbers 1 to `m` satisfy `f`.
pub open spec fn parity_upto(m: nat, f: spec_fn(nat) -> bool) -> bool
    decreases m,
{
    if m == 0 {
        false
    } else {
        parity_upto((m - 1) as nat, f) != f(m)
    }
}

/// Taking one entry out changes the parity exactly when that entry
/// satisfies `f`.
proof fn lemma_parity_remove(s: Seq<nat>, f: spec_fn(nat) -> bool, k: int)
    requires
        0 <= k < s.len(),
    ensures
        parity_over(s, f) == (parity_over(s.remove(k), f) != f(s[k])),
    decreases s.len(),
{
    let rest = s.remove(k);
    if k == s.len() - 1 {
        assert(rest =~= s.drop_last());
    } else {
        lemma_parity_remove(s.drop_last(), f, k);
        assert(rest.drop_last() =~= s.drop_last().remove(k));
        assert(rest.last() == s.last());
    }
}

/// The parity over `m` distinct numbers within `1..=m` is the parity over the
/// numbers 1 to `m`: they are the same numbers in some order.
pub proof fn lemma_parity_of_rearrangement(s: Seq<nat>, m: nat, f: spec_fn(nat) -> bool)
    requires
        distinct_within(s, m),
        s.len() == m,
    ensures
        parity_over(s, f) == parity_upto(m, f),
    decreases m,
{
    if m > 0 {
        if exists|k: int| 0 <= k < s.len() && #[trigger] s[k] == m {
            let k = choose|k: int| 0 <= k < s.len() && #[trigger] s[k] == m;
            lemma_distinct_remove(s, m, k);
            lemma_parity_of_rearrangement(s.remove(k), (m - 1) as nat, f);
            lemma_parity_remove(s, f, k);
        } else {
            lemma_distinct_without_top(s, m);
            lemma_distinct_length(s, (m - 1) as nat);
        }
    }
}

/// `u` is an inverse of `a` modulo `n`.
pub open spec fn inverse_of(a: nat, u: nat, n: nat) -> bool {
    (a * u) % n == 1nat % n
}

/// A number without a common factor with `n` has an inverse modulo `n`.
pub proof fn lemma_inverse_exists(a: nat, n: nat)
    requires
        n >= 1,
        !common_factor(a, n),
    ensures
        exists|u: nat| #[trigger] inverse_of(a, u, n),
    decreases a,
{
    if n == 1 {
        assert(inverse_of(a, 0, n));
    } else if a == 0 {
        lemma_small_mod(0, n);
        lemma_mod_self_0(n as int);
        assert(divides(n, a) && divides(n, n));
    } else if a == 1 {
        assert(a * 1 == 1) by (nonlinear_arith)
            requires
                a == 1,
        ;
        assert(inverse_of(a, 1, n));
    } else {
        let q = n / a;
        let r = n % a;
        lemma_fundamental_div_mod(n as int, a as int);
        lemma_residue_shrinks(n, a);
        lemma_common_factor_remainder(a, n);
        lemma_inverse_exists(r, a);
        let w = choose|w: nat| #[trigger] inverse_of(r, w, a);
        let t = (r * w) / a;
        lemma_fundamental_div_mod((r * w) as int, a as int);
        lemma_small_mod(1, a);
        assert(r * w == a * t + 1);
        assert(w >= 1) by (nonlinear_arith)
            requires
                r * w == a * t + 1,
        ;
        let c = (w * n - 1 - w) as nat;
        assert(w * n - 1 - w >= 0) by (nonlinear_arith)
            requires
                w >= 1,
                n >= 2,
        ;
        let u = ((n - 1) * (q * w + t)) as nat;
        assert(a * u == c * n + 1) by (nonlinear_arith)
            requires
                n == a * q + r,
                r * w == a * t + 1,
                u == (n - 1) * (q * w + t),
                c == w * n - 1 - w,
        ;
        lemma_fundamental_div_mod_converse((a * u) as int, n as int, c as int, 1);
        lemma_small_mod(1, n);
        assert(inverse_of(a, u, n));
    }
}

/// A factor without a common factor with `n` can be cancelled from a
/// multiple of `n`.
pub proof fn lemma_coprime_cancel(a: nat, x: nat, n: nat)
    requires
        n >= 1,
        !common_factor(a, n),
        (a * x) % n == 0,
    ensures
        x % n == 0,
{
    lemma_inverse_exists(a, n);
    let u = choose|u: nat| #[trigger] inverse_of(a, u, n);
    assert((u * (a * x)) % n == 0) by {
        lemma_mul_mod_noop_right(u as int, (a * x) as int, n as int);
        assert(u * 0 == 0);
        lemma_small_mod(0, n);
    }
    assert(((a * u) * x) % n == x % n) by {
        lemma_mul_mod_noop_left((a * u) as int, x as int, n as int);
        lemma_mul_mod_noop_left(1, x as int, n as int);
        assert(1 * x == x);
    }
    assert(u * (a * x) == (a * u) * x) by (nonlinear_arith);
}

/// `x` falls in the upper half modulo `n`: its residue is above `n / 2`.
pub open spec fn upper(x: nat, n: nat) -> bool {
    x % n > n / 2
}

/// The distance of `x` from the nearest multiple of `n`.
pub open spec fn magnitude(x: nat, n: nat) -> nat {
    if x % n > n / 2 {
        (n - x % n) as nat
    } else {
        x % n
    }
}

/// Whether an odd number of the multiples `a`, `2a`, ..., `count * a` fall in
/// the upper half modulo `n`.
pub open spec fn flips(a: nat, n: nat, count: nat) -> bool
    decreases count,
{
    if count == 0 {
        false
    } else {
        flips(a, n, (count - 1) as nat) != upper(a * count, n)
    }
}

/// Gauss's sign of `a` for the odd modulus `n`.
pub open spec fn gauss_sign(a: nat, n: nat) -> int {
    if flips(a, n, n / 2) {
        -1
    } else {
        1
    }
}

/// The distances of `a`, `2a`, ..., `count * a` from the nearest multiple of
/// `n`.
pub open spec fn magnitudes(a: nat, n: nat, count: nat) -> Seq<nat> {
    Seq::new(count, |i: int| magnitude(a * ((i + 1) as nat), n))
}

/// For an odd `n` without a common factor with `a`, the distances of the
/// first `(n-1)/2` multiples of `a` are the numbers 1 to `(n-1)/2`, each once.
pub proof fn lemma_magnitudes_rearrange(a: nat, n: nat)
    requires
        n % 2 == 1,
        !common_factor(a, n),
    ensures
        distinct_within(magnitudes(a, n, n / 2), n / 2),
        magnitudes(a, n, n / 2).len() == n / 2,
{
    let h = n / 2;
    let s = magnitudes(a, n, h);
    assert forall|i: int| 0 <= i < s.len() implies 1 <= #[trigger] s[i] <= h by {
        let k = (i + 1) as nat;
        lemma_residue_shrinks(a * k, n);
        if (a * k) % n == 0 {
            lemma_coprime_cancel(a, k, n);
            lemma_small_mod(k, n);
        }
    }
    assert forall|i: int, j: int| 0 <= i < j < s.len() implies #[trigger] s[i] != #[trigger] s[j] by {
        let ki = (i + 1) as nat;
        let kj = (j + 1) as nat;
        if s[i] == s[j] {
            lemma_residue_shrinks(a * ki, n);
            lemma_residue_shrinks(a * kj, n);
            if upper(a * ki, n) == upper(a * kj, n) {
                let gap = (kj - ki) as nat;
                lemma_mod_equivalence((a * kj) as int, (a * ki) as int, n as int);
                assert(a * kj - a * ki == a * gap) by (nonlinear_arith)
                    requires
                        gap == kj - ki,
                ;
                lemma_coprime_cancel(a, gap, n);
                lemma_small_mod(gap, n);
            } else {
                let both = ki + kj;
                lemma_add_mod_noop((a * ki) as int, (a * kj) as int, n as int);
                lemma_mod_self_0(n as int);
                assert(a * ki + a * kj == a * both) by (nonlinear_arith)
                    requires
                        both == ki + kj,
                ;
                lemma_coprime_cancel(a, both, n);
                lemma_small_mod(both, n);
            }
        }
    }
}

/// A combination of two multiples of `n` is a multiple of `n`.
proof fn lemma_combination_vanishes(u: int, x: int, m: int, v: int, n: int)
    requires
        n > 0,
        u % n == 0,
        v % n == 0,
    ensures
        (u * x + m * v) % n == 0,
        (u * x - m * v) % n == 0,
{
    let s = u / n;
    let t = v / n;
    lemma_fundamental_div_mod(u, n);
    lemma_fundamental_div_mod(v, n);
    assert(u * x + m * v == (s * x + m * t) * n) by (nonlinear_arith)
        requires
            u == n * s,
            v == n * t,
    ;
    assert(u * x - m * v == (s * x - m * t) * n) by (nonlinear_arith)
        requires
            u == n * s,
            v == n * t,
    ;
    lemma_mod_multiples_basic(s * x + m * t, n);
    lemma_mod_multiples_basic(s * x - m * t, n);
}

/// Congruences up to sign multiply: if `a` is `±m` and `x` is `±g` modulo
/// `n`, then `a x` is `m g` with the product of the two signs.
pub proof fn lemma_signed_congruences_multiply(
    a: int,
    m: int,
    x: int,
    g: int,
    n: int,
    first: bool,
    second: bool,
)
    requires
        n > 0,
        if first {
            (a + m) % n == 0
        } else {
            a % n == m % n
        },
        if second {
            (x + g) % n == 0
        } else {
            x % n == g % n
        },
    ensures
        if first != second {
            (a * x + m * g) % n == 0
        } else {
            (a * x) % n == (m * g) % n
        },
{
    lemma_mod_equivalence(a, m, n);
    lemma_mod_equivalence(x, g, n);
    lemma_mod_equivalence(a * x, m * g, n);
    if !first && !second {
        lemma_combination_vanishes(a - m, x, -m, x - g, n);
        assert(a * x - m * g == (a - m) * x - (-m) * (x - g)) by (nonlinear_arith);
    } else if !first && second {
        lemma_combination_vanishes(a - m, x, m, x + g, n);
        assert(a * x + m * g == (a - m) * x + m * (x + g)) by (nonlinear_arith);
    } else if first && !second {
        lemma_combination_vanishes(a + m, x, m, x - g, n);
        assert(a * x + m * g == (a + m) * x - m * (x - g)) by (nonlinear_arith);
    } else {
        lemma_combination_vanishes(a + m, x, m, x + g, n);
        assert(a * x - m * g == (a + m) * x - m * (x + g)) by (nonlinear_arith);
    }
}

/// The product of the first `count` multiples of `a` is, modulo `n`, the
/// product of their distances from the multiples of `n`, with a minus sign for
/// each multiple in the upper half.
proof fn lemma_signed_products(a: nat, n: nat, count: nat)
    requires
        n >= 1,
    ensures
        if flips(a, n, count) {
            (pow(a as int, count) * factorial(count) + product(magnitudes(a, n, count))) % (n as int)
                == 0
        } else {
            (pow(a as int, count) * factorial(count)) % (n as int) == product(
                magnitudes(a, n, count),
            ) % n
        },
    decreases count,
{
    if count == 0 {
        lemma_pow0(a as int);
        assert(magnitudes(a, n, 0) =~= Seq::<nat>::empty());
        assert(pow(a as int, 0) * factorial(0) == 1);
    } else {
        let before = (count - 1) as nat;
        let s = magnitudes(a, n, count);
        lemma_signed_products(a, n, before);
        assert(s.drop_last() =~= magnitudes(a, n, before));
        let x = a * count;
        let g = magnitude(x, n);
        assert(s.last() == g);
        let big = pow(a as int, before) * factorial(before);
        let small = product(magnitudes(a, n, before)) as int;
        lemma_residue_shrinks(x, n);
        lemma_residue_shrinks(g, n);
        if upper(x, n) {
            let t = x / n;
            let r = x % n;
            lemma_fundamental_div_mod(x as int, n as int);
            assert(x + g == (t + 1) * n) by (nonlinear_arith)
                requires
                    x == n * t + r,
                    g == n - r,
            ;
            lemma_mod_multiples_basic((t + 1) as int, n as int);
        } else {
            lemma_small_mod(g, n);
        }
        lemma_signed_congruences_multiply(
            big,
            small,
            x as int,
            g as int,
            n as int,
            flips(a, n, before),
            upper(x, n),
        );
        assert(pow(a as int, count) * factorial(count) == big * x) by {
            lemma_pow_adds(a as int, before, 1);
            lemma_pow1(a as int);
            assert((pow(a as int, before) * a) * (count * factorial(before)) == (pow(
                a as int,
                before,
            ) * factorial(before)) * (a * count)) by (nonlinear_arith);
        }
        assert(product(s) == small * g);
    }
}

/// A prime has no factor in common with a number that it does not divide.
pub proof fn lemma_prime_shares_nothing(p: nat, a: nat)
    requires
        is_prime(p),
        a % p != 0,
    ensures
        !common_factor(a, p),
{
    assert forall|d: nat| d >= 2 implies !(#[trigger] divides(d, a) && divides(d, p)) by {
        if divides(d, a) && divides(d, p) {
            if d < p {
                assert(!divides(d, p));
            } else if d > p {
                lemma_small_mod(p, d);
            }
        }
    }
}

/// Gauss's lemma: modulo an odd prime `p` that does not divide `a`, the power
/// `a^((p-1)/2)` is 1 or `-1`, and it is `-1` exactly when an odd number of
/// the multiples `a`, `2a`, ..., `((p-1)/2) a` fall in the upper half.
pub proof fn lemma_gauss(p: nat, a: nat)
    requires
        is_prime(p),
        p % 2 == 1,
        a % p != 0,
    ensures
        pow(a as int, p / 2) % (p as int) == (if flips(a, p, p / 2) {
            p - 1
        } else {
            1
        }),
{
    let h = p / 2;
    let f = factorial(h);
    lemma_prime_shares_nothing(p, a);
    lemma_magnitudes_rearrange(a, p);
    lemma_product_of_rearrangement(magnitudes(a, p, h), h);
    lemma_signed_products(a, p, h);
    lemma_prime_spares_factorial(p, h);
    lemma_small_mod(0, p);
    lemma_pow_positive(a as int, h);
    let power = pow(a as int, h) as nat;
    if flips(a, p, h) {
        let more = power + 1;
        assert(power * f + f == more * f) by (nonlinear_arith)
            requires
                more == power + 1,
        ;
        lemma_euclid(p, more, f);
        let t = more / p;
        lemma_fundamental_div_mod(more as int, p as int);
        assert(t >= 1) by (nonlinear_arith)
            requires
                more == p * t,
                more >= 1,
                p >= 1,
        ;
        assert(power == (t - 1) * p + (p - 1)) by (nonlinear_arith)
            requires
                power + 1 == p * t,
        ;
        lemma_fundamental_div_mod_converse(power as int, p as int, t - 1, p - 1);
    } else {
        let less = (power - 1) as nat;
        lemma_mod_equivalence((power * f) as int, f as int, p as int);
        assert(power * f - f == less * f) by (nonlinear_arith)
            requires
                less == power - 1,
        ;
        lemma_euclid(p, less, f);
        lemma_fundamental_div_mod(less as int, p as int);
        lemma_fundamental_div_mod_converse(power as int, p as int, (less / p) as int, 1);
    }
}

/// The test "`a` times `j` falls in the upper half modulo `n`", as a function
/// of `j`.
pub open spec fn scaled_upper(a: nat, n: nat) -> spec_fn(nat) -> bool {
    |j: nat| upper(a * j, n)
}

/// The count for `a` is the count of the numbers `j` up to `count` with
/// `a j` in the upper half.
proof fn lemma_flips_is_parity(a: nat, n: nat, count: nat)
    ensures
        flips(a, n, count) == parity_upto(count, scaled_upper(a, n)),
    decreases count,
{
    if count > 0 {
        lemma_flips_is_parity(a, n, (count - 1) as nat);
    }
}

/// Among the first `count` even numbers, those above `n / 2` are the ones
/// from `2 * (n / 4 + 1)` on.
proof fn lemma_flips_of_two(n: nat, count: nat)
    requires
        n % 2 == 1,
        count <= n / 2,
    ensures
        flips(2, n, count) == (count > n / 4 && (count - n / 4) % 2 == 1),
    decreases count,
{
    if count > 0 {
        lemma_flips_of_two(n, (count - 1) as nat);
        lemma_small_mod(2 * count, n);
    }
}

/// The sign of 2: it is `-1` exactly for the moduli that are 3 or 5 modulo 8.
pub proof fn lemma_sign_of_two(n: nat)
    requires
        n % 2 == 1,
    ensures
        flips(2, n, n / 2) == (n % 8 == 3 || n % 8 == 5),
{
    lemma_flips_of_two(n, n / 2);
}

/// Two residues in `0..n` that add up to a multiple of the odd `n`, the first
/// of them not 0, lie in different halves.
proof fn lemma_opposite_halves(u: nat, y: nat, n: nat)
    requires
        n % 2 == 1,
        0 < u < n,
        y < n,
        (u + y) % n == 0,
    ensures
        (u > n / 2) != (y > n / 2),
{
    let q = (u + y) / n;
    lemma_fundamental_div_mod((u + y) as int, n as int);
    assert(q == 1) by (nonlinear_arith)
        requires
            u + y == n * q,
            0 < u + y < 2 * n,
    ;
}

/// Multiplying a number whose residue is `±g` by `a` gives a residue
/// `±a g`: the product falls in the upper half exactly when either the number
/// does or `a` times its distance does, but not both.
proof fn lemma_upper_of_product(a: nat, x: nat, n: nat)
    requires
        n % 2 == 1,
        (a * magnitude(x, n)) % n != 0,
    ensures
        upper(a * x, n) == (upper(x, n) != upper(a * magnitude(x, n), n)),
{
    let r = x % n;
    lemma_residue_shrinks(x, n);
    lemma_mul_mod_noop_right(a as int, x as int, n as int);
    assert((a * x) % n == (a * r) % n);
    if r > n / 2 {
        let g = (n - r) as nat;
        let u = (a * g) % n;
        let y = (a * r) % n;
        lemma_residue_shrinks(a * g, n);
        lemma_residue_shrinks(a * r, n);
        assert(a * g + a * r == a * n) by (nonlinear_arith)
            requires
                g + r == n,
        ;
        lemma_mod_multiples_basic(a as int, n as int);
        lemma_add_mod_noop((a * g) as int, (a * r) as int, n as int);
        lemma_opposite_halves(u, y, n);
    }
}

/// The count for `a b` up to `count` is the count for `b` combined with the
/// count of the distances of the multiples of `b` that `a` takes to the upper
/// half.
proof fn lemma_flips_of_product_prefix(a: nat, b: nat, n: nat, count: nat)
    requires
        n % 2 == 1,
        !common_factor(a, n),
        !common_factor(b, n),
        count <= n / 2,
    ensures
        flips(a * b, n, count) == (flips(b, n, count) != parity_over(
            magnitudes(b, n, count),
            scaled_upper(a, n),
        )),
    decreases count,
{
    if count == 0 {
        assert(magnitudes(b, n, 0) =~= Seq::<nat>::empty());
    } else {
        let before = (count - 1) as nat;
        let s = magnitudes(b, n, count);
        let g = magnitude(b * count, n);
        lemma_flips_of_product_prefix(a, b, n, before);
        assert(s.drop_last() =~= magnitudes(b, n, before));
        assert(s.last() == g);
        lemma_residue_shrinks(b * count, n);
        if (b * count) % n == 0 {
            lemma_coprime_cancel(b, count, n);
            lemma_small_mod(count, n);
        }
        if (a * g) % n == 0 {
            lemma_coprime_cancel(a, g, n);
            lemma_small_mod(g, n);
        }
        lemma_upper_of_product(a, b * count, n);
        assert((a * b) * count == a * (b * count)) by (nonlinear_arith);
    }
}

/// The sign is multiplicative: the sign of a product is the product of the
/// signs.
pub proof fn lemma_sign_multiplicative(a: nat, b: nat, n: nat)
    requires
        n % 2 == 1,
        !common_factor(a, n),
        !common_factor(b, n),
    ensures
        flips(a * b, n, n / 2) == (flips(a, n, n / 2) != flips(b, n, n / 2)),
{
    let h = n / 2;
    lemma_flips_of_product_prefix(a, b, n, h);
    lemma_magnitudes_rearrange(b, n);
    lemma_parity_of_rearrangement(magnitudes(b, n, h), h, scaled_upper(a, n));
    lemma_flips_is_parity(a, n, h);
}

/// An odd number has no factor in common with 2.
pub proof fn lemma_odd_shares_nothing_with_two(n: nat)
    requires
        n % 2 == 1,
    ensures
        !common_factor(2, n),
{
    assert forall|d: nat| d >= 2 implies !(#[trigger] divides(d, 2) && divides(d, n)) by {
        if d > 2 {
            lemma_small_mod(2, d);
        }
    }
}

/// The sign of `2b` is the sign of 2 times the sign of `b`.
pub proof fn lemma_sign_of_double(b: nat, n: nat)
    requires
        n % 2 == 1,
        !common_factor(b, n),
    ensures
        flips(2 * b, n, n / 2) == (flips(b, n, n / 2) != flips(2, n, n / 2)),
{
    lemma_odd_shares_nothing_with_two(n);
    lemma_sign_multiplicative(2, b, n);
}

/// The sign depends on `a` through its residue modulo `n` only.
pub proof fn lemma_sign_of_residue(a: nat, n: nat, count: nat)
    requires
        n >= 1,
    ensures
        flips(a % n, n, count) == flips(a, n, count),
    decreases count,
{
    if count > 0 {
        lemma_sign_of_residue(a, n, (count - 1) as nat);
        lemma_mul_mod_noop_left(a as int, count as int, n as int);
    }
}

/// Every multiple of `n - 1` up to the `(n-1)/2`-th falls in the upper half
/// modulo the odd `n`: the count for `n - 1` is odd exactly when the number of
/// multiples is.
pub proof fn lemma_flips_of_minus_one(n: nat, count: nat)
    requires
        n % 2 == 1,
        count <= n / 2,
    ensures
        flips((n - 1) as nat, n, count) == (count % 2 == 1),
    decreases count,
{
    if count > 0 {
        let a = (n - 1) as nat;
        lemma_flips_of_minus_one(n, (count - 1) as nat);
        assert(a * count == (count - 1) * n + (n - count)) by (nonlinear_arith)
            requires
                a == n - 1,
        ;
        lemma_fundamental_div_mod_converse((a * count) as int, n as int, count - 1, n - count);
    }
}

} // verus!
