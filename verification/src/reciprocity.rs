//! The law of quadratic reciprocity for Gauss's sign, and with it the proof
//! that the reduction which computes the Legendre symbol gives, for an odd
//! prime modulus, the residue of `a^((p-1)/2)`.

use crate::gauss::{
    flips, gauss_sign, lemma_coprime_cancel, lemma_gauss, lemma_magnitudes_rearrange,
    lemma_parity_of_rearrangement, lemma_prime_shares_nothing, lemma_sign_of_double,
    lemma_sign_of_residue, lemma_sign_of_two, magnitude, magnitudes, parity_over, parity_upto,
};
use crate::legendre::{jacobi, lemma_jacobi_range};
use crate::modular::lemma_pow_mod_bound;
use crate::residues::{is_square_mod, lemma_euler_criterion};
use crate::number_theory::{
    common_factor, divides, is_prime, lemma_common_factor_halve, lemma_common_factor_remainder,
    lemma_residue_shrinks,
};
use crate::solovay_strassen::euler_probable_prime;
use vstd::arithmetic::div_mod::{
    lemma_div_is_ordered, lemma_fundamental_div_mod, lemma_fundamental_div_mod_converse,
    lemma_mod_self_0, lemma_small_mod,
};
use vstd::prelude::*;

verus! {

/// The whole part of `m * k / n`.
pub open spec fn floor_at(m: nat, n: nat, k: nat) -> nat {
    (m * k) / n
}

/// The sum of the whole parts of `m k / n` for `k` from 1 to `count`: the
/// number of lattice points below the line of slope `m / n`.
pub open spec fn floor_sum(m: nat, n: nat, count: nat) -> nat
    decreases count,
{
    if count == 0 {
        0
    } else {
        floor_sum(m, n, (count - 1) as nat) + floor_at(m, n, count)
    }
}

/// The test "is odd", as a function.
pub open spec fn oddness() -> spec_fn(nat) -> bool {
    |j: nat| j % 2 == 1
}

/// Having a common factor does not depend on the order of the two numbers.
pub proof fn lemma_common_factor_symmetric(a: nat, n: nat)
    ensures
        common_factor(a, n) == common_factor(n, a),
{
    if common_factor(a, n) {
        let d = choose|d: nat| d >= 2 && #[trigger] divides(d, a) && divides(d, n);
        assert(divides(d, n) && divides(d, a));
    }
    if common_factor(n, a) {
        let d = choose|d: nat| d >= 2 && #[trigger] divides(d, n) && divides(d, a);
        assert(divides(d, a) && divides(d, n));
    }
}

/// For odd `m` and `n`, the multiple `m k` has the parity of `k`, and also
/// the parity of its quotient by `n` plus its remainder.
proof fn lemma_parity_of_multiple(m: nat, n: nat, k: nat)
    requires
        m % 2 == 1,
        n % 2 == 1,
    ensures
        (k % 2 == 1) == ((floor_at(m, n, k) % 2 == 1) != (((m * k) % n) % 2 == 1)),
{
    let q = (m * k) / n;
    let r = (m * k) % n;
    let hm = m / 2;
    let hn = n / 2;
    lemma_fundamental_div_mod((m * k) as int, n as int);
    assert(m * k == 2 * (hm * k) + k) by (nonlinear_arith)
        requires
            m == 2 * hm + 1,
    ;
    assert(n * q == 2 * (hn * q) + q) by (nonlinear_arith)
        requires
            n == 2 * hn + 1,
    ;
}

/// Eisenstein's bookkeeping up to `count`: the parity of `1 + 2 + ... +
/// count` is the combined parity of the whole parts, of the distances and of
/// the number of multiples in the upper half.
proof fn lemma_eisenstein_prefix(m: nat, n: nat, count: nat)
    requires
        m % 2 == 1,
        n % 2 == 1,
    ensures
        parity_upto(count, oddness()) == (((floor_sum(m, n, count) % 2 == 1) != parity_over(
            magnitudes(m, n, count),
            oddness(),
        )) != flips(m, n, count)),
    decreases count,
{
    if count == 0 {
        assert(magnitudes(m, n, 0) =~= Seq::<nat>::empty());
    } else {
        let before = (count - 1) as nat;
        let s = magnitudes(m, n, count);
        lemma_eisenstein_prefix(m, n, before);
        assert(s.drop_last() =~= magnitudes(m, n, before));
        assert(s.last() == magnitude(m * count, n));
        lemma_parity_of_multiple(m, n, count);
        lemma_residue_shrinks(m * count, n);
    }
}

/// Eisenstein's lemma: for odd `m` and `n` without a common factor, the
/// number of multiples of `m` in the upper half modulo `n` has the parity of
/// the number of lattice points below the line of slope `m / n`.
pub proof fn lemma_eisenstein(m: nat, n: nat)
    requires
        m % 2 == 1,
        n % 2 == 1,
        !common_factor(m, n),
    ensures
        flips(m, n, n / 2) == (floor_sum(m, n, n / 2) % 2 == 1),
{
    let h = n / 2;
    lemma_eisenstein_prefix(m, n, h);
    lemma_magnitudes_rearrange(m, n);
    lemma_parity_of_rearrangement(magnitudes(m, n, h), h, oddness());
}

/// Where every whole part in a range is the same, the sum over the range is
/// that whole part times the length of the range.
proof fn lemma_floor_sum_constant(n: nat, m: nat, low: nat, high: nat, c: nat)
    requires
        low <= high,
        forall|j: nat| low < j <= high ==> #[trigger] floor_at(n, m, j) == c,
    ensures
        floor_sum(n, m, high) == floor_sum(n, m, low) + (high - low) * c,
    decreases high - low,
{
    if low == high {
        assert((high - low) * c == 0) by (nonlinear_arith)
            requires
                high == low,
        ;
    } else {
        let before = (high - 1) as nat;
        lemma_floor_sum_constant(n, m, low, before, c);
        assert(floor_at(n, m, high) == c);
        assert((high - low) * c == (before - low) * c + c) by (nonlinear_arith)
            requires
                before == high - 1,
        ;
    }
}

/// Between the whole parts of `m (k - 1) / n` and `m k / n`, the line of slope
/// `n / m` stays in the strip from `k - 1` to `k`: no lattice point lies on
/// the line there.
proof fn lemma_floor_in_strip(m: nat, n: nat, k: nat, j: nat)
    requires
        m >= 1,
        n >= 1,
        !common_factor(m, n),
        1 <= k < n,
        floor_at(m, n, (k - 1) as nat) < j <= floor_at(m, n, k),
    ensures
        floor_at(n, m, j) == k - 1,
{
    let before = (k - 1) as nat;
    let low = (m * before) / n;
    let high = (m * k) / n;
    lemma_fundamental_div_mod((m * before) as int, n as int);
    lemma_fundamental_div_mod((m * k) as int, n as int);
    lemma_residue_shrinks(m * before, n);
    lemma_residue_shrinks(m * k, n);
    let below = m * before;
    let below_rest = below % n;
    let above = m * k;
    let above_rest = above % n;
    assert(n * j > below) by (nonlinear_arith)
        requires
            below == n * low + below_rest,
            below_rest < n,
            j >= low + 1,
    ;
    assert(n * j <= above) by (nonlinear_arith)
        requires
            above == n * high + above_rest,
            j <= high,
    ;
    if n * j == above {
        assert(above_rest == 0) by (nonlinear_arith)
            requires
                above == n * high + above_rest,
                n * j == above,
                j <= high,
                n >= 1,
                above_rest < n,
        ;
        lemma_coprime_cancel(m, k, n);
        lemma_small_mod(k, n);
    }
    assert(n * j - m * before < m) by (nonlinear_arith)
        requires
            n * j < m * k,
            before == k - 1,
    ;
    assert(n * j == before * m + (n * j - m * before)) by (nonlinear_arith);
    lemma_fundamental_div_mod_converse(
        (n * j) as int,
        m as int,
        before as int,
        n * j - m * before,
    );
}

/// The lattice points of a rectangle under the line of slope `m / n`, counted
/// by columns, and those above it, counted by rows, make up the rectangle.
proof fn lemma_lattice(m: nat, n: nat, count: nat)
    requires
        m >= 1,
        n >= 1,
        !common_factor(m, n),
        count < n,
    ensures
        floor_sum(m, n, count) + floor_sum(n, m, floor_at(m, n, count)) == count * floor_at(
            m,
            n,
            count,
        ),
    decreases count,
{
    if count == 0 {
        assert(m * 0 == 0);
        lemma_small_mod(0, n);
        lemma_fundamental_div_mod(0, n as int);
        assert(floor_at(m, n, 0) == 0) by (nonlinear_arith)
            requires
                0 == n * floor_at(m, n, 0) + 0nat % n,
                0nat % n == 0,
                n >= 1,
        ;
    } else {
        let before = (count - 1) as nat;
        let low = floor_at(m, n, before);
        let high = floor_at(m, n, count);
        lemma_lattice(m, n, before);
        assert(m * before <= m * count) by (nonlinear_arith)
            requires
                before <= count,
        ;
        lemma_div_is_ordered((m * before) as int, (m * count) as int, n as int);
        assert forall|j: nat| low < j <= high implies #[trigger] floor_at(n, m, j)
            == before by {
            lemma_floor_in_strip(m, n, count, j);
        }
        lemma_floor_sum_constant(n, m, low, high, before);
        assert(before * low + high + (high - low) * before == count * high) by (nonlinear_arith)
            requires
                before == count - 1,
        ;
    }
}

/// For odd `m <= n`, the line of slope `m / n` leaves the rectangle of
/// `(n-1)/2` columns at the height `(m-1)/2`.
proof fn lemma_half_heights(m: nat, n: nat)
    requires
        m % 2 == 1,
        n % 2 == 1,
        m <= n,
    ensures
        floor_at(m, n, n / 2) == m / 2,
{
    let hm = m / 2;
    let hn = n / 2;
    assert(m * hn == hm * n + (hn - hm)) by (nonlinear_arith)
        requires
            m == 2 * hm + 1,
            n == 2 * hn + 1,
    ;
    lemma_fundamental_div_mod_converse((m * hn) as int, n as int, hm as int, hn - hm);
}

/// The two lattice counts of odd `m` and `n` without a common factor add up
/// to `(m-1)/2` times `(n-1)/2`.
proof fn lemma_lattice_halves(m: nat, n: nat)
    requires
        m % 2 == 1,
        n % 2 == 1,
        !common_factor(m, n),
    ensures
        floor_sum(m, n, n / 2) + floor_sum(n, m, m / 2) == (m / 2) * (n / 2),
{
    lemma_common_factor_symmetric(m, n);
    if m <= n {
        lemma_half_heights(m, n);
        lemma_lattice(m, n, n / 2);
        assert((n / 2) * (m / 2) == (m / 2) * (n / 2)) by (nonlinear_arith);
    } else {
        lemma_half_heights(n, m);
        lemma_lattice(n, m, m / 2);
    }
}

/// A product is odd exactly when both factors are.
pub proof fn lemma_product_parity(x: nat, y: nat)
    ensures
        (x * y) % 2 == 1 <==> (x % 2 == 1 && y % 2 == 1),
{
    let a = x / 2;
    let b = y / 2;
    let rx = x % 2;
    let ry = y % 2;
    assert(x * y == 2 * (2 * a * b + a * ry + b * rx) + rx * ry) by (nonlinear_arith)
        requires
            x == 2 * a + rx,
            y == 2 * b + ry,
    ;
    assert(rx * ry == (if rx == 1 && ry == 1 {
        1nat
    } else {
        0nat
    })) by (nonlinear_arith)
        requires
            rx <= 1,
            ry <= 1,
    ;
}

/// The law of quadratic reciprocity: for odd `m` and `n` without a common
/// factor, the signs of `m` modulo `n` and of `n` modulo `m` differ exactly
/// when both are 3 modulo 4.
pub proof fn lemma_reciprocity(m: nat, n: nat)
    requires
        m % 2 == 1,
        n % 2 == 1,
        !common_factor(m, n),
    ensures
        (flips(m, n, n / 2) != flips(n, m, m / 2)) == (m % 4 == 3 && n % 4 == 3),
{
    let hm = m / 2;
    let hn = n / 2;
    lemma_common_factor_symmetric(m, n);
    lemma_eisenstein(m, n);
    lemma_eisenstein(n, m);
    lemma_lattice_halves(m, n);
    lemma_product_parity(hm, hn);
}

/// The reduction that computes the symbol gives Gauss's sign, whenever the
/// modulus is odd and has no factor in common with `a`.
pub proof fn lemma_jacobi_is_gauss_sign(a: nat, n: nat)
    requires
        n % 2 == 1,
        !common_factor(a, n),
    ensures
        jacobi(a, n) == gauss_sign(a, n),
    decreases a + n, (if a >= n { 1nat } else { 0nat }),
{
    if a == 0 {
        if n != 1 {
            lemma_small_mod(0, n);
            lemma_mod_self_0(n as int);
            assert(divides(n, a) && divides(n, n));
        }
    } else if a % 2 == 0 {
        let b = a / 2;
        lemma_common_factor_halve(a, n);
        lemma_jacobi_is_gauss_sign(b, n);
        lemma_sign_of_double(b, n);
        lemma_sign_of_two(n);
    } else {
        let r = n % a;
        lemma_residue_shrinks(n, a);
        lemma_common_factor_remainder(a, n);
        lemma_jacobi_is_gauss_sign(r, a);
        lemma_sign_of_residue(n, a, a / 2);
        lemma_reciprocity(a, n);
    }
}

/// A prime above 2 passes the Solovay–Strassen check for every base that it
/// does not divide: the symbol is not 0, and it is the residue of
/// `a^((p-1)/2)`.
pub proof fn lemma_prime_is_euler_probable_prime(p: nat, a: nat)
    requires
        is_prime(p),
        p % 2 == 1,
        a % p != 0,
    ensures
        euler_probable_prime(p, a),
{
    lemma_prime_shares_nothing(p, a);
    lemma_jacobi_is_gauss_sign(a, p);
    lemma_gauss(p, a);
    assert(((p - 1) / 2) as nat == p / 2);
}

/// For an odd prime modulus the symbol is the Legendre symbol: 1 for the
/// squares that the prime does not divide, and -1 for the numbers that are
/// not squares.
pub proof fn lemma_symbol_is_legendre(p: nat, a: nat)
    requires
        is_prime(p),
        p % 2 == 1,
        a % p != 0,
    ensures
        jacobi(a, p) == (if is_square_mod(a, p) {
            1int
        } else {
            -1int
        }),
{
    lemma_prime_is_euler_probable_prime(p, a);
    lemma_euler_criterion(p, a);
    lemma_jacobi_range(a, p);
    assert(((p - 1) / 2) as nat == p / 2);
    lemma_pow_mod_bound(a, p / 2, p);
}

} // verus!
