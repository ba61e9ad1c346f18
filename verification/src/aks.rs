//! The coefficient form of the AKS test: `n` is prime exactly when every
//! coefficient of `(1 - x)^n`, apart from the first and the last, is divisible
//! by `n`.
//!
//! The coefficients grow as fast as the binomial coefficients do, so they are
//! held in arbitrary precision. The test takes time and space that grow with
//! `n` itself: it is of use for small numbers only.

use crate::bignum::{
    bigint_clone, bigint_eq, bigint_from_u64, bigint_neg, bigint_rem, bigint_sub, bigint_value,
};
use crate::fermat::{factorial, lemma_euclid};
use crate::number_theory::{
    is_prime, least_divisor, lemma_divides_product, lemma_least_divisor_is_prime,
    lemma_least_divisor_of_composite, lemma_multiple_divides, primality_of,
};
use crate::primality::Primality;
use num_bigint::BigInt;
use vstd::arithmetic::div_mod::{
    lemma_fundamental_div_mod, lemma_fundamental_div_mod_converse, lemma_mul_mod_noop_left,
    lemma_small_mod,
};
use vstd::prelude::*;

verus! {

/// The binomial coefficient "`n` choose `k`", by Pascal's rule.
pub open spec fn binomial(n: nat, k: nat) -> nat
    decreases n,
{
    if k == 0 {
        1
    } else if n == 0 {
        0
    } else {
        binomial((n - 1) as nat, (k - 1) as nat) + binomial((n - 1) as nat, k)
    }
}

/// The coefficient of `x^k` in `(1 - x)^n`.
pub open spec fn signed_binomial(n: nat, k: nat) -> int {
    if k % 2 == 0 {
        binomial(n, k) as int
    } else {
        -(binomial(n, k) as int)
    }
}

/// Every coefficient of `(1 - x)^n` from the second to the middle one is
/// divisible by `n`.
pub open spec fn aks_condition(n: nat) -> bool {
    forall|k: nat| 1 <= k <= n / 2 ==> #[trigger] binomial(n, k) % n == 0
}

/// There is no way to choose more than `n` out of `n`.
pub proof fn lemma_binomial_beyond(n: nat, k: nat)
    requires
        k > n,
    ensures
        binomial(n, k) == 0,
    decreases n,
{
    if n > 0 {
        lemma_binomial_beyond((n - 1) as nat, (k - 1) as nat);
        lemma_binomial_beyond((n - 1) as nat, k);
    }
}

/// There is one way to choose all.
pub proof fn lemma_binomial_full(n: nat)
    ensures
        binomial(n, n) == 1,
    decreases n,
{
    if n > 0 {
        lemma_binomial_full((n - 1) as nat);
        lemma_binomial_beyond((n - 1) as nat, n);
    }
}

/// Pascal's rule with signs: each coefficient of `(1 - x)^n` is the one above
/// it minus the one above and to the left.
pub proof fn lemma_signed_pascal(n: nat, k: nat)
    requires
        n >= 1,
        k >= 1,
    ensures
        signed_binomial(n, k) == signed_binomial((n - 1) as nat, k) - signed_binomial(
            (n - 1) as nat,
            (k - 1) as nat,
        ),
{
}

/// The absorption identity: `k * C(n, k) = n * C(n - 1, k - 1)`.
pub proof fn lemma_absorption(n: nat, k: nat)
    requires
        n >= 1,
        k >= 1,
    ensures
        k * binomial(n, k) == n * binomial((n - 1) as nat, (k - 1) as nat),
    decreases n,
{
    let a = binomial((n - 1) as nat, (k - 1) as nat);
    let b = binomial((n - 1) as nat, k);
    assert(binomial(n, k) == a + b);
    if n == 1 {
        lemma_binomial_beyond(0, k);
        if k > 1 {
            lemma_binomial_beyond(0, (k - 1) as nat);
        }
        assert(k * (a + b) == n * a) by (nonlinear_arith)
            requires
                n == 1,
                b == 0,
                k == 1 || a == 0,
        ;
    } else {
        let d = binomial((n - 2) as nat, (k - 1) as nat);
        lemma_absorption((n - 1) as nat, k);
        assert(k * b == (n - 1) * d);
        if k == 1 {
            assert(k * (a + b) == n * a) by (nonlinear_arith)
                requires
                    k == 1,
                    a == 1,
                    d == 1,
                    k * b == (n - 1) * d,
            ;
        } else {
            let c = binomial((n - 2) as nat, (k - 2) as nat);
            lemma_absorption((n - 1) as nat, (k - 1) as nat);
            assert(a == c + d);
            assert(k * (a + b) == n * a) by (nonlinear_arith)
                requires
                    k * b == (n - 1) * d,
                    (k - 1) * a == (n - 1) * c,
                    a == c + d,
            ;
        }
    }
}

/// A prime divides each of its binomial coefficients but the first and the
/// last.
pub proof fn lemma_prime_divides_binomial(p: nat, k: nat)
    requires
        is_prime(p),
        1 <= k < p,
    ensures
        binomial(p, k) % p == 0,
{
    lemma_absorption(p, k);
    lemma_multiple_divides(p, binomial((p - 1) as nat, (k - 1) as nat));
    lemma_euclid(p, k, binomial(p, k));
    lemma_small_mod(k, p);
}

/// The falling product `m * (m - 1) * ... * (m - k + 1)`.
pub open spec fn falling(m: nat, k: nat) -> nat
    decreases k,
{
    if k == 0 {
        1
    } else {
        m * falling((m - 1) as nat, (k - 1) as nat)
    }
}

/// `C(m, k) * k!` is the falling product of `k` factors from `m` down.
pub proof fn lemma_binomial_factorial(m: nat, k: nat)
    ensures
        binomial(m, k) * factorial(k) == falling(m, k),
    decreases k,
{
    if k == 0 {
        assert(binomial(m, k) * factorial(k) == 1) by (nonlinear_arith)
            requires
                binomial(m, k) == 1,
                factorial(k) == 1,
        ;
    } else if m == 0 {
        assert(binomial(m, k) * factorial(k) == 0) by (nonlinear_arith)
            requires
                binomial(m, k) == 0,
        ;
        assert(m * falling((m - 1) as nat, (k - 1) as nat) == 0) by (nonlinear_arith)
            requires
                m == 0,
        ;
    } else {
        let below = binomial((m - 1) as nat, (k - 1) as nat);
        let rest = factorial((k - 1) as nat);
        lemma_absorption(m, k);
        lemma_binomial_factorial((m - 1) as nat, (k - 1) as nat);
        assert(binomial(m, k) * (k * rest) == m * (below * rest)) by (nonlinear_arith)
            requires
                k * binomial(m, k) == m * below,
        ;
        assert(factorial(k) == k * rest);
        assert(falling(m, k) == m * falling((m - 1) as nat, (k - 1) as nat));
    }
}

/// A falling product with fewer factors than the residue of its first factor
/// modulo a prime `q` has no factor divisible by `q`, so `q` does not divide
/// it.
pub proof fn lemma_falling_avoids_prime(q: nat, m: nat, k: nat)
    requires
        is_prime(q),
        k <= m % q,
    ensures
        falling(m, k) % q != 0,
    decreases k,
{
    if k == 0 {
        lemma_small_mod(1, q);
    } else {
        let t = m / q;
        let r = m % q;
        lemma_fundamental_div_mod(m as int, q as int);
        crate::number_theory::lemma_residue_shrinks(m, q);
        assert(m - 1 == t * q + (r - 1)) by (nonlinear_arith)
            requires
                m == q * t + r,
        ;
        lemma_fundamental_div_mod_converse((m - 1) as int, q as int, t as int, (r - 1) as int);
        lemma_falling_avoids_prime(q, (m - 1) as nat, (k - 1) as nat);
        if falling(m, k) % q == 0 {
            lemma_euclid(q, m, falling((m - 1) as nat, (k - 1) as nat));
        }
    }
}

/// A composite number does not divide all of its middle binomial
/// coefficients: it fails at its least prime factor.
pub proof fn lemma_composite_fails(n: nat)
    requires
        n >= 2,
        !is_prime(n),
    ensures
        1 <= least_divisor(n, 2) <= n / 2,
        binomial(n, least_divisor(n, 2)) % n != 0,
{
    let q = least_divisor(n, 2);
    lemma_least_divisor_is_prime(n);
    lemma_least_divisor_of_composite(n);
    let cofactor = n / q;
    lemma_divides_product(q, n);
    let above = (n - 1) as nat;
    let k = (q - 1) as nat;
    assert(above == (cofactor - 1) * q + (q - 1)) by (nonlinear_arith)
        requires
            n == q * cofactor,
            above == n - 1,
    ;
    lemma_fundamental_div_mod_converse(above as int, q as int, cofactor - 1, q - 1);
    lemma_falling_avoids_prime(q, above, k);
    lemma_binomial_factorial(above, k);
    let inner = binomial(above, k);
    if inner % q == 0 {
        lemma_mul_mod_noop_left(inner as int, factorial(k) as int, q as int);
        lemma_small_mod(0, q);
        assert(0 * factorial(k) == 0) by (nonlinear_arith);
    }
    if binomial(n, q) % n == 0 {
        let t = binomial(n, q) / n;
        lemma_fundamental_div_mod(binomial(n, q) as int, n as int);
        lemma_absorption(n, q);
        assert(inner == q * t) by (nonlinear_arith)
            requires
                binomial(n, q) == n * t,
                q * binomial(n, q) == n * inner,
                n > 0,
        ;
        lemma_multiple_divides(q, t);
    }
}

/// The test condition characterises the primes: for `n` above 1, every
/// middle coefficient of `(1 - x)^n` is divisible by `n` exactly when `n` is
/// prime.
pub proof fn lemma_aks_condition(n: nat)
    requires
        n >= 2,
    ensures
        aks_condition(n) <==> is_prime(n),
{
    if is_prime(n) {
        assert forall|k: nat| 1 <= k <= n / 2 implies #[trigger] binomial(n, k) % n == 0 by {
            lemma_prime_divides_binomial(n, k);
        }
    } else {
        lemma_composite_fails(n);
    }
}

/// The integer that entry `j` of a row of coefficients holds.
pub open spec fn row_entry(row: Seq<BigInt>, j: int) -> int {
    bigint_value(row[j])
}

/// A coefficient is divisible by `n` exactly when the remainder of the
/// division that rounds towards zero is 0, whatever its sign.
proof fn lemma_signed_remainder(n: nat, k: nat, value: int, rem: int)
    requires
        n > 0,
        value == signed_binomial(n, k),
        rem == (if value >= 0 {
            value % (n as int)
        } else {
            -((-value) % (n as int))
        }),
    ensures
        rem == 0 <==> binomial(n, k) % n == 0,
{
}

/// Decides whether `n` is prime by expanding `(1 - x)^n` and testing its
/// coefficients for divisibility by `n`.
pub fn aks_primality_test_usize(n: usize) -> (verdict: Primality)
    requires
        1 < n < usize::MAX,
    ensures
        verdict == primality_of(n as nat),
        verdict == Primality::Prime <==> aks_condition(n as nat),
{
    let n1 = n + 1;
    let n2 = n / 2 + 1;
    let pp = bigint_from_u64(n as u64);
    let zero = bigint_from_u64(0);
    proof {
        lemma_aks_condition(n as nat);
    }
    let mut coefficients: Vec<BigInt> = Vec::new();
    let mut filled: usize = 0;
    while filled < n1
        invariant
            filled <= n1,
            coefficients.len() == filled,
        decreases n1 - filled,
    {
        coefficients.push(bigint_clone(&zero));
        filled += 1;
    }
    coefficients.set(0, bigint_from_u64(1));
    let mut i: usize = 1;
    while i < n1
        invariant
            1 <= i <= n1,
            coefficients.len() == n1,
            forall|t: int|
                0 <= t < i ==> #[trigger] row_entry(coefficients@, t) == signed_binomial(
                    (i - 1) as nat,
                    t as nat,
                ),
        decreases n1 - i,
    {
        let mut prev = bigint_clone(&coefficients[0]);
        assert(row_entry(coefficients@, 0) == 1);
        let mut j: usize = 1;
        while j < i
            invariant
                1 <= j <= i < n1,
                coefficients.len() == n1,
                forall|t: int|
                    0 <= t < j ==> #[trigger] row_entry(coefficients@, t) == signed_binomial(
                        i as nat,
                        t as nat,
                    ),
                forall|t: int|
                    j <= t < i ==> #[trigger] row_entry(coefficients@, t) == signed_binomial(
                        (i - 1) as nat,
                        t as nat,
                    ),
                bigint_value(prev) == signed_binomial((i - 1) as nat, (j - 1) as nat),
            decreases i - j,
        {
            let old = bigint_clone(&coefficients[j]);
            let next = bigint_sub(&old, &prev);
            proof {
                assert(row_entry(coefficients@, j as int) == signed_binomial(
                    (i - 1) as nat,
                    j as nat,
                ));
                lemma_signed_pascal(i as nat, j as nat);
            }
            let ghost before = coefficients@;
            coefficients.set(j, next);
            proof {
                assert forall|t: int| 0 <= t < j + 1 implies #[trigger] row_entry(
                    coefficients@,
                    t,
                ) == signed_binomial(i as nat, t as nat) by {
                    if t < j {
                        assert(row_entry(before, t) == signed_binomial(i as nat, t as nat));
                    }
                }
                assert forall|t: int| j + 1 <= t < i implies #[trigger] row_entry(
                    coefficients@,
                    t,
                ) == signed_binomial((i - 1) as nat, t as nat) by {
                    assert(row_entry(before, t) == signed_binomial((i - 1) as nat, t as nat));
                }
            }
            prev = old;
            j += 1;
        }
        let last = bigint_neg(&prev);
        let ghost before = coefficients@;
        coefficients.set(i, last);
        proof {
            lemma_binomial_full(i as nat);
            lemma_binomial_full((i - 1) as nat);
            assert forall|t: int| 0 <= t < i + 1 implies #[trigger] row_entry(coefficients@, t)
                == signed_binomial(i as nat, t as nat) by {
                if t < i {
                    assert(row_entry(before, t) == signed_binomial(i as nat, t as nat));
                }
            }
        }
        i += 1;
    }
    let mut k: usize = 1;
    while k < n2
        invariant
            1 <= k <= n2,
            n2 == n / 2 + 1,
            n > 1,
            coefficients.len() == n + 1,
            bigint_value(pp) == n,
            bigint_value(zero) == 0,
            aks_condition(n as nat) <==> is_prime(n as nat),
            forall|t: int|
                0 <= t <= n ==> #[trigger] row_entry(coefficients@, t) == signed_binomial(
                    n as nat,
                    t as nat,
                ),
            forall|t: nat| 1 <= t < k ==> #[trigger] binomial(n as nat, t) % (n as nat) == 0,
        decreases n2 - k,
    {
        let rem = bigint_rem(&coefficients[k], &pp);
        proof {
            assert(row_entry(coefficients@, k as int) == signed_binomial(n as nat, k as nat));
            lemma_signed_remainder(
                n as nat,
                k as nat,
                bigint_value(coefficients@[k as int]),
                bigint_value(rem),
            );
        }
        if !bigint_eq(&rem, &zero) {
            assert(binomial(n as nat, k as nat) % (n as nat) != 0);
            return Primality::Composite;
        }
        k += 1;
    }
    Primality::Prime
}

} // verus!
