//! Why a prime passes the Miller–Rabin check for every base it does not
//! divide: Euclid's lemma, Fermat's little theorem, and the square roots of 1
//! modulo a prime.

use crate::number_theory::{divides, is_prime};
use vstd::arithmetic::div_mod::{
    lemma_fundamental_div_mod, lemma_fundamental_div_mod_converse, lemma_mod_equivalence,
    lemma_mod_multiples_basic, lemma_mul_mod_noop_general, lemma_mul_mod_noop_left,
    lemma_small_mod,
};
use vstd::arithmetic::power::{lemma_pow0, lemma_pow1, lemma_pow_adds, lemma_pow_positive, pow};
use vstd::calc;
use vstd::prelude::*;

verus! {

/// A prime that divides `x * b` with `0 < x < p` divides `b`.
///
/// With `p = q * x + r`, the smaller product `r * b` is a multiple of `p` too,
/// and `r` is not 0 because `x` does not divide the prime.
proof fn lemma_euclid_descent(p: nat, x: nat, b: nat)
    requires
        is_prime(p),
        0 < x < p,
        (x * b) % p == 0,
    ensures
        b % p == 0,
    decreases x,
{
    if x == 1 {
        assert(x * b == b) by (nonlinear_arith)
            requires
                x == 1,
        ;
    } else {
        let q = p / x;
        let r = p % x;
        let k = (x * b) / p;
        lemma_fundamental_div_mod(p as int, x as int);
        lemma_fundamental_div_mod((x * b) as int, p as int);
        assert(!divides(x, p));
        crate::number_theory::lemma_residue_shrinks(p, x);
        assert(r * b == p * (b - q * k)) by (nonlinear_arith)
            requires
                p == x * q + r,
                x * b == p * k,
        ;
        lemma_mod_multiples_basic(b - q * k, p as int);
        assert((b - q * k) * p == p * (b - q * k)) by (nonlinear_arith);
        lemma_euclid_descent(p, r, b);
    }
}

/// Euclid's lemma: a prime that divides a product divides one of the factors.
pub proof fn lemma_euclid(p: nat, a: nat, b: nat)
    requires
        is_prime(p),
        (a * b) % p == 0,
    ensures
        a % p == 0 || b % p == 0,
{
    let x = a % p;
    if x != 0 {
        lemma_mul_mod_noop_left(a as int, b as int, p as int);
        crate::number_theory::lemma_residue_shrinks(a, p);
        lemma_euclid_descent(p, x, b);
    }
}

/// `1 * 2 * ... * k`.
pub open spec fn factorial(k: nat) -> nat
    decreases k,
{
    if k == 0 {
        1
    } else {
        k * factorial((k - 1) as nat)
    }
}

/// A prime does not divide the factorial of a smaller number.
pub proof fn lemma_prime_spares_factorial(p: nat, k: nat)
    requires
        is_prime(p),
        k < p,
    ensures
        factorial(k) % p != 0,
    decreases k,
{
    if k == 0 {
        lemma_small_mod(1, p);
    } else {
        lemma_prime_spares_factorial(p, (k - 1) as nat);
        lemma_small_mod(k, p);
        if factorial(k) % p == 0 {
            lemma_euclid(p, k, factorial((k - 1) as nat));
        }
    }
}

/// The product of the entries of `s`.
pub open spec fn product(s: Seq<nat>) -> nat
    decreases s.len(),
{
    if s.len() == 0 {
        1
    } else {
        product(s.drop_last()) * s.last()
    }
}

/// Every entry of `s` lies in `1..=m`, and no two entries are equal.
pub open spec fn distinct_within(s: Seq<nat>, m: nat) -> bool {
    &&& forall|i: int| 0 <= i < s.len() ==> 1 <= #[trigger] s[i] <= m
    &&& forall|i: int, j: int| 0 <= i < j < s.len() ==> #[trigger] s[i] != #[trigger] s[j]
}

/// Taking one entry out of a product divides the product by that entry.
proof fn lemma_product_remove(s: Seq<nat>, k: int)
    requires
        0 <= k < s.len(),
    ensures
        product(s) == s[k] * product(s.remove(k)),
    decreases s.len(),
{
    let rest = s.remove(k);
    if k == s.len() - 1 {
        assert(rest =~= s.drop_last());
        assert(product(s.drop_last()) * s.last() == s.last() * product(s.drop_last()))
            by (nonlinear_arith);
    } else {
        lemma_product_remove(s.drop_last(), k);
        assert(rest.drop_last() =~= s.drop_last().remove(k));
        assert(rest.last() == s.last());
        let inner = product(rest.drop_last());
        assert((s[k] * inner) * s.last() == s[k] * (inner * s.last())) by (nonlinear_arith);
    }
}

/// Taking the largest entry `m` out of distinct entries within `1..=m` leaves
/// distinct entries within `1..=m - 1`.
pub proof fn lemma_distinct_remove(s: Seq<nat>, m: nat, k: int)
    requires
        distinct_within(s, m),
        0 <= k < s.len(),
        s[k] == m,
    ensures
        distinct_within(s.remove(k), (m - 1) as nat),
        s.remove(k).len() == s.len() - 1,
{
    let rest = s.remove(k);
    assert forall|i: int| 0 <= i < rest.len() implies 1 <= #[trigger] rest[i] <= m - 1 by {
        if i < k {
            assert(rest[i] == s[i]);
        } else {
            assert(rest[i] == s[i + 1]);
        }
    }
    assert forall|i: int, j: int| 0 <= i < j < rest.len() implies #[trigger] rest[i]
        != #[trigger] rest[j] by {
        let i0 = if i < k {
            i
        } else {
            i + 1
        };
        let j0 = if j < k {
            j
        } else {
            j + 1
        };
        assert(rest[i] == s[i0]);
        assert(rest[j] == s[j0]);
    }
}

/// Distinct entries within `1..=m` that do not include `m` lie within
/// `1..=m - 1`.
pub proof fn lemma_distinct_without_top(s: Seq<nat>, m: nat)
    requires
        distinct_within(s, m),
        forall|k: int| 0 <= k < s.len() ==> #[trigger] s[k] != m,
    ensures
        distinct_within(s, (m - 1) as nat) || s.len() == 0,
{
}

/// There are at most `m` distinct entries within `1..=m`.
pub proof fn lemma_distinct_length(s: Seq<nat>, m: nat)
    requires
        distinct_within(s, m),
    ensures
        s.len() <= m,
    decreases m,
{
    if s.len() == 0 {
    } else if m == 0 {
        assert(1 <= s[0] <= m);
    } else if exists|k: int| 0 <= k < s.len() && #[trigger] s[k] == m {
        let k = choose|k: int| 0 <= k < s.len() && #[trigger] s[k] == m;
        lemma_distinct_remove(s, m, k);
        lemma_distinct_length(s.remove(k), (m - 1) as nat);
    } else {
        lemma_distinct_without_top(s, m);
        lemma_distinct_length(s, (m - 1) as nat);
    }
}

/// The product of `m` distinct numbers within `1..=m` is `m!`: they are the
/// numbers 1 to `m` in some order.
pub proof fn lemma_product_of_rearrangement(s: Seq<nat>, m: nat)
    requires
        distinct_within(s, m),
        s.len() == m,
    ensures
        product(s) == factorial(m),
    decreases m,
{
    if m > 0 {
        if exists|k: int| 0 <= k < s.len() && #[trigger] s[k] == m {
            let k = choose|k: int| 0 <= k < s.len() && #[trigger] s[k] == m;
            lemma_distinct_remove(s, m, k);
            lemma_product_of_rearrangement(s.remove(k), (m - 1) as nat);
            lemma_product_remove(s, k);
        } else {
            lemma_distinct_without_top(s, m);
            lemma_distinct_length(s, (m - 1) as nat);
        }
    }
}

/// The residues of `a`, `2a`, ..., `ka` modulo `p`.
pub open spec fn multiples_mod(a: nat, p: nat, k: nat) -> Seq<nat> {
    Seq::new(k, |i: int| (a * ((i + 1) as nat)) % p)
}

/// Modulo a prime `p` that does not divide `a`, the multiples `a`, `2a`, ...,
/// `(p-1)a` leave the residues 1 to `p - 1`, each once.
proof fn lemma_multiples_are_distinct(a: nat, p: nat)
    requires
        is_prime(p),
        a % p != 0,
    ensures
        distinct_within(multiples_mod(a, p, (p - 1) as nat), (p - 1) as nat),
        multiples_mod(a, p, (p - 1) as nat).len() == p - 1,
{
    let s = multiples_mod(a, p, (p - 1) as nat);
    assert forall|i: int| 0 <= i < s.len() implies 1 <= #[trigger] s[i] <= p - 1 by {
        let m = (i + 1) as nat;
        crate::number_theory::lemma_residue_shrinks(a * m, p);
        lemma_small_mod(m, p);
        if (a * m) % p == 0 {
            lemma_euclid(p, a, m);
        }
    }
    assert forall|i: int, j: int| 0 <= i < j < s.len() implies #[trigger] s[i] != #[trigger] s[j] by {
        let mi = (i + 1) as nat;
        let mj = (j + 1) as nat;
        let gap = (j - i) as nat;
        if s[i] == s[j] {
            lemma_mod_equivalence((a * mj) as int, (a * mi) as int, p as int);
            assert(a * mj - a * mi == a * gap) by (nonlinear_arith)
                requires
                    gap == mj - mi,
            ;
            lemma_euclid(p, a, gap);
            lemma_small_mod(gap, p);
        }
    }
}

/// The product of the residues of `a`, `2a`, ..., `ka` is congruent to
/// `a^k * k!`.
proof fn lemma_multiples_product(a: nat, p: nat, k: nat)
    requires
        p > 0,
    ensures
        product(multiples_mod(a, p, k)) % p == (pow(a as int, k) * factorial(k)) % (p as int),
    decreases k,
{
    if k == 0 {
        lemma_pow0(a as int);
    } else {
        let j = (k - 1) as nat;
        let before = multiples_mod(a, p, j);
        let s = multiples_mod(a, p, k);
        lemma_multiples_product(a, p, j);
        assert(s.drop_last() =~= before);
        assert(s.last() == (a * k) % p);
        let x = product(before) as int;
        let y = pow(a as int, j) * factorial(j);
        let z = (a * k) as int;
        let m = p as int;
        calc! {
            (==)
            (product(s) as int) % m; {}
            (x * (z % m)) % m; {
                lemma_mul_mod_noop_general(x, z, m);
            }
            ((x % m) * (z % m)) % m; {}
            ((y % m) * (z % m)) % m; {
                lemma_mul_mod_noop_general(y, z, m);
            }
            (y * z) % m; {
                lemma_pow_adds(a as int, j, 1);
                lemma_pow1(a as int);
                assert((pow(a as int, j) * factorial(j)) * (a * k) == (pow(a as int, j) * a) * (k
                    * factorial(j))) by (nonlinear_arith);
            }
            (pow(a as int, k) * factorial(k)) % m;
        }
    }
}

/// Modulo a prime, 1 has no square roots but 1 and -1.
pub proof fn lemma_square_root_of_one(p: nat, x: nat)
    requires
        is_prime(p),
        x < p,
        (x * x) % p == 1,
    ensures
        x == 1 || x == p - 1,
{
    lemma_small_mod(0, p);
    lemma_small_mod(1, p);
    assert(x != 0) by {
        if x == 0 {
            assert(x * x == 0) by (nonlinear_arith)
                requires
                    x == 0,
            ;
        }
    }
    let below = (x - 1) as nat;
    let above = x + 1;
    lemma_mod_equivalence((x * x) as int, 1, p as int);
    assert(below * above == x * x - 1) by (nonlinear_arith)
        requires
            below == x - 1,
            above == x + 1,
    ;
    lemma_euclid(p, below, above);
    lemma_small_mod(below, p);
    if above < p {
        lemma_small_mod(above, p);
    }
}

/// Fermat's little theorem: for a prime `p` that does not divide `a`,
/// `a^(p-1)` is 1 modulo `p`.
pub proof fn lemma_fermat_little(p: nat, a: nat)
    requires
        is_prime(p),
        a % p != 0,
    ensures
        pow(a as int, (p - 1) as nat) % (p as int) == 1,
{
    let k = (p - 1) as nat;
    let s = multiples_mod(a, p, k);
    let f = factorial(k);
    lemma_multiples_are_distinct(a, p);
    lemma_product_of_rearrangement(s, k);
    lemma_multiples_product(a, p, k);
    lemma_small_mod(0, p);
    lemma_pow_positive(a as int, k);
    let power = pow(a as int, k) as nat;
    let less = (power - 1) as nat;
    lemma_mod_equivalence((power * f) as int, f as int, p as int);
    assert(power * f - f == less * f) by (nonlinear_arith)
        requires
            less == power - 1,
    ;
    lemma_euclid(p, less, f);
    lemma_prime_spares_factorial(p, k);
    lemma_fundamental_div_mod(less as int, p as int);
    lemma_fundamental_div_mod_converse(power as int, p as int, (less / p) as int, 1);
}

} // verus!
