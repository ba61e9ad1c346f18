//! The Miller–Rabin test: deterministic on 64 bits, probabilistic beyond.

use crate::bignum::{
    big_bits, big_clone, big_div_u8, big_eq, big_from_u8, big_gt, big_modpow, big_rem_u8,
    big_sub_u8, big_value,
};
use crate::fermat::{lemma_fermat_little, lemma_square_root_of_one};
use crate::modular::{lemma_pow_mod_bound, lemma_pow_mod_square, modpow, pow_mod};
use crate::number_theory::{
    divides, is_prime, least_divisor, lemma_divides_product, lemma_divides_sum,
    lemma_divides_transitive, lemma_even_prime_is_two, lemma_least_divisor_is_prime,
    lemma_least_divisor_of_composite, lemma_multiple_divides, lemma_residue_shrinks,
    primality_of,
};
use crate::primality::Primality;
use crate::random::{random_biguint_in, thread_rng};
use num_bigint::BigUint;
use vstd::arithmetic::div_mod::{
    lemma_fundamental_div_mod, lemma_fundamental_div_mod_converse, lemma_small_mod,
};
use vstd::arithmetic::power::{
    lemma1_pow, lemma_pow1, lemma_pow_adds, lemma_pow_positive, lemma_square_is_pow2, pow,
};
use vstd::arithmetic::power2::{lemma2_to64, lemma_pow2_pos, lemma_pow2_unfold, pow2};
use vstd::prelude::*;

verus! {

/// What is left of `m` once every factor 2 is divided out.
pub open spec fn odd_part(m: nat) -> nat
    decreases m,
{
    if m == 0 || m % 2 == 1 {
        m
    } else {
        odd_part(m / 2)
    }
}

/// How many factors 2 the number `m` has.
pub open spec fn two_exponent(m: nat) -> nat
    decreases m,
{
    if m == 0 || m % 2 == 1 {
        0
    } else {
        1 + two_exponent(m / 2)
    }
}

/// `a^(d * 2^i)` is `-1` modulo `n`.
pub open spec fn reaches_minus_one(n: nat, a: nat, d: nat, i: nat) -> bool {
    pow_mod(a, d * pow2(i), n) == n - 1
}

/// `n` passes the Miller–Rabin check for base `a`: with `n - 1 = 2^r * d` and
/// `d` odd, either `a^d` is 1 modulo `n`, or one of `a^d`, `a^(2d)`, ...,
/// `a^(2^r * d)` is `-1` modulo `n`.
pub open spec fn strong_probable_prime(n: nat, a: nat) -> bool {
    let d = odd_part((n - 1) as nat);
    let r = two_exponent((n - 1) as nat);
    pow_mod(a, d, n) == 1 || exists|i: nat| i <= r && #[trigger] reaches_minus_one(n, a, d, i)
}

/// The bases that decide primality for every `n` up to each bound, smallest
/// bound first; above the last bound, twelve bases cover all of 64 bits.
pub open spec fn witness_set(n: u64) -> Seq<u64> {
    if n <= 2_046 {
        seq![2]
    } else if n <= 1_373_652 {
        seq![2, 3]
    } else if n <= 9_080_190 {
        seq![31, 73]
    } else if n <= 25_326_000 {
        seq![2, 3, 5]
    } else if n <= 3_215_031_750 {
        seq![2, 3, 5, 7]
    } else if n <= 4_759_123_140 {
        seq![2, 7, 61]
    } else if n <= 1_122_004_669_632 {
        seq![2, 13, 23, 1662803]
    } else if n <= 2_152_302_898_746 {
        seq![2, 3, 5, 7, 11]
    } else if n <= 3_474_749_660_382 {
        seq![2, 3, 5, 7, 11, 13]
    } else if n <= 341_550_071_728_320 {
        seq![2, 3, 5, 7, 11, 13, 17]
    } else if n <= 3_825_123_056_546_413_050 {
        seq![2, 3, 5, 7, 11, 13, 17, 19, 23]
    } else {
        seq![2, 3, 5, 7, 11, 13, 17, 19, 23, 29, 31, 37]
    }
}

/// The verdict of the deterministic test: `Prime` when `n` passes the check
/// for every base of its witness set, `Composite` when some base refutes it.
pub open spec fn miller_rabin_verdict(n: u64) -> Primality {
    if forall|i: int|
        0 <= i < witness_set(n).len() ==> strong_probable_prime(
            n as nat,
            #[trigger] witness_set(n)[i] as nat,
        ) {
        Primality::Prime
    } else {
        Primality::Composite
    }
}

/// The number of factors 2 of `m` is at most `m`.
pub proof fn lemma_two_exponent_bound(m: nat)
    ensures
        two_exponent(m) <= m,
    decreases m,
{
    if m != 0 && m % 2 == 0 {
        lemma_two_exponent_bound(m / 2);
    }
}

/// A positive number below `2^bits` has fewer than `bits` factors 2.
pub proof fn lemma_two_exponent_below_bits(m: nat, bits: nat)
    requires
        0 < m < pow2(bits),
    ensures
        two_exponent(m) < bits,
    decreases m,
{
    if bits == 0 {
        lemma2_to64();
    } else if m % 2 == 0 {
        lemma_pow2_unfold(bits);
        lemma_two_exponent_below_bits(m / 2, (bits - 1) as nat);
    }
}

/// `d * 2^0` is `d`.
proof fn lemma_exponent_start(d: nat)
    ensures
        d * pow2(0) == d,
{
    lemma2_to64();
    assert(d * 1 == d) by (nonlinear_arith);
}

/// Doubling the exponent `d * 2^j` gives `d * 2^(j + 1)`.
proof fn lemma_double_exponent(d: nat, j: nat)
    ensures
        2 * (d * pow2(j)) == d * pow2(j + 1),
{
    lemma_pow2_unfold(j + 1);
    assert(2 * (d * pow2(j)) == d * (2 * pow2(j))) by (nonlinear_arith);
}

/// A number is its odd part times 2 to the number of its factors 2, and the
/// odd part of a positive number is odd.
pub proof fn lemma_split_twos(m: nat)
    ensures
        m == odd_part(m) * pow2(two_exponent(m)),
        m > 0 ==> odd_part(m) % 2 == 1,
    decreases m,
{
    if m == 0 || m % 2 == 1 {
        lemma_exponent_start(m);
    } else {
        lemma_split_twos(m / 2);
        lemma_double_exponent(odd_part(m / 2), two_exponent(m / 2));
    }
}

/// If `a^(d * 2^i)` is 1 modulo a prime, then walking down the chain of
/// square roots either reaches `a^d = 1` or passes through `-1` on the way.
proof fn lemma_square_root_chain(p: nat, a: nat, d: nat, i: nat)
    requires
        is_prime(p),
        pow_mod(a, d * pow2(i), p) == 1,
    ensures
        pow_mod(a, d, p) == 1 || exists|j: nat| j < i && #[trigger] reaches_minus_one(p, a, d, j),
    decreases i,
{
    if i == 0 {
        lemma_exponent_start(d);
    } else {
        let j = (i - 1) as nat;
        let e = d * pow2(j);
        let x = pow_mod(a, e, p);
        lemma_pow_mod_bound(a, e, p);
        lemma_pow_mod_square(a, e, p);
        lemma_double_exponent(d, j);
        lemma_square_is_pow2(x as int);
        lemma_square_root_of_one(p, x);
        if x == 1 {
            lemma_square_root_chain(p, a, d, j);
        } else {
            assert(reaches_minus_one(p, a, d, j));
        }
    }
}

/// A prime passes the Miller–Rabin check for every base that it does not
/// divide: no such base ever refutes a prime.
pub proof fn lemma_prime_is_strong_probable_prime(p: nat, a: nat)
    requires
        is_prime(p),
        a % p != 0,
    ensures
        strong_probable_prime(p, a),
{
    let m = (p - 1) as nat;
    lemma_fermat_little(p, a);
    lemma_split_twos(m);
    lemma_square_root_chain(p, a, odd_part(m), two_exponent(m));
}

/// A power of a divisor `q` of `n`, reduced modulo `n`, is still a multiple
/// of `q`.
proof fn lemma_power_keeps_factor(q: nat, e: nat, n: nat)
    requires
        n >= 1,
        divides(q, n),
        e >= 1,
    ensures
        pow_mod(q, e, n) % q == 0,
{
    let before = (e - 1) as nat;
    lemma_pow_adds(q as int, 1, before);
    lemma_pow1(q as int);
    if q == 1 {
        lemma1_pow(before);
    }
    if q > 1 {
        lemma_pow_positive(q as int, before);
    }
    let rest = pow(q as int, before) as nat;
    let power = pow(q as int, e) as nat;
    assert(power == q * rest);
    lemma_multiple_divides(q, rest);
    let t = power / n;
    let r = power % n;
    lemma_fundamental_div_mod(power as int, n as int);
    lemma_residue_shrinks(power, n);
    lemma_multiple_divides(n, t);
    if t > 0 {
        lemma_divides_transitive(q, n, n * t);
    } else {
        assert(n * t == 0) by (nonlinear_arith)
            requires
                t == 0,
        ;
        lemma_small_mod(0, q);
    }
    lemma_divides_sum(q, n * t, r);
}

/// A composite odd number fails the Miller–Rabin check for some base: for
/// its least prime factor.
pub proof fn lemma_composite_fails_strong(n: nat)
    requires
        n > 4,
        n % 2 == 1,
        !is_prime(n),
    ensures
        2 <= least_divisor(n, 2) <= n - 2,
        !strong_probable_prime(n, least_divisor(n, 2)),
{
    let q = least_divisor(n, 2);
    let m = (n - 1) as nat;
    let d = odd_part(m);
    lemma_least_divisor_is_prime(n);
    lemma_least_divisor_of_composite(n);
    lemma_split_twos(m);
    assert(d >= 1) by (nonlinear_arith)
        requires
            m == d * pow2(two_exponent(m)),
            m >= 1,
    ;
    let cofactor = n / q;
    lemma_divides_product(q, n);
    assert(m == (cofactor - 1) * q + (q - 1)) by (nonlinear_arith)
        requires
            n == q * cofactor,
            m == n - 1,
    ;
    assert(cofactor >= 1) by (nonlinear_arith)
        requires
            n == q * cofactor,
            n > 0,
    ;
    lemma_fundamental_div_mod_converse(m as int, q as int, cofactor - 1, q - 1);
    lemma_small_mod(1, q);
    lemma_power_keeps_factor(q, d, n);
    assert forall|i: nat| i <= two_exponent(m) implies !#[trigger] reaches_minus_one(
        n,
        q,
        d,
        i,
    ) by {
        lemma_pow2_pos(i);
        assert(d * pow2(i) >= 1) by (nonlinear_arith)
            requires
                d >= 1,
                pow2(i) >= 1,
        ;
        lemma_power_keeps_factor(q, d * pow2(i), n);
    }
}

/// The Miller–Rabin check characterises the primes: an odd number above 4 is
/// prime exactly when it passes the check for every base in `2..=n - 2`.
pub proof fn lemma_miller_rabin_characterises_primes(n: nat)
    requires
        n > 4,
        n % 2 == 1,
    ensures
        is_prime(n) <==> forall|a: nat| 2 <= a <= n - 2 ==> #[trigger] strong_probable_prime(n, a),
{
    if is_prime(n) {
        assert forall|a: nat| 2 <= a <= n - 2 implies #[trigger] strong_probable_prime(n, a) by {
            lemma_small_mod(a, n);
            lemma_prime_is_strong_probable_prime(n, a);
        }
    } else {
        lemma_composite_fails_strong(n);
    }
}

/// Each base of a witness set is at least 2 and below the numbers that the
/// set is used for.
pub proof fn lemma_witnesses_below(n: u64, i: int)
    requires
        n > 2,
        n % 2 == 1,
        0 <= i < witness_set(n).len(),
    ensures
        2 <= witness_set(n)[i] < n,
{
}

/// The deterministic test never calls a prime composite: for a prime above 2
/// its verdict is `Prime`, the verdict of trial division.
pub proof fn lemma_miller_rabin_accepts_primes(n: u64)
    requires
        is_prime(n as nat),
        n > 2,
    ensures
        miller_rabin_verdict(n) == Primality::Prime,
        miller_rabin_verdict(n) == primality_of(n as nat),
{
    if n % 2 == 0 {
        lemma_even_prime_is_two(n as nat);
    }
    assert forall|i: int| 0 <= i < witness_set(n).len() implies strong_probable_prime(
        n as nat,
        #[trigger] witness_set(n)[i] as nat,
    ) by {
        lemma_witnesses_below(n, i);
        lemma_small_mod(witness_set(n)[i] as nat, n as nat);
        lemma_prime_is_strong_probable_prime(n as nat, witness_set(n)[i] as nat);
    }
}

/// The deterministic test is deterministic: any two verdicts that its contract
/// admits for the same number are the same verdict, and it is never
/// `ProbablyPrime` or `ZeroOrOne`.
pub proof fn lemma_miller_rabin_deterministic(n: u64, first: Primality, second: Primality)
    requires
        first == miller_rabin_verdict(n),
        second == miller_rabin_verdict(n),
    ensures
        first == second,
        first == Primality::Prime || first == Primality::Composite,
{
}

/// Selects the witness set for `n` by a single range lookup.
pub fn witnesses_u64(n: u64) -> (w: Vec<u64>)
    requires
        n > 2,
        n % 2 == 1,
    ensures
        w@ == witness_set(n),
{
    let w = if n <= 2_046 {
        vec![2]
    } else if n <= 1_373_652 {
        vec![2, 3]
    } else if n <= 9_080_190 {
        vec![31, 73]
    } else if n <= 25_326_000 {
        vec![2, 3, 5]
    } else if n <= 3_215_031_750 {
        vec![2, 3, 5, 7]
    } else if n <= 4_759_123_140 {
        vec![2, 7, 61]
    } else if n <= 1_122_004_669_632 {
        vec![2, 13, 23, 1662803]
    } else if n <= 2_152_302_898_746 {
        vec![2, 3, 5, 7, 11]
    } else if n <= 3_474_749_660_382 {
        vec![2, 3, 5, 7, 11, 13]
    } else if n <= 341_550_071_728_320 {
        vec![2, 3, 5, 7, 11, 13, 17]
    } else if n <= 3_825_123_056_546_413_050 {
        vec![2, 3, 5, 7, 11, 13, 17, 19, 23]
    } else {
        vec![2, 3, 5, 7, 11, 13, 17, 19, 23, 29, 31, 37]
    };
    assert(w@ =~= witness_set(n));
    w
}

/// Writes `m` as `2^r * d` with `d` odd, by dividing out factors 2 and
/// counting them; returns `(d, r)`.
pub fn split_twos_u64(m: u64) -> (split: (u64, u64))
    requires
        m > 0,
    ensures
        split.0 == odd_part(m as nat),
        split.1 == two_exponent(m as nat),
{
    let mut d = m;
    let mut r: u64 = 0;
    proof {
        lemma_two_exponent_bound(m as nat);
    }
    while d % 2 == 0
        invariant
            d > 0,
            odd_part(d as nat) == odd_part(m as nat),
            r + two_exponent(d as nat) == two_exponent(m as nat),
            two_exponent(m as nat) <= u64::MAX,
        decreases d,
    {
        d /= 2;
        r += 1;
    }
    (d, r)
}

/// Checks `n` against the single base `a`, given the factorisation
/// `n - 1 = 2^r * d` with `d` odd.
///
/// `a^d` is computed once and then squared up to `r` times; the check passes
/// as soon as it meets 1 at the start or `n - 1` anywhere.
pub fn miller_rabin_round_u64(n: u64, d: u64, r: u64, a: u64) -> (pass: bool)
    requires
        n > 1,
        d == odd_part((n - 1) as nat),
        r == two_exponent((n - 1) as nat),
    ensures
        pass == strong_probable_prime(n as nat, a as nat),
{
    let n_minus_one = n - 1;
    let mut x = modpow(a, d, n);
    proof {
        lemma_exponent_start(d as nat);
    }
    if x == 1 {
        return true;
    }
    if x == n_minus_one {
        assert(reaches_minus_one(n as nat, a as nat, d as nat, 0));
        return true;
    }
    let mut j: u64 = 0;
    while j < r
        invariant
            n > 1,
            n_minus_one == n - 1,
            d == odd_part((n - 1) as nat),
            r == two_exponent((n - 1) as nat),
            pow_mod(a as nat, d as nat, n as nat) != 1,
            j <= r,
            x == pow_mod(a as nat, d as nat * pow2(j as nat), n as nat),
            forall|i: nat| i <= j ==> !#[trigger] reaches_minus_one(n as nat, a as nat, d as nat, i),
        decreases r - j,
    {
        proof {
            lemma_pow_mod_square(a as nat, d as nat * pow2(j as nat), n as nat);
            lemma_double_exponent(d as nat, j as nat);
        }
        x = modpow(x, 2, n);
        j += 1;
        if x == n_minus_one {
            assert(reaches_minus_one(n as nat, a as nat, d as nat, j as nat));
            return true;
        }
    }
    false
}

/// The deterministic Miller–Rabin test on 64 bits: `n` is checked against
/// each base of its witness set, and the first base that refutes it ends the
/// test.
///
/// A prime is never refuted. That the witness sets refute every composite
/// below 2^64 is a published result of exhaustive computation, which this
/// contract does not repeat: it states the verdict in terms of the checks
/// made.
pub fn miller_rabin_primality_test_u64(n: u64) -> (verdict: Primality)
    requires
        n > 1,
        n % 2 == 1,
    ensures
        verdict == miller_rabin_verdict(n),
        is_prime(n as nat) ==> verdict == Primality::Prime,
{
    proof {
        if is_prime(n as nat) {
            lemma_miller_rabin_accepts_primes(n);
        }
    }
    let n_minus_one = n - 1;
    let (d, r) = split_twos_u64(n_minus_one);
    let witnesses = witnesses_u64(n);
    let k = witnesses.len();
    let mut i: usize = 0;
    while i < k
        invariant
            n > 1,
            n_minus_one == n - 1,
            d == odd_part(n_minus_one as nat),
            r == two_exponent(n_minus_one as nat),
            witnesses@ == witness_set(n),
            is_prime(n as nat) ==> miller_rabin_verdict(n) == Primality::Prime,
            k == witnesses.len(),
            i <= k,
            forall|j: int|
                0 <= j < i ==> strong_probable_prime(n as nat, #[trigger] witness_set(n)[j] as nat),
        decreases k - i,
    {
        let a = witnesses[i];
        if !miller_rabin_round_u64(n, d, r, a) {
            assert(!strong_probable_prime(n as nat, witness_set(n)[i as int] as nat));
            return Primality::Composite;
        }
        i += 1;
    }
    Primality::Prime
}

/// Writes `m` as `2^r * d` with `d` odd, in arbitrary precision; returns
/// `(d, r)`.
pub fn split_twos_biguint(m: &BigUint) -> (split: (BigUint, u64))
    requires
        big_value(*m) > 0,
    ensures
        big_value(split.0) == odd_part(big_value(*m)),
        split.1 == two_exponent(big_value(*m)),
{
    let zero = big_from_u8(0);
    let bits = big_bits(m);
    proof {
        lemma_two_exponent_below_bits(big_value(*m), bits as nat);
    }
    let mut d = big_clone(m);
    let mut r: u64 = 0;
    while big_eq(&big_rem_u8(&d, 2), &zero)
        invariant
            big_value(zero) == 0,
            big_value(d) > 0,
            odd_part(big_value(d)) == odd_part(big_value(*m)),
            r + two_exponent(big_value(d)) == two_exponent(big_value(*m)),
            two_exponent(big_value(*m)) <= u64::MAX,
        decreases big_value(d),
    {
        d = big_div_u8(&d, 2);
        r += 1;
    }
    (d, r)
}

/// Checks `n` against the single base `a` in arbitrary precision, given the
/// factorisation `n - 1 = 2^r * d` with `d` odd.
pub fn miller_rabin_round_biguint(n: &BigUint, d: &BigUint, r: u64, a: &BigUint) -> (pass: bool)
    requires
        big_value(*n) > 1,
        big_value(*d) == odd_part((big_value(*n) - 1) as nat),
        r == two_exponent((big_value(*n) - 1) as nat),
    ensures
        pass == strong_probable_prime(big_value(*n), big_value(*a)),
{
    let ghost nv = big_value(*n);
    let ghost av = big_value(*a);
    let ghost dv = big_value(*d);
    let one = big_from_u8(1);
    let two = big_from_u8(2);
    let n_minus_one = big_sub_u8(n, 1);
    let mut x = big_modpow(a, d, n);
    proof {
        lemma_exponent_start(dv);
        lemma_pow_mod_bound(av, dv, nv);
    }
    if big_eq(&x, &one) {
        return true;
    }
    if big_eq(&x, &n_minus_one) {
        assert(reaches_minus_one(nv, av, dv, 0));
        return true;
    }
    let mut j: u64 = 0;
    while j < r
        invariant
            nv == big_value(*n),
            av == big_value(*a),
            dv == big_value(*d),
            nv > 1,
            big_value(two) == 2,
            big_value(n_minus_one) == nv - 1,
            dv == odd_part((nv - 1) as nat),
            r == two_exponent((nv - 1) as nat),
            pow_mod(av, dv, nv) != 1,
            j <= r,
            big_value(x) == pow_mod(av, dv * pow2(j as nat), nv),
            forall|i: nat| i <= j ==> !#[trigger] reaches_minus_one(nv, av, dv, i),
        decreases r - j,
    {
        proof {
            lemma_pow_mod_square(av, dv * pow2(j as nat), nv);
            lemma_double_exponent(dv, j as nat);
            lemma_pow_mod_bound(big_value(x), 2, nv);
        }
        x = big_modpow(&x, &two, n);
        j += 1;
        if big_eq(&x, &n_minus_one) {
            assert(reaches_minus_one(nv, av, dv, j as nat));
            return true;
        }
    }
    false
}

/// What round number `round` of `k` decides, once its base `a` is drawn: the
/// test ends with `Composite` where the base refutes `n`, ends with
/// `ProbablyPrime` where the base passes in the last round, and goes on to
/// the next round where the base passes in an earlier one.
pub fn miller_rabin_step_biguint(
    n: &BigUint,
    d: &BigUint,
    r: u64,
    k: usize,
    round: usize,
    a: &BigUint,
) -> (end: Option<Primality>)
    requires
        big_value(*n) > 1,
        big_value(*d) == odd_part((big_value(*n) - 1) as nat),
        r == two_exponent((big_value(*n) - 1) as nat),
        round < k,
    ensures
        !strong_probable_prime(big_value(*n), big_value(*a)) ==> end == Some(
            Primality::Composite,
        ),
        strong_probable_prime(big_value(*n), big_value(*a)) && round + 1 == k ==> end == Some(
            Primality::ProbablyPrime,
        ),
        strong_probable_prime(big_value(*n), big_value(*a)) && round + 1 < k ==> end.is_none(),
{
    if !miller_rabin_round_biguint(n, d, r, a) {
        Some(Primality::Composite)
    } else if round + 1 == k {
        Some(Primality::ProbablyPrime)
    } else {
        None
    }
}

/// The verdict of the test when its rounds draw the bases `draws`, in that
/// order: `ProbablyPrime` where every base passes, `Composite` where one of
/// them refutes `n`.
pub fn miller_rabin_verdict_biguint(n: &BigUint, draws: &Vec<BigUint>) -> (verdict: Primality)
    requires
        big_value(*n) > 1,
        draws.len() > 0,
    ensures
        verdict == (if forall|i: int|
            0 <= i < draws.len() ==> strong_probable_prime(
                big_value(*n),
                #[trigger] big_value(draws[i]),
            ) {
            Primality::ProbablyPrime
        } else {
            Primality::Composite
        }),
        is_prime(big_value(*n)) && (forall|i: int|
            0 <= i < draws.len() ==> 1 <= #[trigger] big_value(draws[i]) < big_value(*n))
            ==> verdict == Primality::ProbablyPrime,
{
    let n_minus_one = big_sub_u8(n, 1);
    let (d, r) = split_twos_biguint(&n_minus_one);
    let k = draws.len();
    let mut round: usize = 0;
    loop
        invariant
            big_value(*n) > 1,
            big_value(d) == odd_part((big_value(*n) - 1) as nat),
            r == two_exponent((big_value(*n) - 1) as nat),
            k == draws.len(),
            round < k,
            forall|i: int|
                0 <= i < round ==> strong_probable_prime(
                    big_value(*n),
                    #[trigger] big_value(draws[i]),
                ),
        decreases k - round,
    {
        match miller_rabin_step_biguint(n, &d, r, k, round, &draws[round]) {
            Some(verdict) => {
                proof {
                    let a = big_value(draws[round as int]);
                    if is_prime(big_value(*n)) && 1 <= a < big_value(*n) {
                        lemma_small_mod(a, big_value(*n));
                        lemma_prime_is_strong_probable_prime(big_value(*n), a);
                    }
                }
                return verdict;
            },
            None => {
                round += 1;
            },
        }
    }
}

/// The probabilistic Miller–Rabin test: `k` rounds, each against a base drawn
/// at random from `2..=n - 2` and decided by [`miller_rabin_step_biguint`].
///
/// Which bases are drawn is left open, so the verdict is stated for every
/// draw: `Composite` is returned only when a drawn base refutes `n`, which
/// never happens to a prime.
pub fn miller_rabin_primality_test_biguint(n: &BigUint, k: usize) -> (verdict: Primality)
    requires
        big_value(*n) > 4,
        big_value(*n) % 2 == 1,
        k > 0,
    ensures
        verdict == Primality::ProbablyPrime || verdict == Primality::Composite,
        verdict == Primality::Composite ==> exists|a: nat|
            2 <= a <= big_value(*n) - 2 && !#[trigger] strong_probable_prime(big_value(*n), a),
        (forall|a: nat|
            2 <= a <= big_value(*n) - 2 ==> !#[trigger] strong_probable_prime(big_value(*n), a))
            ==> verdict == Primality::Composite,
        is_prime(big_value(*n)) ==> verdict == Primality::ProbablyPrime,
{
    let two = big_from_u8(2);
    let n_minus_one = big_sub_u8(n, 1);
    let (d, r) = split_twos_biguint(&n_minus_one);
    let mut rng = thread_rng();
    let mut round: usize = 0;
    loop
        invariant
            big_value(*n) > 4,
            big_value(two) == 2,
            big_value(n_minus_one) == big_value(*n) - 1,
            big_value(d) == odd_part((big_value(*n) - 1) as nat),
            r == two_exponent((big_value(*n) - 1) as nat),
            round < k,
        decreases k - round,
    {
        let a = random_biguint_in(&mut rng, &two, &n_minus_one);
        match miller_rabin_step_biguint(n, &d, r, k, round, &a) {
            Some(verdict) => {
                proof {
                    if is_prime(big_value(*n)) {
                        lemma_small_mod(big_value(a), big_value(*n));
                        lemma_prime_is_strong_probable_prime(big_value(*n), big_value(a));
                    }
                    if verdict == Primality::Composite {
                        assert(!strong_probable_prime(big_value(*n), big_value(a)));
                    } else {
                        assert(strong_probable_prime(big_value(*n), big_value(a)));
                    }
                }
                return verdict;
            },
            None => {
                round += 1;
            },
        }
    }
}

/// The probabilistic Miller–Rabin test for a caller that has not yet checked
/// the input: tests that `n` is odd and above 4 and that `k` is positive, runs
/// the test if so, and returns `None` if not.
pub fn checked_miller_rabin_primality_test_biguint(n: &BigUint, k: usize) -> (verdict: Option<
    Primality,
>)
    ensures
        verdict.is_some() <==> big_value(*n) > 4 && big_value(*n) % 2 == 1 && k > 0,
        verdict == Some(Primality::ProbablyPrime) || verdict == Some(Primality::Composite)
            || verdict.is_none(),
        verdict == Some(Primality::Composite) ==> exists|a: nat|
            2 <= a <= big_value(*n) - 2 && !#[trigger] strong_probable_prime(big_value(*n), a),
        (forall|a: nat|
            2 <= a <= big_value(*n) - 2 ==> !#[trigger] strong_probable_prime(big_value(*n), a))
            && verdict.is_some() ==> verdict == Some(Primality::Composite),
        is_prime(big_value(*n)) ==> verdict != Some(Primality::Composite),
{
    let four = big_from_u8(4);
    let one = big_from_u8(1);
    if k > 0 && big_gt(n, &four) && big_eq(&big_rem_u8(n, 2), &one) {
        Some(miller_rabin_primality_test_biguint(n, k))
    } else {
        None
    }
}

} // verus!
