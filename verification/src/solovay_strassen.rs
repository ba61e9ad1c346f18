//! The Solovay–Strassen test, on 64 bits and in arbitrary precision.

use crate::bignum::{
    big_div_u8, big_eq, big_from_u8, big_gt, big_modpow, big_rem_u8, big_sub_u8, big_value,
};
use crate::legendre::{jacobi, legendre_symbol_biguint, legendre_symbol_u64, lemma_jacobi_zero};
use crate::miller_rabin::{
    lemma_miller_rabin_accepts_primes, lemma_prime_is_strong_probable_prime,
    miller_rabin_verdict, strong_probable_prime,
};
use crate::modular::{lemma_pow_mod_bound, modpow, pow_mod};
use crate::number_theory::{
    divides, is_prime, least_divisor, lemma_even_prime_is_two, lemma_least_divisor_is_prime,
    lemma_least_divisor_of_composite, primality_of,
};
use crate::primality::Primality;
use crate::random::{random_biguint_in, random_u64_in, thread_rng};
use crate::reciprocity::lemma_prime_is_euler_probable_prime;
use num_bigint::BigUint;
use vstd::arithmetic::div_mod::{lemma_mod_self_0, lemma_small_mod};
use vstd::prelude::*;

verus! {

/// `n` passes the Solovay–Strassen check for base `a`: the symbol `(a | n)` is
/// not 0, and `a^((n-1)/2)` is congruent to it modulo `n`, where `n - 1`
/// stands for the symbol `-1`.
pub open spec fn euler_probable_prime(n: nat, a: nat) -> bool {
    let symbol = jacobi(a, n);
    symbol != 0 && pow_mod(a, ((n - 1) / 2) as nat, n) == (if symbol == 1 {
        1
    } else {
        n - 1
    })
}

/// On a prime above 2 all the tests agree: trial division and the
/// deterministic Miller–Rabin test say `Prime`, and no base in `2..n` makes
/// either probabilistic test say `Composite`.
pub proof fn lemma_tests_agree_on_primes(n: u64, a: nat)
    requires
        is_prime(n as nat),
        n > 2,
        2 <= a < n,
    ensures
        primality_of(n as nat) == Primality::Prime,
        miller_rabin_verdict(n) == Primality::Prime,
        strong_probable_prime(n as nat, a),
        euler_probable_prime(n as nat, a),
{
    if n % 2 == 0 {
        lemma_even_prime_is_two(n as nat);
    }
    lemma_small_mod(a, n as nat);
    lemma_miller_rabin_accepts_primes(n);
    lemma_prime_is_strong_probable_prime(n as nat, a);
    lemma_prime_is_euler_probable_prime(n as nat, a);
}

/// A composite odd number fails the Solovay–Strassen check for some base:
/// for its least prime factor, whose symbol is 0.
pub proof fn lemma_composite_fails_euler(n: nat)
    requires
        n > 3,
        n % 2 == 1,
        !is_prime(n),
    ensures
        2 <= least_divisor(n, 2) <= n - 1,
        !euler_probable_prime(n, least_divisor(n, 2)),
{
    let q = least_divisor(n, 2);
    lemma_least_divisor_is_prime(n);
    lemma_least_divisor_of_composite(n);
    lemma_mod_self_0(q as int);
    assert(divides(q, q) && divides(q, n));
    lemma_jacobi_zero(q, n);
}

/// The Solovay–Strassen check characterises the primes: an odd number above
/// 3 is prime exactly when it passes the check for every base in `2..n`.
pub proof fn lemma_solovay_strassen_characterises_primes(n: nat)
    requires
        n > 3,
        n % 2 == 1,
    ensures
        is_prime(n) <==> forall|a: nat| 2 <= a <= n - 1 ==> #[trigger] euler_probable_prime(n, a),
{
    if is_prime(n) {
        assert forall|a: nat| 2 <= a <= n - 1 implies #[trigger] euler_probable_prime(n, a) by {
            lemma_small_mod(a, n);
            lemma_prime_is_euler_probable_prime(n, a);
        }
    } else {
        lemma_composite_fails_euler(n);
    }
}

/// Checks `n` against the single base `a`.
pub fn solovay_strassen_round_u64(n: u64, a: u64) -> (pass: bool)
    requires
        n > 1,
        n % 2 == 1,
        2 <= a < n,
    ensures
        pass == euler_probable_prime(n as nat, a as nat),
        is_prime(n as nat) ==> pass,
{
    proof {
        if is_prime(n as nat) {
            lemma_small_mod(a as nat, n as nat);
            lemma_prime_is_euler_probable_prime(n as nat, a as nat);
        }
    }
    let n_minus_one = n - 1;
    let exp = n_minus_one / 2;
    let symbol = legendre_symbol_u64(a, n);
    if symbol == 0 {
        false
    } else if symbol == 1 {
        modpow(a, exp, n) == 1
    } else {
        modpow(a, exp, n) == n_minus_one
    }
}

/// What round number `round` of `k` decides, once its base `a` is drawn: the
/// test ends with `Composite` where the base refutes `n`, ends with
/// `ProbablyPrime` where the base passes in the last round, and goes on to
/// the next round where the base passes in an earlier one.
pub fn solovay_strassen_step_u64(n: u64, k: usize, round: usize, a: u64) -> (end: Option<
    Primality,
>)
    requires
        n > 1,
        n % 2 == 1,
        2 <= a < n,
        round < k,
    ensures
        !euler_probable_prime(n as nat, a as nat) ==> end == Some(Primality::Composite),
        euler_probable_prime(n as nat, a as nat) && round + 1 == k ==> end == Some(
            Primality::ProbablyPrime,
        ),
        euler_probable_prime(n as nat, a as nat) && round + 1 < k ==> end.is_none(),
{
    if !solovay_strassen_round_u64(n, a) {
        Some(Primality::Composite)
    } else if round + 1 == k {
        Some(Primality::ProbablyPrime)
    } else {
        None
    }
}

/// The verdict of the test when its rounds draw the bases `draws`, in that
/// order: `ProbablyPrime` where every base passes, `Composite` where one of
/// them refutes `n`.
pub fn solovay_strassen_verdict_u64(n: u64, draws: &Vec<u64>) -> (verdict: Primality)
    requires
        n > 1,
        n % 2 == 1,
        draws.len() > 0,
        forall|i: int| 0 <= i < draws.len() ==> 2 <= #[trigger] draws[i] < n,
    ensures
        verdict == (if forall|i: int|
            0 <= i < draws.len() ==> euler_probable_prime(n as nat, #[trigger] draws[i] as nat) {
            Primality::ProbablyPrime
        } else {
            Primality::Composite
        }),
        is_prime(n as nat) ==> verdict == Primality::ProbablyPrime,
{
    let k = draws.len();
    let mut round: usize = 0;
    loop
        invariant
            n > 1,
            n % 2 == 1,
            k == draws.len(),
            round < k,
            forall|i: int| 0 <= i < draws.len() ==> 2 <= #[trigger] draws[i] < n,
            forall|i: int|
                0 <= i < round ==> euler_probable_prime(n as nat, #[trigger] draws[i] as nat),
        decreases k - round,
    {
        match solovay_strassen_step_u64(n, k, round, draws[round]) {
            Some(verdict) => {
                proof {
                    if is_prime(n as nat) {
                        lemma_small_mod(draws[round as int] as nat, n as nat);
                        lemma_prime_is_euler_probable_prime(
                            n as nat,
                            draws[round as int] as nat,
                        );
                    }
                }
                return verdict;
            },
            None => {
                round += 1;
            },
        }
    }
}

/// The Solovay–Strassen test on 64 bits: `k` rounds, each against a base drawn
/// at random from `2..=n - 1` and decided by [`solovay_strassen_step_u64`].
///
/// The test is meant for odd `n` above 3. The numbers up to 3 are answered
/// without a round, as 5 is: 0 and 1 are `ZeroOrOne`; 2, 3 and 5 are
/// `ProbablyPrime`. Which bases are drawn is left open, so the verdict is
/// stated for every draw: `Composite` is returned only when a drawn base
/// refutes `n`, which never happens to a prime.
pub fn solovay_strassen_primality_test_u64(n: u64, k: usize) -> (verdict: Primality)
    requires
        n > 3 ==> n % 2 == 1,
        k > 0,
    ensures
        n < 2 ==> verdict == Primality::ZeroOrOne,
        n == 2 || n == 3 || n == 5 ==> verdict == Primality::ProbablyPrime,
        n > 5 ==> verdict == Primality::ProbablyPrime || verdict == Primality::Composite,
        verdict == Primality::Composite ==> exists|a: nat|
            2 <= a <= n - 1 && !#[trigger] euler_probable_prime(n as nat, a),
        is_prime(n as nat) ==> verdict == Primality::ProbablyPrime,
{
    match n {
        0 | 1 => Primality::ZeroOrOne,
        2 | 3 | 5 => Primality::ProbablyPrime,
        _ => {
            let mut rng = thread_rng();
            let mut round: usize = 0;
            loop
                invariant
                    n > 5,
                    n % 2 == 1,
                    round < k,
                decreases k - round,
            {
                let a: u64 = random_u64_in(&mut rng, 2, n);
                match solovay_strassen_step_u64(n, k, round, a) {
                    Some(verdict) => {
                        proof {
                            if is_prime(n as nat) {
                                lemma_small_mod(a as nat, n as nat);
                                lemma_prime_is_euler_probable_prime(n as nat, a as nat);
                            }
                            if verdict == Primality::Composite {
                                assert(!euler_probable_prime(n as nat, a as nat));
                            }
                        }
                        return verdict;
                    },
                    None => {
                        round += 1;
                    },
                }
            }
        },
    }
}

/// Checks `n` against the single base `a` in arbitrary precision.
pub fn solovay_strassen_round_biguint(n: &BigUint, a: &BigUint) -> (pass: bool)
    requires
        big_value(*n) > 1,
        big_value(*n) % 2 == 1,
        2 <= big_value(*a) < big_value(*n),
    ensures
        pass == euler_probable_prime(big_value(*n), big_value(*a)),
        is_prime(big_value(*n)) ==> pass,
{
    proof {
        if is_prime(big_value(*n)) {
            lemma_small_mod(big_value(*a), big_value(*n));
            lemma_prime_is_euler_probable_prime(big_value(*n), big_value(*a));
        }
    }
    let zero = big_from_u8(0);
    let one = big_from_u8(1);
    let three = big_from_u8(3);
    let five = big_from_u8(5);
    let n_minus_one = big_sub_u8(n, 1);
    let exp = big_div_u8(&n_minus_one, 2);
    let symbol = legendre_symbol_biguint(a, n, &zero, &one, &three, &five);
    proof {
        lemma_pow_mod_bound(big_value(*a), big_value(exp), big_value(*n));
    }
    if symbol == 0 {
        false
    } else if symbol == 1 {
        big_eq(&big_modpow(a, &exp, n), &one)
    } else {
        big_eq(&big_modpow(a, &exp, n), &n_minus_one)
    }
}

/// What round number `round` of `k` decides in arbitrary precision, once its
/// base `a` is drawn: the test ends with `Composite` where the base refutes
/// `n`, ends with `ProbablyPrime` where the base passes in the last round, and
/// goes on to the next round where the base passes in an earlier one.
pub fn solovay_strassen_step_biguint(n: &BigUint, k: usize, round: usize, a: &BigUint) -> (end:
    Option<Primality>)
    requires
        big_value(*n) > 1,
        big_value(*n) % 2 == 1,
        2 <= big_value(*a) < big_value(*n),
        round < k,
    ensures
        !euler_probable_prime(big_value(*n), big_value(*a)) ==> end == Some(Primality::Composite),
        euler_probable_prime(big_value(*n), big_value(*a)) && round + 1 == k ==> end == Some(
            Primality::ProbablyPrime,
        ),
        euler_probable_prime(big_value(*n), big_value(*a)) && round + 1 < k ==> end.is_none(),
{
    if !solovay_strassen_round_biguint(n, a) {
        Some(Primality::Composite)
    } else if round + 1 == k {
        Some(Primality::ProbablyPrime)
    } else {
        None
    }
}

/// The verdict of the test in arbitrary precision when its rounds draw the
/// bases `draws`, in that order: `ProbablyPrime` where every base passes,
/// `Composite` where one of them refutes `n`.
pub fn solovay_strassen_verdict_biguint(n: &BigUint, draws: &Vec<BigUint>) -> (verdict: Primality)
    requires
        big_value(*n) > 1,
        big_value(*n) % 2 == 1,
        draws.len() > 0,
        forall|i: int| 0 <= i < draws.len() ==> 2 <= #[trigger] big_value(draws[i]) < big_value(*n),
    ensures
        verdict == (if forall|i: int|
            0 <= i < draws.len() ==> euler_probable_prime(
                big_value(*n),
                #[trigger] big_value(draws[i]),
            ) {
            Primality::ProbablyPrime
        } else {
            Primality::Composite
        }),
        is_prime(big_value(*n)) ==> verdict == Primality::ProbablyPrime,
{
    let k = draws.len();
    let mut round: usize = 0;
    loop
        invariant
            big_value(*n) > 1,
            big_value(*n) % 2 == 1,
            k == draws.len(),
            round < k,
            forall|i: int|
                0 <= i < draws.len() ==> 2 <= #[trigger] big_value(draws[i]) < big_value(*n),
            forall|i: int|
                0 <= i < round ==> euler_probable_prime(
                    big_value(*n),
                    #[trigger] big_value(draws[i]),
                ),
        decreases k - round,
    {
        match solovay_strassen_step_biguint(n, k, round, &draws[round]) {
            Some(verdict) => {
                proof {
                    if is_prime(big_value(*n)) {
                        lemma_small_mod(big_value(draws[round as int]), big_value(*n));
                        lemma_prime_is_euler_probable_prime(
                            big_value(*n),
                            big_value(draws[round as int]),
                        );
                    }
                }
                return verdict;
            },
            None => {
                round += 1;
            },
        }
    }
}

/// The Solovay–Strassen test in arbitrary precision: `k` rounds, each against
/// a base drawn at random from `2..=n - 1` and decided by
/// [`solovay_strassen_step_biguint`].
///
/// Which bases are drawn is left open, so the verdict is stated for every
/// draw: `Composite` is returned only when a drawn base refutes `n`, which
/// never happens to a prime.
pub fn solovay_strassen_primality_test_biguint(n: &BigUint, k: usize) -> (verdict: Primality)
    requires
        big_value(*n) > 3,
        big_value(*n) % 2 == 1,
        k > 0,
    ensures
        verdict == Primality::ProbablyPrime || verdict == Primality::Composite,
        verdict == Primality::Composite ==> exists|a: nat|
            2 <= a <= big_value(*n) - 1 && !#[trigger] euler_probable_prime(big_value(*n), a),
        is_prime(big_value(*n)) ==> verdict == Primality::ProbablyPrime,
{
    let two = big_from_u8(2);
    let mut rng = thread_rng();
    let mut round: usize = 0;
    loop
        invariant
            big_value(*n) > 3,
            big_value(*n) % 2 == 1,
            big_value(two) == 2,
            round < k,
        decreases k - round,
    {
        let a = random_biguint_in(&mut rng, &two, n);
        match solovay_strassen_step_biguint(n, k, round, &a) {
            Some(verdict) => {
                proof {
                    if is_prime(big_value(*n)) {
                        lemma_small_mod(big_value(a), big_value(*n));
                        lemma_prime_is_euler_probable_prime(big_value(*n), big_value(a));
                    }
                    if verdict == Primality::Composite {
                        assert(!euler_probable_prime(big_value(*n), big_value(a)));
                    }
                }
                return verdict;
            },
            None => {
                round += 1;
            },
        }
    }
}

/// The Solovay–Strassen test in arbitrary precision for a caller that has not
/// yet checked the input: tests that `n` is odd and above 3 and that `k` is
/// positive, runs the test if so, and returns `None` if not.
pub fn checked_solovay_strassen_primality_test_biguint(n: &BigUint, k: usize) -> (verdict: Option<
    Primality,
>)
    ensures
        verdict.is_some() <==> big_value(*n) > 3 && big_value(*n) % 2 == 1 && k > 0,
        verdict == Some(Primality::ProbablyPrime) || verdict == Some(Primality::Composite)
            || verdict.is_none(),
        verdict == Some(Primality::Composite) ==> exists|a: nat|
            2 <= a <= big_value(*n) - 1 && !#[trigger] euler_probable_prime(big_value(*n), a),
        is_prime(big_value(*n)) ==> verdict != Some(Primality::Composite),
{
    let three = big_from_u8(3);
    let one = big_from_u8(1);
    if k > 0 && big_gt(n, &three) && big_eq(&big_rem_u8(n, 2), &one) {
        Some(solovay_strassen_primality_test_biguint(n, k))
    } else {
        None
    }
}

} // verus!
