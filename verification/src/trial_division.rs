//! Trial division with 6k±1 stepping: the one certain test for every width.

use crate::number_theory::{
    lemma_candidate_below, lemma_divisor_refutes_prime, lemma_listed_small_prime,
    lemma_prime_by_square_bound, lemma_wheel_start, lemma_wheel_step, no_divisor_below,
    primality_of,
};
use crate::bignum::{
    big_add_u8, big_eq, big_from_u8, big_gt, big_pow, big_rem, big_rem_u8, big_to_u128,
    big_value,
};
use crate::primality::Primality;
use num_bigint::BigUint;
use vstd::arithmetic::power::lemma_square_is_pow2;
use vstd::prelude::*;

verus! {

/// Trial division is deterministic: any two verdicts that its contract admits
/// for the same number are the same verdict, at whichever width they were
/// computed.
pub proof fn lemma_trial_division_deterministic(n: nat, first: Primality, second: Primality)
    requires
        first == primality_of(n),
        second == primality_of(n),
    ensures
        first == second,
{
}

/// Decides whether `n` is prime by trying every divisor of the form 6k±1 up
/// to the square root of `n`.
pub fn trial_division_u64(n: u64) -> (r: Primality)
    ensures
        r == primality_of(n as nat),
{
    match n {
        0 | 1 => Primality::ZeroOrOne,
        2 | 3 | 5 | 7 | 11 | 13 | 17 | 19 | 23 | 29 | 31 | 37 | 41 | 43 | 47 | 53 | 59 | 61 | 67
        | 71 | 73 | 79 | 83 | 89 | 97 => {
            proof {
                lemma_listed_small_prime(n as nat);
            }
            Primality::Prime
        },
        _ => {
            if n % 2 == 0 || n % 3 == 0 {
                proof {
                    if n % 2 == 0 {
                        lemma_divisor_refutes_prime(2, n as nat);
                    } else {
                        lemma_divisor_refutes_prime(3, n as nat);
                    }
                }
                return Primality::Composite;
            }
            proof {
                lemma_wheel_start(n as nat);
            }
            let mut i: u64 = 5;
            loop
                invariant
                    n >= 4,
                    n % 2 != 0,
                    n % 3 != 0,
                    i % 6 == 5,
                    5 <= i <= 0x1_0000_0005,
                    no_divisor_below(n as nat, i as nat),
                decreases 0x1_0000_0005 - i,
            {
                let beyond = match i.checked_mul(i) {
                    Some(square) => square > n,
                    None => true,
                };
                if beyond {
                    proof {
                        lemma_prime_by_square_bound(n as nat, i as nat);
                    }
                    return Primality::Prime;
                }
                proof {
                    lemma_candidate_below(n as nat, i as nat);
                }
                if n % i == 0 || n % (i + 2) == 0 {
                    proof {
                        if n % i == 0 {
                            lemma_divisor_refutes_prime(i as nat, n as nat);
                        } else {
                            lemma_divisor_refutes_prime((i + 2) as nat, n as nat);
                        }
                    }
                    return Primality::Composite;
                }
                proof {
                    lemma_wheel_step(n as nat, i as nat);
                    assert(i < 0x1_0000_0000) by (nonlinear_arith)
                        requires
                            i * i <= u64::MAX,
                    ;
                }
                i += 6;
            }
        },
    }
}

/// Decides whether `n` is prime, in 64 bits where `n` fits and by the same
/// search in 128 bits where it does not.
pub fn trial_division_u128(n: u128) -> (r: Primality)
    ensures
        r == primality_of(n as nat),
{
    if n <= u64::MAX as u128 {
        trial_division_u64(n as u64)
    } else {
        if n % 2 == 0 || n % 3 == 0 {
            proof {
                if n % 2 == 0 {
                    lemma_divisor_refutes_prime(2, n as nat);
                } else {
                    lemma_divisor_refutes_prime(3, n as nat);
                }
            }
            return Primality::Composite;
        }
        proof {
            lemma_wheel_start(n as nat);
        }
        let mut i: u128 = 5;
        loop
            invariant
                n > u64::MAX,
                n % 2 != 0,
                n % 3 != 0,
                i % 6 == 5,
                5 <= i <= 0x1_0000_0000_0000_0005,
                no_divisor_below(n as nat, i as nat),
            decreases 0x1_0000_0000_0000_0005 - i,
        {
            let beyond = match i.checked_mul(i) {
                Some(square) => square > n,
                None => true,
            };
            if beyond {
                proof {
                    lemma_prime_by_square_bound(n as nat, i as nat);
                }
                return Primality::Prime;
            }
            proof {
                lemma_candidate_below(n as nat, i as nat);
            }
            if n % i == 0 || n % (i + 2) == 0 {
                proof {
                    if n % i == 0 {
                        lemma_divisor_refutes_prime(i as nat, n as nat);
                    } else {
                        lemma_divisor_refutes_prime((i + 2) as nat, n as nat);
                    }
                }
                return Primality::Composite;
            }
            proof {
                lemma_wheel_step(n as nat, i as nat);
                assert(i < 0x1_0000_0000_0000_0000) by (nonlinear_arith)
                    requires
                        i * i <= u128::MAX,
                ;
            }
            i += 6;
        }
    }
}

/// Decides whether `n` is prime, in 128 bits where `n` fits and by the same
/// search in arbitrary precision where it does not.
///
/// The search takes time proportional to the square root of `n`: for a prime
/// beyond 128 bits that is more than 2^64 rounds.
pub fn trial_division_biguint(n: &BigUint) -> (r: Primality)
    ensures
        r == primality_of(big_value(*n)),
{
    if let Some(small) = big_to_u128(n) {
        return trial_division_u128(small);
    }
    trial_division_search_biguint(n)
}

/// The 6k±1 search in arbitrary precision, without a shortcut for small
/// numbers: right for every `n` above 3.
pub fn trial_division_search_biguint(n: &BigUint) -> (r: Primality)
    requires
        big_value(*n) > 3,
    ensures
        r == primality_of(big_value(*n)),
{
    let zero = big_from_u8(0);
    let even = big_eq(&big_rem_u8(n, 2), &zero);
    if even || big_eq(&big_rem_u8(n, 3), &zero) {
        proof {
            if even {
                lemma_divisor_refutes_prime(2, big_value(*n));
            } else {
                lemma_divisor_refutes_prime(3, big_value(*n));
            }
        }
        return Primality::Composite;
    }
    proof {
        lemma_wheel_start(big_value(*n));
    }
    let mut i = big_from_u8(5);
    loop
        invariant
            big_value(zero) == 0,
            big_value(*n) > 3,
            big_value(*n) % 2 != 0,
            big_value(*n) % 3 != 0,
            big_value(i) % 6 == 5,
            5 <= big_value(i) <= big_value(*n),
            no_divisor_below(big_value(*n), big_value(i)),
        decreases big_value(*n) - big_value(i),
    {
        let i_square = big_pow(&i, 2);
        proof {
            lemma_square_is_pow2(big_value(i) as int);
        }
        if big_gt(&i_square, n) {
            proof {
                lemma_prime_by_square_bound(big_value(*n), big_value(i));
            }
            return Primality::Prime;
        }
        proof {
            lemma_candidate_below(big_value(*n), big_value(i));
        }
        let i_plus_two = big_add_u8(&i, 2);
        let first = big_eq(&big_rem(n, &i), &zero);
        if first || big_eq(&big_rem(n, &i_plus_two), &zero) {
            proof {
                if first {
                    lemma_divisor_refutes_prime(big_value(i), big_value(*n));
                } else {
                    lemma_divisor_refutes_prime(big_value(i) + 2, big_value(*n));
                }
            }
            return Primality::Composite;
        }
        proof {
            lemma_wheel_step(big_value(*n), big_value(i));
        }
        i = big_add_u8(&i, 6);
    }
}

} // verus!
