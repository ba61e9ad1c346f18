use num_bigint::BigUint;
use primality::table::{query, table_gen};
use primality::trial_division::trial_division_search_biguint;
use primality::{trial_division_biguint, trial_division_u128, trial_division_u64, Primality};

#[test]
fn trial_division_zero_and_one() {
    assert_eq!(trial_division_u64(0), Primality::ZeroOrOne);
    assert_eq!(trial_division_u64(1), Primality::ZeroOrOne);
    assert_eq!(trial_division_u128(0), Primality::ZeroOrOne);
    assert_eq!(trial_division_u128(1), Primality::ZeroOrOne);
    assert_eq!(trial_division_biguint(&BigUint::from(0u8)), Primality::ZeroOrOne);
    assert_eq!(trial_division_biguint(&BigUint::from(1u8)), Primality::ZeroOrOne);
}

#[test]
fn trial_division_two_is_prime() {
    assert_eq!(trial_division_u64(2), Primality::Prime);
    assert_eq!(trial_division_u128(2), Primality::Prime);
    assert_eq!(trial_division_biguint(&BigUint::from(2u8)), Primality::Prime);
}

#[test]
fn trial_division_97_and_91() {
    assert_eq!(trial_division_u64(97), Primality::Prime);
    assert_eq!(trial_division_u64(91), Primality::Composite);
    assert_eq!(trial_division_u128(97), Primality::Prime);
    assert_eq!(trial_division_u128(91), Primality::Composite);
    assert_eq!(trial_division_biguint(&BigUint::from(97u8)), Primality::Prime);
    assert_eq!(trial_division_biguint(&BigUint::from(91u8)), Primality::Composite);
}

#[test]
fn trial_division_the_first_25_primes() {
    let primes = [
        2u64, 3, 5, 7, 11, 13, 17, 19, 23, 29, 31, 37, 41, 43, 47, 53, 59, 61, 67, 71, 73, 79, 83,
        89, 97,
    ];
    for n in 0u64..100 {
        let expected = if n < 2 {
            Primality::ZeroOrOne
        } else if primes.contains(&n) {
            Primality::Prime
        } else {
            Primality::Composite
        };
        assert_eq!(trial_division_u64(n), expected, "n={}", n);
    }
}

#[test]
fn trial_division_squares_of_primes() {
    // The last divisor tried is the square root itself.
    for p in [5u64, 7, 11, 13, 101, 65521, 4294967291] {
        assert_eq!(trial_division_u64(p * p), Primality::Composite, "p={}", p);
    }
    assert_eq!(trial_division_u64(5 * 7), Primality::Composite);
    assert_eq!(trial_division_u64(101 * 103), Primality::Composite);
    assert_eq!(trial_division_u64(10007), Primality::Prime);
    assert_eq!(trial_division_u64(10009), Primality::Prime);
}

#[test]
fn trial_division_u64_near_the_top() {
    // The square of the next candidate does not fit in 64 bits.
    assert_eq!(trial_division_u64(18446744073709551557), Primality::Prime);
    assert_eq!(trial_division_u64(18446744073709551615), Primality::Composite);
    // 4294967291^2, the largest square of a prime below 2^64.
    assert_eq!(trial_division_u64(18446744030759878681), Primality::Composite);
}

#[test]
fn trial_division_u128_beyond_64_bits() {
    // 2^64 + 1 = 274177 * 67280421310721.
    assert_eq!(trial_division_u128(18446744073709551617), Primality::Composite);
    assert_eq!(trial_division_u128(18446744073709551616), Primality::Composite);
    assert_eq!(trial_division_u128(18446744073709551619), Primality::Composite);
    // 1000003 * (2^64 + 13)
    assert_eq!(trial_division_u128(1000003 * 18446744073709551629), Primality::Composite);
    assert_eq!(trial_division_u128(u128::MAX), Primality::Composite);
}

#[test]
fn trial_division_u128_delegates_to_u64() {
    for n in [0u64, 1, 2, 91, 97, 65521, 4294967291, 4294967297] {
        assert_eq!(trial_division_u128(n as u128), trial_division_u64(n), "n={}", n);
        assert_eq!(trial_division_biguint(&BigUint::from(n)), trial_division_u64(n), "n={}", n);
    }
}

#[test]
fn trial_division_biguint_beyond_128_bits() {
    let base = BigUint::from(1u8) << 128usize;
    // 2^128 is even, 2^128 + 2 is divisible by 3.
    assert_eq!(trial_division_biguint(&base), Primality::Composite);
    assert_eq!(trial_division_biguint(&(&base + 2u8)), Primality::Composite);
    // 2^128 + 9 is divisible by 5; 2^128 + 51 times 1000003 is found at 1000003.
    assert_eq!(trial_division_biguint(&(&base + 9u8)), Primality::Composite);
    assert_eq!(
        trial_division_biguint(&((&base + 51u8) * 1000003u32)),
        Primality::Composite
    );
    // 7 * (2^128 + 51): found as the second candidate of the first round.
    assert_eq!(trial_division_biguint(&((&base + 51u8) * 7u8)), Primality::Composite);
}

#[test]
fn trial_division_search_biguint_on_small_numbers() {
    for n in 4u64..3000 {
        assert_eq!(
            trial_division_search_biguint(&BigUint::from(n)),
            trial_division_u64(n),
            "n={}",
            n
        );
    }
    assert_eq!(trial_division_search_biguint(&BigUint::from(10007u32)), Primality::Prime);
    assert_eq!(trial_division_search_biguint(&BigUint::from(10403u32)), Primality::Composite);
    assert_eq!(trial_division_search_biguint(&BigUint::from(4294967291u64)), Primality::Prime);
    // 65521^2: the square itself is the first candidate beyond the bound.
    assert_eq!(
        trial_division_search_biguint(&BigUint::from(4293001441u64)),
        Primality::Composite
    );
}

#[test]
fn trial_division_agrees_with_the_table() {
    let table = table_gen();
    for n in 0..=u16::MAX {
        let certain: bool = trial_division_u64(n as u64).into();
        assert_eq!(certain, query(&table, n), "n={}", n);
    }
}

#[test]
fn trial_division_is_deterministic() {
    for n in [0u64, 1, 2, 91, 97, 65521, 4294967297] {
        let first = trial_division_u64(n);
        for _ in 0..10 {
            assert_eq!(trial_division_u64(n), first);
        }
    }
}
