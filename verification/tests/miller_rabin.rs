use num_bigint::BigUint;
use primality::miller_rabin::{
    checked_miller_rabin_primality_test_biguint, miller_rabin_round_biguint,
    miller_rabin_round_u64, miller_rabin_step_biguint, miller_rabin_verdict_biguint,
    split_twos_biguint, split_twos_u64, witnesses_u64,
};
use primality::table::{query, table_gen};
use primality::{
    miller_rabin_primality_test_biguint, miller_rabin_primality_test_u64, trial_division_u64,
    Primality,
};

#[test]
fn miller_rabin_u64_largest_prime_below_two_to_64() {
    assert_eq!(miller_rabin_primality_test_u64(18446744073709551557), Primality::Prime);
    assert_eq!(miller_rabin_primality_test_u64(18446744073709551615), Primality::Composite);
    assert_eq!(miller_rabin_primality_test_u64(18446744073709551559), Primality::Composite);
}

#[test]
fn miller_rabin_u64_smallest_inputs() {
    assert_eq!(miller_rabin_primality_test_u64(3), Primality::Prime);
    assert_eq!(miller_rabin_primality_test_u64(5), Primality::Prime);
    assert_eq!(miller_rabin_primality_test_u64(7), Primality::Prime);
    assert_eq!(miller_rabin_primality_test_u64(9), Primality::Composite);
}

#[test]
fn miller_rabin_u64_agrees_with_trial_division_below_two_to_16() {
    for n in (3u64..65536).step_by(2) {
        assert_eq!(miller_rabin_primality_test_u64(n), trial_division_u64(n), "n={}", n);
    }
}

#[test]
fn miller_rabin_u64_is_right_at_the_witness_bounds() {
    // The smallest composites that pass for every base of the set before.
    for n in [2047u64, 1373653, 25326001, 3215031751, 4759123141] {
        assert_eq!(miller_rabin_primality_test_u64(n), Primality::Composite, "n={}", n);
    }
    for n in [2053u64, 1373677, 9080191, 25326023, 4294967291, 1122004669633] {
        assert_eq!(miller_rabin_primality_test_u64(n), trial_division_u64(n), "n={}", n);
    }
}

#[test]
fn miller_rabin_u64_is_deterministic() {
    for n in [3u64, 561, 2047, 65521, 18446744073709551557] {
        let first = miller_rabin_primality_test_u64(n);
        for _ in 0..10 {
            assert_eq!(miller_rabin_primality_test_u64(n), first);
        }
    }
}

#[test]
fn witnesses_follow_the_bounds() {
    assert_eq!(witnesses_u64(3), vec![2]);
    assert_eq!(witnesses_u64(2045), vec![2]);
    assert_eq!(witnesses_u64(2047), vec![2, 3]);
    assert_eq!(witnesses_u64(1_373_651), vec![2, 3]);
    assert_eq!(witnesses_u64(1_373_653), vec![31, 73]);
    assert_eq!(witnesses_u64(9_080_189), vec![31, 73]);
    assert_eq!(witnesses_u64(9_080_191), vec![2, 3, 5]);
    assert_eq!(witnesses_u64(25_325_999), vec![2, 3, 5]);
    assert_eq!(witnesses_u64(25_326_001), vec![2, 3, 5, 7]);
    assert_eq!(witnesses_u64(3_215_031_749), vec![2, 3, 5, 7]);
    assert_eq!(witnesses_u64(3_215_031_751), vec![2, 7, 61]);
    assert_eq!(witnesses_u64(4_759_123_139), vec![2, 7, 61]);
    assert_eq!(witnesses_u64(4_759_123_141), vec![2, 13, 23, 1662803]);
    assert_eq!(witnesses_u64(1_122_004_669_631), vec![2, 13, 23, 1662803]);
    assert_eq!(witnesses_u64(1_122_004_669_633), vec![2, 3, 5, 7, 11]);
    assert_eq!(witnesses_u64(2_152_302_898_745), vec![2, 3, 5, 7, 11]);
    assert_eq!(witnesses_u64(2_152_302_898_747), vec![2, 3, 5, 7, 11, 13]);
    assert_eq!(witnesses_u64(3_474_749_660_381), vec![2, 3, 5, 7, 11, 13]);
    assert_eq!(witnesses_u64(3_474_749_660_383), vec![2, 3, 5, 7, 11, 13, 17]);
    assert_eq!(witnesses_u64(341_550_071_728_319), vec![2, 3, 5, 7, 11, 13, 17]);
    assert_eq!(witnesses_u64(341_550_071_728_321), vec![2, 3, 5, 7, 11, 13, 17, 19, 23]);
    assert_eq!(
        witnesses_u64(3_825_123_056_546_413_049),
        vec![2, 3, 5, 7, 11, 13, 17, 19, 23]
    );
    assert_eq!(
        witnesses_u64(3_825_123_056_546_413_051),
        vec![2, 3, 5, 7, 11, 13, 17, 19, 23, 29, 31, 37]
    );
    assert_eq!(
        witnesses_u64(u64::MAX),
        vec![2, 3, 5, 7, 11, 13, 17, 19, 23, 29, 31, 37]
    );
}

#[test]
fn split_twos_factors_out_the_powers_of_two() {
    assert_eq!(split_twos_u64(96), (3, 5));
    assert_eq!(split_twos_u64(1), (1, 0));
    assert_eq!(split_twos_u64(1 << 63), (1, 63));
    assert_eq!(split_twos_u64(18446744073709551556), (4611686018427387889, 2));
    let (d, r) = split_twos_biguint(&(BigUint::from(5u8) << 200usize));
    assert_eq!(d, BigUint::from(5u8));
    assert_eq!(r, 200);
}

#[test]
fn miller_rabin_round_is_exact() {
    // 2047 = 23 * 89 passes for base 2 and fails for base 3.
    let (d, r) = split_twos_u64(2046);
    assert!(miller_rabin_round_u64(2047, d, r, 2));
    assert!(!miller_rabin_round_u64(2047, d, r, 3));
    // 1373653 passes for 2 and 3, and fails for 73.
    let (d, r) = split_twos_u64(1373652);
    assert!(miller_rabin_round_u64(1373653, d, r, 2));
    assert!(miller_rabin_round_u64(1373653, d, r, 3));
    assert!(miller_rabin_round_u64(1373653, d, r, 31));
    assert!(!miller_rabin_round_u64(1373653, d, r, 73));
    let n = BigUint::from(2047u32);
    let (d, r) = split_twos_biguint(&BigUint::from(2046u32));
    assert!(miller_rabin_round_biguint(&n, &d, r, &BigUint::from(2u8)));
    assert!(!miller_rabin_round_biguint(&n, &d, r, &BigUint::from(3u8)));
}

#[test]
fn miller_rabin_at_most_a_quarter_of_the_bases_pass_a_composite() {
    let passing = [
        (9u64, 0usize),
        (15, 0),
        (25, 2),
        (49, 4),
        (91, 16),
        (561, 8),
        (1105, 28),
        (1729, 160),
    ];
    for (n, expected) in passing.iter() {
        let (d, r) = split_twos_u64(*n - 1);
        let count = (2..*n - 1).filter(|a| miller_rabin_round_u64(*n, d, r, *a)).count();
        assert_eq!(count, *expected, "n={}", n);
        assert!(4 * count <= (*n as usize) - 3);
        let big = BigUint::from(*n);
        let (bd, br) = split_twos_biguint(&BigUint::from(*n - 1));
        let big_count = (2..*n - 1)
            .filter(|a| miller_rabin_round_biguint(&big, &bd, br, &BigUint::from(*a)))
            .count();
        assert_eq!(big_count, *expected, "n={}", n);
    }
}

#[test]
fn miller_rabin_every_base_passes_a_prime() {
    for n in [5u64, 7, 13, 97, 257, 65521] {
        let (d, r) = split_twos_u64(n - 1);
        for a in 1..n {
            assert!(miller_rabin_round_u64(n, d, r, a), "n={} a={}", n, a);
        }
    }
}

#[test]
fn miller_rabin_biguint_never_calls_a_prime_composite() {
    // 2^89 - 1 and 2^127 - 1 are prime.
    let primes = [
        BigUint::from(5u8),
        BigUint::from(7u8),
        BigUint::from(18446744073709551557u64),
        (BigUint::from(1u8) << 89usize) - 1u8,
        (BigUint::from(1u8) << 127usize) - 1u8,
    ];
    for n in primes.iter() {
        for k in 1..8 {
            assert_eq!(miller_rabin_primality_test_biguint(n, k), Primality::ProbablyPrime);
        }
    }
}

#[test]
fn miller_rabin_biguint_catches_composites() {
    // A composite survives a round with probability at most 1/4; 30 rounds
    // all passing has probability below 10^-18.
    let composites = [
        BigUint::from(9u8),
        BigUint::from(561u32),
        BigUint::from(18446744073709551615u64),
        (BigUint::from(1u8) << 128usize) + 1u8,
        ((BigUint::from(1u8) << 89usize) - 1u8) * ((BigUint::from(1u8) << 127usize) - 1u8),
    ];
    for n in composites.iter() {
        assert_eq!(miller_rabin_primality_test_biguint(n, 30), Primality::Composite);
    }
}

#[test]
fn miller_rabin_one_round_refutes_a_composite_three_times_in_four() {
    // 1729 lets 160 of its 1726 bases pass: about 1815 of 2000 rounds say
    // `Composite`, and fewer than 1500 would be 24 standard deviations off.
    let n = BigUint::from(1729u32);
    let composite = (0..2000)
        .filter(|_| miller_rabin_primality_test_biguint(&n, 1) == Primality::Composite)
        .count();
    assert!(composite >= 1500, "composite={}", composite);
    // 91 lets 16 of its 88 bases pass: some rounds say `ProbablyPrime`.
    let n = BigUint::from(91u32);
    let composite = (0..2000)
        .filter(|_| miller_rabin_primality_test_biguint(&n, 1) == Primality::Composite)
        .count();
    assert!(composite >= 1500, "composite={}", composite);
    assert!(composite < 2000, "composite={}", composite);
}

#[test]
fn miller_rabin_checked_entry() {
    assert_eq!(checked_miller_rabin_primality_test_biguint(&BigUint::from(3u8), 3), None);
    assert_eq!(checked_miller_rabin_primality_test_biguint(&BigUint::from(4u8), 3), None);
    assert_eq!(checked_miller_rabin_primality_test_biguint(&BigUint::from(0u8), 3), None);
    assert_eq!(checked_miller_rabin_primality_test_biguint(&BigUint::from(10u8), 3), None);
    assert_eq!(checked_miller_rabin_primality_test_biguint(&BigUint::from(9u8), 0), None);
    assert_eq!(
        checked_miller_rabin_primality_test_biguint(&BigUint::from(5u8), 1),
        Some(Primality::ProbablyPrime)
    );
    assert_eq!(
        checked_miller_rabin_primality_test_biguint(&BigUint::from(9u8), 1),
        Some(Primality::Composite)
    );
    assert_eq!(
        checked_miller_rabin_primality_test_biguint(&BigUint::from(561u32), 30),
        Some(Primality::Composite)
    );
}

#[test]
fn miller_rabin_biguint_agrees_with_trial_division_below_two_to_12() {
    for n in (5u64..4096).step_by(2) {
        let verdict: bool = miller_rabin_primality_test_biguint(&BigUint::from(n), 30).into();
        let certain: bool = trial_division_u64(n).into();
        assert_eq!(verdict, certain, "n={}", n);
    }
}

#[test]
fn miller_rabin_with_the_draws_2_3_agrees_with_the_table() {
    // No composite below 2^16 passes the check for both 2 and 3.
    let table = table_gen();
    let draws = vec![BigUint::from(2u8), BigUint::from(3u8)];
    for n in 5..u16::MAX {
        if n % 2 != 0 {
            let verdict = miller_rabin_verdict_biguint(&BigUint::from(n), &draws);
            assert!(verdict == Primality::ProbablyPrime || verdict == Primality::Composite);
            let a: bool = verdict.into();
            assert_eq!(a, query(&table, n), "n={}", n);
        }
    }
}

#[test]
fn miller_rabin_verdict_of_given_draws() {
    // 2047 passes for 2 and fails for 3.
    let n = BigUint::from(2047u32);
    let two = BigUint::from(2u8);
    let three = BigUint::from(3u8);
    assert_eq!(
        miller_rabin_verdict_biguint(&n, &vec![two.clone(), two.clone()]),
        Primality::ProbablyPrime
    );
    assert_eq!(
        miller_rabin_verdict_biguint(&n, &vec![two.clone(), three.clone()]),
        Primality::Composite
    );
    assert_eq!(
        miller_rabin_verdict_biguint(&n, &vec![three.clone(), two.clone()]),
        Primality::Composite
    );
}

#[test]
fn miller_rabin_step_decides_one_round() {
    let n = BigUint::from(2047u32);
    let (d, r) = split_twos_biguint(&BigUint::from(2046u32));
    let two = BigUint::from(2u8);
    let three = BigUint::from(3u8);
    assert_eq!(miller_rabin_step_biguint(&n, &d, r, 3, 0, &three), Some(Primality::Composite));
    assert_eq!(miller_rabin_step_biguint(&n, &d, r, 3, 2, &three), Some(Primality::Composite));
    assert_eq!(miller_rabin_step_biguint(&n, &d, r, 3, 0, &two), None);
    assert_eq!(miller_rabin_step_biguint(&n, &d, r, 3, 1, &two), None);
    assert_eq!(
        miller_rabin_step_biguint(&n, &d, r, 3, 2, &two),
        Some(Primality::ProbablyPrime)
    );
}

#[test]
fn miller_rabin_checked_entry_refutes_where_every_base_does() {
    // No base in 2..=n-2 lets 9, 15 or 21 pass: every run says `Composite`.
    for n in [9u8, 15, 21] {
        for k in 1..6 {
            assert_eq!(
                checked_miller_rabin_primality_test_biguint(&BigUint::from(n), k),
                Some(Primality::Composite)
            );
            assert_eq!(
                miller_rabin_primality_test_biguint(&BigUint::from(n), k),
                Primality::Composite
            );
        }
    }
}
