use num_bigint::BigUint;
use primality::solovay_strassen::{
    checked_solovay_strassen_primality_test_biguint, solovay_strassen_round_biguint,
    solovay_strassen_round_u64, solovay_strassen_step_biguint, solovay_strassen_step_u64,
    solovay_strassen_verdict_biguint, solovay_strassen_verdict_u64,
};
use primality::table::{query, table_gen};
use primality::{
    solovay_strassen_primality_test_biguint, solovay_strassen_primality_test_u64, Primality,
};

// The base `n - 1` passes every check, and a composite may have more such
// bases, up to half of them: one run on a composite says `ProbablyPrime` when
// each of its rounds draws such a base. Over the composites below 2^16 that
// is expected 0.17 times with four rounds and 0.06 times with five. Each
// number is run once, and this many such runs are let pass: four or more
// have probability below 10^-4.
const MISSES_ALLOWED: usize = 3;

// A run on 9 or on 15 with three rounds says `ProbablyPrime` once in 343 and
// once in 2197. The verdict on such a number is taken from 20 runs, of which
// 18 have to agree; fewer do so less than once in 10^4.
fn mostly_u64(n: u64, k: usize) -> Primality {
    let composite = (0..20)
        .filter(|_| solovay_strassen_primality_test_u64(n, k) == Primality::Composite)
        .count();
    if composite >= 18 {
        Primality::Composite
    } else {
        Primality::ProbablyPrime
    }
}

fn mostly_biguint(n: &BigUint, k: usize) -> Primality {
    let composite = (0..20)
        .filter(|_| solovay_strassen_primality_test_biguint(n, k) == Primality::Composite)
        .count();
    if composite >= 18 {
        Primality::Composite
    } else {
        Primality::ProbablyPrime
    }
}

#[test]
fn test_solovay_strassen_primality_test_biguint() {
    let sets = [
        5u64, 7, 11, 13, 17, 19, 23, 29, 31, 37, 41, 43, 47, 53, 59, 61, 67, 71, 73, 79, 83, 89,
        97,
    ];

    for n in sets.iter() {
        let n = BigUint::from(*n);
        let ret = solovay_strassen_primality_test_biguint(&n, 3);
        assert!(ret == Primality::ProbablyPrime || ret == Primality::Prime);
    }

    let table = table_gen();

    let mut missed = 0;
    for n in 5..u16::MAX {
        if n % 2 != 0 {
            let b: bool = query(&table, n);
            let n = BigUint::from(n);
            let a: bool = solovay_strassen_primality_test_biguint(&n, 4).into();
            if a && !b {
                missed += 1;
            } else {
                assert_eq!(a, b, "N={} a={} b={}", n, a, b);
            }
        }
    }
    assert!(missed <= MISSES_ALLOWED, "missed={}", missed);

    assert!(
        solovay_strassen_primality_test_biguint(&BigUint::from(7u8), 3)
            == Primality::ProbablyPrime
    );
    assert!(mostly_biguint(&BigUint::from(9u8), 3) == Primality::Composite);
    assert!(
        solovay_strassen_primality_test_biguint(&BigUint::from(11u8), 3)
            == Primality::ProbablyPrime
    );
    assert!(mostly_biguint(&BigUint::from(15u8), 3) == Primality::Composite);
}

#[test]
fn test_solovay_strassen_primality_test_u64() {
    let sets = [
        5u64, 7, 11, 13, 17, 19, 23, 29, 31, 37, 41, 43, 47, 53, 59, 61, 67, 71, 73, 79, 83, 89,
        97,
    ];

    for n in sets.iter() {
        let ret = solovay_strassen_primality_test_u64(*n, 8);
        assert!(
            ret == Primality::ProbablyPrime || ret == Primality::Prime,
            "N={:?} RET={:?}",
            n,
            ret
        );
    }

    let table = table_gen();
    let mut missed = 0;
    for n in 5..u16::MAX {
        if n % 2 != 0 {
            let b: bool = query(&table, n);
            let a: bool = solovay_strassen_primality_test_u64(n as u64, 5).into();
            if a && !b {
                missed += 1;
            } else {
                assert_eq!(a, b, "N={} a={} b={}", n, a, b);
            }
        }
    }
    assert!(missed <= MISSES_ALLOWED, "missed={}", missed);

    assert!(solovay_strassen_primality_test_u64(7, 3) == Primality::ProbablyPrime);
    assert!(mostly_u64(9, 3) == Primality::Composite);
    assert!(solovay_strassen_primality_test_u64(11, 3) == Primality::ProbablyPrime);
    assert!(mostly_u64(15, 3) == Primality::Composite);
}

#[test]
fn solovay_strassen_with_the_draws_2_3_5_7_agrees_with_the_table() {
    // No composite below 2^16 passes the check for all of 2, 3, 5 and 7.
    let table = table_gen();
    for n in 5..u16::MAX {
        if n % 2 != 0 {
            let draws: Vec<u64> = [2u64, 3, 5, 7].iter().copied().filter(|a| *a < n as u64).collect();
            let verdict = solovay_strassen_verdict_u64(n as u64, &draws);
            assert!(verdict == Primality::ProbablyPrime || verdict == Primality::Composite);
            let a: bool = verdict.into();
            assert_eq!(a, query(&table, n), "n={}", n);
            let big: Vec<BigUint> = draws.iter().map(|a| BigUint::from(*a)).collect();
            assert_eq!(solovay_strassen_verdict_biguint(&BigUint::from(n), &big), verdict);
        }
    }
}

#[test]
fn solovay_strassen_verdict_of_given_draws() {
    // Modulo 9 only the base 8 passes.
    assert_eq!(solovay_strassen_verdict_u64(9, &vec![8, 8, 8]), Primality::ProbablyPrime);
    assert_eq!(solovay_strassen_verdict_u64(9, &vec![8]), Primality::ProbablyPrime);
    assert_eq!(solovay_strassen_verdict_u64(9, &vec![2, 8, 8]), Primality::Composite);
    assert_eq!(solovay_strassen_verdict_u64(9, &vec![8, 2, 8]), Primality::Composite);
    assert_eq!(solovay_strassen_verdict_u64(9, &vec![8, 8, 2]), Primality::Composite);
    assert_eq!(solovay_strassen_verdict_u64(7, &vec![2, 3, 4, 5, 6]), Primality::ProbablyPrime);
    // 1729 passes for 2, 3 and 5, and fails for 7, which divides it.
    assert_eq!(solovay_strassen_verdict_u64(1729, &vec![2, 3, 5]), Primality::ProbablyPrime);
    assert_eq!(solovay_strassen_verdict_u64(1729, &vec![2, 3, 5, 7]), Primality::Composite);
    let nine = BigUint::from(9u8);
    let eight = BigUint::from(8u8);
    let two = BigUint::from(2u8);
    assert_eq!(
        solovay_strassen_verdict_biguint(&nine, &vec![eight.clone(), eight.clone()]),
        Primality::ProbablyPrime
    );
    assert_eq!(
        solovay_strassen_verdict_biguint(&nine, &vec![eight.clone(), two.clone()]),
        Primality::Composite
    );
}

#[test]
fn solovay_strassen_step_decides_one_round() {
    // A base that fails ends the test in any round.
    assert_eq!(solovay_strassen_step_u64(9, 3, 0, 2), Some(Primality::Composite));
    assert_eq!(solovay_strassen_step_u64(9, 3, 2, 2), Some(Primality::Composite));
    // A base that passes ends it in the last round only.
    assert_eq!(solovay_strassen_step_u64(9, 3, 0, 8), None);
    assert_eq!(solovay_strassen_step_u64(9, 3, 1, 8), None);
    assert_eq!(solovay_strassen_step_u64(9, 3, 2, 8), Some(Primality::ProbablyPrime));
    assert_eq!(solovay_strassen_step_u64(7, 1, 0, 3), Some(Primality::ProbablyPrime));
    let nine = BigUint::from(9u8);
    let eight = BigUint::from(8u8);
    let two = BigUint::from(2u8);
    assert_eq!(solovay_strassen_step_biguint(&nine, 3, 0, &two), Some(Primality::Composite));
    assert_eq!(solovay_strassen_step_biguint(&nine, 3, 1, &eight), None);
    assert_eq!(
        solovay_strassen_step_biguint(&nine, 3, 2, &eight),
        Some(Primality::ProbablyPrime)
    );
}

#[test]
fn solovay_strassen_minus_one_always_passes() {
    for n in (3u64..2000).step_by(2) {
        assert!(solovay_strassen_round_u64(n, n - 1), "n={}", n);
    }
}

#[test]
fn solovay_strassen_one_round_on_nine() {
    // Of the bases 2 to 8 only 8 lets 9 pass: one round says `Composite` six
    // times in seven. In 2000 rounds, fewer than 1500 would be 13 standard
    // deviations off.
    let composite = (0..2000)
        .filter(|_| solovay_strassen_primality_test_u64(9, 1) == Primality::Composite)
        .count();
    assert!(composite >= 1500, "composite={}", composite);
    assert!(composite < 2000, "composite={}", composite);
}

#[test]
fn solovay_strassen_one_round_refutes_a_composite_half_the_time() {
    // 1729 lets 647 of its 1727 bases pass, more than any other composite
    // below 2^16 but one: about 1250 of 2000 rounds say `Composite`, and
    // fewer than 1000 would be 23 standard deviations off.
    let big = BigUint::from(1729u32);
    let composite = (0..2000)
        .filter(|_| solovay_strassen_primality_test_u64(1729, 1) == Primality::Composite)
        .count();
    assert!(composite >= 1000, "composite={}", composite);
    let big_composite = (0..2000)
        .filter(|_| solovay_strassen_primality_test_biguint(&big, 1) == Primality::Composite)
        .count();
    assert!(big_composite >= 1000, "composite={}", big_composite);
}

#[test]
fn solovay_strassen_five_passes_without_a_round() {
    for k in 1..20 {
        assert_eq!(solovay_strassen_primality_test_u64(5, k), Primality::ProbablyPrime);
    }
}

#[test]
fn solovay_strassen_small_fixed_outcomes() {
    assert_eq!(solovay_strassen_primality_test_u64(0, 1), Primality::ZeroOrOne);
    assert_eq!(solovay_strassen_primality_test_u64(1, 1), Primality::ZeroOrOne);
    assert_eq!(solovay_strassen_primality_test_u64(2, 1), Primality::ProbablyPrime);
    assert_eq!(solovay_strassen_primality_test_u64(3, 1), Primality::ProbablyPrime);
    assert_eq!(solovay_strassen_primality_test_u64(5, 1), Primality::ProbablyPrime);
}

#[test]
fn solovay_strassen_checked_entry() {
    let nine = BigUint::from(9u8);
    assert_eq!(checked_solovay_strassen_primality_test_biguint(&BigUint::from(3u8), 3), None);
    assert_eq!(checked_solovay_strassen_primality_test_biguint(&BigUint::from(0u8), 3), None);
    assert_eq!(checked_solovay_strassen_primality_test_biguint(&BigUint::from(10u8), 3), None);
    assert_eq!(checked_solovay_strassen_primality_test_biguint(&nine, 0), None);
    assert_eq!(
        checked_solovay_strassen_primality_test_biguint(&BigUint::from(7u8), 3),
        Some(Primality::ProbablyPrime)
    );
    assert_eq!(
        checked_solovay_strassen_primality_test_biguint(&BigUint::from(1729u32), 40),
        Some(Primality::Composite)
    );
    assert_eq!(
        checked_solovay_strassen_primality_test_biguint(&BigUint::from(5u8), 1),
        Some(Primality::ProbablyPrime)
    );
}

#[test]
fn solovay_strassen_never_calls_a_prime_composite() {
    for n in [7u64, 101, 65521, 4294967291, 18446744073709551557] {
        for _ in 0..50 {
            assert_eq!(solovay_strassen_primality_test_u64(n, 4), Primality::ProbablyPrime);
            assert_eq!(
                solovay_strassen_primality_test_biguint(&BigUint::from(n), 4),
                Primality::ProbablyPrime
            );
        }
    }
}

#[test]
fn solovay_strassen_round_is_exact_for_nine() {
    // Modulo 9 only the base 8, which is -1, passes the check.
    for a in 2u64..8 {
        assert!(!solovay_strassen_round_u64(9, a), "a={}", a);
        assert!(!solovay_strassen_round_biguint(&BigUint::from(9u8), &BigUint::from(a)));
    }
    assert!(solovay_strassen_round_u64(9, 8));
    assert!(solovay_strassen_round_biguint(&BigUint::from(9u8), &BigUint::from(8u8)));
}

#[test]
fn solovay_strassen_at_most_half_the_bases_pass_a_composite() {
    let passing = [
        (9u64, 1usize),
        (15, 1),
        (21, 1),
        (25, 3),
        (45, 3),
        (49, 5),
        (91, 17),
        (561, 79),
        (1105, 191),
        (1729, 647),
    ];
    for (n, expected) in passing.iter() {
        let count = (2..*n).filter(|a| solovay_strassen_round_u64(*n, *a)).count();
        assert_eq!(count, *expected, "n={}", n);
        assert!(2 * count <= (*n as usize) - 3);
        let big = BigUint::from(*n);
        let big_count = (2..*n)
            .filter(|a| solovay_strassen_round_biguint(&big, &BigUint::from(*a)))
            .count();
        assert_eq!(big_count, *expected, "n={}", n);
    }
}

#[test]
fn solovay_strassen_every_base_passes_a_prime() {
    for n in [7u64, 11, 13, 97, 257, 65521] {
        for a in 2..n {
            assert!(solovay_strassen_round_u64(n, a), "n={} a={}", n, a);
        }
    }
}

#[test]
fn solovay_strassen_repeated_rounds_catch_a_composite() {
    // 1729 lets 647 of its 1727 bases pass; 40 rounds all passing has
    // probability below 10^-17.
    assert_eq!(solovay_strassen_primality_test_u64(1729, 40), Primality::Composite);
    assert_eq!(
        solovay_strassen_primality_test_biguint(&BigUint::from(1729u32), 40),
        Primality::Composite
    );
}
