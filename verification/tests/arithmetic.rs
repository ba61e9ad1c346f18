use num_bigint::BigUint;
use primality::legendre::{legendre_symbol_biguint, legendre_symbol_u64};
use primality::modular::{modmul_u64, modpow};
use primality::table::{is_prime, query, table_gen};
use primality::Primality;

#[test]
fn modmul_where_the_product_fits() {
    assert_eq!(modmul_u64(123456789, 987654321, 1000000007), 259106859);
    assert_eq!(modmul_u64(0, 5, 7), 0);
    assert_eq!(modmul_u64(6, 7, 1), 0);
    assert_eq!(modmul_u64(6, 7, 43), 42);
}

#[test]
fn modmul_where_the_product_overflows() {
    assert_eq!(modmul_u64(u64::MAX - 1, u64::MAX - 2, u64::MAX), 2);
    assert_eq!(
        modmul_u64(1 << 63, 1 << 63, 18446744073709551557),
        13835058055282164538
    );
}

#[test]
fn modpow_small_values() {
    assert_eq!(modpow(2, 10, 1000), 24);
    assert_eq!(modpow(3, 200, 13), 9);
    assert_eq!(modpow(5, 1, 7), 5);
    assert_eq!(modpow(12, 2, 7), 4);
}

#[test]
fn modpow_exponent_zero_and_modulus_one() {
    assert_eq!(modpow(5, 0, 7), 1);
    assert_eq!(modpow(0, 0, 7), 1);
    assert_eq!(modpow(5, 0, 1), 0);
    assert_eq!(modpow(5, 3, 1), 0);
    assert_eq!(modpow(0, 3, 7), 0);
}

#[test]
fn modpow_at_the_top_of_64_bits() {
    assert_eq!(modpow(u64::MAX - 2, (u64::MAX - 1) / 2, u64::MAX), 9223372036854775807);
    assert_eq!(
        modpow(7, 18446744073709551614, 18446744073709551557),
        14907283218732158632
    );
    assert_eq!(modpow(2, 64, u64::MAX), 1);
}

#[test]
fn legendre_two_over_seven() {
    assert_eq!(legendre_symbol_u64(2, 7), 1);
}

#[test]
fn legendre_symbol_u64_values() {
    let over_7: Vec<i8> = (2..7).map(|a| legendre_symbol_u64(a, 7)).collect();
    assert_eq!(over_7, vec![1, -1, 1, -1, -1]);
    let over_9: Vec<i8> = (2..9).map(|a| legendre_symbol_u64(a, 9)).collect();
    assert_eq!(over_9, vec![1, 0, 1, 1, 0, 1, 1]);
    let over_15: Vec<i8> = (2..15).map(|a| legendre_symbol_u64(a, 15)).collect();
    assert_eq!(over_15, vec![1, 0, 1, 0, 0, -1, 1, 0, 0, -1, 0, -1, -1]);
    assert_eq!(legendre_symbol_u64(1001, 9907), -1);
    assert_eq!(legendre_symbol_u64(19, 45), 1);
    assert_eq!(legendre_symbol_u64(8, 21), -1);
    assert_eq!(legendre_symbol_u64(5, 21), 1);
}

#[test]
fn legendre_symbol_biguint_agrees_with_u64() {
    let zero = BigUint::from(0u8);
    let one = BigUint::from(1u8);
    let three = BigUint::from(3u8);
    let five = BigUint::from(5u8);
    for n in (3u64..200).step_by(2) {
        for a in 2..n {
            let big = legendre_symbol_biguint(
                &BigUint::from(a),
                &BigUint::from(n),
                &zero,
                &one,
                &three,
                &five,
            );
            assert_eq!(big, legendre_symbol_u64(a, n), "a={} n={}", a, n);
        }
    }
    assert_eq!(
        legendre_symbol_biguint(
            &BigUint::from(1001u32),
            &BigUint::from(9907u32),
            &zero,
            &one,
            &three,
            &five
        ),
        -1
    );
}

#[test]
fn legendre_symbol_is_euler_criterion_for_primes() {
    for p in [7u64, 11, 13, 97, 257] {
        for a in 2..p {
            let expected = match modpow(a, (p - 1) / 2, p) {
                1 => 1,
                _ => -1,
            };
            assert_eq!(legendre_symbol_u64(a, p), expected, "a={} p={}", a, p);
        }
    }
}

#[test]
fn table_has_512_words() {
    let table = table_gen();
    assert_eq!(table.len(), 512);
    assert_eq!(table[0], 0x76d32d265948b681);
    assert_eq!(table[511], 0x2502180010080180);
}

#[test]
fn table_knows_two_as_the_only_even_prime() {
    let table = table_gen();
    assert!(query(&table, 2));
    for n in (0..=u16::MAX).step_by(2) {
        assert_eq!(query(&table, n), n == 2, "n={}", n);
    }
}

#[test]
fn table_lookup_reads_the_table_it_is_given() {
    // For an even number the table is not read; for an odd one the bit is.
    let empty: Vec<u64> = Vec::new();
    assert!(query(&empty, 2));
    assert!(!query(&empty, 0));
    assert!(!query(&empty, 65534));
    let one_word = vec![0x4000000000000001u64];
    assert!(!query(&one_word, 1));
    assert!(query(&one_word, 3));
    assert!(!query(&one_word, 5));
    assert!(query(&one_word, 127));
    assert!(query(&one_word, 2));
    assert!(!query(&one_word, 4));
}

#[test]
fn table_agrees_with_is_prime() {
    let table = table_gen();
    for n in 0..=u16::MAX {
        assert_eq!(query(&table, n), is_prime(n as usize), "n={}", n);
    }
    assert!(!query(&table, 0));
    assert!(!query(&table, 1));
    assert!(query(&table, 3));
    assert!(query(&table, 65521));
    assert!(!query(&table, 65535));
}

#[test]
fn primality_converts_to_bool() {
    let yes: bool = Primality::Prime.into();
    let probably: bool = Primality::ProbablyPrime.into();
    let no: bool = Primality::Composite.into();
    let neither: bool = Primality::ZeroOrOne.into();
    assert!(yes);
    assert!(probably);
    assert!(!no);
    assert!(!neither);
}

#[test]
fn primality_converts_from_bool() {
    assert_eq!(Primality::from(true), Primality::Prime);
    assert_eq!(Primality::from(false), Primality::Composite);
    for p in [
        Primality::ZeroOrOne,
        Primality::Prime,
        Primality::Composite,
        Primality::ProbablyPrime,
    ] {
        let once: bool = p.into();
        let twice: bool = Primality::from(once).into();
        assert_eq!(once, twice);
    }
}
