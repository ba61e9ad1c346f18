use primality::{aks_primality_test_usize, trial_division_u64, Primality};

#[test]
fn aks_smallest_inputs() {
    assert_eq!(aks_primality_test_usize(2), Primality::Prime);
    assert_eq!(aks_primality_test_usize(3), Primality::Prime);
    assert_eq!(aks_primality_test_usize(4), Primality::Composite);
    assert_eq!(aks_primality_test_usize(5), Primality::Prime);
    assert_eq!(aks_primality_test_usize(9), Primality::Composite);
}

#[test]
fn aks_agrees_with_trial_division() {
    for n in 2usize..400 {
        assert_eq!(aks_primality_test_usize(n), trial_division_u64(n as u64), "n={}", n);
    }
}

#[test]
fn aks_beyond_64_bit_coefficients() {
    // The middle coefficients of these rows do not fit in 64 bits.
    assert_eq!(aks_primality_test_usize(67), Primality::Prime);
    assert_eq!(aks_primality_test_usize(91), Primality::Composite);
    assert_eq!(aks_primality_test_usize(97), Primality::Prime);
    assert_eq!(aks_primality_test_usize(561), Primality::Composite);
    assert_eq!(aks_primality_test_usize(1009), Primality::Prime);
    assert_eq!(aks_primality_test_usize(1024), Primality::Composite);
}
