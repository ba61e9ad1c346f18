//! Primality tests over 64-bit, 128-bit and arbitrary-precision integers.
//!
//! The tests:
//!
//! - [`trial_division`]: certain at every width, in time proportional to the
//!   square root of the input;
//! - [`miller_rabin`]: deterministic on 64 bits by fixed witness sets,
//!   probabilistic in arbitrary precision;
//! - [`solovay_strassen`]: probabilistic, on 64 bits and in arbitrary
//!   precision, built on the Legendre symbol of [`legendre`];
//! - [`aks`]: the coefficient form of the AKS test, certain but of use for
//!   small inputs only;
//! - [`table`]: a bit table of the primes below 2^16.
//!
//! Every test returns a [`Primality`]. What each returns is stated in its
//! contract over the definitions of [`number_theory`], and proved. The
//! theorems that the contracts rest on are proved here too:
//!
//! - [`fermat`]: Euclid's lemma and Fermat's little theorem, from which a
//!   prime passes every Miller–Rabin check;
//! - [`gauss`] and [`reciprocity`]: Gauss's lemma and the law of quadratic
//!   reciprocity, from which a prime passes every Solovay–Strassen check;
//! - [`residues`]: Euler's criterion, from which the symbol computed for a
//!   prime modulus is the Legendre symbol;
//! - [`liars`]: at most half of the bases let a composite pass a
//!   Solovay–Strassen check;
//! - [`strong_liars`]: a base that lets a number pass a Miller–Rabin check
//!   lets it pass a Solovay–Strassen check, so the same bound holds of the
//!   Miller–Rabin test.
//!
//! The calls into `num_bigint` and `rand` are gathered in [`bignum`] and
//! [`random`]; what is stated of them there is taken on trust.

pub mod aks;
pub mod bignum;
pub mod fermat;
pub mod gauss;
pub mod legendre;
pub mod liars;
pub mod miller_rabin;
pub mod modular;
pub mod number_theory;
pub mod primality;
pub mod random;
pub mod reciprocity;
pub mod residues;
pub mod solovay_strassen;
pub mod strong_liars;
pub mod table;
pub mod trial_division;

pub use aks::aks_primality_test_usize;
pub use miller_rabin::miller_rabin_primality_test_biguint;
pub use miller_rabin::miller_rabin_primality_test_u64;
pub use primality::Primality;
pub use solovay_strassen::solovay_strassen_primality_test_biguint;
pub use solovay_strassen::solovay_strassen_primality_test_u64;
pub use trial_division::trial_division_biguint;
pub use trial_division::trial_division_u128;
pub use trial_division::trial_division_u64;
