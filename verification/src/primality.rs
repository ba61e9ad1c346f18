//! The verdict that every test returns.

use vstd::prelude::*;

verus! {

/// Outcome of a primality test.
///
/// `ProbablyPrime` is not a proof: it only says that every probabilistic round
/// passed. `Prime` and `Composite` are certain.
#[derive(Debug, PartialEq, Eq, Hash, Clone, Copy, Structural)]
pub enum Primality {
    /// The input is 0 or 1, which are neither prime nor composite.
    ZeroOrOne,
    /// The input is prime.
    Prime,
    /// The input is composite.
    Composite,
    /// The input passed every round of a probabilistic test.
    ProbablyPrime,
}

impl Primality {
    /// Whether a verdict counts as prime: `Prime` and `ProbablyPrime` do,
    /// `Composite` and `ZeroOrOne` do not.
    pub open spec fn as_bool(self) -> bool {
        self == Primality::Prime || self == Primality::ProbablyPrime
    }

    /// The certain verdict for a number known to be prime or known not to be.
    pub open spec fn of_bool(v: bool) -> Primality {
        if v {
            Primality::Prime
        } else {
            Primality::Composite
        }
    }
}

impl Into<bool> for Primality {
    /// `true` for `Prime` and `ProbablyPrime`, `false` for `Composite` and
    /// `ZeroOrOne`: the distinction between proof and probability is dropped.
    fn into(self) -> (r: bool) {
        match self {
            Primality::Prime | Primality::ProbablyPrime => true,
            _ => false,
        }
    }
}

impl vstd::std_specs::convert::IntoSpecImpl<bool> for Primality {
    open spec fn obeys_into_spec() -> bool {
        true
    }

    open spec fn into_spec(self) -> bool {
        self.as_bool()
    }
}

impl From<bool> for Primality {
    /// `Prime` for `true`, `Composite` for `false`.
    fn from(v: bool) -> (r: Primality) {
        match v {
            true => Primality::Prime,
            false => Primality::Composite,
        }
    }
}

impl vstd::std_specs::convert::FromSpecImpl<bool> for Primality {
    open spec fn obeys_from_spec() -> bool {
        true
    }

    open spec fn from_spec(v: bool) -> Primality {
        Primality::of_bool(v)
    }
}

/// The conversion to `bool` gives `true` for `Prime` and `ProbablyPrime` and
/// `false` for `Composite` and `ZeroOrOne`, always. Turning that answer back
/// into a verdict and converting again gives the same answer.
pub proof fn lemma_bool_conversion(p: Primality)
    ensures
        <Primality as vstd::std_specs::convert::IntoSpec<bool>>::obeys_into_spec(),
        <Primality as vstd::std_specs::convert::IntoSpec<bool>>::into_spec(p) == p.as_bool(),
        p.as_bool() <==> (p == Primality::Prime || p == Primality::ProbablyPrime),
        !p.as_bool() <==> (p == Primality::Composite || p == Primality::ZeroOrOne),
        <Primality as vstd::std_specs::convert::FromSpec<bool>>::from_spec(p.as_bool()).as_bool()
            == p.as_bool(),
{
}

} // verus!
