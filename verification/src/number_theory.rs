//! What "prime" means, and the facts about divisors that the tests rest on.

use crate::primality::Primality;
use vstd::arithmetic::div_mod::*;
use vstd::arithmetic::mul::*;
use vstd::prelude::*;

verus! {

/// `d` is a positive divisor of `n`.
pub open spec fn divides(d: nat, n: nat) -> bool {
    d > 0 && n % d == 0
}

/// `n` has no divisor in `2..bound`.
pub open spec fn no_divisor_below(n: nat, bound: nat) -> bool {
    forall|d: nat| 2 <= d < bound ==> !#[trigger] divides(d, n)
}

/// `n` is at least 2 and has no divisor other than 1 and itself.
pub open spec fn is_prime(n: nat) -> bool {
    n >= 2 && no_divisor_below(n, n)
}

/// The certain verdict on `n`.
pub open spec fn primality_of(n: nat) -> Primality {
    if n < 2 {
        Primality::ZeroOrOne
    } else if is_prime(n) {
        Primality::Prime
    } else {
        Primality::Composite
    }
}

/// The certain verdict counts as prime exactly for the primes, and is
/// `ZeroOrOne` exactly for 0 and 1.
pub proof fn lemma_certain_verdict(n: nat)
    ensures
        primality_of(n).as_bool() <==> is_prime(n),
        primality_of(n) == Primality::ZeroOrOne <==> n < 2,
        primality_of(n) != Primality::ProbablyPrime,
{
}

/// 2 is the only even prime.
pub proof fn lemma_even_prime_is_two(n: nat)
    requires
        n % 2 == 0,
    ensures
        is_prime(n) <==> n == 2,
{
    if n > 2 {
        lemma_divisor_refutes_prime(2, n);
    }
}

/// What a divisor `d` of `n` is: `n` is `d` times the quotient.
pub proof fn lemma_divides_product(d: nat, n: nat)
    requires
        divides(d, n),
    ensures
        n == d * (n / d),
{
    lemma_fundamental_div_mod(n as int, d as int);
}

/// A multiple of `d` is divisible by `d`.
pub proof fn lemma_multiple_divides(d: nat, k: nat)
    requires
        d > 0,
    ensures
        divides(d, d * k),
        divides(d, k * d),
{
    lemma_mod_multiples_basic(k as int, d as int);
    lemma_mul_is_commutative(d as int, k as int);
}

/// Divisibility is transitive.
pub proof fn lemma_divides_transitive(a: nat, b: nat, c: nat)
    requires
        divides(a, b),
        divides(b, c),
    ensures
        divides(a, c),
{
    lemma_divides_product(a, b);
    lemma_divides_product(b, c);
    let k = b / a;
    let j = c / b;
    assert(c == a * (k * j)) by {
        lemma_mul_is_associative(a as int, k as int, j as int);
    }
    lemma_multiple_divides(a, k * j);
}

/// Reducing `n` modulo a positive `a` leaves less than `a`, and leaves `n`
/// itself where `n` is already below `a`.
pub proof fn lemma_residue_shrinks(n: nat, a: nat)
    requires
        a > 0,
    ensures
        n % a < a,
        n < a ==> n % a == n,
{
    lemma_mod_bound(n as int, a as int);
    if n < a {
        lemma_small_mod(n, a);
    }
}

/// `a` and `n` have a divisor other than 1 in common.
pub open spec fn common_factor(a: nat, n: nat) -> bool {
    exists|d: nat| d >= 2 && #[trigger] divides(d, a) && divides(d, n)
}

/// A divisor of two numbers divides their sum; a divisor of a sum and of one
/// of its terms divides the other term.
pub proof fn lemma_divides_sum(d: nat, x: nat, y: nat)
    requires
        divides(d, x),
    ensures
        divides(d, y) <==> divides(d, x + y),
{
    lemma_add_mod_noop(x as int, y as int, d as int);
    lemma_mod_twice(y as int, d as int);
    lemma_small_mod(0, d);
}

/// Euclid's step keeps the common divisors: `a` and `n` have the same ones as
/// `n mod a` and `a`.
pub proof fn lemma_common_factor_remainder(a: nat, n: nat)
    requires
        a > 0,
    ensures
        common_factor(a, n) <==> common_factor(n % a, a),
{
    let q = n / a;
    let r = n % a;
    lemma_fundamental_div_mod(n as int, a as int);
    assert(a * q + r == n);
    if common_factor(a, n) {
        let d = choose|d: nat| d >= 2 && #[trigger] divides(d, a) && divides(d, n);
        lemma_multiple_divides(a, q);
        lemma_divides_transitive(d, a, a * q);
        lemma_divides_sum(d, a * q, r);
        assert(divides(d, r) && divides(d, a));
    }
    if common_factor(r, a) {
        let d = choose|d: nat| d >= 2 && #[trigger] divides(d, r) && divides(d, a);
        lemma_multiple_divides(a, q);
        lemma_divides_transitive(d, a, a * q);
        lemma_divides_sum(d, a * q, r);
        assert(divides(d, a) && divides(d, n));
    }
}

/// An odd divisor of `2m` divides `m`.
pub proof fn lemma_odd_divisor_of_double(d: nat, m: nat)
    requires
        d % 2 == 1,
        divides(d, 2 * m),
    ensures
        divides(d, m),
{
    let k = (2 * m) / d;
    let half = d / 2;
    lemma_divides_product(d, 2 * m);
    assert(d * k == 2 * (half * k) + k) by (nonlinear_arith)
        requires
            d == 2 * half + 1,
    ;
    let j = k / 2;
    assert(m == d * j) by (nonlinear_arith)
        requires
            2 * m == d * k,
            k == 2 * j,
    ;
    lemma_multiple_divides(d, j);
}

/// For an odd `n`, halving an even `a` keeps the common divisors.
pub proof fn lemma_common_factor_halve(a: nat, n: nat)
    requires
        a % 2 == 0,
        n % 2 == 1,
    ensures
        common_factor(a, n) <==> common_factor(a / 2, n),
{
    let m = a / 2;
    if common_factor(a, n) {
        let d = choose|d: nat| d >= 2 && #[trigger] divides(d, a) && divides(d, n);
        if d % 2 == 0 {
            assert(divides(2, d));
            lemma_divides_transitive(2, d, n);
        }
        lemma_odd_divisor_of_double(d, m);
        assert(divides(d, m) && divides(d, n));
    }
    if common_factor(m, n) {
        let d = choose|d: nat| d >= 2 && #[trigger] divides(d, m) && divides(d, n);
        if m > 0 {
            lemma_multiple_divides(m, 2);
            lemma_divides_transitive(d, m, a);
        }
        assert(divides(d, a) && divides(d, n));
    }
}

/// A number with a divisor strictly between 1 and itself is not prime.
pub proof fn lemma_divisor_refutes_prime(d: nat, n: nat)
    requires
        2 <= d < n,
        n % d == 0,
    ensures
        !is_prime(n),
{
    assert(divides(d, n));
}

/// The least divisor of `n` that is at least `from`.
pub open spec fn least_divisor(n: nat, from: nat) -> nat
    decreases n - from,
{
    if from >= n || from == 0 {
        n
    } else if n % from == 0 {
        from
    } else {
        least_divisor(n, from + 1)
    }
}

/// The least divisor from `from` on divides `n`, and nothing below it does.
proof fn lemma_least_divisor(n: nat, from: nat)
    requires
        2 <= from <= n,
        no_divisor_below(n, from),
    ensures
        from <= least_divisor(n, from) <= n,
        divides(least_divisor(n, from), n),
        no_divisor_below(n, least_divisor(n, from)),
    decreases n - from,
{
    if from >= n {
        lemma_mod_self_0(n as int);
    } else if n % from == 0 {
    } else {
        assert forall|d: nat| 2 <= d < from + 1 implies !#[trigger] divides(d, n) by {}
        lemma_least_divisor(n, from + 1);
    }
}

/// The least divisor above 1 of a number is prime, and is the number itself
/// exactly when the number is prime.
pub proof fn lemma_least_divisor_is_prime(n: nat)
    requires
        n >= 2,
    ensures
        is_prime(least_divisor(n, 2)),
        divides(least_divisor(n, 2), n),
        2 <= least_divisor(n, 2) <= n,
        least_divisor(n, 2) == n <==> is_prime(n),
{
    let q = least_divisor(n, 2);
    assert forall|d: nat| 2 <= d < 2 implies !#[trigger] divides(d, n) by {}
    lemma_least_divisor(n, 2);
    assert forall|d: nat| 2 <= d < q implies !#[trigger] divides(d, q) by {
        if divides(d, q) {
            lemma_divides_transitive(d, q, n);
        }
    }
}

/// The least divisor above 1 of a composite number is at most half of it,
/// and at most a third of it where the number is odd.
pub proof fn lemma_least_divisor_of_composite(n: nat)
    requires
        n >= 2,
        !is_prime(n),
    ensures
        2 * least_divisor(n, 2) <= n,
        n % 2 == 1 ==> 3 * least_divisor(n, 2) <= n,
{
    let q = least_divisor(n, 2);
    lemma_least_divisor_is_prime(n);
    let cofactor = n / q;
    lemma_divides_product(q, n);
    assert(cofactor >= 2 && 2 * q <= n) by (nonlinear_arith)
        requires
            n == q * cofactor,
            2 <= q < n,
    ;
    if n % 2 == 1 {
        if cofactor == 2 {
            lemma_multiple_divides(2, q);
        }
        assert(3 * q <= n) by (nonlinear_arith)
            requires
                n == q * cofactor,
                cofactor >= 3,
        ;
    }
}

/// An odd number that 3 does not divide has no divisor below 5.
pub proof fn lemma_wheel_start(n: nat)
    requires
        n % 2 != 0,
        n % 3 != 0,
    ensures
        no_divisor_below(n, 5),
{
    assert forall|d: nat| 2 <= d < 5 implies !#[trigger] divides(d, n) by {
        if d == 4 && divides(d, n) {
            assert(divides(2, 4));
            lemma_divides_transitive(2, 4, n);
        }
    }
}

/// Among six consecutive numbers starting at `i = 6k - 1`, only `i` and
/// `i + 2` are free of the factors 2 and 3: once those two are ruled out as
/// divisors of `n`, so are all six.
pub proof fn lemma_wheel_step(n: nat, i: nat)
    requires
        n % 2 != 0,
        n % 3 != 0,
        i % 6 == 5,
        no_divisor_below(n, i),
        n % i != 0,
        n % (i + 2) != 0,
    ensures
        no_divisor_below(n, i + 6),
{
    assert forall|d: nat| 2 <= d < i + 6 implies !#[trigger] divides(d, n) by {
        if d >= i && divides(d, n) {
            if d % 2 == 0 {
                assert(divides(2, d));
                lemma_divides_transitive(2, d, n);
            } else {
                assert(d == i + 4);
                assert(divides(3, d));
                lemma_divides_transitive(3, d, n);
            }
        }
    }
}

/// A number with no divisor up to its square root is prime.
pub proof fn lemma_prime_by_square_bound(n: nat, i: nat)
    requires
        n >= 2,
        no_divisor_below(n, i),
        i * i > n,
    ensures
        is_prime(n),
{
    assert forall|d: nat| 2 <= d < n implies !#[trigger] divides(d, n) by {
        if d >= i && divides(d, n) {
            let q = n / d;
            lemma_divides_product(d, n);
            assert(q >= 2) by (nonlinear_arith)
                requires
                    n == d * q,
                    d < n,
                    d >= 2,
            ;
            lemma_multiple_divides(q, d);
            assert(q < i) by (nonlinear_arith)
                requires
                    n == d * q,
                    d >= i,
                    i * i > n,
                    i >= 0,
                    q >= 0,
            ;
            assert(divides(q, n));
        }
    }
}

/// A candidate divisor that the 6k±1 loop tries is smaller than `n`.
pub proof fn lemma_candidate_below(n: nat, i: nat)
    requires
        i >= 5,
        i * i <= n,
    ensures
        i + 2 < n,
{
    assert(i + 2 < i * i) by (nonlinear_arith)
        requires
            i >= 5,
    ;
}

/// The 25 primes below 100.
pub open spec fn is_listed_small_prime(n: nat) -> bool {
    n == 2 || n == 3 || n == 5 || n == 7 || n == 11 || n == 13 || n == 17 || n == 19 || n == 23
        || n == 29 || n == 31 || n == 37 || n == 41 || n == 43 || n == 47 || n == 53 || n == 59
        || n == 61 || n == 67 || n == 71 || n == 73 || n == 79 || n == 83 || n == 89 || n == 97
}

/// Each listed number is prime.
pub proof fn lemma_listed_small_prime(n: nat)
    requires
        is_listed_small_prime(n),
    ensures
        is_prime(n),
{
    if n == 2 {
    } else if n == 3 {
        assert forall|d: nat| 2 <= d < 3 implies !#[trigger] divides(d, n) by {}
    } else {
        lemma_wheel_start(n);
        if n < 25 {
            lemma_prime_by_square_bound(n, 5);
        } else {
            assert(n % 5 != 0 && n % 7 != 0);
            lemma_wheel_step(n, 5);
            lemma_prime_by_square_bound(n, 11);
        }
    }
}

} // verus!
