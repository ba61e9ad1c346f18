//! Euler's criterion: modulo an odd prime `p`, the numbers `a` with
//! `a^((p-1)/2) = 1` are exactly the squares.
//!
//! One direction is Fermat's little theorem. The other counts roots: a
//! polynomial of degree `d` has at most `d` roots modulo a prime, and the
//! `(p-1)/2` squares are already that many roots of `x^((p-1)/2) - 1`.

use crate::fermat::{lemma_euclid, lemma_fermat_little};
use crate::number_theory::{is_prime, lemma_residue_shrinks};
use vstd::arithmetic::div_mod::{
    lemma_mod_equivalence, lemma_mod_twice, lemma_mul_mod_noop_general, lemma_small_mod,
    lemma_sub_mod_noop,
};
use vstd::arithmetic::power::{
    lemma_pow0, lemma_pow1, lemma_pow_adds, lemma_pow_mod_noop, lemma_pow_multiplies,
    lemma_square_is_pow2, pow,
};
use vstd::prelude::*;

verus! {

/// `a` is a square modulo `p`: some `x` in `1..p` has `x^2 = a` modulo `p`.
pub open spec fn is_square_mod(a: nat, p: nat) -> bool {
    exists|x: nat| 1 <= x < p && #[trigger] squares_to(x, a, p)
}

/// `x^2` is `a` modulo `p`.
pub open spec fn squares_to(x: nat, a: nat, p: nat) -> bool {
    (x * x) % p == a % p
}

/// The value at `x` of the polynomial with the coefficients `c`, lowest
/// first.
pub open spec fn eval(c: Seq<int>, x: int) -> int
    decreases c.len(),
{
    if c.len() == 0 {
        0
    } else {
        c[0] + x * eval(c.drop_first(), x)
    }
}

/// The coefficients of the quotient of the polynomial `c` by `x - r`.
pub open spec fn quotient(c: Seq<int>, r: int) -> Seq<int>
    decreases c.len(),
{
    if c.len() <= 1 {
        Seq::empty()
    } else {
        seq![eval(c.drop_first(), r)] + quotient(c.drop_first(), r)
    }
}

/// The polynomial without coefficients is 0.
proof fn lemma_eval_empty(c: Seq<int>, x: int)
    requires
        c.len() == 0,
    ensures
        eval(c, x) == 0,
{
}

/// A constant has no quotient.
proof fn lemma_quotient_short(c: Seq<int>, r: int)
    requires
        c.len() <= 1,
    ensures
        quotient(c, r) =~= Seq::<int>::empty(),
{
}

/// Dividing by `x - r` leaves the value at `r` as the remainder.
proof fn lemma_division(c: Seq<int>, r: int, x: int)
    ensures
        eval(c, x) == eval(c, r) + (x - r) * eval(quotient(c, r), x),
    decreases c.len(),
{
    if c.len() <= 1 {
        lemma_eval_empty(quotient(c, r), x);
        assert((x - r) * 0 == 0);
        if c.len() == 1 {
            lemma_eval_empty(c.drop_first(), x);
            lemma_eval_empty(c.drop_first(), r);
            assert(x * 0 == 0);
            assert(r * 0 == 0);
        }
    } else {
        let t = c.drop_first();
        let q = quotient(c, r);
        lemma_division(t, r, x);
        assert(q[0] == eval(t, r));
        assert(q.drop_first() =~= quotient(t, r));
        let at_r = eval(t, r);
        let inner = eval(quotient(t, r), x);
        assert(eval(q, x) == at_r + x * inner);
        assert(c[0] + x * (at_r + (x - r) * inner) == c[0] + r * at_r + (x - r) * (at_r + x
            * inner)) by (nonlinear_arith);
    }
}

/// The quotient has one coefficient less, and the same leading coefficient.
proof fn lemma_quotient_shape(c: Seq<int>, r: int)
    requires
        c.len() >= 2,
    ensures
        quotient(c, r).len() == c.len() - 1,
        quotient(c, r).last() == c.last(),
    decreases c.len(),
{
    let t = c.drop_first();
    if c.len() == 2 {
        lemma_eval_empty(t.drop_first(), r);
        lemma_quotient_short(t, r);
        assert(r * 0 == 0);
        assert(eval(t, r) == t[0]);
        assert(quotient(c, r) =~= seq![t[0]]);
    } else {
        lemma_quotient_shape(t, r);
    }
}

/// Euclid's lemma for integers of either sign.
proof fn lemma_euclid_signed(p: nat, x: int, y: int)
    requires
        is_prime(p),
        (x * y) % (p as int) == 0,
    ensures
        x % (p as int) == 0 || y % (p as int) == 0,
{
    let m = p as int;
    let rx = (x % m) as nat;
    let ry = (y % m) as nat;
    lemma_mul_mod_noop_general(x, y, m);
    lemma_euclid(p, rx, ry);
    lemma_mod_twice(x, m);
    lemma_mod_twice(y, m);
}

/// The entries of `roots` lie in `0..p`, differ from one another, and are
/// roots of the polynomial `c` modulo `p`.
pub open spec fn distinct_roots(c: Seq<int>, roots: Seq<nat>, p: nat) -> bool {
    &&& forall|i: int| 0 <= i < roots.len() ==> #[trigger] roots[i] < p
    &&& forall|i: int, j: int|
        0 <= i < j < roots.len() ==> #[trigger] roots[i] != #[trigger] roots[j]
    &&& forall|i: int| 0 <= i < roots.len() ==> eval(c, #[trigger] roots[i] as int) % (p as int) == 0
}

/// Modulo a prime, a polynomial whose leading coefficient does not vanish
/// has no more roots than its degree.
pub proof fn lemma_root_bound(c: Seq<int>, roots: Seq<nat>, p: nat)
    requires
        is_prime(p),
        c.len() >= 1,
        c.last() % (p as int) != 0,
        distinct_roots(c, roots, p),
    ensures
        roots.len() <= c.len() - 1,
    decreases c.len(),
{
    let m = p as int;
    if roots.len() == 0 {
    } else if c.len() == 1 {
        let s = roots[0] as int;
        lemma_eval_empty(c.drop_first(), s);
        assert(s * 0 == 0);
    } else {
        let r = roots.last() as int;
        let others = roots.drop_last();
        let q = quotient(c, r);
        lemma_quotient_shape(c, r);
        assert forall|i: int| 0 <= i < others.len() implies eval(q, #[trigger] others[i] as int)
            % m == 0 by {
            let s = others[i] as int;
            assert(others[i] == roots[i]);
            lemma_division(c, r, s);
            lemma_sub_mod_noop(eval(c, s), eval(c, r), m);
            lemma_small_mod(0, p);
            lemma_euclid_signed(p, s - r, eval(q, s));
            if (s - r) % m == 0 {
                lemma_mod_equivalence(s, r, m);
                lemma_small_mod(roots[i], p);
                lemma_small_mod(roots.last(), p);
            }
        }
        assert(distinct_roots(q, others, p)) by {
            assert forall|i: int| 0 <= i < others.len() implies #[trigger] others[i] < p by {
                assert(others[i] == roots[i]);
            }
            assert forall|i: int, j: int| 0 <= i < j < others.len() implies #[trigger] others[i]
                != #[trigger] others[j] by {
                assert(others[i] == roots[i]);
                assert(others[j] == roots[j]);
            }
        }
        lemma_root_bound(q, others, p);
    }
}

/// The coefficients of `x^k`.
pub open spec fn monomial(k: nat) -> Seq<int> {
    Seq::new(
        k + 1,
        |i: int|
            if i == k {
                1int
            } else {
                0int
            },
    )
}

/// The coefficients of `x^k - 1`, for `k` at least 1.
pub open spec fn power_minus_one(k: nat) -> Seq<int> {
    Seq::new(
        k + 1,
        |i: int|
            if i == k {
                1int
            } else if i == 0 {
                -1int
            } else {
                0int
            },
    )
}

/// The value of the monomial `x^k` is the power.
proof fn lemma_eval_monomial(k: nat, x: int)
    ensures
        eval(monomial(k), x) == pow(x, k),
    decreases k,
{
    let c = monomial(k);
    if k == 0 {
        lemma_eval_empty(c.drop_first(), x);
        lemma_pow0(x);
        assert(x * 0 == 0);
    } else {
        assert(c.drop_first() =~= monomial((k - 1) as nat));
        lemma_eval_monomial((k - 1) as nat, x);
        lemma_pow_adds(x, 1, (k - 1) as nat);
        lemma_pow1(x);
    }
}

/// The value of `x^k - 1` is the power less 1.
proof fn lemma_eval_power_minus_one(k: nat, x: int)
    requires
        k >= 1,
    ensures
        eval(power_minus_one(k), x) == pow(x, k) - 1,
{
    let c = power_minus_one(k);
    assert(c.drop_first() =~= monomial((k - 1) as nat));
    lemma_eval_monomial((k - 1) as nat, x);
    lemma_pow_adds(x, 1, (k - 1) as nat);
    lemma_pow1(x);
}

/// The residues of the squares of 1 to `count`.
pub open spec fn squares(p: nat, count: nat) -> Seq<nat> {
    Seq::new(count, |i: int| (((i + 1) * (i + 1)) as nat) % p)
}

/// Modulo an odd prime `p`, the square of a number that `p` does not divide
/// has `(p-1)/2`-th power 1.
pub proof fn lemma_square_has_power_one(p: nat, x: nat)
    requires
        is_prime(p),
        p % 2 == 1,
        x % p != 0,
    ensures
        pow((x * x) as int, p / 2) % (p as int) == 1,
{
    let h = p / 2;
    lemma_fermat_little(p, x);
    lemma_square_is_pow2(x as int);
    lemma_pow_multiplies(x as int, 2, h);
    assert(2 * h == p - 1);
}

/// Modulo an odd prime, two numbers in `1..=(p-1)/2` with the same square are
/// the same number.
proof fn lemma_squares_differ(p: nat, i: nat, j: nat)
    requires
        is_prime(p),
        p % 2 == 1,
        1 <= i < j <= p / 2,
    ensures
        (i * i) % p != (j * j) % p,
{
    if (i * i) % p == (j * j) % p {
        let gap = (j - i) as nat;
        let both = j + i;
        lemma_mod_equivalence((j * j) as int, (i * i) as int, p as int);
        assert(j * j - i * i == gap * both) by (nonlinear_arith)
            requires
                gap == j - i,
                both == j + i,
        ;
        lemma_euclid(p, gap, both);
        lemma_small_mod(gap, p);
        lemma_small_mod(both, p);
    }
}

/// Modulo an odd prime `p`, some number in `1..p` has a `(p-1)/2`-th power
/// other than 1: not all of the `p - 1` numbers can be roots of a polynomial
/// of degree `(p-1)/2`.
pub proof fn lemma_power_not_always_one(p: nat)
    requires
        is_prime(p),
        p % 2 == 1,
    ensures
        exists|g: nat| 1 <= g < p && #[trigger] pow(g as int, p / 2) % (p as int) != 1,
{
    let h = p / 2;
    let m = p as int;
    let c = power_minus_one(h);
    let all = Seq::new((p - 1) as nat, |i: int| (i + 1) as nat);
    if forall|g: nat| 1 <= g < p ==> #[trigger] pow(g as int, h) % m == 1 {
        lemma_small_mod(1, p);
        assert forall|i: int| 0 <= i < all.len() implies #[trigger] all[i] < p && eval(
            c,
            all[i] as int,
        ) % m == 0 by {
            lemma_eval_power_minus_one(h, all[i] as int);
            assert(pow(all[i] as int, h) % m == 1);
            lemma_mod_equivalence(pow(all[i] as int, h), 1, m);
        }
        assert(c.last() == 1);
        lemma_root_bound(c, all, p);
    }
}

/// Euler's criterion: modulo an odd prime `p` that does not divide `a`, the
/// power `a^((p-1)/2)` is 1 exactly when `a` is a square.
pub proof fn lemma_euler_criterion(p: nat, a: nat)
    requires
        is_prime(p),
        p % 2 == 1,
        a % p != 0,
    ensures
        pow(a as int, p / 2) % (p as int) == 1 <==> is_square_mod(a, p),
{
    let h = p / 2;
    let m = p as int;
    let c = power_minus_one(h);
    if is_square_mod(a, p) {
        let x = choose|x: nat| 1 <= x < p && #[trigger] squares_to(x, a, p);
        lemma_small_mod(x, p);
        lemma_square_has_power_one(p, x);
        lemma_pow_mod_noop((x * x) as int, h, m);
        lemma_pow_mod_noop(a as int, h, m);
    }
    if pow(a as int, h) % m == 1 && !is_square_mod(a, p) {
        let roots = squares(p, h).push(a % p);
        lemma_residue_shrinks(a, p);
        lemma_small_mod(1, p);
        assert forall|i: int| 0 <= i < roots.len() implies #[trigger] roots[i] < p && eval(
            c,
            roots[i] as int,
        ) % m == 0 by {
            lemma_eval_power_minus_one(h, roots[i] as int);
            if i < h {
                let x = (i + 1) as nat;
                lemma_residue_shrinks(x * x, p);
                lemma_small_mod(x, p);
                lemma_square_has_power_one(p, x);
                lemma_pow_mod_noop((x * x) as int, h, m);
            } else {
                lemma_pow_mod_noop(a as int, h, m);
            }
            lemma_mod_equivalence(pow(roots[i] as int, h), 1, m);
        }
        assert forall|i: int, j: int| 0 <= i < j < roots.len() implies #[trigger] roots[i]
            != #[trigger] roots[j] by {
            let x = (i + 1) as nat;
            if j < h {
                lemma_squares_differ(p, x, (j + 1) as nat);
            } else {
                lemma_small_mod(a % p, p);
                assert(!squares_to(x, a, p));
            }
        }
        assert(c.last() == 1);
        lemma_root_bound(c, roots, p);
    }
}

} // verus!
