//! Field laws of the fraction model.
//!
//! Every arithmetic operation on [`Rat`] returns the reduced fraction of its
//! value, so two computations of the same value give the same fraction. The
//! lemmas here state the usual laws (commutativity, associativity, identities,
//! inverses) as equalities of fractions in lowest terms, and the sums and
//! products of lists of fractions built on them.
use vstd::prelude::*;
use vstd::arithmetic::power::pow;
use crate::number::{
    abs, gcd, lemma_gcd_factors, lemma_gcd_scale, lemma_reduced_unique, normalize, rat_add,
    rat_div, rat_int, rat_mul, rat_neg, rat_pow, rat_sub, reduced, Rat,
};

verus! {

/// Every fraction is in lowest terms, as every number's view is.
pub open spec fn all_reduced(s: Seq<Rat>) -> bool {
    forall|i: int| 0 <= i < s.len() ==> reduced(#[trigger] s[i])
}

/// Normalising gives a fraction in lowest terms of the same value, for any
/// nonzero denominator.
pub proof fn lemma_normalize(n: int, d: int)
    requires
        d != 0,
    ensures
        reduced(normalize(n, d)),
        normalize(n, d).num * d == n * normalize(n, d).den,
{
    if n == 0 {
        assert(gcd(0, 1) == gcd(1, 0nat % 1nat));
        assert(gcd(1, 0) == 1);
        assert(normalize(n, d) == rat_int(0));
        assert(0 * d == 0) by (nonlinear_arith);
    } else {
        let (kn, kd) = lemma_gcd_factors(abs(n), abs(d));
        let g = gcd(abs(n), abs(d)) as int;
        assert(abs(d) > 0);
        assert(g > 0) by (nonlinear_arith)
            requires
                abs(d) == kd * g,
                abs(d) > 0,
                g >= 0,
        ;
        assert(kn > 0 && kd > 0) by (nonlinear_arith)
            requires
                abs(n) == kn * g,
                abs(d) == kd * g,
                abs(n) > 0,
                abs(d) > 0,
                g > 0,
        ;
        let sn: int = if n < 0 {
            -kn
        } else {
            kn
        };
        let sd: int = if d < 0 {
            -kd
        } else {
            kd
        };
        assert(n == sn * g) by (nonlinear_arith)
            requires
                abs(n) == kn * g,
                sn == (if n < 0 {
                    -kn
                } else {
                    kn
                }),
                n < 0 ==> abs(n) == -n,
                n >= 0 ==> abs(n) == n,
        ;
        assert(d == sd * g) by (nonlinear_arith)
            requires
                abs(d) == kd * g,
                sd == (if d < 0 {
                    -kd
                } else {
                    kd
                }),
                d < 0 ==> abs(d) == -d,
                d >= 0 ==> abs(d) == d,
        ;
        assert(n / g == sn) by {
            vstd::arithmetic::div_mod::lemma_div_multiples_vanish(sn, g);
            assert(g * sn == sn * g) by (nonlinear_arith);
        }
        assert(d / g == sd) by {
            vstd::arithmetic::div_mod::lemma_div_multiples_vanish(sd, g);
            assert(g * sd == sd * g) by (nonlinear_arith);
        }
        let r = normalize(n, d);
        assert(r.den == kd);
        assert(abs(r.num) == kn);
        lemma_gcd_scale(g as nat, kn as nat, kd as nat);
        assert(g * kn == abs(n) && g * kd == abs(d)) by (nonlinear_arith)
            requires
                abs(n) == kn * g,
                abs(d) == kd * g,
        ;
        assert(g * gcd(kn as nat, kd as nat) == g);
        assert(gcd(kn as nat, kd as nat) == 1) by (nonlinear_arith)
            requires
                g * gcd(kn as nat, kd as nat) == g,
                g > 0,
        ;
        assert(r.num * d == n * r.den) by (nonlinear_arith)
            requires
                n == sn * g,
                d == sd * g,
                r.den == kd,
                d < 0 ==> r.num == -sn && sd == -kd,
                d >= 0 ==> r.num == sn && sd == kd,
        ;
    }
}

/// Two fractions of the same value normalise to the same fraction.
pub proof fn lemma_same_value(n1: int, d1: int, n2: int, d2: int)
    requires
        d1 != 0,
        d2 != 0,
        n1 * d2 == n2 * d1,
    ensures
        normalize(n1, d1) == normalize(n2, d2),
{
    let a = normalize(n1, d1);
    let b = normalize(n2, d2);
    lemma_normalize(n1, d1);
    lemma_normalize(n2, d2);
    let x = a.num * b.den;
    let y = b.num * a.den;
    let k = d1 * d2;
    assert(k != 0) by (nonlinear_arith)
        requires
            d1 != 0,
            d2 != 0,
            k == d1 * d2,
    ;
    assert(x * k == (a.num * d1) * (b.den * d2)) by (nonlinear_arith)
        requires
            x == a.num * b.den,
            k == d1 * d2,
    ;
    assert((n1 * a.den) * (b.den * d2) == (n1 * d2) * (a.den * b.den)) by (nonlinear_arith);
    assert(y * k == (b.num * d2) * (a.den * d1)) by (nonlinear_arith)
        requires
            y == b.num * a.den,
            k == d1 * d2,
    ;
    assert((n2 * b.den) * (a.den * d1) == (n2 * d1) * (a.den * b.den)) by (nonlinear_arith);
    assert(x * k == y * k);
    assert(x == y) by (nonlinear_arith)
        requires
            x * k == y * k,
            k != 0,
    ;
    lemma_reduced_unique(a, b);
}

/// A fraction in lowest terms normalises to itself.
pub proof fn lemma_normalize_reduced(q: Rat)
    requires
        reduced(q),
    ensures
        normalize(q.num, q.den) == q,
{
    lemma_normalize(q.num, q.den);
    lemma_reduced_unique(normalize(q.num, q.den), q);
}

pub proof fn lemma_int_reduced(k: int)
    ensures
        reduced(rat_int(k)),
{
    assert(abs(k) % 1 == 0);
    assert(gcd(abs(k), 1) == gcd(1, 0));
    assert(gcd(1, 0) == 1);
}

pub proof fn lemma_neg_reduced(a: Rat)
    requires
        reduced(a),
    ensures
        reduced(rat_neg(a)),
{
    assert(abs(-a.num) == abs(a.num));
}

/// The results of the operations are in lowest terms.
pub proof fn lemma_ops_reduced(a: Rat, b: Rat)
    requires
        a.den > 0,
        b.den > 0,
    ensures
        reduced(rat_add(a, b)),
        reduced(rat_sub(a, b)),
        reduced(rat_mul(a, b)),
        b.num != 0 ==> reduced(rat_div(a, b)),
{
    assert(a.den * b.den > 0) by (nonlinear_arith)
        requires
            a.den > 0,
            b.den > 0,
    ;
    lemma_normalize(a.num * b.den + b.num * a.den, a.den * b.den);
    lemma_normalize(a.num * b.den - b.num * a.den, a.den * b.den);
    lemma_normalize(a.num * b.num, a.den * b.den);
    if b.num != 0 {
        assert(a.den * b.num != 0) by (nonlinear_arith)
            requires
                a.den > 0,
                b.num != 0,
        ;
        lemma_normalize(a.num * b.den, a.den * b.num);
    }
}

/// Negating a normalised fraction normalises the negated numerator.
pub proof fn lemma_neg_normalize(n: int, d: int)
    requires
        d != 0,
    ensures
        rat_neg(normalize(n, d)) == normalize(-n, d),
{
    let r = normalize(n, d);
    lemma_normalize(n, d);
    lemma_neg_reduced(r);
    lemma_normalize(-n, d);
    assert(rat_neg(r).num * d == -n * rat_neg(r).den) by (nonlinear_arith)
        requires
            r.num * d == n * r.den,
    ;
    let s = normalize(-n, d);
    assert(rat_neg(r).num * s.den == s.num * rat_neg(r).den) by (nonlinear_arith)
        requires
            rat_neg(r).num * d == -n * rat_neg(r).den,
            s.num * d == -n * s.den,
            d != 0,
    {
        assert(rat_neg(r).num * s.den * d == -n * rat_neg(r).den * s.den);
        assert(s.num * rat_neg(r).den * d == -n * s.den * rat_neg(r).den);
    }
    lemma_reduced_unique(rat_neg(r), s);
}

// ---------------------------------------------------------------------------
// Addition
// ---------------------------------------------------------------------------

pub proof fn lemma_add_comm(a: Rat, b: Rat)
    requires
        a.den > 0,
        b.den > 0,
    ensures
        rat_add(a, b) == rat_add(b, a),
{
    assert(a.den * b.den > 0) by (nonlinear_arith)
        requires
            a.den > 0,
            b.den > 0,
    ;
    assert((a.num * b.den + b.num * a.den) * (b.den * a.den) == (b.num * a.den + a.num * b.den)
        * (a.den * b.den)) by (nonlinear_arith);
    lemma_same_value(
        a.num * b.den + b.num * a.den,
        a.den * b.den,
        b.num * a.den + a.num * b.den,
        b.den * a.den,
    );
}

/// `(a + b) + c` is the normalised three-term sum.
proof fn lemma_add3_left(a: Rat, b: Rat, c: Rat)
    requires
        a.den > 0,
        b.den > 0,
        c.den > 0,
    ensures
        rat_add(rat_add(a, b), c) == normalize(
            a.num * b.den * c.den + b.num * a.den * c.den + c.num * a.den * b.den,
            a.den * b.den * c.den,
        ),
{
    let s = rat_add(a, b);
    assert(a.den * b.den > 0) by (nonlinear_arith)
        requires
            a.den > 0,
            b.den > 0,
    ;
    assert(a.den * b.den * c.den > 0) by (nonlinear_arith)
        requires
            a.den * b.den > 0,
            c.den > 0,
    ;
    lemma_normalize(a.num * b.den + b.num * a.den, a.den * b.den);
    assert(s.den * c.den > 0) by (nonlinear_arith)
        requires
            s.den > 0,
            c.den > 0,
    ;
    let n1 = s.num * c.den + c.num * s.den;
    let d1 = s.den * c.den;
    let n2 = a.num * b.den * c.den + b.num * a.den * c.den + c.num * a.den * b.den;
    let d2 = a.den * b.den * c.den;
    let p = s.num * (a.den * b.den);
    let q = (a.num * b.den + b.num * a.den) * s.den;
    assert(p == q);
    let w = c.num * s.den * a.den * b.den * c.den;
    assert(n1 * d2 == p * (c.den * c.den) + w) by (nonlinear_arith)
        requires
            n1 == s.num * c.den + c.num * s.den,
            d2 == a.den * b.den * c.den,
            p == s.num * (a.den * b.den),
            w == c.num * s.den * a.den * b.den * c.den,
    ;
    let u = s.den * c.den;
    let x = a.num * b.den * c.den + b.num * a.den * c.den;
    let y = c.num * a.den * b.den;
    assert(q * (c.den * c.den) == x * u) by (nonlinear_arith)
        requires
            q == (a.num * b.den + b.num * a.den) * s.den,
            x == a.num * b.den * c.den + b.num * a.den * c.den,
            u == s.den * c.den,
    ;
    assert(w == y * u) by (nonlinear_arith)
        requires
            w == c.num * s.den * a.den * b.den * c.den,
            y == c.num * a.den * b.den,
            u == s.den * c.den,
    ;
    assert(n2 == x + y);
    assert(d1 == u);
    vstd::arithmetic::mul::lemma_mul_is_distributive_add_other_way(u, x, y);
    assert(q * (c.den * c.den) + w == n2 * d1);
    lemma_same_value(n1, d1, n2, d2);
}

pub proof fn lemma_add_assoc(a: Rat, b: Rat, c: Rat)
    requires
        a.den > 0,
        b.den > 0,
        c.den > 0,
    ensures
        rat_add(rat_add(a, b), c) == rat_add(a, rat_add(b, c)),
{
    lemma_add3_left(a, b, c);
    lemma_add3_left(b, c, a);
    let t = rat_add(b, c);
    lemma_ops_reduced(b, c);
    lemma_add_comm(a, t);
    lemma_add_comm(rat_add(b, c), a);
    // (b + c) + a == normalize of the same three-term sum, reordered.
    assert(b.den * c.den * a.den > 0 && a.den * b.den * c.den > 0) by (nonlinear_arith)
        requires
            a.den > 0,
            b.den > 0,
            c.den > 0,
    ;
    assert((b.num * c.den * a.den + c.num * b.den * a.den + a.num * b.den * c.den) * (a.den * b.den
        * c.den) == (a.num * b.den * c.den + b.num * a.den * c.den + c.num * a.den * b.den) * (
    b.den * c.den * a.den)) by (nonlinear_arith);
    lemma_same_value(
        b.num * c.den * a.den + c.num * b.den * a.den + a.num * b.den * c.den,
        b.den * c.den * a.den,
        a.num * b.den * c.den + b.num * a.den * c.den + c.num * a.den * b.den,
        a.den * b.den * c.den,
    );
}

pub proof fn lemma_add_zero(a: Rat)
    requires
        reduced(a),
    ensures
        rat_add(a, rat_int(0)) == a,
        rat_add(rat_int(0), a) == a,
{
    assert(a.num * 1 + 0 * a.den == a.num && a.den * 1 == a.den) by (nonlinear_arith);
    assert(0 * a.den + a.num * 1 == a.num && 1 * a.den == a.den) by (nonlinear_arith);
    lemma_normalize_reduced(a);
}

pub proof fn lemma_add_neg(a: Rat)
    requires
        a.den > 0,
    ensures
        rat_add(a, rat_neg(a)) == rat_int(0),
        rat_add(rat_neg(a), a) == rat_int(0),
{
    assert(a.num * a.den + (-a.num) * a.den == 0) by (nonlinear_arith);
    assert((-a.num) * a.den + a.num * a.den == 0) by (nonlinear_arith);
}

pub proof fn lemma_sub_is_add_neg(a: Rat, b: Rat)
    ensures
        rat_sub(a, b) == rat_add(a, rat_neg(b)),
{
    assert(a.num * b.den - b.num * a.den == a.num * b.den + (-b.num) * a.den) by (nonlinear_arith);
}

pub proof fn lemma_neg_add(a: Rat, b: Rat)
    requires
        a.den > 0,
        b.den > 0,
    ensures
        rat_neg(rat_add(a, b)) == rat_add(rat_neg(a), rat_neg(b)),
{
    assert(a.den * b.den > 0) by (nonlinear_arith)
        requires
            a.den > 0,
            b.den > 0,
    ;
    lemma_neg_normalize(a.num * b.den + b.num * a.den, a.den * b.den);
    assert(-(a.num * b.den + b.num * a.den) == (-a.num) * b.den + (-b.num) * a.den)
        by (nonlinear_arith);
}

// ---------------------------------------------------------------------------
// Multiplication
// ---------------------------------------------------------------------------

pub proof fn lemma_mul_comm(a: Rat, b: Rat)
    ensures
        rat_mul(a, b) == rat_mul(b, a),
{
    assert(a.num * b.num == b.num * a.num && a.den * b.den == b.den * a.den) by (nonlinear_arith);
}

pub proof fn lemma_mul_assoc(a: Rat, b: Rat, c: Rat)
    requires
        a.den > 0,
        b.den > 0,
        c.den > 0,
    ensures
        rat_mul(rat_mul(a, b), c) == rat_mul(a, rat_mul(b, c)),
{
    let s = rat_mul(a, b);
    let t = rat_mul(b, c);
    assert(a.den * b.den > 0 && b.den * c.den > 0) by (nonlinear_arith)
        requires
            a.den > 0,
            b.den > 0,
            c.den > 0,
    ;
    lemma_normalize(a.num * b.num, a.den * b.den);
    lemma_normalize(b.num * c.num, b.den * c.den);
    assert(s.den * c.den != 0 && a.den * t.den != 0) by (nonlinear_arith)
        requires
            s.den > 0,
            t.den > 0,
            a.den > 0,
            c.den > 0,
    ;
    let p1 = s.num * (a.den * b.den);
    let q1 = (a.num * b.num) * s.den;
    let p2 = t.num * (b.den * c.den);
    let q2 = (b.num * c.num) * t.den;
    assert(p1 == q1 && p2 == q2);
    let l = (s.num * c.num) * (a.den * t.den);
    let r = (a.num * t.num) * (s.den * c.den);
    let m = a.num * b.num * c.num * s.den * t.den;
    assert(l * b.den == p1 * (c.num * t.den)) by (nonlinear_arith)
        requires
            l == (s.num * c.num) * (a.den * t.den),
            p1 == s.num * (a.den * b.den),
    ;
    assert(q1 * (c.num * t.den) == m) by (nonlinear_arith)
        requires
            q1 == (a.num * b.num) * s.den,
            m == a.num * b.num * c.num * s.den * t.den,
    ;
    assert(r * b.den == (a.num * s.den) * p2) by (nonlinear_arith)
        requires
            r == (a.num * t.num) * (s.den * c.den),
            p2 == t.num * (b.den * c.den),
    ;
    assert((a.num * s.den) * q2 == m) by (nonlinear_arith)
        requires
            q2 == (b.num * c.num) * t.den,
            m == a.num * b.num * c.num * s.den * t.den,
    ;
    assert(l == r) by (nonlinear_arith)
        requires
            l * b.den == r * b.den,
            b.den > 0,
    ;
    lemma_same_value(s.num * c.num, s.den * c.den, a.num * t.num, a.den * t.den);
}

pub proof fn lemma_mul_one(a: Rat)
    requires
        reduced(a),
    ensures
        rat_mul(a, rat_int(1)) == a,
        rat_mul(rat_int(1), a) == a,
{
    assert(a.num * 1 == a.num && a.den * 1 == a.den && 1 * a.num == a.num && 1 * a.den == a.den)
        by (nonlinear_arith);
    lemma_normalize_reduced(a);
}

pub proof fn lemma_mul_zero(a: Rat)
    ensures
        rat_mul(rat_int(0), a) == rat_int(0),
        rat_mul(a, rat_int(0)) == rat_int(0),
{
    assert(0 * a.num == 0 && a.num * 0 == 0) by (nonlinear_arith);
}

pub proof fn lemma_mul_neg(a: Rat, b: Rat)
    requires
        a.den > 0,
        b.den > 0,
    ensures
        rat_mul(rat_neg(a), b) == rat_neg(rat_mul(a, b)),
        rat_mul(a, rat_neg(b)) == rat_neg(rat_mul(a, b)),
{
    assert(a.den * b.den > 0) by (nonlinear_arith)
        requires
            a.den > 0,
            b.den > 0,
    ;
    lemma_neg_normalize(a.num * b.num, a.den * b.den);
    assert((-a.num) * b.num == -(a.num * b.num) && a.num * (-b.num) == -(a.num * b.num))
        by (nonlinear_arith);
}

// ---------------------------------------------------------------------------
// Division and powers
// ---------------------------------------------------------------------------

pub proof fn lemma_div_one(a: Rat)
    requires
        reduced(a),
    ensures
        rat_div(a, rat_int(1)) == a,
{
    assert(a.num * 1 == a.num && a.den * 1 == a.den) by (nonlinear_arith);
    lemma_normalize_reduced(a);
}

pub proof fn lemma_div_zero(b: Rat)
    ensures
        rat_div(rat_int(0), b) == rat_int(0),
{
    assert(0 * b.den == 0) by (nonlinear_arith);
}

pub proof fn lemma_div_self(a: Rat)
    requires
        a.den > 0,
        a.num != 0,
    ensures
        rat_div(a, a) == rat_int(1),
{
    assert(a.den * a.num != 0) by (nonlinear_arith)
        requires
            a.den > 0,
            a.num != 0,
    ;
    assert((a.num * a.den) * 1 == 1 * (a.den * a.num)) by (nonlinear_arith);
    lemma_same_value(a.num * a.den, a.den * a.num, 1, 1);
    lemma_int_reduced(1);
    lemma_normalize_reduced(rat_int(1));
}

pub proof fn lemma_pow_one(a: Rat)
    requires
        reduced(a),
    ensures
        rat_pow(a, 1) == a,
{
    vstd::arithmetic::power::lemma_pow1(a.num);
    vstd::arithmetic::power::lemma_pow1(a.den);
    lemma_normalize_reduced(a);
}

pub proof fn lemma_pow_zero(a: Rat)
    ensures
        rat_pow(a, 0) == rat_int(1),
{
    vstd::arithmetic::power::lemma_pow0(a.num);
    vstd::arithmetic::power::lemma_pow0(a.den);
    lemma_int_reduced(1);
    lemma_normalize_reduced(rat_int(1));
}

pub proof fn lemma_one_pow(k: int)
    ensures
        rat_pow(rat_int(1), k) == rat_int(1),
{
    let e: nat = if k >= 0 {
        k as nat
    } else {
        (-k) as nat
    };
    vstd::arithmetic::power::lemma1_pow(e);
    assert(pow(1, e) == 1);
    lemma_int_reduced(1);
    lemma_normalize_reduced(rat_int(1));
}

// ---------------------------------------------------------------------------
// Sums and products of lists
// ---------------------------------------------------------------------------

/// Sum of a list of fractions, left to right from zero.
pub open spec fn rat_sum(s: Seq<Rat>) -> Rat
    decreases s.len(),
{
    if s.len() == 0 {
        rat_int(0)
    } else {
        rat_add(rat_sum(s.drop_last()), s.last())
    }
}

/// Product of a list of fractions, left to right from one.
pub open spec fn rat_product(s: Seq<Rat>) -> Rat
    decreases s.len(),
{
    if s.len() == 0 {
        rat_int(1)
    } else {
        rat_mul(rat_product(s.drop_last()), s.last())
    }
}

pub proof fn lemma_sum_reduced(s: Seq<Rat>)
    requires
        all_reduced(s),
    ensures
        reduced(rat_sum(s)),
    decreases s.len(),
{
    if s.len() == 0 {
        lemma_int_reduced(0);
    } else {
        lemma_sum_reduced(s.drop_last());
        assert(reduced(s[s.len() - 1]));
        lemma_ops_reduced(rat_sum(s.drop_last()), s.last());
    }
}

pub proof fn lemma_product_reduced(s: Seq<Rat>)
    requires
        all_reduced(s),
    ensures
        reduced(rat_product(s)),
    decreases s.len(),
{
    if s.len() == 0 {
        lemma_int_reduced(1);
    } else {
        lemma_product_reduced(s.drop_last());
        assert(reduced(s[s.len() - 1]));
        lemma_ops_reduced(rat_product(s.drop_last()), s.last());
    }
}

pub proof fn lemma_sum_concat(s: Seq<Rat>, t: Seq<Rat>)
    requires
        all_reduced(s),
        all_reduced(t),
    ensures
        rat_sum(s + t) == rat_add(rat_sum(s), rat_sum(t)),
    decreases t.len(),
{
    lemma_sum_reduced(s);
    if t.len() == 0 {
        assert(s + t =~= s);
        lemma_add_zero(rat_sum(s));
    } else {
        let t0 = t.drop_last();
        assert((s + t).drop_last() =~= s + t0);
        assert((s + t).last() == t.last());
        lemma_sum_concat(s, t0);
        lemma_sum_reduced(t0);
        assert(reduced(t[t.len() - 1]));
        lemma_add_assoc(rat_sum(s), rat_sum(t0), t.last());
    }
}

pub proof fn lemma_product_concat(s: Seq<Rat>, t: Seq<Rat>)
    requires
        all_reduced(s),
        all_reduced(t),
    ensures
        rat_product(s + t) == rat_mul(rat_product(s), rat_product(t)),
    decreases t.len(),
{
    lemma_product_reduced(s);
    if t.len() == 0 {
        assert(s + t =~= s);
        lemma_mul_one(rat_product(s));
    } else {
        let t0 = t.drop_last();
        assert((s + t).drop_last() =~= s + t0);
        assert((s + t).last() == t.last());
        lemma_product_concat(s, t0);
        lemma_product_reduced(t0);
        assert(reduced(t[t.len() - 1]));
        lemma_mul_assoc(rat_product(s), rat_product(t0), t.last());
    }
}

pub proof fn lemma_sum_single(x: Rat)
    requires
        reduced(x),
    ensures
        rat_sum(seq![x]) == x,
{
    assert(seq![x].drop_last() =~= Seq::<Rat>::empty());
    assert(seq![x].last() == x);
    assert(rat_sum(Seq::<Rat>::empty()) == rat_int(0));
    lemma_add_zero(x);
}

pub proof fn lemma_product_single(x: Rat)
    requires
        reduced(x),
    ensures
        rat_product(seq![x]) == x,
{
    assert(seq![x].drop_last() =~= Seq::<Rat>::empty());
    assert(seq![x].last() == x);
    assert(rat_product(Seq::<Rat>::empty()) == rat_int(1));
    lemma_mul_one(x);
}

/// Taking one element out of a sum and adding it back.
pub proof fn lemma_sum_remove(s: Seq<Rat>, j: int)
    requires
        all_reduced(s),
        0 <= j < s.len(),
    ensures
        rat_sum(s) == rat_add(rat_sum(s.remove(j)), s[j]),
{
    let a = s.subrange(0, j);
    let b = s.subrange(j + 1, s.len() as int);
    let x = s[j];
    assert(s =~= a + (seq![x] + b));
    assert(s.remove(j) =~= a + b);
    assert(reduced(x));
    assert(all_reduced(a));
    assert(all_reduced(b));
    assert(all_reduced(seq![x]));
    assert(all_reduced(seq![x] + b)) by {
        assert forall|i: int| 0 <= i < (seq![x] + b).len() implies reduced(
            #[trigger] (seq![x] + b)[i],
        ) by {
            if i > 0 {
                assert((seq![x] + b)[i] == b[i - 1]);
            }
        }
    }
    lemma_sum_concat(a, seq![x] + b);
    lemma_sum_concat(seq![x], b);
    lemma_sum_concat(a, b);
    lemma_sum_single(x);
    lemma_sum_reduced(a);
    lemma_sum_reduced(b);
    lemma_add_comm(x, rat_sum(b));
    lemma_add_assoc(rat_sum(a), rat_sum(b), x);
}

/// Inserting an element adds it to the sum.
pub proof fn lemma_sum_insert(s: Seq<Rat>, i: int, x: Rat)
    requires
        all_reduced(s),
        reduced(x),
        0 <= i <= s.len(),
    ensures
        rat_sum(s.insert(i, x)) == rat_add(rat_sum(s), x),
{
    let t = s.insert(i, x);
    assert(t.remove(i) =~= s);
    assert(all_reduced(t)) by {
        assert forall|k: int| 0 <= k < t.len() implies reduced(#[trigger] t[k]) by {
            if k < i {
                assert(t[k] == s[k]);
            } else if k > i {
                assert(t[k] == s[k - 1]);
            }
        }
    }
    lemma_sum_remove(t, i);
}

proof fn lemma_dist(a: int, b: int, c: int)
    ensures
        (a + b) * c == a * c + b * c,
{
    assert((a + b) * c == a * c + b * c) by (nonlinear_arith);
}

/// `(a b)(c d) == (a c)(b d)`.
proof fn lemma_swap4(a: int, b: int, c: int, d: int)
    ensures
        (a * b) * (c * d) == (a * c) * (b * d),
{
    assert((a * b) * (c * d) == (a * c) * (b * d)) by (nonlinear_arith);
}

proof fn lemma_comm4(a: int, b: int, c: int, d: int)
    ensures
        (a * b) * (c * d) == (a * b) * (d * c),
        (a * b) * (c * d) == (b * a) * (c * d),
        (a * b) * (c * d) == (c * d) * (a * b),
{
    assert(c * d == d * c) by (nonlinear_arith);
    assert(a * b == b * a) by (nonlinear_arith);
    assert((a * b) * (c * d) == (c * d) * (a * b)) by (nonlinear_arith);
}

proof fn lemma_cross_sum(xn: int, xd: int, yn: int, yd: int, n1: int, d1: int, n2: int, d2: int)
    requires
        xn * d1 == n1 * xd,
        yn * d2 == n2 * yd,
    ensures
        (xn * yd + yn * xd) * (d1 * d2) == (n1 * d2 + n2 * d1) * (xd * yd),
{
    lemma_dist(xn * yd, yn * xd, d1 * d2);
    lemma_swap4(xn, yd, d1, d2);
    // (yn xd)(d1 d2) == (yn d2)(xd d1)
    lemma_comm4(yn, xd, d1, d2);
    lemma_swap4(yn, xd, d2, d1);
    // (n1 xd)(yd d2) == (n1 d2)(xd yd)
    lemma_comm4(n1, xd, yd, d2);
    lemma_swap4(n1, xd, d2, yd);
    lemma_comm4(n1, d2, yd, xd);
    lemma_comm4(n1, d2, xd, yd);
    // (n2 yd)(xd d1) == (n2 d1)(xd yd)
    lemma_swap4(n2, yd, xd, d1);
    lemma_comm4(n2, xd, yd, d1);
    lemma_swap4(n2, xd, d1, yd);
    lemma_comm4(n2, d1, xd, yd);
    lemma_comm4(n2, d1, yd, xd);
    lemma_dist(n1 * d2, n2 * d1, xd * yd);
    assert((xn * d1) * (yd * d2) == (n1 * xd) * (yd * d2));
    assert((yn * d2) * (xd * d1) == (n2 * yd) * (xd * d1));
}

proof fn lemma_cross_product(xn: int, xd: int, yn: int, yd: int, n1: int, d1: int, n2: int, d2: int)
    requires
        xn * d1 == n1 * xd,
        yn * d2 == n2 * yd,
    ensures
        (xn * yn) * (d1 * d2) == (n1 * n2) * (xd * yd),
{
    assert((xn * yn) * (d1 * d2) == (xn * d1) * (yn * d2)) by (nonlinear_arith);
    assert((xn * d1) * (yn * d2) == (n1 * xd) * (n2 * yd));
    assert((n1 * xd) * (n2 * yd) == (n1 * n2) * (xd * yd)) by (nonlinear_arith);
}

proof fn lemma_positive_product(a: int, b: int)
    requires
        a > 0,
        b > 0,
    ensures
        a * b > 0,
{
    assert(a * b > 0) by (nonlinear_arith)
        requires
            a > 0,
            b > 0,
    ;
}

/// Adding normal forms is normalising the raw sum.
pub proof fn lemma_add_normalized(n1: int, d1: int, n2: int, d2: int)
    requires
        d1 > 0,
        d2 > 0,
    ensures
        rat_add(normalize(n1, d1), normalize(n2, d2)) == normalize(n1 * d2 + n2 * d1, d1 * d2),
{
    let x = normalize(n1, d1);
    let y = normalize(n2, d2);
    lemma_normalize(n1, d1);
    lemma_normalize(n2, d2);
    lemma_positive_product(x.den, y.den);
    lemma_positive_product(d1, d2);
    lemma_cross_sum(x.num, x.den, y.num, y.den, n1, d1, n2, d2);
    lemma_same_value(x.num * y.den + y.num * x.den, x.den * y.den, n1 * d2 + n2 * d1, d1 * d2);
}

/// Multiplying normal forms is normalising the raw product.
pub proof fn lemma_mul_normalized(n1: int, d1: int, n2: int, d2: int)
    requires
        d1 > 0,
        d2 > 0,
    ensures
        rat_mul(normalize(n1, d1), normalize(n2, d2)) == normalize(n1 * n2, d1 * d2),
{
    let x = normalize(n1, d1);
    let y = normalize(n2, d2);
    lemma_normalize(n1, d1);
    lemma_normalize(n2, d2);
    lemma_positive_product(x.den, y.den);
    lemma_positive_product(d1, d2);
    lemma_cross_product(x.num, x.den, y.num, y.den, n1, d1, n2, d2);
    lemma_same_value(x.num * y.num, x.den * y.den, n1 * n2, d1 * d2);
}

proof fn lemma_dist_left(a: int, b: int, c: int)
    ensures
        c * (a + b) == c * a + c * b,
{
    assert(c * (a + b) == c * a + c * b) by (nonlinear_arith);
}

proof fn lemma_regroup5(p: int, q: int, s: int, t: int)
    ensures
        ((p * q) * s) * (q * t) == (p * s) * ((q * q) * t),
{
    assert(((p * q) * s) * (q * t) == (p * s) * ((q * q) * t)) by (nonlinear_arith);
}

proof fn lemma_distribution_identity(kn: int, kd: int, an: int, ad: int, bn: int, bd: int)
    ensures
        (kn * an * (kd * bd) + kn * bn * (kd * ad)) * (kd * (ad * bd)) == (kn * (an * bd + bn * ad))
            * (kd * ad * (kd * bd)),
{
    lemma_swap4(kn, an, kd, bd);
    lemma_swap4(kn, bn, kd, ad);
    lemma_dist_left(an * bd, bn * ad, kn * kd);
    lemma_swap4(kd, ad, kd, bd);
    lemma_regroup5(kn, kd, an * bd + bn * ad, ad * bd);
}

/// Multiplication distributes over addition.
pub proof fn lemma_mul_distributes(k: Rat, a: Rat, b: Rat)
    requires
        reduced(k),
        reduced(a),
        reduced(b),
    ensures
        rat_mul(k, rat_add(a, b)) == rat_add(rat_mul(k, a), rat_mul(k, b)),
{
    lemma_normalize_reduced(k);
    let sn = a.num * b.den + b.num * a.den;
    let sd = a.den * b.den;
    lemma_positive_product(a.den, b.den);
    lemma_positive_product(k.den, a.den);
    lemma_positive_product(k.den, b.den);
    lemma_positive_product(k.den * a.den, k.den * b.den);
    lemma_positive_product(k.den, sd);
    lemma_mul_normalized(k.num, k.den, sn, sd);
    lemma_add_normalized(k.num * a.num, k.den * a.den, k.num * b.num, k.den * b.den);
    lemma_distribution_identity(k.num, k.den, a.num, a.den, b.num, b.den);
    lemma_same_value(
        k.num * a.num * (k.den * b.den) + k.num * b.num * (k.den * a.den),
        k.den * a.den * (k.den * b.den),
        k.num * sn,
        k.den * sd,
    );
}

/// Dividing normal forms is normalising the raw quotient.
pub proof fn lemma_div_normalized(n1: int, d1: int, n2: int, d2: int)
    requires
        d1 > 0,
        d2 > 0,
        n2 != 0,
    ensures
        rat_div(normalize(n1, d1), normalize(n2, d2)) == normalize(n1 * d2, d1 * n2),
{
    let x = normalize(n1, d1);
    let y = normalize(n2, d2);
    lemma_normalize(n1, d1);
    lemma_normalize(n2, d2);
    assert(y.num != 0) by {
        if y.num == 0 {
            assert(y.num * d2 == 0) by (nonlinear_arith)
                requires
                    y.num == 0,
            ;
            assert(n2 * y.den != 0) by (nonlinear_arith)
                requires
                    n2 != 0,
                    y.den > 0,
            ;
        }
    }
    assert(x.den * y.num != 0 && d1 * n2 != 0) by (nonlinear_arith)
        requires
            x.den > 0,
            y.num != 0,
            d1 > 0,
            n2 != 0,
    ;
    lemma_swap4(x.num, y.den, d1, n2);
    lemma_comm4(n1, x.den, y.den, n2);
    lemma_swap4(n1, d2, x.den, y.num);
    lemma_comm4(n1, x.den, d2, y.num);
    assert((x.num * d1) * (y.den * n2) == (n1 * x.den) * (y.den * n2));
    assert((n1 * x.den) * (d2 * y.num) == (n1 * x.den) * (y.num * d2));
    assert((n1 * x.den) * (y.num * d2) == (n1 * x.den) * (n2 * y.den));
    lemma_same_value(x.num * y.den, x.den * y.num, n1 * d2, d1 * n2);
}

} // verus!
