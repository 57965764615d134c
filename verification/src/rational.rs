//! Exact rational arithmetic: a ghost model of the rationals, an
//! executable canonical fixed-width representation, and the algebraic
//! lemmas the rest of the crate builds on.

use vstd::prelude::*;

verus! {

use crate::arith::{
    gcd, lemma_gcd_divides, lemma_bezout, lemma_gcd_quotients_coprime, lemma_div_neg_exact,
    lemma_gcd_one, lemma_gcd_zero,
};
use vstd::arithmetic::div_mod::{lemma_fundamental_div_mod, lemma_div_nonincreasing};
use crate::errors::Error;

/// A mathematical rational number: numerator `n` over denominator `d`.
///
/// A well-formed value has a positive denominator; two values denote the
/// same rational when they agree under cross-multiplication (`q_eq`).
pub ghost struct Q {
    pub n: int,
    pub d: int,
}

/// Well-formedness: the denominator is positive.
pub open spec fn q_wf(a: Q) -> bool {
    a.d > 0
}

/// Equality of the denoted rationals, by cross-multiplication.
pub open spec fn q_eq(a: Q, b: Q) -> bool {
    a.n * b.d == b.n * a.d
}

pub open spec fn q_zero() -> Q {
    Q { n: 0, d: 1 }
}

pub open spec fn q_one() -> Q {
    Q { n: 1, d: 1 }
}

/// The rational denoting the integer `i`.
pub open spec fn q_int(i: int) -> Q {
    Q { n: i, d: 1 }
}

pub open spec fn q_add(a: Q, b: Q) -> Q {
    Q { n: a.n * b.d + b.n * a.d, d: a.d * b.d }
}

pub open spec fn q_neg(a: Q) -> Q {
    Q { n: -a.n, d: a.d }
}

pub open spec fn q_sub(a: Q, b: Q) -> Q {
    q_add(a, q_neg(b))
}

pub open spec fn q_mul(a: Q, b: Q) -> Q {
    Q { n: a.n * b.n, d: a.d * b.d }
}

/// The reciprocal, with the sign moved into the numerator.
pub open spec fn q_inv(a: Q) -> Q
    recommends
        a.n != 0,
{
    if a.n >= 0 {
        Q { n: a.d, d: a.n }
    } else {
        Q { n: -a.d, d: -a.n }
    }
}

pub open spec fn q_div(a: Q, b: Q) -> Q
    recommends
        b.n != 0,
{
    q_mul(a, q_inv(b))
}

/// Order on the denoted rationals (meaningful for well-formed values).
pub open spec fn q_le(a: Q, b: Q) -> bool {
    a.n * b.d <= b.n * a.d
}

pub open spec fn q_lt(a: Q, b: Q) -> bool {
    a.n * b.d < b.n * a.d
}

/// Strict positivity of a well-formed value.
pub open spec fn q_pos(a: Q) -> bool {
    a.n > 0
}

pub open spec fn q_abs(i: int) -> int {
    if i >= 0 {
        i
    } else {
        -i
    }
}

/// A value is canonical when the denominator is positive and the
/// numerator and denominator are coprime.
pub open spec fn is_canonical(a: Q) -> bool {
    q_wf(a) && gcd(q_abs(a.n) as nat, a.d as nat) == 1
}

/// The canonical form: both components divided by their gcd.
pub open spec fn q_norm(a: Q) -> Q
    recommends
        q_wf(a),
{
    let g = gcd(q_abs(a.n) as nat, a.d as nat) as int;
    Q { n: a.n / g, d: a.d / g }
}

// ---------------------------------------------------------------------------
// Algebraic facts about the spec-level rational operations.
// ---------------------------------------------------------------------------

/// The sum of well-formed values is well-formed.
pub proof fn lemma_q_add_wf(a: Q, b: Q)
    requires
        q_wf(a),
        q_wf(b),
    ensures
        q_wf(q_add(a, b)),
{
    assert(a.d * b.d > 0) by (nonlinear_arith)
        requires
            a.d > 0,
            b.d > 0,
    ;
}

/// The product of well-formed values is well-formed.
pub proof fn lemma_q_mul_wf(a: Q, b: Q)
    requires
        q_wf(a),
        q_wf(b),
    ensures
        q_wf(q_mul(a, b)),
{
    assert(a.d * b.d > 0) by (nonlinear_arith)
        requires
            a.d > 0,
            b.d > 0,
    ;
}

/// `q_eq` is transitive over well-formed values.
pub proof fn lemma_q_eq_trans(a: Q, b: Q, c: Q)
    requires
        q_wf(a),
        q_wf(b),
        q_wf(c),
        q_eq(a, b),
        q_eq(b, c),
    ensures
        q_eq(a, c),
{
    assert(a.n * c.d == c.n * a.d) by (nonlinear_arith)
        requires
            a.n * b.d == b.n * a.d,
            b.n * c.d == c.n * b.d,
            b.d > 0,
    ;
}

/// Addition respects `q_eq`.
pub proof fn lemma_q_add_congr(a: Q, b: Q, a2: Q, b2: Q)
    requires
        q_wf(a),
        q_wf(b),
        q_wf(a2),
        q_wf(b2),
        q_eq(a, a2),
        q_eq(b, b2),
    ensures
        q_wf(q_add(a, b)),
        q_eq(q_add(a, b), q_add(a2, b2)),
{
    broadcast use vstd::arithmetic::mul::group_mul_properties;

    assert((a.n * b.d) * (a2.d * b2.d) == (a.n * a2.d) * (b.d * b2.d));
    assert((a2.n * a.d) * (b.d * b2.d) == (a2.n * b2.d) * (a.d * b.d));
    assert((b.n * a.d) * (a2.d * b2.d) == (b.n * b2.d) * (a.d * a2.d));
    assert((b2.n * b.d) * (a.d * a2.d) == (b2.n * a2.d) * (a.d * b.d));
    assert((a.n * b.d + b.n * a.d) * (a2.d * b2.d) == (a.n * b.d) * (a2.d * b2.d) + (b.n * a.d) * (
    a2.d * b2.d));
    assert((a2.n * b2.d + b2.n * a2.d) * (a.d * b.d) == (a2.n * b2.d) * (a.d * b.d) + (b2.n * a2.d)
        * (a.d * b.d));
}

/// Multiplication respects `q_eq`.
pub proof fn lemma_q_mul_congr(a: Q, b: Q, a2: Q, b2: Q)
    requires
        q_wf(a),
        q_wf(b),
        q_wf(a2),
        q_wf(b2),
        q_eq(a, a2),
        q_eq(b, b2),
    ensures
        q_wf(q_mul(a, b)),
        q_eq(q_mul(a, b), q_mul(a2, b2)),
{
    broadcast use vstd::arithmetic::mul::group_mul_properties;

    assert((a.n * b.n) * (a2.d * b2.d) == (a.n * a2.d) * (b.n * b2.d));
    assert((a2.n * a.d) * (b2.n * b.d) == (a2.n * b2.n) * (a.d * b.d));
}

/// Addition is commutative on the nose.
pub proof fn lemma_q_add_comm(a: Q, b: Q)
    ensures
        q_add(a, b) == q_add(b, a),
{
    assert(a.n * b.d + b.n * a.d == b.n * a.d + a.n * b.d && a.d * b.d == b.d * a.d)
        by (nonlinear_arith);
}

/// Addition is associative up to `q_eq`.
pub proof fn lemma_q_add_assoc(a: Q, b: Q, c: Q)
    requires
        q_wf(a),
        q_wf(b),
        q_wf(c),
    ensures
        q_eq(q_add(q_add(a, b), c), q_add(a, q_add(b, c))),
{
    broadcast use vstd::arithmetic::mul::group_mul_properties;

    assert((a.n * b.d + b.n * a.d) * c.d + c.n * (a.d * b.d) == a.n * (b.d * c.d) + (b.n * c.d + c.n
        * b.d) * a.d);
    assert(a.d * (b.d * c.d) == (a.d * b.d) * c.d);
}

/// Adding a value equal to zero does not change the denoted rational.
pub proof fn lemma_q_add_zero(a: Q, z: Q)
    requires
        q_wf(a),
        q_wf(z),
        q_eq(z, q_zero()),
    ensures
        q_eq(q_add(a, z), a),
{
    assert((a.n * z.d + z.n * a.d) * a.d == a.n * (a.d * z.d)) by (nonlinear_arith)
        requires
            z.n * 1 == 0 * z.d,
    ;
}

/// Multiplying by a value equal to one does not change the denoted rational.
pub proof fn lemma_q_mul_one(a: Q, o: Q)
    requires
        q_wf(a),
        q_wf(o),
        q_eq(o, q_one()),
    ensures
        q_eq(q_mul(a, o), a),
{
    assert((a.n * o.n) * a.d == a.n * (a.d * o.d)) by (nonlinear_arith)
        requires
            o.n * 1 == 1 * o.d,
    ;
}

/// Multiplying by a value equal to zero yields zero.
pub proof fn lemma_q_mul_zero(a: Q, z: Q)
    requires
        q_wf(a),
        q_wf(z),
        q_eq(z, q_zero()),
    ensures
        q_eq(q_mul(a, z), q_zero()),
{
    assert((a.n * z.n) * 1 == 0 * (a.d * z.d)) by (nonlinear_arith)
        requires
            z.n * 1 == 0 * z.d,
    ;
}

/// Multiplication is commutative on the nose.
pub proof fn lemma_q_mul_comm(a: Q, b: Q)
    ensures
        q_mul(a, b) == q_mul(b, a),
{
    assert(a.n * b.n == b.n * a.n && a.d * b.d == b.d * a.d) by (nonlinear_arith);
}

/// Multiplication is associative on the nose.
pub proof fn lemma_q_mul_assoc(a: Q, b: Q, c: Q)
    ensures
        q_mul(q_mul(a, b), c) == q_mul(a, q_mul(b, c)),
{
    assert((a.n * b.n) * c.n == a.n * (b.n * c.n) && (a.d * b.d) * c.d == a.d * (b.d * c.d))
        by (nonlinear_arith);
}

/// Multiplication distributes over addition up to `q_eq`.
pub proof fn lemma_q_mul_distrib(a: Q, b: Q, c: Q)
    requires
        q_wf(a),
        q_wf(b),
        q_wf(c),
    ensures
        q_eq(q_mul(a, q_add(b, c)), q_add(q_mul(a, b), q_mul(a, c))),
{
    broadcast use vstd::arithmetic::mul::group_mul_properties;

    let lhs_n = a.n * (b.n * c.d + c.n * b.d);
    assert(lhs_n == a.n * (b.n * c.d) + a.n * (c.n * b.d));
    assert(lhs_n * ((a.d * b.d) * (a.d * c.d)) == (a.n * (b.n * c.d)) * ((a.d * b.d) * (a.d * c.d))
        + (a.n * (c.n * b.d)) * ((a.d * b.d) * (a.d * c.d)));
    assert((a.n * (b.n * c.d)) * ((a.d * b.d) * (a.d * c.d)) == ((a.n * b.n) * (a.d * c.d)) * ((a.d
        * b.d) * c.d)) by (nonlinear_arith);
    assert((a.n * (c.n * b.d)) * ((a.d * b.d) * (a.d * c.d)) == ((a.n * c.n) * (a.d * b.d)) * ((a.d
        * b.d) * c.d)) by (nonlinear_arith);
    assert(((a.n * b.n) * (a.d * c.d) + (a.n * c.n) * (a.d * b.d)) * (a.d * (b.d * c.d)) == ((a.n
        * b.n) * (a.d * c.d)) * ((a.d * b.d) * c.d) + ((a.n * c.n) * (a.d * b.d)) * ((a.d * b.d)
        * c.d));
}

/// Multiplication by a scalar on the right distributes over addition up
/// to `q_eq`.
pub proof fn lemma_q_mul_distrib_right(a: Q, b: Q, c: Q)
    requires
        q_wf(a),
        q_wf(b),
        q_wf(c),
    ensures
        q_eq(q_mul(q_add(a, b), c), q_add(q_mul(a, c), q_mul(b, c))),
{
    lemma_q_mul_distrib(c, a, b);
    lemma_q_mul_comm(c, q_add(a, b));
    lemma_q_mul_comm(c, a);
    lemma_q_mul_comm(c, b);
}

/// A value plus its negation is zero.
pub proof fn lemma_q_add_neg(a: Q)
    requires
        q_wf(a),
    ensures
        q_eq(q_add(a, q_neg(a)), q_zero()),
{
    assert((a.n * a.d + (-a.n) * a.d) * 1 == 0 * (a.d * a.d)) by (nonlinear_arith);
}

/// A nonzero value times its reciprocal is one.
pub proof fn lemma_q_mul_inv(a: Q)
    requires
        q_wf(a),
        a.n != 0,
    ensures
        q_wf(q_inv(a)),
        q_wf(q_mul(a, q_inv(a))),
        q_eq(q_mul(a, q_inv(a)), q_one()),
{
    if a.n >= 0 {
        assert((a.n * a.d) * 1 == 1 * (a.d * a.n) && a.d * a.n > 0) by (nonlinear_arith)
            requires
                a.n > 0,
                a.d > 0,
        ;
    } else {
        assert((a.n * -a.d) * 1 == 1 * (a.d * -a.n) && a.d * -a.n > 0) by (nonlinear_arith)
            requires
                a.n < 0,
                a.d > 0,
        ;
    }
}

/// Negation respects `q_eq`.
pub proof fn lemma_q_neg_congr(a: Q, b: Q)
    requires
        q_eq(a, b),
    ensures
        q_eq(q_neg(a), q_neg(b)),
{
    assert((-a.n) * b.d == (-b.n) * a.d) by (nonlinear_arith)
        requires
            a.n * b.d == b.n * a.d,
    ;
}

/// Nonnegativity is preserved by `q_eq` over well-formed values.
pub proof fn lemma_q_nonneg_congr(a: Q, b: Q)
    requires
        q_wf(a),
        q_wf(b),
        q_eq(a, b),
        a.n >= 0,
    ensures
        b.n >= 0,
{
    assert(b.n >= 0) by (nonlinear_arith)
        requires
            a.n * b.d == b.n * a.d,
            a.d > 0,
            b.d > 0,
            a.n >= 0,
    ;
}

/// Nonpositivity is preserved by `q_eq` over well-formed values.
pub proof fn lemma_q_nonpos_congr(a: Q, b: Q)
    requires
        q_wf(a),
        q_wf(b),
        q_eq(a, b),
        a.n <= 0,
    ensures
        b.n <= 0,
{
    assert(b.n <= 0) by (nonlinear_arith)
        requires
            a.n * b.d == b.n * a.d,
            a.d > 0,
            b.d > 0,
            a.n <= 0,
    ;
}

/// Being nonzero is preserved by `q_eq` over well-formed values, and the
/// reciprocal respects `q_eq`.
pub proof fn lemma_q_inv_congr(a: Q, b: Q)
    requires
        q_wf(a),
        q_wf(b),
        q_eq(a, b),
        a.n != 0,
    ensures
        b.n != 0,
        q_wf(q_inv(a)),
        q_wf(q_inv(b)),
        q_eq(q_inv(a), q_inv(b)),
{
    assert(b.n != 0 && (a.n > 0 <==> b.n > 0)) by (nonlinear_arith)
        requires
            a.n * b.d == b.n * a.d,
            a.d > 0,
            b.d > 0,
            a.n != 0,
    ;
    if a.n > 0 {
        assert(a.d * b.n == b.d * a.n) by (nonlinear_arith)
            requires
                a.n * b.d == b.n * a.d,
        ;
    } else {
        assert((-a.d) * (-b.n) == (-b.d) * (-a.n)) by (nonlinear_arith)
            requires
                a.n * b.d == b.n * a.d,
        ;
    }
}

/// Positivity is preserved by `q_eq` over well-formed values.
pub proof fn lemma_q_pos_congr(a: Q, b: Q)
    requires
        q_wf(a),
        q_wf(b),
        q_eq(a, b),
        q_pos(a),
    ensures
        q_pos(b),
{
    assert(b.n > 0) by (nonlinear_arith)
        requires
            a.n * b.d == b.n * a.d,
            a.d > 0,
            b.d > 0,
            a.n > 0,
    ;
}

/// The product of two positive values is positive.
pub proof fn lemma_q_mul_pos(a: Q, b: Q)
    requires
        q_wf(a),
        q_wf(b),
        q_pos(a),
        q_pos(b),
    ensures
        q_pos(q_mul(a, b)),
        q_wf(q_mul(a, b)),
{
    assert(a.n * b.n > 0 && a.d * b.d > 0) by (nonlinear_arith)
        requires
            a.n > 0,
            b.n > 0,
            a.d > 0,
            b.d > 0,
    ;
}

// ---------------------------------------------------------------------------
// The canonical form and its properties.
// ---------------------------------------------------------------------------

/// Normalization yields a canonical value denoting the same rational, with
/// components no larger in magnitude than the originals.
pub proof fn lemma_norm(a: Q)
    requires
        q_wf(a),
    ensures
        q_wf(q_norm(a)),
        is_canonical(q_norm(a)),
        q_eq(q_norm(a), a),
        q_norm(a).d <= a.d,
        q_abs(q_norm(a).n) <= q_abs(a.n),
        q_abs(q_norm(a).n) == q_abs(a.n) / (gcd(q_abs(a.n) as nat, a.d as nat) as int),
        q_norm(a).d == a.d / (gcd(q_abs(a.n) as nat, a.d as nat) as int),
{
    let an = q_abs(a.n);
    let g = gcd(an as nat, a.d as nat) as int;
    lemma_gcd_divides(an as nat, a.d as nat);
    lemma_fundamental_div_mod(an, g);
    lemma_fundamental_div_mod(a.d, g);
    let kn = an / g;
    let kd = a.d / g;
    assert(kd >= 1 && kn >= 0) by (nonlinear_arith)
        requires
            an == g * kn,
            a.d == g * kd,
            g > 0,
            an >= 0,
            a.d > 0,
    ;
    lemma_gcd_quotients_coprime(an as nat, a.d as nat);
    lemma_div_nonincreasing(an, g);
    lemma_div_nonincreasing(a.d, g);
    if a.n >= 0 {
        assert(q_norm(a).n == kn && q_norm(a).d == kd);
        assert(kn * a.d == a.n * kd) by (nonlinear_arith)
            requires
                a.n == g * kn,
                a.d == g * kd,
        ;
    } else {
        lemma_div_neg_exact(an, g);
        assert(q_norm(a).n == -kn && q_norm(a).d == kd);
        assert((-kn) * a.d == a.n * kd) by (nonlinear_arith)
            requires
                -a.n == g * kn,
                a.d == g * kd,
        ;
        assert(q_abs(-kn) == kn);
    }
}

/// Two canonical values with positive components denoting the same
/// rational are identical.
proof fn lemma_unique_pos(xn: int, xd: int, yn: int, yd: int)
    requires
        xn > 0,
        xd > 0,
        yn > 0,
        yd > 0,
        gcd(xn as nat, xd as nat) == 1,
        gcd(yn as nat, yd as nat) == 1,
        xn * yd == yn * xd,
    ensures
        xn == yn,
        xd == yd,
{
    let (s, t) = lemma_bezout(xn as nat, xd as nat);
    assert(yd == xd * (yn * s + yd * t)) by (nonlinear_arith)
        requires
            1 == xn * s + xd * t,
            xn * yd == yn * xd,
    ;
    let (s2, t2) = lemma_bezout(yn as nat, yd as nat);
    assert(xd == yd * (xn * s2 + xd * t2)) by (nonlinear_arith)
        requires
            1 == yn * s2 + yd * t2,
            xn * yd == yn * xd,
    ;
    let k1 = yn * s + yd * t;
    let k2 = xn * s2 + xd * t2;
    assert(xd == yd) by (nonlinear_arith)
        requires
            yd == xd * k1,
            xd == yd * k2,
            xd > 0,
            yd > 0,
    ;
    assert(xn == yn) by (nonlinear_arith)
        requires
            xn * yd == yn * xd,
            xd == yd,
            xd > 0,
    ;
}

/// Canonical forms are unique: two canonical values denoting the same
/// rational are equal as pairs.
pub proof fn lemma_canonical_unique(x: Q, y: Q)
    requires
        is_canonical(x),
        is_canonical(y),
        q_eq(x, y),
    ensures
        x == y,
{
    if x.n == 0 {
        assert(y.n == 0) by (nonlinear_arith)
            requires
                x.n == 0,
                x.n * y.d == y.n * x.d,
                x.d > 0,
        ;
        lemma_gcd_zero(x.d as nat);
        lemma_gcd_zero(y.d as nat);
        assert(x.d == 1 && y.d == 1);
    } else if x.n > 0 {
        assert(y.n > 0) by (nonlinear_arith)
            requires
                x.n * y.d == y.n * x.d,
                x.n > 0,
                x.d > 0,
                y.d > 0,
        ;
        lemma_unique_pos(x.n, x.d, y.n, y.d);
    } else {
        assert(y.n < 0) by (nonlinear_arith)
            requires
                x.n * y.d == y.n * x.d,
                x.n < 0,
                x.d > 0,
                y.d > 0,
        ;
        assert((-x.n) * y.d == (-y.n) * x.d) by (nonlinear_arith)
            requires
                x.n * y.d == y.n * x.d,
        ;
        lemma_unique_pos(-x.n, x.d, -y.n, y.d);
    }
}

/// The integer embedding is canonical.
pub proof fn lemma_int_canonical(i: int)
    ensures
        is_canonical(q_int(i)),
{
    lemma_gcd_one(q_abs(i) as nat);
}

/// A canonical value is unchanged by normalization.
pub proof fn lemma_norm_of_canonical(a: Q)
    requires
        is_canonical(a),
    ensures
        q_norm(a) == a,
{
    lemma_norm(a);
    lemma_canonical_unique(q_norm(a), a);
}

/// Values denoting the same rational have the same canonical form.
pub proof fn lemma_q_norm_congr(a: Q, b: Q)
    requires
        q_wf(a),
        q_wf(b),
        q_eq(a, b),
    ensures
        q_norm(a) == q_norm(b),
{
    lemma_norm(a);
    lemma_norm(b);
    lemma_q_eq_trans(q_norm(a), a, b);
    lemma_q_eq_trans(q_norm(a), b, q_norm(b));
    lemma_canonical_unique(q_norm(a), q_norm(b));
}

/// A canonical representative of a denoted value is that value's
/// canonical form, which therefore fits the representation.
pub proof fn lemma_pinned_norm(v: Q, plain: Q)
    requires
        is_canonical(v),
        q_fits(v),
        q_wf(plain),
        q_eq(v, plain),
    ensures
        v == q_norm(plain),
        q_fits(q_norm(plain)),
{
    lemma_q_norm_congr(v, plain);
    lemma_norm_of_canonical(v);
}

/// Negation commutes with normalization, so a negated value fits the
/// representation exactly when the value itself does.
pub proof fn lemma_q_norm_neg(a: Q)
    requires
        q_wf(a),
    ensures
        q_norm(q_neg(a)) == q_neg(q_norm(a)),
        q_fits(q_norm(q_neg(a))) <==> q_fits(q_norm(a)),
{
    lemma_norm(a);
    lemma_norm(q_neg(a));
    assert(q_abs(-q_norm(a).n) == q_abs(q_norm(a).n));
    assert(is_canonical(q_neg(q_norm(a))));
    lemma_q_neg_congr(q_norm(a), a);
    lemma_q_eq_trans(q_norm(q_neg(a)), q_neg(a), q_neg(q_norm(a)));
    lemma_canonical_unique(q_norm(q_neg(a)), q_neg(q_norm(a)));
}

/// Bounded products stay within the square of the bound.
pub proof fn lemma_mul_bound(x: int, y: int, b: int)
    requires
        b > 0,
        -b < x < b,
        -b < y < b,
    ensures
        -(b * b) < x * y < b * b,
{
    assert(-(b * b) < x * y < b * b) by (nonlinear_arith)
        requires
            b > 0,
            -b < x < b,
            -b < y < b,
    ;
}

// ---------------------------------------------------------------------------
// The executable rational type.
// ---------------------------------------------------------------------------

/// Exclusive bound on the magnitude of a stored numerator or denominator.
pub const RAT_BOUND: i64 = 0x4000_0000_0000_0000;

/// The rational fits the fixed-width representation.
pub open spec fn q_fits(a: Q) -> bool {
    &&& -(RAT_BOUND as int) < a.n < RAT_BOUND as int
    &&& 0 < a.d < RAT_BOUND as int
}

/// An exact rational number in canonical form: the denominator is positive,
/// numerator and denominator are coprime, and both are bounded by
/// `RAT_BOUND` in magnitude.  Every constructor and arithmetic operation
/// of this type returns canonical values, so equal rationals are equal as
/// bit patterns.
#[derive(Clone, Copy, Debug, PartialEq, Eq, Structural)]
pub struct Rational {
    pub num: i64,
    pub den: i64,
}

impl View for Rational {
    type V = Q;

    open spec fn view(&self) -> Q {
        Q { n: self.num as int, d: self.den as int }
    }
}

impl Rational {
    /// Representation invariant: canonical and within the width bounds.
    pub open spec fn inv(self) -> bool {
        q_fits(self@) && is_canonical(self@)
    }

    /// The zero rational.
    pub fn zero() -> (r: Rational)
        ensures
            r.inv(),
            r@ == q_zero(),
    {
        proof {
            lemma_int_canonical(0);
        }
        Rational { num: 0, den: 1 }
    }

    /// The unit rational.
    pub fn one() -> (r: Rational)
        ensures
            r.inv(),
            r@ == q_one(),
    {
        proof {
            lemma_int_canonical(1);
        }
        Rational { num: 1, den: 1 }
    }

    /// The rational denoting the integer `i`.
    pub fn from_int(i: i64) -> (r: Rational)
        requires
            -RAT_BOUND < i < RAT_BOUND,
        ensures
            r.inv(),
            r@ == q_int(i as int),
    {
        proof {
            lemma_int_canonical(i as int);
        }
        Rational { num: i, den: 1 }
    }

    /// The rational denoting the unsigned integer `u`.
    pub fn from_u32(u: u32) -> (r: Rational)
        ensures
            r.inv(),
            r@ == q_int(u as int),
    {
        Rational::from_int(u as i64)
    }

    /// The canonical rational equal to `num / den`.
    pub fn new(num: i64, den: i64) -> (r: Rational)
        requires
            -RAT_BOUND < num < RAT_BOUND,
            0 < den < RAT_BOUND,
        ensures
            r.inv(),
            r@ == q_norm(Q { n: num as int, d: den as int }),
            q_eq(r@, Q { n: num as int, d: den as int }),
    {
        let ghost q = Q { n: num as int, d: den as int };
        let neg = num < 0;
        let mag: u128 = if neg {
            (-(num as i128)) as u128
        } else {
            num as u128
        };
        proof {
            assert(mag as int == q_abs(q.n));
            lemma_norm(q);
        }
        let res = normalize(neg, mag, den as u128);
        match res {
            Ok(rt) => rt,
            Err(_) => {
                proof {
                    assert(false);
                }
                Rational { num: 0, den: 1 }
            },
        }
    }

    /// Exact sum; `Overflow` exactly when the canonical result is too wide.
    pub fn add(&self, other: &Rational) -> (r: Result<Rational, Error>)
        requires
            self.inv(),
            other.inv(),
        ensures
            ({
                let s = q_add(self@, other@);
                match r {
                    Ok(rt) => rt.inv() && rt@ == q_norm(s) && q_eq(rt@, s) && q_fits(q_norm(s)),
                    Err(e) => e == Error::Overflow && !q_fits(q_norm(s)),
                }
            }),
    {
        let a = self.num as i128;
        let b = self.den as i128;
        let c = other.num as i128;
        let d = other.den as i128;
        proof {
            lemma_mul_bound(a as int, d as int, RAT_BOUND as int);
            lemma_mul_bound(c as int, b as int, RAT_BOUND as int);
            lemma_mul_bound(b as int, d as int, RAT_BOUND as int);
            assert(b * d > 0) by (nonlinear_arith)
                requires
                    b > 0,
                    d > 0,
            ;
        }
        let n = a * d + c * b;
        let de = b * d;
        let neg = n < 0;
        let mag: u128 = if neg {
            (-n) as u128
        } else {
            n as u128
        };
        let ghost s = q_add(self@, other@);
        proof {
            assert(s.n == n as int && s.d == de as int);
            assert(mag as int == q_abs(s.n));
            lemma_norm(s);
        }
        normalize(neg, mag, de as u128)
    }

    /// Exact difference; `Overflow` exactly when the canonical result is
    /// too wide.
    pub fn sub(&self, other: &Rational) -> (r: Result<Rational, Error>)
        requires
            self.inv(),
            other.inv(),
        ensures
            ({
                let s = q_sub(self@, other@);
                match r {
                    Ok(rt) => rt.inv() && rt@ == q_norm(s) && q_eq(rt@, s) && q_fits(q_norm(s)),
                    Err(e) => e == Error::Overflow && !q_fits(q_norm(s)),
                }
            }),
    {
        let a = self.num as i128;
        let b = self.den as i128;
        let c = other.num as i128;
        let d = other.den as i128;
        proof {
            lemma_mul_bound(a as int, d as int, RAT_BOUND as int);
            lemma_mul_bound(c as int, b as int, RAT_BOUND as int);
            lemma_mul_bound(b as int, d as int, RAT_BOUND as int);
            assert(b * d > 0) by (nonlinear_arith)
                requires
                    b > 0,
                    d > 0,
            ;
        }
        let n = a * d - c * b;
        let de = b * d;
        let neg = n < 0;
        let mag: u128 = if neg {
            (-n) as u128
        } else {
            n as u128
        };
        let ghost s = q_sub(self@, other@);
        proof {
            assert((-other@.n) * self@.d == -(other@.n * self@.d)) by (nonlinear_arith);
            assert(s.n == n as int && s.d == de as int);
            assert(mag as int == q_abs(s.n));
            lemma_norm(s);
        }
        normalize(neg, mag, de as u128)
    }

    /// Exact product; `Overflow` exactly when the canonical result is too
    /// wide.
    pub fn mul(&self, other: &Rational) -> (r: Result<Rational, Error>)
        requires
            self.inv(),
            other.inv(),
        ensures
            ({
                let s = q_mul(self@, other@);
                match r {
                    Ok(rt) => rt.inv() && rt@ == q_norm(s) && q_eq(rt@, s) && q_fits(q_norm(s)),
                    Err(e) => e == Error::Overflow && !q_fits(q_norm(s)),
                }
            }),
    {
        let a = self.num as i128;
        let b = self.den as i128;
        let c = other.num as i128;
        let d = other.den as i128;
        proof {
            lemma_mul_bound(a as int, c as int, RAT_BOUND as int);
            lemma_mul_bound(b as int, d as int, RAT_BOUND as int);
            assert(b * d > 0) by (nonlinear_arith)
                requires
                    b > 0,
                    d > 0,
            ;
        }
        let n = a * c;
        let de = b * d;
        let neg = n < 0;
        let mag: u128 = if neg {
            (-n) as u128
        } else {
            n as u128
        };
        let ghost s = q_mul(self@, other@);
        proof {
            assert(s.n == n as int && s.d == de as int);
            assert(mag as int == q_abs(s.n));
            lemma_norm(s);
        }
        normalize(neg, mag, de as u128)
    }

    /// Exact quotient by a nonzero divisor; `Overflow` exactly when the
    /// canonical result is too wide.
    pub fn div(&self, other: &Rational) -> (r: Result<Rational, Error>)
        requires
            self.inv(),
            other.inv(),
            other@.n != 0,
        ensures
            ({
                let s = q_div(self@, other@);
                match r {
                    Ok(rt) => rt.inv() && rt@ == q_norm(s) && q_eq(rt@, s) && q_fits(q_norm(s)),
                    Err(e) => e == Error::Overflow && !q_fits(q_norm(s)),
                }
            }),
    {
        let a = self.num as i128;
        let b = self.den as i128;
        let c = other.num as i128;
        let d = other.den as i128;
        proof {
            lemma_mul_bound(a as int, d as int, RAT_BOUND as int);
            lemma_mul_bound(b as int, c as int, RAT_BOUND as int);
            assert(b * c > 0 <==> c > 0) by (nonlinear_arith)
                requires
                    b > 0,
            ;
        }
        let n0 = a * d;
        let d0 = b * c;
        let (n, de) = if c < 0 {
            (-n0, -d0)
        } else {
            (n0, d0)
        };
        let neg = n < 0;
        let mag: u128 = if neg {
            (-n) as u128
        } else {
            n as u128
        };
        let ghost s = q_div(self@, other@);
        proof {
            if other@.n >= 0 {
                assert(s.n == n as int && s.d == de as int);
                assert(de > 0) by (nonlinear_arith)
                    requires
                        de as int == self@.d * other@.n,
                        self@.d > 0,
                        other@.n > 0,
                ;
            } else {
                assert(self@.n * (-other@.d) == -(self@.n * other@.d)) by (nonlinear_arith);
                assert(self@.d * (-other@.n) == -(self@.d * other@.n)) by (nonlinear_arith);
                assert(s.n == n as int && s.d == de as int);
                assert(de > 0) by (nonlinear_arith)
                    requires
                        de as int == -(self@.d * other@.n),
                        self@.d > 0,
                        other@.n < 0,
                ;
            }
            assert(mag as int == q_abs(s.n));
            lemma_norm(s);
        }
        normalize(neg, mag, de as u128)
    }

    /// Exact negation; never overflows and keeps the canonical form.
    pub fn neg(&self) -> (r: Rational)
        requires
            self.inv(),
        ensures
            r.inv(),
            r@ == q_neg(self@),
    {
        proof {
            assert(q_abs(-self@.n) == q_abs(self@.n));
        }
        Rational { num: -self.num, den: self.den }
    }

    /// Strict order on the denoted rationals.
    pub fn lt(&self, other: &Rational) -> (r: bool)
        requires
            self.inv(),
            other.inv(),
        ensures
            r == q_lt(self@, other@),
    {
        proof {
            lemma_mul_bound(self.num as int, other.den as int, RAT_BOUND as int);
            lemma_mul_bound(other.num as int, self.den as int, RAT_BOUND as int);
        }
        (self.num as i128) * (other.den as i128) < (other.num as i128) * (self.den as i128)
    }

    /// Non-strict order on the denoted rationals.
    pub fn le(&self, other: &Rational) -> (r: bool)
        requires
            self.inv(),
            other.inv(),
        ensures
            r == q_le(self@, other@),
    {
        proof {
            lemma_mul_bound(self.num as int, other.den as int, RAT_BOUND as int);
            lemma_mul_bound(other.num as int, self.den as int, RAT_BOUND as int);
        }
        (self.num as i128) * (other.den as i128) <= (other.num as i128) * (self.den as i128)
    }

    /// Whether the denoted rational is strictly positive.
    pub fn is_pos(&self) -> (r: bool)
        requires
            self.inv(),
        ensures
            r == q_pos(self@),
    {
        self.num > 0
    }

    /// Whether the denoted rational is zero.
    pub fn is_zero(&self) -> (r: bool)
        requires
            self.inv(),
        ensures
            r == (self@.n == 0),
            r == q_eq(self@, q_zero()),
    {
        proof {
            assert(self@.n * 1 == self@.n) by (nonlinear_arith);
            assert(0 * self@.d == 0) by (nonlinear_arith);
        }
        self.num == 0
    }

    /// Whether the denoted rational is nonnegative.
    pub fn is_nonneg(&self) -> (r: bool)
        requires
            self.inv(),
        ensures
            r == (self@.n >= 0),
            r == q_le(q_zero(), self@),
    {
        self.num >= 0
    }
}

/// Euclid's algorithm on machine words.
fn gcd_u128(a0: u128, b0: u128) -> (g: u128)
    ensures
        g as nat == gcd(a0 as nat, b0 as nat),
{
    let mut a = a0;
    let mut b = b0;
    while b != 0
        invariant
            gcd(a as nat, b as nat) == gcd(a0 as nat, b0 as nat),
        decreases b,
    {
        let r = a % b;
        a = b;
        b = r;
    }
    a
}

/// Reduce a signed magnitude fraction to the canonical bounded form.
fn normalize(neg: bool, n_mag: u128, d: u128) -> (r: Result<Rational, Error>)
    requires
        d > 0,
    ensures
        ({
            let q = Q {
                n: if neg {
                    -(n_mag as int)
                } else {
                    n_mag as int
                },
                d: d as int,
            };
            match r {
                Ok(rt) => rt.inv() && rt@ == q_norm(q) && q_fits(q_norm(q)),
                Err(e) => e == Error::Overflow && !q_fits(q_norm(q)),
            }
        }),
{
    let ghost q = Q {
        n: if neg {
            -(n_mag as int)
        } else {
            n_mag as int
        },
        d: d as int,
    };
    proof {
        assert(q_abs(q.n) == n_mag as int);
        lemma_gcd_divides(n_mag as nat, d as nat);
    }
    let g = gcd_u128(n_mag, d);
    let nr = n_mag / g;
    let dr = d / g;
    proof {
        lemma_norm(q);
        assert(q_norm(q).d == dr as int);
        assert(q_abs(q_norm(q).n) == nr as int);
        if neg && n_mag > 0 {
            lemma_div_neg_exact(n_mag as int, g as int);
            assert(q_norm(q).n == -(nr as int));
        } else {
            assert(q.n == n_mag as int);
            assert(q_norm(q).n == nr as int);
        }
    }
    if nr >= (RAT_BOUND as u128) || dr >= (RAT_BOUND as u128) {
        return Err(Error::Overflow);
    }
    let num: i64 = if neg {
        -(nr as i64)
    } else {
        nr as i64
    };
    Ok(Rational { num, den: dr as i64 })
}

} // verus!
