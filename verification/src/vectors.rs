//! Vectors of exact rationals: sums, pointwise arithmetic and the
//! executable helpers shared by the matrix builder and the integrator.

use vstd::prelude::*;

verus! {

use crate::errors::Error;
use crate::rational::{
    Q, Rational, q_wf, q_eq, q_zero, q_add, q_neg, q_mul, q_div, q_inv, q_norm, q_fits,
    lemma_q_eq_trans, lemma_q_add_congr, lemma_q_mul_congr, lemma_q_add_comm, lemma_q_add_assoc,
    lemma_q_add_zero, lemma_q_mul_distrib_right, lemma_q_add_wf, lemma_q_mul_wf, lemma_q_add_neg,
    lemma_q_neg_congr, lemma_q_inv_congr, lemma_q_norm_congr,
};

/// The canonical form of every entry: the representation an exact
/// computation actually holds for the denoted vector.
pub open spec fn canon_vec(s: Seq<Q>) -> Seq<Q> {
    Seq::new(s.len(), |i: int| q_norm(s[i]))
}

/// Some canonical partial sum of a prefix leaves the representable range.
pub open spec fn sum_overflows(s: Seq<Q>) -> bool {
    exists|j: int| 0 < j <= s.len() && !q_fits(q_norm(q_sum(#[trigger] s.take(j))))
}

/// Some canonical scaled entry, or its canonical sum with the matching
/// base entry, leaves the representable range.
pub open spec fn add_scaled_overflows(y: Seq<Q>, k: Seq<Q>, c: Q) -> bool {
    exists|j: int|
        0 <= j < y.len() && (!q_fits(q_norm(q_mul(#[trigger] k[j], c))) || !q_fits(
            q_norm(q_add(y[j], q_mul(k[j], c))),
        ))
}

/// Some canonical quotient of an entry by the scalar leaves the
/// representable range.
pub open spec fn div_vec_overflows(v: Seq<Q>, s: Q) -> bool {
    exists|j: int| 0 <= j < v.len() && !q_fits(q_norm(q_div(#[trigger] v[j], s)))
}

/// The all-zero vector of a given width.
pub open spec fn zero_vec_q(w: nat) -> Seq<Q> {
    Seq::new(w, |i: int| q_zero())
}

/// The sequence of denoted rationals behind a vector of `Rational` values.
pub open spec fn vq(s: Seq<Rational>) -> Seq<Q> {
    Seq::new(s.len(), |i: int| s[i]@)
}

/// Every element is well-formed.
pub open spec fn vec_wf(s: Seq<Q>) -> bool {
    forall|i: int| 0 <= i < s.len() ==> q_wf(#[trigger] s[i])
}

/// Every element satisfies the `Rational` representation invariant.
pub open spec fn vec_inv(s: Seq<Rational>) -> bool {
    forall|i: int| 0 <= i < s.len() ==> (#[trigger] s[i]).inv()
}

/// Pointwise equality of the denoted rationals.
pub open spec fn vec_eq(u: Seq<Q>, v: Seq<Q>) -> bool {
    u.len() == v.len() && forall|i: int| 0 <= i < u.len() ==> q_eq(#[trigger] u[i], #[trigger] v[i])
}

/// Every element is nonnegative.
pub open spec fn vec_nonneg(s: Seq<Q>) -> bool {
    forall|i: int| 0 <= i < s.len() ==> (#[trigger] s[i]).n >= 0
}

/// The denoted rationals behind invariant-respecting values are
/// well-formed.
pub proof fn lemma_vec_inv_wf(s: Seq<Rational>)
    requires
        vec_inv(s),
    ensures
        vec_wf(vq(s)),
{
    assert forall|i: int| 0 <= i < vq(s).len() implies q_wf(#[trigger] vq(s)[i]) by {
        assert(s[i].inv());
    }
}

/// The sum of a sequence of rationals.
pub open spec fn q_sum(s: Seq<Q>) -> Q
    decreases s.len(),
{
    if s.len() == 0 {
        q_zero()
    } else {
        q_add(q_sum(s.drop_last()), s.last())
    }
}

/// Pointwise sum of two equally long vectors.
pub open spec fn q_vec_add(u: Seq<Q>, v: Seq<Q>) -> Seq<Q> {
    Seq::new(u.len(), |i: int| q_add(u[i], v[i]))
}

/// Pointwise product with a scalar on the right.
pub open spec fn q_vec_scale(v: Seq<Q>, c: Q) -> Seq<Q> {
    Seq::new(v.len(), |i: int| q_mul(v[i], c))
}

// ---------------------------------------------------------------------------
// Facts about sums.
// ---------------------------------------------------------------------------

/// The sum of well-formed values is well-formed.
pub proof fn lemma_q_sum_wf(s: Seq<Q>)
    requires
        vec_wf(s),
    ensures
        q_wf(q_sum(s)),
    decreases s.len(),
{
    if s.len() > 0 {
        lemma_q_sum_wf(s.drop_last());
        assert(s.last().d > 0);
        assert(q_sum(s).d == q_sum(s.drop_last()).d * s.last().d);
        assert(q_sum(s).d > 0) by (nonlinear_arith)
            requires
                q_sum(s).d == q_sum(s.drop_last()).d * s.last().d,
                q_sum(s.drop_last()).d > 0,
                s.last().d > 0,
        ;
    }
}

/// Extending a prefix by one element extends its sum by that element.
pub proof fn lemma_q_sum_take_step(s: Seq<Q>, j: int)
    requires
        0 <= j < s.len(),
    ensures
        q_sum(s.take(j + 1)) == q_add(q_sum(s.take(j)), s[j]),
{
    let t = s.take(j + 1);
    assert(t.drop_last() =~= s.take(j));
    assert(t.last() == s[j]);
}

/// Sums respect pointwise equality.
pub proof fn lemma_q_sum_congr(u: Seq<Q>, v: Seq<Q>)
    requires
        vec_wf(u),
        vec_wf(v),
        vec_eq(u, v),
    ensures
        q_eq(q_sum(u), q_sum(v)),
    decreases u.len(),
{
    if u.len() == 0 {
    } else {
        let ud = u.drop_last();
        let vd = v.drop_last();
        lemma_q_sum_congr(ud, vd);
        lemma_q_sum_wf(ud);
        lemma_q_sum_wf(vd);
        lemma_q_add_congr(q_sum(ud), u.last(), q_sum(vd), v.last());
    }
}

/// A sum of nonnegative values is nonnegative; if some element is
/// strictly positive, so is the sum.
pub proof fn lemma_q_sum_nonneg(s: Seq<Q>)
    requires
        vec_wf(s),
        vec_nonneg(s),
    ensures
        q_wf(q_sum(s)),
        q_sum(s).n >= 0,
        (exists|i: int| 0 <= i < s.len() && (#[trigger] s[i]).n > 0) ==> q_sum(s).n > 0,
    decreases s.len(),
{
    lemma_q_sum_wf(s);
    if s.len() > 0 {
        let sd = s.drop_last();
        lemma_q_sum_nonneg(sd);
        let a = q_sum(sd);
        let b = s.last();
        assert(q_sum(s) == q_add(a, b));
        assert(a.n * b.d + b.n * a.d >= 0) by (nonlinear_arith)
            requires
                a.n >= 0,
                b.n >= 0,
                a.d > 0,
                b.d > 0,
        ;
        if exists|i: int| 0 <= i < s.len() && (#[trigger] s[i]).n > 0 {
            let i = choose|i: int| 0 <= i < s.len() && (#[trigger] s[i]).n > 0;
            if i < s.len() - 1 {
                assert(sd[i].n > 0);
                assert(a.n > 0);
            } else {
                assert(b.n > 0);
            }
            assert(a.n * b.d + b.n * a.d > 0) by (nonlinear_arith)
                requires
                    a.n >= 0,
                    b.n >= 0,
                    a.n > 0 || b.n > 0,
                    a.d > 0,
                    b.d > 0,
            ;
        }
    }
}

/// The sum of a vector of zero-valued entries is zero.
pub proof fn lemma_q_sum_all_zero(s: Seq<Q>)
    requires
        vec_wf(s),
        forall|i: int| 0 <= i < s.len() ==> q_eq(#[trigger] s[i], q_zero()),
    ensures
        q_eq(q_sum(s), q_zero()),
    decreases s.len(),
{
    if s.len() > 0 {
        let sd = s.drop_last();
        lemma_q_sum_all_zero(sd);
        lemma_q_sum_wf(sd);
        lemma_q_add_zero(q_sum(sd), s.last());
        lemma_q_add_wf(q_sum(sd), s.last());
        lemma_q_eq_trans(q_sum(s), q_sum(sd), q_zero());
    }
}

/// Replacing one entry changes the sum by the difference of the new and
/// old entries.
pub proof fn lemma_q_sum_update(s: Seq<Q>, k: int, x: Q)
    requires
        vec_wf(s),
        q_wf(x),
        0 <= k < s.len(),
    ensures
        q_eq(q_sum(s.update(k, x)), q_add(q_sum(s), q_add(x, q_neg(s[k])))),
    decreases s.len(),
{
    let su = s.update(k, x);
    let sd = s.drop_last();
    assert(vec_wf(su)) by {
        assert forall|i: int| 0 <= i < su.len() implies q_wf(#[trigger] su[i]) by {
            if i != k {
                assert(su[i] == s[i]);
            }
        }
    }
    lemma_q_sum_wf(s);
    lemma_q_sum_wf(sd);
    lemma_q_sum_wf(su);
    let delta = q_add(x, q_neg(s[k]));
    lemma_q_add_wf(x, q_neg(s[k]));
    if k == s.len() - 1 {
        assert(su.drop_last() =~= sd);
        assert(su.last() == x);
        assert(s[k] == s.last());
        // q_sum(su) == q_add(q_sum(sd), x)
        let a = q_sum(sd);
        let l = s.last();
        lemma_q_add_rearrange(a, x, l, q_neg(l));
        lemma_q_add_neg(l);
        lemma_q_add_wf(a, x);
        lemma_q_add_wf(l, q_neg(l));
        lemma_q_add_wf(a, l);
        lemma_q_add_wf(x, q_neg(l));
        lemma_q_add_wf(q_add(a, l), q_add(x, q_neg(l)));
        lemma_q_add_wf(q_add(a, x), q_add(l, q_neg(l)));
        lemma_q_add_zero(q_add(a, x), q_add(l, q_neg(l)));
        // (a + l) + (x + (-l)) == (a + x) + (l + (-l)) == (a + x)
        lemma_q_eq_trans(
            q_add(q_add(a, l), q_add(x, q_neg(l))),
            q_add(q_add(a, x), q_add(l, q_neg(l))),
            q_add(a, x),
        );
    } else {
        assert(su.drop_last() =~= sd.update(k, x));
        assert(su.last() == s.last());
        assert(sd[k] == s[k]);
        lemma_q_sum_update(sd, k, x);
        let a = q_sum(sd);
        let l = s.last();
        lemma_q_add_wf(a, delta);
        assert(vec_wf(sd.update(k, x))) by {
            assert forall|i: int| 0 <= i < sd.update(k, x).len() implies q_wf(
                #[trigger] sd.update(k, x)[i],
            ) by {
                if i != k {
                    assert(sd.update(k, x)[i] == s[i]);
                }
            }
        }
        lemma_q_sum_wf(sd.update(k, x));
        // q_sum(su) == q_add(q_sum(su.drop_last()), l)
        lemma_q_add_congr(q_sum(su.drop_last()), l, q_add(a, delta), l);
        // (a + delta) + l == a + (delta + l) == a + (l + delta) == (a + l) + delta
        lemma_q_add_assoc(a, delta, l);
        lemma_q_add_comm(delta, l);
        lemma_q_add_assoc(a, l, delta);
        lemma_q_add_wf(a, l);
        lemma_q_add_wf(q_add(a, delta), l);
        lemma_q_add_wf(delta, l);
        lemma_q_add_wf(a, q_add(delta, l));
        lemma_q_add_wf(q_add(a, l), delta);
        lemma_q_eq_trans(q_sum(su), q_add(q_add(a, delta), l), q_add(a, q_add(delta, l)));
        lemma_q_eq_trans(q_sum(su), q_add(a, q_add(delta, l)), q_add(q_add(a, l), delta));
    }
}

/// Replacing a zero-valued entry by `x` turns a sum equal to `t` into a
/// sum equal to `t + x`.
pub proof fn lemma_q_sum_update_zero(s: Seq<Q>, k: int, x: Q, t: Q)
    requires
        vec_wf(s),
        q_wf(x),
        q_wf(t),
        0 <= k < s.len(),
        q_eq(s[k], q_zero()),
        q_eq(q_sum(s), t),
    ensures
        q_eq(q_sum(s.update(k, x)), q_add(t, x)),
{
    lemma_q_sum_update(s, k, x);
    lemma_q_sum_wf(s);
    let delta = q_add(x, q_neg(s[k]));
    crate::rational::lemma_q_neg_congr(s[k], q_zero());
    lemma_q_add_zero(x, q_neg(s[k]));
    lemma_q_add_wf(x, q_neg(s[k]));
    lemma_q_add_congr(q_sum(s), delta, t, x);
    assert(vec_wf(s.update(k, x))) by {
        assert forall|i: int| 0 <= i < s.update(k, x).len() implies q_wf(
            #[trigger] s.update(k, x)[i],
        ) by {
            if i != k {
                assert(s.update(k, x)[i] == s[i]);
            }
        }
    }
    lemma_q_sum_wf(s.update(k, x));
    lemma_q_add_wf(q_sum(s), delta);
    lemma_q_add_wf(t, x);
    lemma_q_eq_trans(q_sum(s.update(k, x)), q_add(q_sum(s), delta), q_add(t, x));
}

/// Rearrangement of a double sum: `(a + b) + (c + d)` equals
/// `(a + c) + (b + d)`.
pub proof fn lemma_q_add_rearrange(a: Q, b: Q, c: Q, d: Q)
    requires
        q_wf(a),
        q_wf(b),
        q_wf(c),
        q_wf(d),
    ensures
        q_eq(q_add(q_add(a, b), q_add(c, d)), q_add(q_add(a, c), q_add(b, d))),
{
    lemma_q_add_wf(a, b);
    lemma_q_add_wf(c, d);
    lemma_q_add_wf(b, c);
    lemma_q_add_wf(c, b);
    lemma_q_add_wf(b, d);
    lemma_q_add_wf(a, c);
    lemma_q_add_wf(q_add(a, b), q_add(c, d));
    lemma_q_add_wf(b, q_add(c, d));
    lemma_q_add_wf(a, q_add(b, q_add(c, d)));
    lemma_q_add_wf(q_add(b, c), d);
    lemma_q_add_wf(c, q_add(b, d));
    lemma_q_add_wf(a, q_add(c, q_add(b, d)));
    lemma_q_add_wf(q_add(a, c), q_add(b, d));
    // (a + b) + (c + d)  ==  a + (b + (c + d))
    lemma_q_add_assoc(a, b, q_add(c, d));
    // b + (c + d)  ==  (b + c) + d  ==  (c + b) + d  ==  c + (b + d)
    lemma_q_add_assoc(b, c, d);
    lemma_q_add_comm(b, c);
    lemma_q_add_assoc(c, b, d);
    lemma_q_eq_trans(q_add(b, q_add(c, d)), q_add(q_add(c, b), d), q_add(c, q_add(b, d)));
    // lift through the leading `a + _`
    lemma_q_add_congr(a, q_add(b, q_add(c, d)), a, q_add(c, q_add(b, d)));
    // a + (c + (b + d))  ==  (a + c) + (b + d)
    lemma_q_add_assoc(a, c, q_add(b, d));
    lemma_q_eq_trans(
        q_add(q_add(a, b), q_add(c, d)),
        q_add(a, q_add(b, q_add(c, d))),
        q_add(a, q_add(c, q_add(b, d))),
    );
    lemma_q_eq_trans(
        q_add(q_add(a, b), q_add(c, d)),
        q_add(a, q_add(c, q_add(b, d))),
        q_add(q_add(a, c), q_add(b, d)),
    );
}

/// The sum of a pointwise sum is the sum of the sums.
pub proof fn lemma_q_sum_add(u: Seq<Q>, v: Seq<Q>)
    requires
        vec_wf(u),
        vec_wf(v),
        u.len() == v.len(),
    ensures
        q_eq(q_sum(q_vec_add(u, v)), q_add(q_sum(u), q_sum(v))),
    decreases u.len(),
{
    let w = q_vec_add(u, v);
    assert(vec_wf(w)) by {
        assert forall|i: int| 0 <= i < w.len() implies q_wf(#[trigger] w[i]) by {
            assert(w[i] == q_add(u[i], v[i]));
            lemma_q_add_congr(u[i], v[i], u[i], v[i]);
        }
    }
    if u.len() == 0 {
        assert(q_sum(w) == q_zero());
        assert(q_eq(q_add(q_zero(), q_zero()), q_zero()));
    } else {
        let ud = u.drop_last();
        let vd = v.drop_last();
        assert(w.drop_last() =~= q_vec_add(ud, vd));
        lemma_q_sum_add(ud, vd);
        lemma_q_sum_wf(ud);
        lemma_q_sum_wf(vd);
        lemma_q_sum_wf(w.drop_last());
        assert(w.last() == q_add(u.last(), v.last()));
        lemma_q_add_wf(u.last(), v.last());
        lemma_q_add_wf(q_sum(ud), q_sum(vd));
        // q_sum(w) == q_add(q_sum(w.drop_last()), w.last())
        lemma_q_add_congr(
            q_sum(w.drop_last()),
            w.last(),
            q_add(q_sum(ud), q_sum(vd)),
            q_add(u.last(), v.last()),
        );
        lemma_q_add_rearrange(q_sum(ud), q_sum(vd), u.last(), v.last());
        lemma_q_add_wf(q_add(q_sum(ud), q_sum(vd)), q_add(u.last(), v.last()));
        lemma_q_add_wf(q_sum(ud), u.last());
        lemma_q_add_wf(q_sum(vd), v.last());
        lemma_q_add_wf(q_add(q_sum(ud), u.last()), q_add(q_sum(vd), v.last()));
        lemma_q_add_wf(q_sum(w.drop_last()), w.last());
        lemma_q_eq_trans(
            q_sum(w),
            q_add(q_add(q_sum(ud), q_sum(vd)), q_add(u.last(), v.last())),
            q_add(q_add(q_sum(ud), u.last()), q_add(q_sum(vd), v.last())),
        );
    }
}

/// The sum of a scaled vector is the scaled sum.
pub proof fn lemma_q_sum_scale(v: Seq<Q>, c: Q)
    requires
        vec_wf(v),
        q_wf(c),
    ensures
        q_eq(q_sum(q_vec_scale(v, c)), q_mul(q_sum(v), c)),
    decreases v.len(),
{
    let w = q_vec_scale(v, c);
    assert(vec_wf(w)) by {
        assert forall|i: int| 0 <= i < w.len() implies q_wf(#[trigger] w[i]) by {
            assert(w[i] == q_mul(v[i], c));
            lemma_q_mul_congr(v[i], c, v[i], c);
        }
    }
    if v.len() == 0 {
        assert(q_sum(w) == q_zero());
        assert((0 * c.n) * 1 == 0) by (nonlinear_arith);
        assert(0 * (1 * c.d) == 0) by (nonlinear_arith);
        assert(q_eq(q_zero(), q_mul(q_zero(), c)));
    } else {
        let vd = v.drop_last();
        assert(w.drop_last() =~= q_vec_scale(vd, c));
        lemma_q_sum_scale(vd, c);
        lemma_q_sum_wf(vd);
        lemma_q_sum_wf(w.drop_last());
        assert(w.last() == q_mul(v.last(), c));
        lemma_q_mul_wf(v.last(), c);
        lemma_q_mul_wf(q_sum(vd), c);
        // q_sum(w) == q_add(q_sum(w.drop_last()), w.last())
        lemma_q_add_congr(
            q_sum(w.drop_last()),
            w.last(),
            q_mul(q_sum(vd), c),
            q_mul(v.last(), c),
        );
        lemma_q_mul_distrib_right(q_sum(vd), v.last(), c);
        lemma_q_add_wf(q_sum(w.drop_last()), w.last());
        lemma_q_add_wf(q_mul(q_sum(vd), c), q_mul(v.last(), c));
        lemma_q_add_wf(q_sum(vd), v.last());
        lemma_q_mul_wf(q_add(q_sum(vd), v.last()), c);
        lemma_q_eq_trans(
            q_sum(w),
            q_add(q_mul(q_sum(vd), c), q_mul(v.last(), c)),
            q_mul(q_add(q_sum(vd), v.last()), c),
        );
    }
}

/// Pointwise equality is transitive over well-formed vectors.
pub proof fn lemma_vec_eq_trans(u: Seq<Q>, v: Seq<Q>, w: Seq<Q>)
    requires
        vec_wf(u),
        vec_wf(v),
        vec_wf(w),
        vec_eq(u, v),
        vec_eq(v, w),
    ensures
        vec_eq(u, w),
{
    assert forall|i: int| 0 <= i < u.len() implies q_eq(#[trigger] u[i], #[trigger] w[i]) by {
        lemma_q_eq_trans(u[i], v[i], w[i]);
    }
}

/// Pointwise vector addition respects pointwise equality.
pub proof fn lemma_q_vec_add_congr(u: Seq<Q>, v: Seq<Q>, u2: Seq<Q>, v2: Seq<Q>)
    requires
        vec_wf(u),
        vec_wf(v),
        vec_wf(u2),
        vec_wf(v2),
        u.len() == v.len(),
        vec_eq(u, u2),
        vec_eq(v, v2),
    ensures
        vec_wf(q_vec_add(u, v)),
        vec_wf(q_vec_add(u2, v2)),
        vec_eq(q_vec_add(u, v), q_vec_add(u2, v2)),
{
    assert forall|i: int| 0 <= i < u.len() implies q_wf(#[trigger] q_vec_add(u, v)[i]) && q_eq(
        q_vec_add(u, v)[i],
        q_vec_add(u2, v2)[i],
    ) by {
        lemma_q_add_congr(u[i], v[i], u2[i], v2[i]);
    }
    assert forall|i: int| 0 <= i < u2.len() implies q_wf(#[trigger] q_vec_add(u2, v2)[i]) by {
        lemma_q_add_wf(u2[i], v2[i]);
    }
}

/// Scaling respects pointwise equality of the vector and equality of the
/// scalar.
pub proof fn lemma_q_vec_scale_congr(v: Seq<Q>, c: Q, v2: Seq<Q>, c2: Q)
    requires
        vec_wf(v),
        vec_wf(v2),
        q_wf(c),
        q_wf(c2),
        vec_eq(v, v2),
        q_eq(c, c2),
    ensures
        vec_wf(q_vec_scale(v, c)),
        vec_wf(q_vec_scale(v2, c2)),
        vec_eq(q_vec_scale(v, c), q_vec_scale(v2, c2)),
{
    assert forall|i: int| 0 <= i < v.len() implies q_wf(#[trigger] q_vec_scale(v, c)[i]) && q_eq(
        q_vec_scale(v, c)[i],
        q_vec_scale(v2, c2)[i],
    ) by {
        lemma_q_mul_congr(v[i], c, v2[i], c2);
    }
    assert forall|i: int| 0 <= i < v2.len() implies q_wf(#[trigger] q_vec_scale(v2, c2)[i]) by {
        lemma_q_mul_wf(v2[i], c2);
    }
}

// ---------------------------------------------------------------------------
// Executable vector arithmetic.
// ---------------------------------------------------------------------------

/// The all-zero vector of the given length.
pub fn zero_vector(n: usize) -> (r: Vec<Rational>)
    ensures
        r@.len() == n,
        vec_inv(r@),
        forall|i: int| 0 <= i < n ==> (#[trigger] r@[i])@ == q_zero(),
{
    let mut w: Vec<Rational> = Vec::new();
    let mut j: usize = 0;
    while j < n
        invariant
            j <= n,
            w@.len() == j,
            vec_inv(w@),
            forall|i: int| 0 <= i < j ==> (#[trigger] w@[i])@ == q_zero(),
        decreases n - j,
    {
        w.push(Rational::zero());
        j = j + 1;
    }
    w
}

/// The exact sum of all entries.
pub fn sum_vec(v: &Vec<Rational>) -> (r: Result<Rational, Error>)
    requires
        vec_inv(v@),
    ensures
        r is Err ==> sum_overflows(vq(v@)),
        match r {
            Ok(s) => s.inv() && q_eq(s@, q_sum(vq(v@))),
            Err(e) => e == Error::Overflow,
        },
{
    let ghost qs = vq(v@);
    proof {
        assert(vec_wf(qs));
    }
    let mut acc = Rational::zero();
    let mut j: usize = 0;
    proof {
        assert(qs.take(0) =~= Seq::<Q>::empty());
    }
    while j < v.len()
        invariant
            vec_inv(v@),
            qs == vq(v@),
            vec_wf(qs),
            j <= v.len(),
            acc.inv(),
            q_eq(acc@, q_sum(qs.take(j as int))),
        decreases v.len() - j,
    {
        let e = v[j];
        let next = match acc.add(&e) {
            Ok(x) => x,
            Err(er) => {
                proof {
                    let jj = j as int;
                    lemma_q_sum_take_step(qs, jj);
                    assert forall|i: int| 0 <= i < qs.take(jj).len() implies q_wf(
                        #[trigger] qs.take(jj)[i],
                    ) by {
                        assert(qs.take(jj)[i] == qs[i]);
                    }
                    lemma_q_sum_wf(qs.take(jj));
                    assert(qs[jj] == e@);
                    lemma_q_add_wf(acc@, e@);
                    lemma_q_add_wf(q_sum(qs.take(jj)), e@);
                    lemma_q_add_congr(acc@, e@, q_sum(qs.take(jj)), e@);
                    lemma_q_norm_congr(q_add(acc@, e@), q_add(q_sum(qs.take(jj)), e@));
                    assert(q_sum(qs.take(jj + 1)) == q_add(q_sum(qs.take(jj)), e@));
                    assert(!q_fits(q_norm(q_sum(qs.take(jj + 1)))));
                }
                return Err(er);
            },
        };
        proof {
            lemma_q_sum_take_step(qs, j as int);
            assert forall|i: int| 0 <= i < qs.take(j as int).len() implies q_wf(
                #[trigger] qs.take(j as int)[i],
            ) by {
                assert(qs.take(j as int)[i] == qs[i]);
            }
            lemma_q_sum_wf(qs.take(j as int));
            assert(qs[j as int] == e@);
            lemma_q_add_wf(acc@, e@);
            lemma_q_add_wf(q_sum(qs.take(j as int)), e@);
            lemma_q_add_congr(acc@, e@, q_sum(qs.take(j as int)), e@);
            lemma_q_eq_trans(next@, q_add(acc@, e@), q_add(q_sum(qs.take(j as int)), e@));
            assert(q_sum(qs.take(j + 1)) == q_add(q_sum(qs.take(j as int)), e@));
        }
        acc = next;
        j = j + 1;
    }
    proof {
        assert(qs.take(v.len() as int) =~= qs);
    }
    Ok(acc)
}

/// Pointwise `y + k * c` for equally long vectors.
pub fn add_scaled(y: &Vec<Rational>, k: &Vec<Rational>, c: &Rational) -> (r: Result<
    Vec<Rational>,
    Error,
>)
    requires
        vec_inv(y@),
        vec_inv(k@),
        c.inv(),
        y@.len() == k@.len(),
    ensures
        r is Err ==> add_scaled_overflows(vq(y@), vq(k@), c@),
        match r {
            Ok(w) => {
                &&& vec_inv(w@)
                &&& w@.len() == y@.len()
                &&& vec_eq(vq(w@), q_vec_add(vq(y@), q_vec_scale(vq(k@), c@)))
                &&& q_eq(q_sum(vq(w@)), q_add(q_sum(vq(y@)), q_mul(q_sum(vq(k@)), c@)))
            },
            Err(e) => e == Error::Overflow,
        },
{
    let ghost target = q_vec_add(vq(y@), q_vec_scale(vq(k@), c@));
    let mut w: Vec<Rational> = Vec::new();
    let mut j: usize = 0;
    while j < y.len()
        invariant
            vec_inv(y@),
            vec_inv(k@),
            c.inv(),
            y@.len() == k@.len(),
            target == q_vec_add(vq(y@), q_vec_scale(vq(k@), c@)),
            j <= y.len(),
            w@.len() == j,
            vec_inv(w@),
            forall|i: int| 0 <= i < j ==> q_eq(#[trigger] vq(w@)[i], target[i]),
        decreases y.len() - j,
    {
        let yi = y[j];
        let ki = k[j];
        let scaled = match ki.mul(c) {
            Ok(x) => x,
            Err(er) => {
                proof {
                    assert(vq(k@)[j as int] == ki@);
                    assert(!q_fits(q_norm(q_mul(vq(k@)[j as int], c@))));
                }
                return Err(er);
            },
        };
        let wi = match yi.add(&scaled) {
            Ok(x) => x,
            Err(er) => {
                proof {
                    let jj = j as int;
                    assert(vq(y@)[jj] == yi@ && vq(k@)[jj] == ki@);
                    lemma_q_mul_wf(ki@, c@);
                    lemma_q_add_wf(yi@, scaled@);
                    lemma_q_add_wf(yi@, q_mul(ki@, c@));
                    lemma_q_add_congr(yi@, scaled@, yi@, q_mul(ki@, c@));
                    lemma_q_norm_congr(q_add(yi@, scaled@), q_add(yi@, q_mul(ki@, c@)));
                    assert(!q_fits(q_norm(q_add(vq(y@)[jj], q_mul(vq(k@)[jj], c@)))));
                }
                return Err(er);
            },
        };
        proof {
            lemma_q_mul_wf(ki@, c@);
            lemma_q_add_wf(yi@, scaled@);
            lemma_q_add_wf(yi@, q_mul(ki@, c@));
            lemma_q_add_congr(yi@, scaled@, yi@, q_mul(ki@, c@));
            lemma_q_eq_trans(wi@, q_add(yi@, scaled@), q_add(yi@, q_mul(ki@, c@)));
            assert(vq(y@)[j as int] == yi@ && vq(k@)[j as int] == ki@);
            assert(target[j as int] == q_add(yi@, q_mul(ki@, c@)));
        }
        let ghost w_prev = w@;
        w.push(wi);
        proof {
            assert forall|i: int| 0 <= i < w@.len() implies q_eq(
                #[trigger] vq(w@)[i],
                target[i],
            ) by {
                if i < w_prev.len() {
                    assert(w@[i] == w_prev[i]);
                    assert(vq(w_prev)[i] == w_prev[i]@);
                } else {
                    assert(w@[i] == wi);
                }
                assert(vq(w@)[i] == w@[i]@);
            }
        }
        j = j + 1;
    }
    proof {
        let yq = vq(y@);
        let kq = vq(k@);
        let scaled = q_vec_scale(kq, c@);
        lemma_q_vec_scale_congr(kq, c@, kq, c@);
        lemma_q_vec_add_congr(yq, scaled, yq, scaled);
        lemma_q_sum_congr(vq(w@), target);
        lemma_q_sum_add(yq, scaled);
        lemma_q_sum_scale(kq, c@);
        lemma_q_sum_wf(vq(w@));
        lemma_q_sum_wf(target);
        lemma_q_sum_wf(yq);
        lemma_q_sum_wf(kq);
        lemma_q_sum_wf(scaled);
        lemma_q_mul_wf(q_sum(kq), c@);
        lemma_q_add_wf(q_sum(yq), q_sum(scaled));
        lemma_q_add_wf(q_sum(yq), q_mul(q_sum(kq), c@));
        lemma_q_add_congr(q_sum(yq), q_sum(scaled), q_sum(yq), q_mul(q_sum(kq), c@));
        lemma_q_eq_trans(q_sum(vq(w@)), q_sum(target), q_add(q_sum(yq), q_sum(scaled)));
        lemma_q_eq_trans(
            q_sum(vq(w@)),
            q_add(q_sum(yq), q_sum(scaled)),
            q_add(q_sum(yq), q_mul(q_sum(kq), c@)),
        );
    }
    Ok(w)
}

/// Pointwise division of every entry by a nonzero scalar.
pub fn div_vec(v: &Vec<Rational>, s: &Rational) -> (r: Result<Vec<Rational>, Error>)
    requires
        vec_inv(v@),
        s.inv(),
        s@.n != 0,
    ensures
        r is Err ==> div_vec_overflows(vq(v@), s@),
        match r {
            Ok(w) => {
                &&& vec_inv(w@)
                &&& w@.len() == v@.len()
                &&& vec_eq(vq(w@), q_vec_scale(vq(v@), q_inv(s@)))
                &&& q_eq(q_sum(vq(w@)), q_mul(q_sum(vq(v@)), q_inv(s@)))
            },
            Err(e) => e == Error::Overflow,
        },
{
    let ghost target = q_vec_scale(vq(v@), q_inv(s@));
    let mut w: Vec<Rational> = Vec::new();
    let mut j: usize = 0;
    while j < v.len()
        invariant
            vec_inv(v@),
            s.inv(),
            s@.n != 0,
            target == q_vec_scale(vq(v@), q_inv(s@)),
            j <= v.len(),
            w@.len() == j,
            vec_inv(w@),
            forall|i: int| 0 <= i < j ==> q_eq(#[trigger] vq(w@)[i], target[i]),
        decreases v.len() - j,
    {
        let vi = v[j];
        let wi = match vi.div(s) {
            Ok(x) => x,
            Err(er) => {
                proof {
                    assert(vq(v@)[j as int] == vi@);
                    assert(!q_fits(q_norm(q_div(vq(v@)[j as int], s@))));
                }
                return Err(er);
            },
        };
        proof {
            assert(vq(v@)[j as int] == vi@);
            assert(target[j as int] == q_mul(vi@, q_inv(s@)));
        }
        let ghost w_prev = w@;
        w.push(wi);
        proof {
            assert forall|i: int| 0 <= i < w@.len() implies q_eq(
                #[trigger] vq(w@)[i],
                target[i],
            ) by {
                if i < w_prev.len() {
                    assert(w@[i] == w_prev[i]);
                    assert(vq(w_prev)[i] == w_prev[i]@);
                } else {
                    assert(w@[i] == wi);
                }
                assert(vq(w@)[i] == w@[i]@);
            }
        }
        j = j + 1;
    }
    proof {
        let iv = q_inv(s@);
        assert(q_wf(iv)) by {
            lemma_q_inv_congr(s@, s@);
        }
        lemma_q_vec_scale_congr(vq(v@), iv, vq(v@), iv);
        lemma_q_sum_congr(vq(w@), target);
        lemma_q_sum_scale(vq(v@), iv);
        lemma_q_sum_wf(vq(w@));
        lemma_q_sum_wf(target);
        lemma_q_sum_wf(vq(v@));
        lemma_q_mul_wf(q_sum(vq(v@)), iv);
        lemma_q_eq_trans(q_sum(vq(w@)), q_sum(target), q_mul(q_sum(vq(v@)), iv));
    }
    Ok(w)
}

} // verus!
