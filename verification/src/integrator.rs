//! Transient analysis: fixed-step fourth-order Runge-Kutta integration
//! of the master (Kolmogorov) equations, with exact conservation of
//! probability mass.

use vstd::prelude::*;

verus! {

use crate::errors::Error;
use crate::queuing_system::{QueuingSystem, GeneratorMatrix, gen_entry, gen_matrix_overflows};
use crate::rational::{
    Q, Rational, q_wf, q_eq, q_zero, q_one, q_int, q_add, q_mul, q_div, q_inv, q_norm, q_fits,
    lemma_q_eq_trans, lemma_q_mul_congr, lemma_q_mul_comm, lemma_q_add_zero, lemma_q_mul_zero,
    lemma_q_add_wf, lemma_q_mul_wf, lemma_q_mul_inv, lemma_q_inv_congr, lemma_q_norm_congr,
    lemma_pinned_norm,
};
use crate::vectors::{
    vq, vec_inv, vec_wf, vec_eq, q_sum, q_vec_add, q_vec_scale, zero_vec_q, canon_vec,
    sum_overflows, add_scaled_overflows, div_vec_overflows, lemma_q_sum_wf, lemma_q_sum_congr,
    lemma_q_sum_add, lemma_q_sum_scale, lemma_q_sum_all_zero, lemma_q_sum_nonneg,
    lemma_vec_eq_trans, lemma_q_vec_add_congr, lemma_q_vec_scale_congr, lemma_vec_inv_wf,
    zero_vector, sum_vec, add_scaled, div_vec,
};

/// The rows of a generator matrix as sequences of denoted rationals.
pub open spec fn mat_q(m: GeneratorMatrix) -> Seq<Seq<Q>> {
    Seq::new(m.entries@.len() as nat, |i: int| vq(m.entries@[i]@))
}

/// The exact generator matrix of a system, entry by entry.
pub open spec fn system_matrix_q(qs: QueuingSystem) -> Seq<Seq<Q>> {
    Seq::new(
        qs.num_states() as nat,
        |i: int|
            Seq::new(
                qs.num_states() as nat,
                |j: int|
                    gen_entry(
                        qs.lambda_rate@,
                        qs.mu_rate@,
                        qs.num_channels as int,
                        qs.max_state(),
                        i,
                        j,
                    ),
            ),
    )
}

/// A well-formed square collection of generator rows of width `w`: every
/// row has length `w`, holds well-formed values and sums to zero.
pub open spec fn rows_wf(rows: Seq<Seq<Q>>, w: nat) -> bool {
    forall|i: int|
        0 <= i < rows.len() ==> (#[trigger] rows[i]).len() == w && vec_wf(rows[i]) && q_eq(
            q_sum(rows[i]),
            q_zero(),
        )
}

/// The right-hand side of the master equation, dp/dt = transpose(M) * p:
/// entry `i` of the result gathers the inflow `M[j][i] * p[j]` from every
/// state `j`.  It is written as a sum of rows scaled by the occupancy of
/// their state, which makes the zero-row-sum argument direct.
pub open spec fn q_deriv(rows: Seq<Seq<Q>>, y: Seq<Q>, w: nat) -> Seq<Q>
    decreases rows.len(),
{
    if rows.len() == 0 {
        zero_vec_q(w)
    } else {
        q_vec_add(
            q_deriv(rows.drop_last(), y.drop_last(), w),
            q_vec_scale(rows.last(), y.last()),
        )
    }
}

/// One classical fourth-order Runge-Kutta step of size `h`, before
/// renormalization, exactly as the integrator computes it.
pub open spec fn rk4_next(rows: Seq<Seq<Q>>, y: Seq<Q>, h: Q, w: nat) -> Seq<Q> {
    let h2 = q_div(h, q_int(2));
    let h3 = q_div(h, q_int(3));
    let h6 = q_div(h, q_int(6));
    let k1 = q_deriv(rows, y, w);
    let k2 = q_deriv(rows, q_vec_add(y, q_vec_scale(k1, h2)), w);
    let k3 = q_deriv(rows, q_vec_add(y, q_vec_scale(k2, h2)), w);
    let k4 = q_deriv(rows, q_vec_add(y, q_vec_scale(k3, h)), w);
    q_vec_add(
        q_vec_add(
            q_vec_add(q_vec_add(y, q_vec_scale(k1, h6)), q_vec_scale(k2, h3)),
            q_vec_scale(k3, h3),
        ),
        q_vec_scale(k4, h6),
    )
}

/// Renormalization: every entry divided by the entries' sum.
pub open spec fn normalize_vec_q(v: Seq<Q>) -> Seq<Q>
    recommends
        q_sum(v).n != 0,
{
    q_vec_scale(v, q_inv(q_sum(v)))
}

/// The `k`-th vector of the trajectory: the renormalized initial vector,
/// advanced by `k` renormalized Runge-Kutta steps.
pub open spec fn rk4_iterate(rows: Seq<Seq<Q>>, p0: Seq<Q>, h: Q, w: nat, k: nat) -> Seq<Q>
    decreases k,
{
    if k == 0 {
        normalize_vec_q(p0)
    } else {
        normalize_vec_q(rk4_next(rows, rk4_iterate(rows, p0, h, w, (k - 1) as nat), h, w))
    }
}

// ---------------------------------------------------------------------------
// When the fixed-width computations can fail: each predicate names the
// exact canonical intermediates of one computation, and holds exactly
// when one of them leaves the representable range.
// ---------------------------------------------------------------------------

/// Some canonical intermediate of row `j`'s contribution to the
/// derivative leaves the representable range: the accumulator holds the
/// canonical derivative of the first `j` rows, and row `j` is added to
/// it scaled by the occupancy of state `j`.
pub open spec fn deriv_step_overflows(rows: Seq<Seq<Q>>, y: Seq<Q>, w: nat, j: int) -> bool {
    add_scaled_overflows(canon_vec(q_deriv(rows.take(j), y.take(j), w)), rows[j], y[j])
}

/// Some canonical intermediate of the derivative leaves the
/// representable range.
pub open spec fn deriv_overflows(rows: Seq<Seq<Q>>, y: Seq<Q>, w: nat) -> bool {
    exists|j: int| 0 <= j < rows.len() && #[trigger] deriv_step_overflows(rows, y, w, j)
}

/// Some canonical intermediate of the renormalization leaves the
/// representable range: a partial sum of the entries, or an entry
/// divided by the canonical sum.
pub open spec fn normalize_overflows(v: Seq<Q>) -> bool {
    sum_overflows(v) || div_vec_overflows(v, q_norm(q_sum(v)))
}

/// Some canonical intermediate of one renormalized Runge-Kutta step
/// leaves the representable range.  The intermediate vectors are written
/// exactly as the computation holds them: as canonical forms built from
/// the previous canonical forms.
pub open spec fn rk4_step_overflows(rows: Seq<Seq<Q>>, y: Seq<Q>, h: Q, w: nat) -> bool {
    let h2 = q_norm(q_div(h, q_int(2)));
    let h3 = q_norm(q_div(h, q_int(3)));
    let h6 = q_norm(q_div(h, q_int(6)));
    let k1 = canon_vec(q_deriv(rows, y, w));
    let u2 = canon_vec(q_vec_add(y, q_vec_scale(k1, h2)));
    let k2 = canon_vec(q_deriv(rows, u2, w));
    let u3 = canon_vec(q_vec_add(y, q_vec_scale(k2, h2)));
    let k3 = canon_vec(q_deriv(rows, u3, w));
    let u4 = canon_vec(q_vec_add(y, q_vec_scale(k3, h)));
    let k4 = canon_vec(q_deriv(rows, u4, w));
    let t1 = canon_vec(q_vec_add(y, q_vec_scale(k1, h6)));
    let t2 = canon_vec(q_vec_add(t1, q_vec_scale(k2, h3)));
    let t3 = canon_vec(q_vec_add(t2, q_vec_scale(k3, h3)));
    let t4 = canon_vec(q_vec_add(t3, q_vec_scale(k4, h6)));
    ||| !q_fits(q_norm(q_div(h, q_int(2))))
    ||| !q_fits(q_norm(q_div(h, q_int(3))))
    ||| !q_fits(q_norm(q_div(h, q_int(6))))
    ||| deriv_overflows(rows, y, w)
    ||| add_scaled_overflows(y, k1, h2)
    ||| deriv_overflows(rows, u2, w)
    ||| add_scaled_overflows(y, k2, h2)
    ||| deriv_overflows(rows, u3, w)
    ||| add_scaled_overflows(y, k3, h)
    ||| deriv_overflows(rows, u4, w)
    ||| add_scaled_overflows(y, k1, h6)
    ||| add_scaled_overflows(t1, k2, h3)
    ||| add_scaled_overflows(t2, k3, h3)
    ||| add_scaled_overflows(t3, k4, h6)
    ||| normalize_overflows(t4)
}

/// The canonical generator matrix the integrator computes with.
pub open spec fn canonical_matrix_q(qs: QueuingSystem) -> Seq<Seq<Q>> {
    Seq::new(qs.num_states() as nat, |i: int| canon_vec(system_matrix_q(qs)[i]))
}

/// The canonical trajectory vector after `k` steps.
pub open spec fn canonical_iterate(qs: QueuingSystem, k: nat) -> Seq<Q> {
    canon_vec(
        rk4_iterate(
            system_matrix_q(qs),
            vq(qs.initial_state@),
            qs.step_size@,
            qs.num_states() as nat,
            k,
        ),
    )
}

/// Some canonical intermediate of the integration leaves the
/// representable range: a generator entry, the renormalized initial
/// vector, a Runge-Kutta step out of some trajectory point, or a time
/// stamp.
pub open spec fn integration_overflows(qs: QueuingSystem) -> bool {
    ||| gen_matrix_overflows(qs.lambda_rate@, qs.mu_rate@, qs.num_channels as int, qs.max_state())
    ||| normalize_overflows(vq(qs.initial_state@))
    ||| exists|k: nat|
        #![trigger canonical_iterate(qs, k)]
        k < qs.num_iterations && (rk4_step_overflows(
            canonical_matrix_q(qs),
            canonical_iterate(qs, k),
            qs.step_size@,
            qs.num_states() as nat,
        ) || !q_fits(q_norm(q_mul(q_int(k as int + 1), qs.step_size@))))
}

// ---------------------------------------------------------------------------
// Facts about the derivative.
// ---------------------------------------------------------------------------

/// The derivative is a well-formed vector of width `w`.
pub proof fn lemma_q_deriv_wf(rows: Seq<Seq<Q>>, y: Seq<Q>, w: nat)
    requires
        forall|i: int|
            0 <= i < rows.len() ==> (#[trigger] rows[i]).len() == w && vec_wf(rows[i]),
        vec_wf(y),
        rows.len() == y.len(),
    ensures
        q_deriv(rows, y, w).len() == w,
        vec_wf(q_deriv(rows, y, w)),
    decreases rows.len(),
{
    if rows.len() == 0 {
    } else {
        let rd = rows.drop_last();
        let yd = y.drop_last();
        assert(forall|i: int|
            0 <= i < rd.len() ==> (#[trigger] rd[i]).len() == w && vec_wf(rd[i])) by {
            assert(forall|i: int| 0 <= i < rd.len() ==> rd[i] == rows[i]);
        }
        lemma_q_deriv_wf(rd, yd, w);
        lemma_q_vec_scale_congr(rows.last(), y.last(), rows.last(), y.last());
        lemma_q_vec_add_congr(
            q_deriv(rd, yd, w),
            q_vec_scale(rows.last(), y.last()),
            q_deriv(rd, yd, w),
            q_vec_scale(rows.last(), y.last()),
        );
    }
}

/// Extending the prefix of rows by one extends the derivative by one
/// scaled row.
pub proof fn lemma_q_deriv_take_step(rows: Seq<Seq<Q>>, y: Seq<Q>, w: nat, j: int)
    requires
        0 <= j < rows.len(),
        rows.len() == y.len(),
    ensures
        q_deriv(rows.take(j + 1), y.take(j + 1), w) == q_vec_add(
            q_deriv(rows.take(j), y.take(j), w),
            q_vec_scale(rows[j], y[j]),
        ),
{
    let rt = rows.take(j + 1);
    let yt = y.take(j + 1);
    assert(rt.drop_last() =~= rows.take(j));
    assert(yt.drop_last() =~= y.take(j));
    assert(rt.last() == rows[j]);
    assert(yt.last() == y[j]);
}

/// When every row sums to zero, so does the derivative: the total
/// probability flow is conserved.
pub proof fn lemma_q_deriv_sum_zero(rows: Seq<Seq<Q>>, y: Seq<Q>, w: nat)
    requires
        rows_wf(rows, w),
        vec_wf(y),
        rows.len() == y.len(),
    ensures
        q_eq(q_sum(q_deriv(rows, y, w)), q_zero()),
    decreases rows.len(),
{
    lemma_q_deriv_wf(rows, y, w);
    if rows.len() == 0 {
        lemma_q_sum_all_zero(zero_vec_q(w));
    } else {
        let rd = rows.drop_last();
        let yd = y.drop_last();
        assert(rows_wf(rd, w)) by {
            assert(forall|i: int| 0 <= i < rd.len() ==> rd[i] == rows[i]);
        }
        lemma_q_deriv_sum_zero(rd, yd, w);
        let dprev = q_deriv(rd, yd, w);
        let lastrow = rows.last();
        let scl = q_vec_scale(lastrow, y.last());
        lemma_q_deriv_wf(rd, yd, w);
        lemma_q_vec_scale_congr(lastrow, y.last(), lastrow, y.last());
        // sum(deriv) == sum(dprev) + sum(scl)
        lemma_q_sum_add(dprev, scl);
        // sum(scl) == sum(lastrow) * y.last() == 0 * y.last() == 0
        lemma_q_sum_scale(lastrow, y.last());
        lemma_q_sum_wf(lastrow);
        lemma_q_sum_wf(dprev);
        lemma_q_sum_wf(scl);
        lemma_q_mul_wf(q_sum(lastrow), y.last());
        lemma_q_mul_comm(q_sum(lastrow), y.last());
        lemma_q_mul_zero(y.last(), q_sum(lastrow));
        lemma_q_eq_trans(q_sum(scl), q_mul(q_sum(lastrow), y.last()), q_zero());
        // sum(dprev) + sum(scl) == 0 + 0 == 0
        lemma_q_add_wf(q_sum(dprev), q_sum(scl));
        lemma_q_add_zero(q_sum(dprev), q_sum(scl));
        lemma_q_eq_trans(q_add(q_sum(dprev), q_sum(scl)), q_sum(dprev), q_zero());
        lemma_q_sum_wf(q_deriv(rows, y, w));
        lemma_q_eq_trans(
            q_sum(q_deriv(rows, y, w)),
            q_add(q_sum(dprev), q_sum(scl)),
            q_zero(),
        );
    }
}

/// The derivative respects pointwise equality of the rows and of the
/// occupancy vector.
pub proof fn lemma_q_deriv_congr(rows: Seq<Seq<Q>>, y: Seq<Q>, rows2: Seq<Seq<Q>>, y2: Seq<Q>, w: nat)
    requires
        forall|i: int|
            0 <= i < rows.len() ==> (#[trigger] rows[i]).len() == w && vec_wf(rows[i]),
        forall|i: int|
            0 <= i < rows2.len() ==> (#[trigger] rows2[i]).len() == w && vec_wf(rows2[i]),
        vec_wf(y),
        vec_wf(y2),
        rows.len() == y.len(),
        rows2.len() == y2.len(),
        rows.len() == rows2.len(),
        vec_eq(y, y2),
        forall|i: int| 0 <= i < rows.len() ==> vec_eq(#[trigger] rows[i], #[trigger] rows2[i]),
    ensures
        vec_eq(q_deriv(rows, y, w), q_deriv(rows2, y2, w)),
    decreases rows.len(),
{
    lemma_q_deriv_wf(rows, y, w);
    lemma_q_deriv_wf(rows2, y2, w);
    if rows.len() == 0 {
    } else {
        let rd = rows.drop_last();
        let yd = y.drop_last();
        let rd2 = rows2.drop_last();
        let yd2 = y2.drop_last();
        assert(forall|i: int| 0 <= i < rd.len() ==> rd[i] == rows[i]);
        assert(forall|i: int| 0 <= i < rd2.len() ==> rd2[i] == rows2[i]);
        lemma_q_deriv_congr(rd, yd, rd2, yd2, w);
        lemma_q_deriv_wf(rd, yd, w);
        lemma_q_deriv_wf(rd2, yd2, w);
        lemma_q_vec_scale_congr(rows.last(), y.last(), rows2.last(), y2.last());
        lemma_q_vec_add_congr(
            q_deriv(rd, yd, w),
            q_vec_scale(rows.last(), y.last()),
            q_deriv(rd2, yd2, w),
            q_vec_scale(rows2.last(), y2.last()),
        );
    }
}

/// A Runge-Kutta step respects pointwise equality of the rows, the state
/// vector and the step size.
pub proof fn lemma_rk4_next_congr(
    rows: Seq<Seq<Q>>,
    y: Seq<Q>,
    h: Q,
    rows2: Seq<Seq<Q>>,
    y2: Seq<Q>,
    h2: Q,
    w: nat,
)
    requires
        forall|i: int|
            0 <= i < rows.len() ==> (#[trigger] rows[i]).len() == w && vec_wf(rows[i]),
        forall|i: int|
            0 <= i < rows2.len() ==> (#[trigger] rows2[i]).len() == w && vec_wf(rows2[i]),
        rows.len() == w,
        rows2.len() == w,
        vec_wf(y),
        vec_wf(y2),
        y.len() == w,
        y2.len() == w,
        q_wf(h),
        q_wf(h2),
        vec_eq(y, y2),
        q_eq(h, h2),
        forall|i: int| 0 <= i < rows.len() ==> vec_eq(#[trigger] rows[i], #[trigger] rows2[i]),
    ensures
        vec_wf(rk4_next(rows, y, h, w)),
        vec_wf(rk4_next(rows2, y2, h2, w)),
        rk4_next(rows, y, h, w).len() == w,
        rk4_next(rows2, y2, h2, w).len() == w,
        vec_eq(rk4_next(rows, y, h, w), rk4_next(rows2, y2, h2, w)),
{
    assert(q_wf(q_inv(q_int(2))) && q_wf(q_inv(q_int(3))) && q_wf(q_inv(q_int(6))));
    lemma_q_mul_congr(h, q_inv(q_int(2)), h2, q_inv(q_int(2)));
    lemma_q_mul_congr(h, q_inv(q_int(3)), h2, q_inv(q_int(3)));
    lemma_q_mul_congr(h, q_inv(q_int(6)), h2, q_inv(q_int(6)));
    let ha = q_div(h, q_int(2));
    let hb = q_div(h, q_int(3));
    let hc = q_div(h, q_int(6));
    let ha2 = q_div(h2, q_int(2));
    let hb2 = q_div(h2, q_int(3));
    let hc2 = q_div(h2, q_int(6));
    let k1 = q_deriv(rows, y, w);
    let k1x = q_deriv(rows2, y2, w);
    lemma_q_deriv_wf(rows, y, w);
    lemma_q_deriv_wf(rows2, y2, w);
    lemma_q_deriv_congr(rows, y, rows2, y2, w);
    lemma_q_vec_scale_congr(k1, ha, k1x, ha2);
    lemma_q_vec_add_congr(y, q_vec_scale(k1, ha), y2, q_vec_scale(k1x, ha2));
    let u2 = q_vec_add(y, q_vec_scale(k1, ha));
    let u2x = q_vec_add(y2, q_vec_scale(k1x, ha2));
    let k2 = q_deriv(rows, u2, w);
    let k2x = q_deriv(rows2, u2x, w);
    lemma_q_deriv_wf(rows, u2, w);
    lemma_q_deriv_wf(rows2, u2x, w);
    lemma_q_deriv_congr(rows, u2, rows2, u2x, w);
    lemma_q_vec_scale_congr(k2, ha, k2x, ha2);
    lemma_q_vec_add_congr(y, q_vec_scale(k2, ha), y2, q_vec_scale(k2x, ha2));
    let u3 = q_vec_add(y, q_vec_scale(k2, ha));
    let u3x = q_vec_add(y2, q_vec_scale(k2x, ha2));
    let k3 = q_deriv(rows, u3, w);
    let k3x = q_deriv(rows2, u3x, w);
    lemma_q_deriv_wf(rows, u3, w);
    lemma_q_deriv_wf(rows2, u3x, w);
    lemma_q_deriv_congr(rows, u3, rows2, u3x, w);
    lemma_q_vec_scale_congr(k3, h, k3x, h2);
    lemma_q_vec_add_congr(y, q_vec_scale(k3, h), y2, q_vec_scale(k3x, h2));
    let u4 = q_vec_add(y, q_vec_scale(k3, h));
    let u4x = q_vec_add(y2, q_vec_scale(k3x, h2));
    let k4 = q_deriv(rows, u4, w);
    let k4x = q_deriv(rows2, u4x, w);
    lemma_q_deriv_wf(rows, u4, w);
    lemma_q_deriv_wf(rows2, u4x, w);
    lemma_q_deriv_congr(rows, u4, rows2, u4x, w);
    lemma_q_vec_scale_congr(k1, hc, k1x, hc2);
    lemma_q_vec_add_congr(y, q_vec_scale(k1, hc), y2, q_vec_scale(k1x, hc2));
    let s1 = q_vec_add(y, q_vec_scale(k1, hc));
    let s1x = q_vec_add(y2, q_vec_scale(k1x, hc2));
    lemma_q_vec_scale_congr(k2, hb, k2x, hb2);
    lemma_q_vec_add_congr(s1, q_vec_scale(k2, hb), s1x, q_vec_scale(k2x, hb2));
    let s2 = q_vec_add(s1, q_vec_scale(k2, hb));
    let s2x = q_vec_add(s1x, q_vec_scale(k2x, hb2));
    lemma_q_vec_scale_congr(k3, hb, k3x, hb2);
    lemma_q_vec_add_congr(s2, q_vec_scale(k3, hb), s2x, q_vec_scale(k3x, hb2));
    let s3 = q_vec_add(s2, q_vec_scale(k3, hb));
    let s3x = q_vec_add(s2x, q_vec_scale(k3x, hb2));
    lemma_q_vec_scale_congr(k4, hc, k4x, hc2);
    lemma_q_vec_add_congr(s3, q_vec_scale(k4, hc), s3x, q_vec_scale(k4x, hc2));
}

/// Renormalization respects pointwise equality, provided the sum is
/// nonzero.
pub proof fn lemma_normalize_congr(v: Seq<Q>, v2: Seq<Q>)
    requires
        vec_wf(v),
        vec_wf(v2),
        vec_eq(v, v2),
        q_sum(v).n != 0,
    ensures
        vec_wf(normalize_vec_q(v)),
        vec_wf(normalize_vec_q(v2)),
        q_sum(v2).n != 0,
        vec_eq(normalize_vec_q(v), normalize_vec_q(v2)),
{
    lemma_q_sum_congr(v, v2);
    lemma_q_sum_wf(v);
    lemma_q_sum_wf(v2);
    lemma_q_inv_congr(q_sum(v), q_sum(v2));
    lemma_q_vec_scale_congr(v, q_inv(q_sum(v)), v2, q_inv(q_sum(v2)));
}

// ---------------------------------------------------------------------------
// The executable integrator.
// ---------------------------------------------------------------------------

/// The inflow side of the master equation: `transpose(M) * y`, computed
/// row by row.  The result always sums to zero because every matrix row
/// does.
fn mat_tvec_mul(mx: &GeneratorMatrix, y: &Vec<Rational>) -> (r: Result<Vec<Rational>, Error>)
    requires
        mx.wf(),
        vec_inv(y@),
        y@.len() == mx.dim(),
    ensures
        r is Err ==> deriv_overflows(mat_q(*mx), vq(y@), mx.dim() as nat),
        match r {
            Ok(v) => {
                &&& v@.len() == mx.dim()
                &&& vec_inv(v@)
                &&& vec_eq(vq(v@), q_deriv(mat_q(*mx), vq(y@), mx.dim() as nat))
                &&& q_eq(q_sum(vq(v@)), q_zero())
            },
            Err(e) => e == Error::Overflow,
        },
{
    let n = mx.entries.len();
    let ghost rows = mat_q(*mx);
    let ghost yq = vq(y@);
    let ghost w = n as nat;
    proof {
        assert(rows_wf(rows, w)) by {
            assert forall|i: int|
                0 <= i < rows.len() implies (#[trigger] rows[i]).len() == w && vec_wf(rows[i])
                && q_eq(q_sum(rows[i]), q_zero()) by {
                assert(rows[i] == vq(mx.entries@[i]@));
                assert(mx.row(i) == vq(mx.entries@[i]@));
                lemma_vec_inv_wf(mx.entries@[i]@);
            }
        }
        lemma_vec_inv_wf(y@);
    }
    let mut acc = zero_vector(n);
    proof {
        assert(rows.take(0) =~= Seq::<Seq<Q>>::empty());
        assert(yq.take(0) =~= Seq::<Q>::empty());
        assert(vec_eq(vq(acc@), q_deriv(rows.take(0), yq.take(0), w)));
    }
    let mut j: usize = 0;
    while j < n
        invariant
            mx.wf(),
            vec_inv(y@),
            y@.len() == mx.dim(),
            n == mx.dim(),
            rows == mat_q(*mx),
            yq == vq(y@),
            w == n as nat,
            rows_wf(rows, w),
            rows.len() == n,
            yq.len() == n,
            vec_wf(yq),
            j <= n,
            acc@.len() == n,
            vec_inv(acc@),
            vec_eq(vq(acc@), q_deriv(rows.take(j as int), yq.take(j as int), w)),
        decreases n - j,
    {
        let row = &mx.entries[j];
        let yj = y[j];
        let nxt = match add_scaled(&acc, row, &yj) {
            Ok(x) => x,
            Err(e) => {
                proof {
                    let jj = j as int;
                    assert(forall|t2: int| 0 <= t2 < jj ==> rows.take(jj)[t2] == rows[t2]);
                    lemma_q_deriv_wf(rows.take(jj), yq.take(jj), w);
                    let dv = q_deriv(rows.take(jj), yq.take(jj), w);
                    assert(vq(acc@) =~= canon_vec(dv)) by {
                        assert forall|t2: int| 0 <= t2 < n implies vq(acc@)[t2] == canon_vec(
                            dv,
                        )[t2] by {
                            assert((acc@[t2]).inv());
                            lemma_pinned_norm(vq(acc@)[t2], dv[t2]);
                        }
                    }
                    assert(rows[jj] == vq(row@));
                    assert(yq[jj] == yj@);
                    assert(deriv_step_overflows(rows, yq, w, jj));
                    assert(deriv_overflows(rows, yq, w));
                }
                return Err(e);
            },
        };
        proof {
            let jj = j as int;
            lemma_q_deriv_take_step(rows, yq, w, jj);
            assert(forall|i: int| 0 <= i < jj ==> rows.take(jj)[i] == rows[i]);
            assert(forall|i: int| 0 <= i < jj + 1 ==> rows.take(jj + 1)[i] == rows[i]);
            lemma_q_deriv_wf(rows.take(jj), yq.take(jj), w);
            lemma_q_deriv_wf(rows.take(jj + 1), yq.take(jj + 1), w);
            assert(rows[jj] == vq(row@));
            assert(yq[jj] == yj@);
            lemma_vec_inv_wf(acc@);
            lemma_vec_inv_wf(nxt@);
            lemma_vec_inv_wf(row@);
            lemma_q_vec_scale_congr(rows[jj], yq[jj], rows[jj], yq[jj]);
            lemma_q_vec_add_congr(
                vq(acc@),
                q_vec_scale(rows[jj], yq[jj]),
                q_deriv(rows.take(jj), yq.take(jj), w),
                q_vec_scale(rows[jj], yq[jj]),
            );
            lemma_vec_eq_trans(
                vq(nxt@),
                q_vec_add(vq(acc@), q_vec_scale(rows[jj], yq[jj])),
                q_deriv(rows.take(jj + 1), yq.take(jj + 1), w),
            );
        }
        acc = nxt;
        j = j + 1;
    }
    proof {
        assert(rows.take(n as int) =~= rows);
        assert(yq.take(n as int) =~= yq);
        lemma_q_deriv_sum_zero(rows, yq, w);
        lemma_q_deriv_wf(rows, yq, w);
        lemma_vec_inv_wf(acc@);
        lemma_q_sum_congr(vq(acc@), q_deriv(rows, yq, w));
        lemma_q_sum_wf(vq(acc@));
        lemma_q_sum_wf(q_deriv(rows, yq, w));
        lemma_q_eq_trans(q_sum(vq(acc@)), q_sum(q_deriv(rows, yq, w)), q_zero());
    }
    Ok(acc)
}

/// Divide every entry of a vector by the vector's own sum.
fn normalize_vec(v: &Vec<Rational>) -> (r: Result<Vec<Rational>, Error>)
    requires
        vec_inv(v@),
        q_sum(vq(v@)).n != 0,
    ensures
        r is Err ==> normalize_overflows(vq(v@)),
        match r {
            Ok(w) => {
                &&& w@.len() == v@.len()
                &&& vec_inv(w@)
                &&& vec_eq(vq(w@), normalize_vec_q(vq(v@)))
                &&& q_eq(q_sum(vq(w@)), q_one())
            },
            Err(e) => e == Error::Overflow,
        },
{
    let s = match sum_vec(v) {
        Ok(x) => x,
        Err(e) => {
            return Err(e);
        },
    };
    proof {
        lemma_vec_inv_wf(v@);
        lemma_q_sum_wf(vq(v@));
        lemma_q_inv_congr(q_sum(vq(v@)), s@);
        lemma_pinned_norm(s@, q_sum(vq(v@)));
        assert(s@ == q_norm(q_sum(vq(v@))));
    }
    let w = match div_vec(v, &s) {
        Ok(x) => x,
        Err(e) => {
            proof {
                assert(div_vec_overflows(vq(v@), q_norm(q_sum(vq(v@)))));
            }
            return Err(e);
        },
    };
    proof {
        let sv = q_sum(vq(v@));
        lemma_vec_inv_wf(w@);
        lemma_q_inv_congr(s@, sv);
        lemma_q_vec_scale_congr(vq(v@), q_inv(s@), vq(v@), q_inv(sv));
        lemma_vec_eq_trans(vq(w@), q_vec_scale(vq(v@), q_inv(s@)), q_vec_scale(vq(v@), q_inv(sv)));
        // the sum of the normalized vector is one
        lemma_q_mul_wf(sv, q_inv(s@));
        lemma_q_mul_wf(s@, q_inv(s@));
        lemma_q_mul_congr(sv, q_inv(s@), s@, q_inv(s@));
        lemma_q_mul_inv(s@);
        lemma_q_sum_wf(vq(w@));
        lemma_q_eq_trans(q_sum(vq(w@)), q_mul(sv, q_inv(s@)), q_mul(s@, q_inv(s@)));
        lemma_q_eq_trans(q_sum(vq(w@)), q_mul(s@, q_inv(s@)), q_one());
    }
    Ok(w)
}

/// A vector of canonical representatives pinned pointwise to a
/// well-formed vector is that vector's canonical form.
proof fn lemma_pinned_canon_vec(xs: Seq<Rational>, plain: Seq<Q>)
    requires
        vec_inv(xs),
        vec_wf(plain),
        vec_eq(vq(xs), plain),
    ensures
        vq(xs) == canon_vec(plain),
{
    assert(vq(xs) =~= canon_vec(plain)) by {
        assert forall|t: int| 0 <= t < vq(xs).len() implies vq(xs)[t] == canon_vec(plain)[t] by {
            assert((xs[t]).inv());
            lemma_pinned_norm(vq(xs)[t], plain[t]);
        }
    }
}

/// The pointwise sum of a well-formed vector and a well-formed scaled
/// vector is well-formed.
proof fn lemma_add_scale_wf(base: Seq<Q>, k: Seq<Q>, c: Q)
    requires
        vec_wf(base),
        vec_wf(k),
        q_wf(c),
        base.len() == k.len(),
    ensures
        vec_wf(q_vec_add(base, q_vec_scale(k, c))),
{
    lemma_q_vec_scale_congr(k, c, k, c);
    lemma_q_vec_add_congr(base, q_vec_scale(k, c), base, q_vec_scale(k, c));
}

/// The rows of a well-formed generator matrix form a well-formed square
/// collection.
proof fn lemma_mat_rows_wf(mx: GeneratorMatrix)
    requires
        mx.wf(),
    ensures
        mat_q(mx).len() == mx.dim(),
        rows_wf(mat_q(mx), mx.dim() as nat),
{
    let rows = mat_q(mx);
    let w = mx.dim() as nat;
    assert forall|i: int|
        0 <= i < rows.len() implies (#[trigger] rows[i]).len() == w && vec_wf(rows[i]) && q_eq(
        q_sum(rows[i]),
        q_zero(),
    ) by {
        assert(rows[i] == vq(mx.entries@[i]@));
        assert(mx.row(i) == vq(mx.entries@[i]@));
        lemma_vec_inv_wf(mx.entries@[i]@);
    }
}

/// A sum that is equal to one stays equal to one after adding the product
/// of a zero-valued sum with any scalar.
proof fn lemma_sum_step_one(st: Q, sy: Q, sk: Q, c: Q)
    requires
        q_wf(st),
        q_wf(sy),
        q_wf(sk),
        q_wf(c),
        q_eq(st, q_add(sy, q_mul(sk, c))),
        q_eq(sy, q_one()),
        q_eq(sk, q_zero()),
    ensures
        q_eq(st, q_one()),
{
    lemma_q_mul_wf(sk, c);
    lemma_q_mul_comm(sk, c);
    lemma_q_mul_zero(c, sk);
    lemma_q_add_zero(sy, q_mul(sk, c));
    lemma_q_add_wf(sy, q_mul(sk, c));
    lemma_q_eq_trans(st, q_add(sy, q_mul(sk, c)), sy);
    lemma_q_eq_trans(st, sy, q_one());
}

/// One renormalized Runge-Kutta step of the master equation.  The
/// probability mass is exactly conserved: the unnormalized step already
/// sums to one, and the result does as well.
fn runge_kutta4_step(mx: &GeneratorMatrix, y: &Vec<Rational>, h: &Rational) -> (r: Result<
    Vec<Rational>,
    Error,
>)
    requires
        mx.wf(),
        vec_inv(y@),
        y@.len() == mx.dim(),
        h.inv(),
        q_eq(q_sum(vq(y@)), q_one()),
    ensures
        r is Err ==> rk4_step_overflows(mat_q(*mx), vq(y@), h@, mx.dim() as nat),
        match r {
            Ok(ny) => {
                &&& ny@.len() == mx.dim()
                &&& vec_inv(ny@)
                &&& q_eq(q_sum(rk4_next(mat_q(*mx), vq(y@), h@, mx.dim() as nat)), q_one())
                &&& vec_eq(
                    vq(ny@),
                    normalize_vec_q(rk4_next(mat_q(*mx), vq(y@), h@, mx.dim() as nat)),
                )
                &&& q_eq(q_sum(vq(ny@)), q_one())
            },
            Err(e) => e == Error::Overflow,
        },
{
    let ghost rows = mat_q(*mx);
    let ghost yq = vq(y@);
    let ghost w = mx.dim() as nat;
    let ghost gh2 = q_div(h@, q_int(2));
    let ghost gh3 = q_div(h@, q_int(3));
    let ghost gh6 = q_div(h@, q_int(6));
    proof {
        lemma_mat_rows_wf(*mx);
        lemma_vec_inv_wf(y@);
        lemma_q_sum_wf(yq);
        assert(q_wf(q_inv(q_int(2))) && q_wf(q_inv(q_int(3))) && q_wf(q_inv(q_int(6))));
        lemma_q_mul_wf(h@, q_inv(q_int(2)));
        lemma_q_mul_wf(h@, q_inv(q_int(3)));
        lemma_q_mul_wf(h@, q_inv(q_int(6)));
    }
    let two = Rational::from_int(2);
    let three = Rational::from_int(3);
    let six = Rational::from_int(6);
    let h2 = match h.div(&two) {
        Ok(x) => x,
        Err(e) => {
            proof {
                assert(!q_fits(q_norm(q_div(h@, q_int(2)))));
                assert(rk4_step_overflows(rows, yq, h@, w));
            }
            return Err(e);
        },
    };
    let h3 = match h.div(&three) {
        Ok(x) => x,
        Err(e) => {
            proof {
                assert(!q_fits(q_norm(q_div(h@, q_int(3)))));
                assert(rk4_step_overflows(rows, yq, h@, w));
            }
            return Err(e);
        },
    };
    let h6 = match h.div(&six) {
        Ok(x) => x,
        Err(e) => {
            proof {
                assert(!q_fits(q_norm(q_div(h@, q_int(6)))));
                assert(rk4_step_overflows(rows, yq, h@, w));
            }
            return Err(e);
        },
    };
    proof {
        assert(h2@ == q_norm(q_div(h@, q_int(2))));
        assert(h3@ == q_norm(q_div(h@, q_int(3))));
        assert(h6@ == q_norm(q_div(h@, q_int(6))));
    }
    let k1 = match mat_tvec_mul(mx, y) {
        Ok(x) => x,
        Err(e) => {
            proof {
                assert(rk4_step_overflows(rows, yq, h@, w));
            }
            return Err(e);
        },
    };
    let ghost gk1 = q_deriv(rows, yq, w);
    proof {
        lemma_q_deriv_wf(rows, yq, w);
        lemma_vec_inv_wf(k1@);
        lemma_pinned_canon_vec(k1@, gk1);
        lemma_add_scale_wf(yq, vq(k1@), h2@);
        lemma_add_scale_wf(yq, vq(k1@), h6@);
    }
    let u2 = match add_scaled(y, &k1, &h2) {
        Ok(x) => x,
        Err(e) => {
            proof {
                assert(rk4_step_overflows(rows, yq, h@, w));
            }
            return Err(e);
        },
    };
    let ghost gu2 = q_vec_add(yq, q_vec_scale(gk1, gh2));
    proof {
        lemma_vec_inv_wf(u2@);
        lemma_q_vec_scale_congr(vq(k1@), h2@, gk1, gh2);
        lemma_q_vec_add_congr(yq, q_vec_scale(vq(k1@), h2@), yq, q_vec_scale(gk1, gh2));
        lemma_vec_eq_trans(vq(u2@), q_vec_add(yq, q_vec_scale(vq(k1@), h2@)), gu2);
        lemma_pinned_canon_vec(u2@, q_vec_add(yq, q_vec_scale(vq(k1@), h2@)));
    }
    let k2 = match mat_tvec_mul(mx, &u2) {
        Ok(x) => x,
        Err(e) => {
            proof {
                assert(rk4_step_overflows(rows, yq, h@, w));
            }
            return Err(e);
        },
    };
    let ghost gk2 = q_deriv(rows, gu2, w);
    proof {
        lemma_vec_inv_wf(k2@);
        lemma_q_vec_scale_congr(gk1, gh2, gk1, gh2);
        lemma_q_vec_add_congr(yq, q_vec_scale(gk1, gh2), yq, q_vec_scale(gk1, gh2));
        lemma_q_deriv_congr(rows, vq(u2@), rows, gu2, w);
        lemma_q_deriv_wf(rows, vq(u2@), w);
        lemma_q_deriv_wf(rows, gu2, w);
        lemma_vec_eq_trans(vq(k2@), q_deriv(rows, vq(u2@), w), gk2);
        lemma_pinned_canon_vec(k2@, q_deriv(rows, vq(u2@), w));
        lemma_add_scale_wf(yq, vq(k2@), h2@);
        lemma_add_scale_wf(yq, vq(k2@), h3@);
    }
    let u3 = match add_scaled(y, &k2, &h2) {
        Ok(x) => x,
        Err(e) => {
            proof {
                assert(rk4_step_overflows(rows, yq, h@, w));
            }
            return Err(e);
        },
    };
    let ghost gu3 = q_vec_add(yq, q_vec_scale(gk2, gh2));
    proof {
        lemma_vec_inv_wf(u3@);
        lemma_q_vec_scale_congr(vq(k2@), h2@, gk2, gh2);
        lemma_q_vec_add_congr(yq, q_vec_scale(vq(k2@), h2@), yq, q_vec_scale(gk2, gh2));
        lemma_vec_eq_trans(vq(u3@), q_vec_add(yq, q_vec_scale(vq(k2@), h2@)), gu3);
        lemma_pinned_canon_vec(u3@, q_vec_add(yq, q_vec_scale(vq(k2@), h2@)));
    }
    let k3 = match mat_tvec_mul(mx, &u3) {
        Ok(x) => x,
        Err(e) => {
            proof {
                assert(rk4_step_overflows(rows, yq, h@, w));
            }
            return Err(e);
        },
    };
    let ghost gk3 = q_deriv(rows, gu3, w);
    proof {
        lemma_vec_inv_wf(k3@);
        lemma_q_vec_scale_congr(gk2, gh2, gk2, gh2);
        lemma_q_vec_add_congr(yq, q_vec_scale(gk2, gh2), yq, q_vec_scale(gk2, gh2));
        lemma_q_deriv_congr(rows, vq(u3@), rows, gu3, w);
        lemma_q_deriv_wf(rows, vq(u3@), w);
        lemma_q_deriv_wf(rows, gu3, w);
        lemma_vec_eq_trans(vq(k3@), q_deriv(rows, vq(u3@), w), gk3);
        lemma_pinned_canon_vec(k3@, q_deriv(rows, vq(u3@), w));
        lemma_add_scale_wf(yq, vq(k3@), h@);
        lemma_add_scale_wf(yq, vq(k3@), h3@);
    }
    let u4 = match add_scaled(y, &k3, h) {
        Ok(x) => x,
        Err(e) => {
            proof {
                assert(rk4_step_overflows(rows, yq, h@, w));
            }
            return Err(e);
        },
    };
    let ghost gu4 = q_vec_add(yq, q_vec_scale(gk3, h@));
    proof {
        lemma_vec_inv_wf(u4@);
        lemma_q_vec_scale_congr(vq(k3@), h@, gk3, h@);
        lemma_q_vec_add_congr(yq, q_vec_scale(vq(k3@), h@), yq, q_vec_scale(gk3, h@));
        lemma_vec_eq_trans(vq(u4@), q_vec_add(yq, q_vec_scale(vq(k3@), h@)), gu4);
        lemma_pinned_canon_vec(u4@, q_vec_add(yq, q_vec_scale(vq(k3@), h@)));
    }
    let k4 = match mat_tvec_mul(mx, &u4) {
        Ok(x) => x,
        Err(e) => {
            proof {
                assert(rk4_step_overflows(rows, yq, h@, w));
            }
            return Err(e);
        },
    };
    let ghost gk4 = q_deriv(rows, gu4, w);
    proof {
        lemma_vec_inv_wf(k4@);
        lemma_q_vec_scale_congr(gk3, h@, gk3, h@);
        lemma_q_vec_add_congr(yq, q_vec_scale(gk3, h@), yq, q_vec_scale(gk3, h@));
        lemma_q_deriv_congr(rows, vq(u4@), rows, gu4, w);
        lemma_q_deriv_wf(rows, vq(u4@), w);
        lemma_q_deriv_wf(rows, gu4, w);
        lemma_vec_eq_trans(vq(k4@), q_deriv(rows, vq(u4@), w), gk4);
        lemma_pinned_canon_vec(k4@, q_deriv(rows, vq(u4@), w));
        lemma_add_scale_wf(yq, vq(k4@), h6@);
    }
    // accumulate y + k1*h/6 + k2*h/3 + k3*h/3 + k4*h/6
    let t1 = match add_scaled(y, &k1, &h6) {
        Ok(x) => x,
        Err(e) => {
            proof {
                assert(rk4_step_overflows(rows, yq, h@, w));
            }
            return Err(e);
        },
    };
    let ghost gs1 = q_vec_add(yq, q_vec_scale(gk1, gh6));
    proof {
        lemma_vec_inv_wf(t1@);
        lemma_q_vec_scale_congr(vq(k1@), h6@, gk1, gh6);
        lemma_q_vec_add_congr(yq, q_vec_scale(vq(k1@), h6@), yq, q_vec_scale(gk1, gh6));
        lemma_vec_eq_trans(vq(t1@), q_vec_add(yq, q_vec_scale(vq(k1@), h6@)), gs1);
        // the sum stays one
        lemma_q_sum_wf(vq(t1@));
        lemma_q_sum_wf(vq(k1@));
        lemma_sum_step_one(q_sum(vq(t1@)), q_sum(yq), q_sum(vq(k1@)), h6@);
        lemma_pinned_canon_vec(t1@, q_vec_add(yq, q_vec_scale(vq(k1@), h6@)));
        lemma_vec_inv_wf(t1@);
        lemma_add_scale_wf(vq(t1@), vq(k2@), h3@);
    }
    let t2 = match add_scaled(&t1, &k2, &h3) {
        Ok(x) => x,
        Err(e) => {
            proof {
                assert(rk4_step_overflows(rows, yq, h@, w));
            }
            return Err(e);
        },
    };
    let ghost gs2 = q_vec_add(gs1, q_vec_scale(gk2, gh3));
    proof {
        lemma_vec_inv_wf(t2@);
        lemma_q_vec_scale_congr(vq(k2@), h3@, gk2, gh3);
        lemma_q_vec_add_congr(vq(t1@), q_vec_scale(vq(k2@), h3@), gs1, q_vec_scale(gk2, gh3));
        lemma_vec_eq_trans(vq(t2@), q_vec_add(vq(t1@), q_vec_scale(vq(k2@), h3@)), gs2);
        lemma_q_sum_wf(vq(t2@));
        lemma_q_sum_wf(vq(k2@));
        lemma_sum_step_one(q_sum(vq(t2@)), q_sum(vq(t1@)), q_sum(vq(k2@)), h3@);
        lemma_pinned_canon_vec(t2@, q_vec_add(vq(t1@), q_vec_scale(vq(k2@), h3@)));
        lemma_add_scale_wf(vq(t2@), vq(k3@), h3@);
    }
    let t3 = match add_scaled(&t2, &k3, &h3) {
        Ok(x) => x,
        Err(e) => {
            proof {
                assert(rk4_step_overflows(rows, yq, h@, w));
            }
            return Err(e);
        },
    };
    let ghost gs3 = q_vec_add(gs2, q_vec_scale(gk3, gh3));
    proof {
        lemma_vec_inv_wf(t3@);
        lemma_q_vec_scale_congr(vq(k3@), h3@, gk3, gh3);
        lemma_q_vec_add_congr(vq(t2@), q_vec_scale(vq(k3@), h3@), gs2, q_vec_scale(gk3, gh3));
        lemma_vec_eq_trans(vq(t3@), q_vec_add(vq(t2@), q_vec_scale(vq(k3@), h3@)), gs3);
        lemma_q_sum_wf(vq(t3@));
        lemma_q_sum_wf(vq(k3@));
        lemma_sum_step_one(q_sum(vq(t3@)), q_sum(vq(t2@)), q_sum(vq(k3@)), h3@);
        lemma_pinned_canon_vec(t3@, q_vec_add(vq(t2@), q_vec_scale(vq(k3@), h3@)));
        lemma_add_scale_wf(vq(t3@), vq(k4@), h6@);
    }
    let t4 = match add_scaled(&t3, &k4, &h6) {
        Ok(x) => x,
        Err(e) => {
            proof {
                assert(rk4_step_overflows(rows, yq, h@, w));
            }
            return Err(e);
        },
    };
    let ghost gs4 = q_vec_add(gs3, q_vec_scale(gk4, gh6));
    proof {
        lemma_vec_inv_wf(t4@);
        lemma_q_vec_scale_congr(vq(k4@), h6@, gk4, gh6);
        lemma_q_vec_add_congr(vq(t3@), q_vec_scale(vq(k4@), h6@), gs3, q_vec_scale(gk4, gh6));
        lemma_vec_eq_trans(vq(t4@), q_vec_add(vq(t3@), q_vec_scale(vq(k4@), h6@)), gs4);
        lemma_q_sum_wf(vq(t4@));
        lemma_q_sum_wf(vq(k4@));
        lemma_sum_step_one(q_sum(vq(t4@)), q_sum(vq(t3@)), q_sum(vq(k4@)), h6@);
        assert(gs4 == rk4_next(rows, yq, h@, w));
        lemma_pinned_canon_vec(t4@, q_vec_add(vq(t3@), q_vec_scale(vq(k4@), h6@)));
    }
    proof {
        // the unnormalized step sums to one, hence the sum is nonzero
        lemma_q_sum_congr(vq(t4@), gs4);
        lemma_q_sum_wf(gs4);
        lemma_q_eq_trans(q_sum(gs4), q_sum(vq(t4@)), q_one());
        assert(q_sum(vq(t4@)).n == q_sum(vq(t4@)).d) by {
            assert(q_sum(vq(t4@)).n * 1 == 1 * q_sum(vq(t4@)).d);
        }
        assert(q_sum(vq(t4@)).n != 0);
    }
    let ny = match normalize_vec(&t4) {
        Ok(x) => x,
        Err(e) => {
            proof {
                assert(rk4_step_overflows(rows, yq, h@, w));
            }
            return Err(e);
        },
    };
    proof {
        lemma_vec_inv_wf(ny@);
        lemma_normalize_congr(vq(t4@), gs4);
        lemma_vec_eq_trans(vq(ny@), normalize_vec_q(vq(t4@)), normalize_vec_q(gs4));
    }
    Ok(ny)
}

/// Zero is the product of the integer zero with any step size.
proof fn lemma_time_zero(h: Q)
    requires
        q_wf(h),
    ensures
        q_eq(q_zero(), q_mul(q_int(0), h)),
        q_wf(q_mul(q_int(0), h)),
{
    assert(0 * (1 * h.d) == 0) by (nonlinear_arith);
    assert((0 * h.n) * 1 == 0) by (nonlinear_arith);
}

/// Advancing a time stamp equal to `k * h` by `h` gives `(k + 1) * h`.
proof fn lemma_time_step(t: Q, h: Q, k: int)
    requires
        q_wf(t),
        q_wf(h),
        k >= 0,
        q_eq(t, q_mul(q_int(k), h)),
    ensures
        q_eq(q_add(t, h), q_mul(q_int(k + 1), h)),
        q_wf(q_mul(q_int(k + 1), h)),
{
    lemma_q_mul_wf(q_int(k + 1), h);
    assert((t.n * h.d + h.n * t.d) * (1 * h.d) == ((k + 1) * h.n) * (t.d * h.d))
        by (nonlinear_arith)
        requires
            t.n * (1 * h.d) == (k * h.n) * t.d,
    ;
}

impl QueuingSystem {
    /// Integrate the master equations over the configured horizon.
    ///
    /// The trajectory holds `num_iterations + 1` renormalized probability
    /// vectors, starting from the renormalized initial vector: entry `k`
    /// is the state distribution at time `k * step_size`, and every
    /// vector sums to exactly one.
    pub fn integrate_system(&self) -> (r: Result<Vec<(Rational, Vec<Rational>)>, Error>)
        requires
            self.valid(),
        ensures
            (r matches Err(e) && e == Error::ShapeMismatch) <==> self.initial_state@.len()
                != self.num_states(),
            (r matches Err(e) && e == Error::Overflow) ==> integration_overflows(*self),
            match r {
                Ok(traj) => {
                    &&& traj@.len() == self.num_iterations + 1
                    &&& forall|k: int|
                        0 <= k < traj@.len() ==> {
                            let p = (#[trigger] traj@[k]).1@;
                            &&& p.len() == self.num_states()
                            &&& vec_inv(p)
                            &&& vec_eq(
                                vq(p),
                                rk4_iterate(
                                    system_matrix_q(*self),
                                    vq(self.initial_state@),
                                    self.step_size@,
                                    self.num_states() as nat,
                                    k as nat,
                                ),
                            )
                            &&& q_eq(q_sum(vq(p)), q_one())
                        }
                    &&& forall|k: int|
                        0 <= k < traj@.len() ==> (#[trigger] traj@[k]).0.inv() && q_eq(
                            traj@[k].0@,
                            q_mul(q_int(k), self.step_size@),
                        )
                },
                Err(e) => e == Error::ShapeMismatch || e == Error::Overflow,
            },
    {
        let n = self.num_channels as usize + self.queue_size as usize + 1;
        if self.initial_state.len() != n {
            return Err(Error::ShapeMismatch);
        }
        let mx = match self.generate_kolmogorov_matrix() {
            Ok(x) => x,
            Err(e) => {
                return Err(e);
            },
        };
        let ghost smq = system_matrix_q(*self);
        let ghost w = self.num_states() as nat;
        let ghost h = self.step_size@;
        let ghost p0q = vq(self.initial_state@);
        proof {
            lemma_mat_rows_wf(mx);
            lemma_vec_inv_wf(self.initial_state@);
            // the exact system matrix is well-formed and row-equal to the
            // built one
            assert forall|i: int|
                0 <= i < w implies (#[trigger] smq[i]).len() == w && vec_wf(smq[i]) && vec_eq(
                mat_q(mx)[i],
                smq[i],
            ) by {
                assert forall|j: int| 0 <= j < w implies q_wf(#[trigger] smq[i][j]) by {
                    crate::queuing_system::lemma_gen_entry_signs(
                        self.lambda_rate@,
                        self.mu_rate@,
                        self.num_channels as int,
                        self.max_state(),
                        i,
                        j,
                    );
                }
                assert forall|j: int|
                    0 <= j < w implies q_eq(#[trigger] mat_q(mx)[i][j], smq[i][j]) by {
                    assert(mat_q(mx)[i][j] == mx.entry(i, j));
                }
            }
            // the built matrix is the canonical form of the exact one
            assert(mat_q(mx) =~= canonical_matrix_q(*self)) by {
                assert forall|i2: int|
                    0 <= i2 < w implies mat_q(mx)[i2] == canonical_matrix_q(*self)[i2] by {
                    assert(mat_q(mx)[i2] == vq(mx.entries@[i2]@));
                    lemma_pinned_canon_vec(mx.entries@[i2]@, smq[i2]);
                    assert(canonical_matrix_q(*self)[i2] == canon_vec(smq[i2]));
                }
            }
            // the initial weights are nonnegative with a positive entry,
            // so their sum is positive
            assert(q_sum(p0q).n > 0) by {
                assert forall|i: int| 0 <= i < p0q.len() implies (#[trigger] p0q[i]).n >= 0 by {
                    assert(p0q[i] == self.initial_state@[i]@);
                }
                let ghost wit = choose|i: int|
                    0 <= i < self.initial_state@.len() && (#[trigger] self.initial_state@[i])@.n
                        > 0;
                assert(p0q[wit].n > 0);
                lemma_q_sum_nonneg(p0q);
            }
        }
        let p0 = match normalize_vec(&self.initial_state) {
            Ok(x) => x,
            Err(e) => {
                proof {
                    assert(normalize_overflows(vq(self.initial_state@)));
                    assert(integration_overflows(*self));
                }
                return Err(e);
            },
        };
        let t0 = Rational::zero();
        proof {
            lemma_time_zero(h);
            lemma_normalize_congr(p0q, p0q);
        }
        let mut traj: Vec<(Rational, Vec<Rational>)> = Vec::new();
        traj.push((t0, p0));
        let mut tcur = t0;
        let mut k: u32 = 0;
        proof {
            assert(vec_eq(vq(traj@[0].1@), rk4_iterate(smq, p0q, h, w, 0)));
        }
        while k < self.num_iterations
            invariant
                self.valid(),
                mx.wf(),
                mx.dim() == self.num_states(),
                forall|i: int, j: int|
                    0 <= i < mx.dim() && 0 <= j < mx.dim() ==> q_eq(
                        #[trigger] mx.entry(i, j),
                        gen_entry(
                            self.lambda_rate@,
                            self.mu_rate@,
                            self.num_channels as int,
                            self.max_state(),
                            i,
                            j,
                        ),
                    ),
                smq == system_matrix_q(*self),
                mat_q(mx) == canonical_matrix_q(*self),
                w == self.num_states() as nat,
                h == self.step_size@,
                p0q == vq(self.initial_state@),
                n == self.num_states(),
                forall|i: int|
                    0 <= i < w ==> (#[trigger] smq[i]).len() == w && vec_wf(smq[i]) && vec_eq(
                        mat_q(mx)[i],
                        smq[i],
                    ),
                self.initial_state@.len() == self.num_states(),
                p0q.len() == w,
                vec_wf(rk4_iterate(smq, p0q, h, w, k as nat)),
                rk4_iterate(smq, p0q, h, w, k as nat).len() == w,
                k <= self.num_iterations,
                traj@.len() == k + 1,
                tcur.inv(),
                q_eq(tcur@, q_mul(q_int(k as int), h)),
                forall|t: int|
                    0 <= t < traj@.len() ==> {
                        let p = (#[trigger] traj@[t]).1@;
                        &&& p.len() == self.num_states()
                        &&& vec_inv(p)
                        &&& vec_eq(vq(p), rk4_iterate(smq, p0q, h, w, t as nat))
                        &&& q_eq(q_sum(vq(p)), q_one())
                    },
                forall|t: int|
                    0 <= t < traj@.len() ==> (#[trigger] traj@[t]).0.inv() && q_eq(
                        traj@[t].0@,
                        q_mul(q_int(t), h),
                    ),
            decreases self.num_iterations - k,
        {
            let idx = traj.len() - 1;
            let prev = &traj[idx].1;
            proof {
                assert(prev@ == traj@[k as int].1@);
                // the stored vector is the canonical trajectory point
                lemma_pinned_canon_vec(prev@, rk4_iterate(smq, p0q, h, w, k as nat));
                assert(vq(prev@) == canonical_iterate(*self, k as nat));
            }
            let next = match runge_kutta4_step(&mx, prev, &self.step_size) {
                Ok(x) => x,
                Err(e) => {
                    proof {
                        assert(rk4_step_overflows(
                            canonical_matrix_q(*self),
                            canonical_iterate(*self, k as nat),
                            h,
                            w,
                        ));
                        assert(integration_overflows(*self));
                    }
                    return Err(e);
                },
            };
            let tnext = match tcur.add(&self.step_size) {
                Ok(x) => x,
                Err(e) => {
                    proof {
                        lemma_time_step(tcur@, h, k as int);
                        lemma_q_add_wf(tcur@, h);
                        lemma_q_norm_congr(q_add(tcur@, h), q_mul(q_int(k as int + 1), h));
                        assert(!q_fits(q_norm(q_mul(q_int(k as int + 1), h))));
                        // name the trajectory point of this step so the
                        // overflow witness is found
                        let stalled_at = canonical_iterate(*self, k as nat);
                        assert(integration_overflows(*self));
                    }
                    return Err(e);
                },
            };
            proof {
                let ki = k as int;
                let cur_iter = rk4_iterate(smq, p0q, h, w, ki as nat);
                // the step advances the exact iterate
                lemma_mat_rows_wf(mx);
                lemma_vec_inv_wf(prev@);
                lemma_vec_inv_wf(next@);
                lemma_rk4_next_congr(mat_q(mx), vq(prev@), h, smq, cur_iter, h, w);
                // sums: the unnormalized step over the built matrix sums to
                // one, hence so does the one over the exact matrix
                let un = rk4_next(mat_q(mx), vq(prev@), h, w);
                let un2 = rk4_next(smq, cur_iter, h, w);
                lemma_q_sum_congr(un, un2);
                lemma_q_sum_wf(un);
                lemma_q_sum_wf(un2);
                lemma_q_eq_trans(q_sum(un2), q_sum(un), q_one());
                assert(q_sum(un).n == q_sum(un).d) by {
                    assert(q_sum(un).n * 1 == 1 * q_sum(un).d);
                }
                lemma_normalize_congr(un, un2);
                lemma_vec_eq_trans(vq(next@), normalize_vec_q(un), normalize_vec_q(un2));
                assert(normalize_vec_q(un2) == rk4_iterate(smq, p0q, h, w, (ki + 1) as nat));
                // the time stamp advances by one step
                lemma_time_step(tcur@, h, ki);
                lemma_q_add_wf(tcur@, h);
                lemma_q_eq_trans(tnext@, q_add(tcur@, h), q_mul(q_int(ki + 1), h));
            }
            let ghost traj_prev = traj@;
            traj.push((tnext, next));
            proof {
                assert forall|t: int|
                    0 <= t < traj@.len() implies {
                    let p = (#[trigger] traj@[t]).1@;
                    &&& p.len() == self.num_states()
                    &&& vec_inv(p)
                    &&& vec_eq(vq(p), rk4_iterate(smq, p0q, h, w, t as nat))
                    &&& q_eq(q_sum(vq(p)), q_one())
                } by {
                    if t < traj_prev.len() {
                        assert(traj@[t] == traj_prev[t]);
                    }
                }
                assert forall|t: int|
                    0 <= t < traj@.len() implies (#[trigger] traj@[t]).0.inv() && q_eq(
                    traj@[t].0@,
                    q_mul(q_int(t), h),
                ) by {
                    if t < traj_prev.len() {
                        assert(traj@[t] == traj_prev[t]);
                    }
                }
            }
            tcur = tnext;
            k = k + 1;
        }
        Ok(traj)
    }
}

} // verus!
