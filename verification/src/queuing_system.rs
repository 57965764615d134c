//! The validated queuing system and the generator matrix of its
//! birth-death chain.

use vstd::prelude::*;

verus! {

use crate::config::Config;
use crate::errors::Error;
use crate::rational::{
    Q, Rational, q_wf, q_eq, q_zero, q_int, q_add, q_neg, q_mul, q_pos, q_norm, q_fits,
    lemma_q_eq_trans, lemma_q_add_congr, lemma_q_add_comm, lemma_q_add_zero, lemma_q_add_wf,
    lemma_q_mul_wf, lemma_q_neg_congr, lemma_q_nonneg_congr, lemma_q_nonpos_congr,
    lemma_q_norm_congr, lemma_q_norm_neg, lemma_pinned_norm, lemma_norm_of_canonical,
    lemma_int_canonical,
};
use crate::vectors::{
    vq, vec_inv, vec_wf, q_sum, lemma_q_sum_wf, lemma_q_sum_all_zero, lemma_q_sum_update_zero,
};

/// Whether an initial occupancy vector is acceptable: every weight is
/// nonnegative and at least one weight is strictly positive.
pub open spec fn initial_state_ok(s: Seq<Rational>) -> bool {
    &&& forall|i: int| 0 <= i < s.len() ==> (#[trigger] s[i])@.n >= 0
    &&& exists|i: int| 0 <= i < s.len() && (#[trigger] s[i])@.n > 0
}

/// Whether a raw parameter record satisfies every validation rule.
pub open spec fn config_valid(c: Config) -> bool {
    &&& q_pos(c.arrival_rate@)
    &&& q_pos(c.service_rate@)
    &&& c.channel_count >= 1
    &&& q_pos(c.horizon_time@)
    &&& q_pos(c.step_size@)
    &&& initial_state_ok(c.initial_state@)
}

/// A validated M/M/c/K queuing system: requests arrive at rate lambda,
/// are served by `num_channels` parallel channels at rate mu each, and
/// wait in a queue of capacity `queue_size` when all channels are busy.
pub struct QueuingSystem {
    /// Arrival rate (lambda), strictly positive.
    pub lambda_rate: Rational,
    /// Per-channel service rate (mu), strictly positive.
    pub mu_rate: Rational,
    /// Number of service channels (c), at least one.
    pub num_channels: u32,
    /// Queue capacity (K).
    pub queue_size: u32,
    /// Initial occupancy weights by state index.
    pub initial_state: Vec<Rational>,
    /// Simulation horizon (T), strictly positive.
    pub time: Rational,
    /// Number of integration steps (N).
    pub num_iterations: u32,
    /// Integration step size (h), strictly positive.
    pub step_size: Rational,
}

impl QueuingSystem {
    /// The validation invariant established by `new`.
    pub open spec fn valid(self) -> bool {
        &&& self.lambda_rate.inv() && q_pos(self.lambda_rate@)
        &&& self.mu_rate.inv() && q_pos(self.mu_rate@)
        &&& self.num_channels >= 1
        &&& self.time.inv() && q_pos(self.time@)
        &&& self.step_size.inv() && q_pos(self.step_size@)
        &&& vec_inv(self.initial_state@)
        &&& initial_state_ok(self.initial_state@)
        &&& self.num_channels + self.queue_size + 1 <= usize::MAX
    }

    /// The highest state index S = c + K.
    pub open spec fn max_state(self) -> int {
        self.num_channels + self.queue_size
    }

    /// The number of states S + 1.
    pub open spec fn num_states(self) -> int {
        self.max_state() + 1
    }

    /// Validate a raw parameter record and build a system from it.
    ///
    /// Exactly one configuration error is reported for an invalid record,
    /// checked in this order: arrival rate, service rate, channel count,
    /// horizon, step size, initial vector.
    pub fn new(config: Config) -> (r: Result<QueuingSystem, Error>)
        requires
            config.rationals_inv(),
            config.channel_count + config.queue_capacity + 1 <= usize::MAX,
        ensures
            r is Ok <==> config_valid(config),
            match r {
                Ok(qs) => {
                    &&& qs.valid()
                    &&& qs.lambda_rate == config.arrival_rate
                    &&& qs.mu_rate == config.service_rate
                    &&& qs.num_channels == config.channel_count
                    &&& qs.queue_size == config.queue_capacity
                    &&& qs.initial_state@ == config.initial_state@
                    &&& qs.time == config.horizon_time
                    &&& qs.num_iterations == config.iteration_count
                    &&& qs.step_size == config.step_size
                },
                Err(e) => {
                    &&& (e == Error::NonPositiveArrivalRate <==> !q_pos(config.arrival_rate@))
                    &&& (e == Error::NonPositiveServiceRate <==> q_pos(config.arrival_rate@) && !q_pos(config.service_rate@))
                    &&& (e == Error::NonPositiveChannelCount <==> q_pos(config.arrival_rate@)
                        && q_pos(config.service_rate@) && config.channel_count == 0)
                    &&& (e == Error::NonPositiveHorizon <==> q_pos(config.arrival_rate@) && q_pos(
                        config.service_rate@,
                    ) && config.channel_count >= 1 && !q_pos(config.horizon_time@))
                    &&& (e == Error::NonPositiveStepSize <==> q_pos(config.arrival_rate@) && q_pos(
                        config.service_rate@,
                    ) && config.channel_count >= 1 && q_pos(config.horizon_time@) && !q_pos(
                        config.step_size@,
                    ))
                    &&& (e == Error::InvalidInitialState <==> q_pos(config.arrival_rate@) && q_pos(
                        config.service_rate@,
                    ) && config.channel_count >= 1 && q_pos(config.horizon_time@) && q_pos(
                        config.step_size@,
                    ) && !initial_state_ok(config.initial_state@))
                },
            },
    {
        if !config.arrival_rate.is_pos() {
            return Err(Error::NonPositiveArrivalRate);
        }
        if !config.service_rate.is_pos() {
            return Err(Error::NonPositiveServiceRate);
        }
        if config.channel_count == 0 {
            return Err(Error::NonPositiveChannelCount);
        }
        if !config.horizon_time.is_pos() {
            return Err(Error::NonPositiveHorizon);
        }
        if !config.step_size.is_pos() {
            return Err(Error::NonPositiveStepSize);
        }
        let mut has_pos = false;
        let mut j: usize = 0;
        while j < config.initial_state.len()
            invariant
                vec_inv(config.initial_state@),
                q_pos(config.arrival_rate@),
                q_pos(config.service_rate@),
                config.channel_count >= 1,
                q_pos(config.horizon_time@),
                q_pos(config.step_size@),
                j <= config.initial_state@.len(),
                forall|t: int| 0 <= t < j ==> (#[trigger] config.initial_state@[t])@.n >= 0,
                has_pos == exists|t: int|
                    0 <= t < j && (#[trigger] config.initial_state@[t])@.n > 0,
            decreases config.initial_state@.len() - j,
        {
            let e = config.initial_state[j];
            if !e.is_nonneg() {
                return Err(Error::InvalidInitialState);
            }
            if e.is_pos() {
                has_pos = true;
            }
            j = j + 1;
        }
        if !has_pos {
            return Err(Error::InvalidInitialState);
        }
        Ok(
            QueuingSystem {
                lambda_rate: config.arrival_rate,
                mu_rate: config.service_rate,
                num_channels: config.channel_count,
                queue_size: config.queue_capacity,
                initial_state: config.initial_state,
                time: config.horizon_time,
                num_iterations: config.iteration_count,
                step_size: config.step_size,
            },
        )
    }
}

// ---------------------------------------------------------------------------
// The generator matrix of the birth-death chain.
// ---------------------------------------------------------------------------

/// Rate of the birth transition out of state `i` (towards `i + 1`):
/// lambda below the blocking state `s`, zero at it.
pub open spec fn birth_rate(lam: Q, s: int, i: int) -> Q {
    if i < s {
        lam
    } else {
        q_zero()
    }
}

/// Rate of the death transition out of state `i` (towards `i - 1`):
/// `i` busy channels each serve at mu until all `c` channels are busy.
pub open spec fn death_rate(mu: Q, c: int, i: int) -> Q {
    q_mul(
        q_int(
            if i < c {
                i
            } else {
                c
            },
        ),
        mu,
    )
}

/// Entry `(i, j)` of the generator matrix: birth rate on the
/// superdiagonal, death rate on the subdiagonal, negative total outflow
/// on the diagonal, zero elsewhere.
pub open spec fn gen_entry(lam: Q, mu: Q, c: int, s: int, i: int, j: int) -> Q {
    if j == i + 1 {
        birth_rate(lam, s, i)
    } else if j == i - 1 {
        death_rate(mu, c, i)
    } else if j == i {
        q_neg(q_add(birth_rate(lam, s, i), death_rate(mu, c, i)))
    } else {
        q_zero()
    }
}

/// The canonical form of the given generator entry leaves the
/// representable range.
pub open spec fn gen_entry_overflows(lam: Q, mu: Q, c: int, s: int, i: int, j: int) -> bool {
    !q_fits(q_norm(gen_entry(lam, mu, c, s, i, j)))
}

/// Some canonical generator entry leaves the representable range; this is
/// the one way building the matrix can fail.
pub open spec fn gen_matrix_overflows(lam: Q, mu: Q, c: int, s: int) -> bool {
    exists|i: int, j: int|
        0 <= i <= s && 0 <= j <= s && #[trigger] gen_entry_overflows(lam, mu, c, s, i, j)
}

/// Off-diagonal generator entries are nonnegative and diagonal entries
/// nonpositive.
pub proof fn lemma_gen_entry_signs(lam: Q, mu: Q, c: int, s: int, i: int, j: int)
    requires
        q_wf(lam),
        q_pos(lam),
        q_wf(mu),
        q_pos(mu),
        0 <= i,
        0 <= j,
        1 <= c,
    ensures
        q_wf(gen_entry(lam, mu, c, s, i, j)),
        j != i ==> gen_entry(lam, mu, c, s, i, j).n >= 0,
        j == i ==> gen_entry(lam, mu, c, s, i, j).n <= 0,
{
    let b = birth_rate(lam, s, i);
    let d = death_rate(mu, c, i);
    let m: int = if i < c {
        i
    } else {
        c
    };
    assert(q_wf(d) && d.n >= 0) by (nonlinear_arith)
        requires
            d == q_mul(q_int(m), mu),
            m >= 0,
            mu.n > 0,
            mu.d > 0,
    ;
    assert(q_wf(b) && b.n >= 0);
    if j == i {
        lemma_q_add_wf(b, d);
        assert(q_add(b, d).n >= 0) by (nonlinear_arith)
            requires
                b.n >= 0,
                d.n >= 0,
                b.d > 0,
                d.d > 0,
                q_add(b, d).n == b.n * d.d + d.n * b.d,
        ;
    }
}

/// The three nonzero entries of a generator row cancel: the death rate,
/// the diagonal and the birth rate sum to zero.
pub proof fn lemma_birth_death_cancel(b: Q, d: Q)
    requires
        q_wf(b),
        q_wf(d),
    ensures
        q_eq(q_add(q_add(d, q_neg(q_add(b, d))), b), q_zero()),
{
    let x = q_add(q_add(d, q_neg(q_add(b, d))), b);
    assert(x.n == 0) by (nonlinear_arith)
        requires
            x.n == (d.n * (b.d * d.d) + (-(b.n * d.d + d.n * b.d)) * d.d) * b.d + b.n * (d.d * (b.d
                * d.d)),
    ;
    assert(x.n * 1 == 0 * x.d) by (nonlinear_arith)
        requires
            x.n == 0,
    ;
}

/// The generator matrix of the chain: a square matrix of exact rationals
/// whose rows sum to zero, with nonnegative off-diagonal entries and
/// nonpositive diagonal entries.
pub struct GeneratorMatrix {
    /// Rows of transition rates, indexed by source state.
    pub entries: Vec<Vec<Rational>>,
}

impl GeneratorMatrix {
    /// The dimension S + 1.
    pub open spec fn dim(self) -> int {
        self.entries@.len() as int
    }

    /// Row `i` as a sequence of rationals.
    pub open spec fn row(self, i: int) -> Seq<Q> {
        vq(self.entries@[i]@)
    }

    /// The denoted rational at position `(i, j)`.
    pub open spec fn entry(self, i: int, j: int) -> Q {
        self.entries@[i]@[j]@
    }

    /// Structural invariant: square, canonical entries, zero row sums,
    /// nonnegative off-diagonal and nonpositive diagonal entries.
    pub open spec fn wf(self) -> bool {
        &&& self.dim() >= 2
        &&& forall|i: int|
            0 <= i < self.dim() ==> (#[trigger] self.entries@[i])@.len() == self.dim()
        &&& forall|i: int| 0 <= i < self.dim() ==> vec_inv((#[trigger] self.entries@[i])@)
        &&& forall|i: int| 0 <= i < self.dim() ==> q_eq(q_sum(#[trigger] self.row(i)), q_zero())
        &&& forall|i: int, j: int|
            0 <= i < self.dim() && 0 <= j < self.dim() && i != j ==> (#[trigger] self.entry(
                i,
                j,
            )).n >= 0
        &&& forall|i: int| 0 <= i < self.dim() ==> (#[trigger] self.entry(i, i)).n <= 0
    }
}

/// Build row `i` of the generator matrix for the given rates.
fn build_generator_row(lam: &Rational, mu: &Rational, c: u32, i: usize, n: usize) -> (r: Result<
    Vec<Rational>,
    Error,
>)
    requires
        lam.inv(),
        q_pos(lam@),
        mu.inv(),
        q_pos(mu@),
        c >= 1,
        n >= 2,
        i < n,
        c < n,
    ensures
        r is Err <==> exists|j: int|
            0 <= j < n && #[trigger] gen_entry_overflows(lam@, mu@, c as int, n - 1, i as int, j),
        match r {
            Ok(row) => {
                &&& row@.len() == n
                &&& vec_inv(row@)
                &&& forall|j: int|
                    0 <= j < n ==> q_eq(
                        (#[trigger] row@[j])@,
                        gen_entry(lam@, mu@, c as int, n - 1, i as int, j),
                    )
                &&& q_eq(q_sum(vq(row@)), q_zero())
            },
            Err(e) => e == Error::Overflow,
        },
{
    let s = n - 1;
    let ghost si = s as int;
    let ghost ii = i as int;
    let birth = if i < s {
        *lam
    } else {
        Rational::zero()
    };
    proof {
        assert(birth@ == birth_rate(lam@, si, ii));
    }
    let m: i64 = if i < c as usize {
        i as i64
    } else {
        c as i64
    };
    let mrat = Rational::from_int(m);
    let death = match mrat.mul(mu) {
        Ok(x) => x,
        Err(e) => {
            proof {
                let dq = death_rate(mu@, c as int, ii);
                assert(q_mul(q_int(m as int), mu@) == dq);
                if ii >= 1 {
                    assert(gen_entry(lam@, mu@, c as int, si, ii, ii - 1) == dq);
                    assert(gen_entry_overflows(lam@, mu@, c as int, si, ii, ii - 1));
                } else {
                    // the death rate of state zero is zero-valued, whose
                    // canonical form always fits
                    assert(q_eq(dq, q_zero())) by {
                        assert(dq == q_mul(q_int(0), mu@));
                        assert((0 * mu@.n) * 1 == 0) by (nonlinear_arith);
                        assert(0 * (1 * mu@.d) == 0) by (nonlinear_arith);
                    }
                    lemma_q_mul_wf(q_int(0), mu@);
                    lemma_q_norm_congr(dq, q_zero());
                    lemma_int_canonical(0);
                    assert(q_int(0) == q_zero());
                    lemma_norm_of_canonical(q_zero());
                    assert(false);
                }
            }
            return Err(e);
        },
    };
    proof {
        assert(q_eq(death@, death_rate(mu@, c as int, ii)));
        lemma_q_mul_wf(q_int(m as int), mu@);
    }
    let diag_sum = match birth.add(&death) {
        Ok(x) => x,
        Err(e) => {
            proof {
                let b = birth_rate(lam@, si, ii);
                let d = death_rate(mu@, c as int, ii);
                lemma_q_add_wf(birth@, death@);
                lemma_q_add_wf(b, d);
                lemma_q_add_congr(birth@, death@, b, d);
                lemma_q_norm_congr(q_add(birth@, death@), q_add(b, d));
                lemma_q_norm_neg(q_add(b, d));
                assert(gen_entry(lam@, mu@, c as int, si, ii, ii) == q_neg(q_add(b, d)));
                assert(gen_entry_overflows(lam@, mu@, c as int, si, ii, ii));
            }
            return Err(e);
        },
    };
    let diag = diag_sum.neg();
    let ghost gdiag = q_neg(q_add(birth_rate(lam@, si, ii), death_rate(mu@, c as int, ii)));
    proof {
        lemma_q_add_wf(birth@, death@);
        lemma_q_mul_wf(
            q_int(
                if ii < c as int {
                    ii
                } else {
                    c as int
                },
            ),
            mu@,
        );
        lemma_q_add_wf(birth_rate(lam@, si, ii), death_rate(mu@, c as int, ii));
        lemma_q_add_congr(birth@, death@, birth_rate(lam@, si, ii), death_rate(mu@, c as int, ii));
        lemma_q_eq_trans(
            diag_sum@,
            q_add(birth@, death@),
            q_add(birth_rate(lam@, si, ii), death_rate(mu@, c as int, ii)),
        );
        lemma_q_neg_congr(diag_sum@, q_add(birth_rate(lam@, si, ii), death_rate(mu@, c as int, ii)));
        assert(q_eq(diag@, gdiag));
    }
    // start from an all-zero row
    let mut row: Vec<Rational> = Vec::new();
    let mut j: usize = 0;
    while j < n
        invariant
            j <= n,
            row@.len() == j,
            forall|t: int| 0 <= t < j ==> (#[trigger] row@[t])@ == q_zero(),
            forall|t: int| 0 <= t < j ==> (#[trigger] row@[t]).inv(),
        decreases n - j,
    {
        row.push(Rational::zero());
        j = j + 1;
    }
    proof {
        assert(vec_wf(vq(row@)));
        assert(forall|t: int| 0 <= t < n ==> q_eq(#[trigger] vq(row@)[t], q_zero()));
        lemma_q_sum_all_zero(vq(row@));
    }
    let ghost b = birth_rate(lam@, si, ii);
    let ghost d = death_rate(mu@, c as int, ii);
    // the running value that the row sum stays equal to
    let ghost mut total: Q = q_zero();
    // subdiagonal: death rate
    if i >= 1 {
        let ghost before = vq(row@);
        row[i - 1] = death;
        proof {
            assert(vq(row@) =~= before.update(ii - 1, death@));
            lemma_q_sum_update_zero(before, ii - 1, death@, q_zero());
            total = q_add(q_zero(), death@);
        }
    }
    proof {
        assert(vec_inv(row@)) by {
            assert forall|t: int| 0 <= t < n implies (#[trigger] row@[t]).inv() by {}
        }
        assert(vec_wf(vq(row@)));
        lemma_q_sum_wf(vq(row@));
        lemma_q_add_wf(q_zero(), death@);
        assert(q_eq(q_sum(vq(row@)), total));
        assert(q_wf(total));
    }
    // diagonal: negative total outflow
    let ghost t1 = total;
    {
        let ghost before = vq(row@);
        row[i] = diag;
        proof {
            assert(before[ii] == q_zero());
            assert(vq(row@) =~= before.update(ii, diag@));
            lemma_q_sum_update_zero(before, ii, diag@, t1);
            total = q_add(t1, diag@);
        }
    }
    proof {
        assert(vec_inv(row@)) by {
            assert forall|t: int| 0 <= t < n implies (#[trigger] row@[t]).inv() by {}
        }
        assert(vec_wf(vq(row@)));
        lemma_q_add_wf(t1, diag@);
        assert(q_eq(q_sum(vq(row@)), total));
        assert(q_wf(total));
    }
    // superdiagonal: birth rate
    let ghost t2 = total;
    if i < s {
        let ghost before = vq(row@);
        row[i + 1] = birth;
        proof {
            assert(before[ii + 1] == q_zero());
            assert(vq(row@) =~= before.update(ii + 1, birth@));
            lemma_q_sum_update_zero(before, ii + 1, birth@, t2);
            total = q_add(t2, birth@);
        }
    } else {
        proof {
            // no superdiagonal entry at the blocking state, and the birth
            // rate there is zero, so account for it in the running value
            assert(b == q_zero());
            assert(birth@ == q_zero());
            lemma_q_add_zero(t2, birth@);
            total = q_add(t2, birth@);
        }
    }
    proof {
        assert(vec_inv(row@)) by {
            assert forall|t: int| 0 <= t < n implies (#[trigger] row@[t]).inv() by {}
        }
        assert(vec_wf(vq(row@)));
        lemma_q_add_wf(t2, birth@);
        if i >= s {
            lemma_q_sum_wf(vq(row@));
            lemma_q_eq_trans(q_sum(vq(row@)), t2, total);
        }
        assert(q_eq(q_sum(vq(row@)), total));
        assert(q_wf(total));
    }
    // the full row sums to zero
    proof {
        lemma_q_sum_wf(vq(row@));
        lemma_q_mul_wf(
            q_int(
                if ii < c as int {
                    ii
                } else {
                    c as int
                },
            ),
            mu@,
        );
        lemma_q_add_wf(b, d);
        lemma_birth_death_cancel(b, d);
        lemma_q_add_wf(d, gdiag);
        lemma_q_add_wf(q_add(d, gdiag), b);
        // d + gdiag is the negated birth rate up to q_eq; we show that the
        // running value equals (d + gdiag) + b, which cancels to zero
        if i >= 1 {
            // total == ((0 + death) + diag) + birth
            lemma_q_add_wf(q_zero(), death@);
            lemma_q_add_comm(q_zero(), death@);
            lemma_q_add_zero(death@, q_zero());
            lemma_q_eq_trans(q_add(q_zero(), death@), death@, d);
            lemma_q_add_wf(q_add(q_zero(), death@), diag@);
            lemma_q_add_congr(q_add(q_zero(), death@), diag@, d, gdiag);
            lemma_q_add_wf(q_add(q_add(q_zero(), death@), diag@), birth@);
            lemma_q_add_congr(q_add(q_add(q_zero(), death@), diag@), birth@, q_add(d, gdiag), b);
            lemma_q_eq_trans(total, q_add(q_add(d, gdiag), b), q_zero());
            lemma_q_eq_trans(q_sum(vq(row@)), total, q_zero());
        } else {
            // total == (0 + diag) + birth, and d is zero-valued in state 0
            assert(q_eq(d, q_zero())) by {
                assert(d == q_mul(q_int(0), mu@));
                assert((0 * mu@.n) * 1 == 0) by (nonlinear_arith);
                assert(0 * (1 * mu@.d) == 0) by (nonlinear_arith);
            }
            lemma_q_add_wf(q_zero(), diag@);
            lemma_q_add_comm(q_zero(), diag@);
            lemma_q_add_zero(diag@, q_zero());
            // (0 + diag) == diag == gdiag == gdiag + d == d + gdiag
            lemma_q_eq_trans(q_add(q_zero(), diag@), diag@, gdiag);
            lemma_q_add_comm(d, gdiag);
            lemma_q_add_zero(gdiag, d);
            lemma_q_eq_trans(q_add(q_zero(), diag@), gdiag, q_add(gdiag, d));
            assert(q_add(gdiag, d) == q_add(d, gdiag));
            lemma_q_add_wf(q_add(q_zero(), diag@), birth@);
            lemma_q_add_congr(q_add(q_zero(), diag@), birth@, q_add(d, gdiag), b);
            lemma_q_eq_trans(total, q_add(q_add(d, gdiag), b), q_zero());
            lemma_q_eq_trans(q_sum(vq(row@)), total, q_zero());
        }
    }
    // every entry matches the closed-form description
    proof {
        assert forall|j2: int| 0 <= j2 < n implies q_eq(
            (#[trigger] row@[j2])@,
            gen_entry(lam@, mu@, c as int, si, ii, j2),
        ) by {
            let g = gen_entry(lam@, mu@, c as int, si, ii, j2);
            if j2 == ii + 1 && i < s {
                assert(row@[j2]@ == birth@);
            } else if j2 == ii - 1 {
                assert(row@[j2]@ == death@);
            } else if j2 == ii {
                assert(row@[j2]@ == diag@);
            } else {
                assert(row@[j2]@ == q_zero());
                if j2 == ii + 1 {
                    // i == s here, so the birth rate is zero
                    assert(g == q_zero());
                }
            }
        }
        // every canonical entry fits, so no overflow was possible
        assert forall|j2: int| 0 <= j2 < n implies !gen_entry_overflows(
            lam@,
            mu@,
            c as int,
            si,
            ii,
            j2,
        ) by {
            lemma_gen_entry_signs(lam@, mu@, c as int, si, ii, j2);
            assert((row@[j2]).inv());
            assert(q_eq(row@[j2]@, gen_entry(lam@, mu@, c as int, si, ii, j2)));
            lemma_pinned_norm(row@[j2]@, gen_entry(lam@, mu@, c as int, si, ii, j2));
        }
    }
    Ok(row)
}

impl QueuingSystem {
    /// Build the generator matrix of the Kolmogorov (master) equations:
    /// row `i` holds the outflow rates of state `i`, so every row sums to
    /// exactly zero.
    pub fn generate_kolmogorov_matrix(&self) -> (r: Result<GeneratorMatrix, Error>)
        requires
            self.valid(),
        ensures
            r is Err <==> gen_matrix_overflows(
                self.lambda_rate@,
                self.mu_rate@,
                self.num_channels as int,
                self.max_state(),
            ),
            match r {
                Ok(mx) => {
                    &&& mx.wf()
                    &&& mx.dim() == self.num_states()
                    &&& forall|i: int, j: int|
                        0 <= i < mx.dim() && 0 <= j < mx.dim() ==> q_eq(
                            #[trigger] mx.entry(i, j),
                            gen_entry(
                                self.lambda_rate@,
                                self.mu_rate@,
                                self.num_channels as int,
                                self.max_state(),
                                i,
                                j,
                            ),
                        )
                },
                Err(e) => e == Error::Overflow,
            },
    {
        let n = self.num_channels as usize + self.queue_size as usize + 1;
        let mut rows: Vec<Vec<Rational>> = Vec::new();
        let mut i: usize = 0;
        while i < n
            invariant
                self.valid(),
                n == self.num_states(),
                n >= 2,
                self.num_channels < n,
                i <= n,
                rows@.len() == i,
                forall|t: int| 0 <= t < i ==> (#[trigger] rows@[t])@.len() == n,
                forall|t: int| 0 <= t < i ==> vec_inv((#[trigger] rows@[t])@),
                forall|t: int| 0 <= t < i ==> q_eq(q_sum(vq((#[trigger] rows@[t])@)), q_zero()),
                forall|t: int, j: int|
                    0 <= t < i && 0 <= j < n ==> q_eq(
                        (#[trigger] rows@[t]@[j])@,
                        gen_entry(
                            self.lambda_rate@,
                            self.mu_rate@,
                            self.num_channels as int,
                            n - 1,
                            t,
                            j,
                        ),
                    ),
                forall|t: int, j: int|
                    0 <= t < i && 0 <= j < n ==> !(#[trigger] gen_entry_overflows(
                        self.lambda_rate@,
                        self.mu_rate@,
                        self.num_channels as int,
                        n - 1,
                        t,
                        j,
                    )),
            decreases n - i,
        {
            let row = match build_generator_row(
                &self.lambda_rate,
                &self.mu_rate,
                self.num_channels,
                i,
                n,
            ) {
                Ok(x) => x,
                Err(e) => {
                    proof {
                        let jw = choose|j: int|
                            0 <= j < n && #[trigger] gen_entry_overflows(
                                self.lambda_rate@,
                                self.mu_rate@,
                                self.num_channels as int,
                                n - 1,
                                i as int,
                                j,
                            );
                        assert(0 <= i as int <= self.max_state() && 0 <= jw <= self.max_state());
                        assert(gen_matrix_overflows(
                            self.lambda_rate@,
                            self.mu_rate@,
                            self.num_channels as int,
                            self.max_state(),
                        ));
                    }
                    return Err(e);
                },
            };
            proof {
                assert forall|j: int| 0 <= j < n implies !(#[trigger] gen_entry_overflows(
                    self.lambda_rate@,
                    self.mu_rate@,
                    self.num_channels as int,
                    n - 1,
                    i as int,
                    j,
                )) by {}
            }
            rows.push(row);
            i = i + 1;
        }
        proof {
            // no canonical entry anywhere left the representable range
            if gen_matrix_overflows(
                self.lambda_rate@,
                self.mu_rate@,
                self.num_channels as int,
                self.max_state(),
            ) {
                let (iw, jw) = choose|iw: int, jw: int|
                    0 <= iw <= self.max_state() && 0 <= jw <= self.max_state()
                        && #[trigger] gen_entry_overflows(
                        self.lambda_rate@,
                        self.mu_rate@,
                        self.num_channels as int,
                        self.max_state(),
                        iw,
                        jw,
                    );
                assert(n - 1 == self.max_state());
                assert(!gen_entry_overflows(
                    self.lambda_rate@,
                    self.mu_rate@,
                    self.num_channels as int,
                    n - 1,
                    iw,
                    jw,
                ));
                assert(false);
            }
        }
        let mx = GeneratorMatrix { entries: rows };
        proof {
            assert forall|i2: int, j2: int|
                0 <= i2 < mx.dim() && 0 <= j2 < mx.dim() && i2 != j2 implies (#[trigger] mx.entry(
                i2,
                j2,
            )).n >= 0 by {
                lemma_gen_entry_signs(
                    self.lambda_rate@,
                    self.mu_rate@,
                    self.num_channels as int,
                    self.max_state(),
                    i2,
                    j2,
                );
                lemma_q_nonneg_congr(
                    gen_entry(
                        self.lambda_rate@,
                        self.mu_rate@,
                        self.num_channels as int,
                        self.max_state(),
                        i2,
                        j2,
                    ),
                    mx.entry(i2, j2),
                );
            }
            assert forall|i2: int| 0 <= i2 < mx.dim() implies (#[trigger] mx.entry(
                i2,
                i2,
            )).n <= 0 by {
                lemma_gen_entry_signs(
                    self.lambda_rate@,
                    self.mu_rate@,
                    self.num_channels as int,
                    self.max_state(),
                    i2,
                    i2,
                );
                lemma_q_nonpos_congr(
                    gen_entry(
                        self.lambda_rate@,
                        self.mu_rate@,
                        self.num_channels as int,
                        self.max_state(),
                        i2,
                        i2,
                    ),
                    mx.entry(i2, i2),
                );
            }
        }
        Ok(mx)
    }
}

} // verus!
