//! Steady-state analysis: the closed-form birth-death performance
//! characteristics, their defining formulas, and the laws that relate
//! them.

use vstd::prelude::*;

verus! {

use crate::errors::Error;
use crate::queuing_system::QueuingSystem;
use crate::rational::{
    Q, Rational, q_wf, q_eq, q_zero, q_one, q_int, q_add, q_sub, q_neg, q_mul, q_div, q_inv,
    q_pos, q_fits, lemma_q_eq_trans, lemma_q_add_congr, lemma_q_mul_congr, lemma_q_add_wf,
    q_norm, RAT_BOUND, lemma_q_mul_wf, lemma_q_mul_pos, lemma_q_pos_congr,
    lemma_q_mul_assoc, lemma_norm, lemma_canonical_unique, lemma_int_canonical,
    lemma_q_norm_congr, lemma_norm_of_canonical,
};

/// The load factor rho = lambda / mu.
pub open spec fn rho_spec(lam: Q, mu: Q) -> Q {
    q_div(lam, mu)
}

/// The factorial of a natural number.
pub open spec fn fact(n: nat) -> nat
    decreases n,
{
    if n == 0 {
        1
    } else {
        n * fact((n - 1) as nat)
    }
}

/// The `e`-th power of a rational.
pub open spec fn q_pow(b: Q, e: nat) -> Q
    decreases e,
{
    if e == 0 {
        q_one()
    } else {
        q_mul(q_pow(b, (e - 1) as nat), b)
    }
}

/// The partial Erlang sum over the channel states:
/// the sum of `rho^i / i!` for `i` below `m`.
pub open spec fn erlang_sum(rho: Q, m: nat) -> Q
    decreases m,
{
    if m == 0 {
        q_zero()
    } else {
        q_add(
            erlang_sum(rho, (m - 1) as nat),
            q_div(q_pow(rho, (m - 1) as nat), q_int(fact((m - 1) as nat) as int)),
        )
    }
}

/// The sum of `x^i` for `i` from `lo` to `lo + cnt - 1`.
pub open spec fn pow_sum(x: Q, lo: nat, cnt: nat) -> Q
    decreases cnt,
{
    if cnt == 0 {
        q_zero()
    } else {
        q_add(pow_sum(x, lo, (cnt - 1) as nat), q_pow(x, (lo + cnt - 1) as nat))
    }
}

/// The channel factor `c^c / c!`.
pub open spec fn chan_factor(c: nat) -> Q {
    q_div(q_pow(q_int(c as int), c), q_int(fact(c) as int))
}

/// The denominator of the idle probability:
/// `sum_{i<c} rho^i/i!  +  (c^c/c!) * sum_{i=c}^{c+K} (rho/c)^i`.
pub open spec fn idle_denom_spec(lam: Q, mu: Q, c: nat, k: nat) -> Q {
    let rho = rho_spec(lam, mu);
    let roc = q_div(rho, q_int(c as int));
    q_add(erlang_sum(rho, c), q_mul(chan_factor(c), pow_sum(roc, c, k + 1)))
}

/// The idle probability P0.
pub open spec fn idle_prob_spec(lam: Q, mu: Q, c: nat, k: nat) -> Q {
    q_div(q_one(), idle_denom_spec(lam, mu, c, k))
}

/// The steady-state probability of state `i`: the Erlang form
/// `P0 * rho^i / i!` through the channel states, and
/// `P0 * (c^c/c!) * (rho/c)^i` through the queue states.
pub open spec fn state_prob_spec(lam: Q, mu: Q, c: nat, k: nat, i: nat) -> Q {
    let rho = rho_spec(lam, mu);
    let p0 = idle_prob_spec(lam, mu, c, k);
    if i <= c {
        q_div(q_mul(p0, q_pow(rho, i)), q_int(fact(i) as int))
    } else {
        q_mul(q_mul(p0, chan_factor(c)), q_pow(q_div(rho, q_int(c as int)), i))
    }
}

/// The rejection (blocking) probability:
/// `P0 * (c^c/c!) * (rho/c)^(K+c)`.
pub open spec fn rejection_prob_spec(lam: Q, mu: Q, c: nat, k: nat) -> Q {
    let rho = rho_spec(lam, mu);
    q_mul(
        q_mul(idle_prob_spec(lam, mu, c, k), chan_factor(c)),
        q_pow(q_div(rho, q_int(c as int)), (k + c) as nat),
    )
}

/// The mean number of busy channels: every state probability weighted by
/// `min(i, c)`, summed over the states below `m`.
pub open spec fn busy_sum_spec(lam: Q, mu: Q, c: nat, k: nat, m: nat) -> Q
    decreases m,
{
    if m == 0 {
        q_zero()
    } else {
        let i = (m - 1) as nat;
        let weight: nat = if i <= c {
            i
        } else {
            c
        };
        q_add(
            busy_sum_spec(lam, mu, c, k, i),
            q_mul(q_int(weight as int), state_prob_spec(lam, mu, c, k, i)),
        )
    }
}

/// The mean queue length Lq: `rho^(c+1) / ((c-1)! * (c-rho)^2) * P0`.
pub open spec fn queue_len_spec(lam: Q, mu: Q, c: nat, k: nat) -> Q {
    let rho = rho_spec(lam, mu);
    let cmr = q_sub(q_int(c as int), rho);
    q_mul(
        q_div(q_pow(rho, (c + 1) as nat), q_mul(q_int(fact((c - 1) as nat) as int), q_mul(cmr, cmr))),
        idle_prob_spec(lam, mu, c, k),
    )
}

/// The mean number of requests in the system: L = Lq + rho.
pub open spec fn total_requests_spec(lam: Q, mu: Q, c: nat, k: nat) -> Q {
    q_add(queue_len_spec(lam, mu, c, k), rho_spec(lam, mu))
}

/// The mean waiting time in the queue: Wq = Lq / lambda.
pub open spec fn queue_wait_spec(lam: Q, mu: Q, c: nat, k: nat) -> Q {
    q_div(queue_len_spec(lam, mu, c, k), lam)
}

/// The mean time in the system: W = L / lambda.
pub open spec fn system_wait_spec(lam: Q, mu: Q, c: nat, k: nat) -> Q {
    q_div(total_requests_spec(lam, mu, c, k), lam)
}

// ---------------------------------------------------------------------------
// Positivity of the closed-form pieces.
// ---------------------------------------------------------------------------

/// Factorials are at least one.
pub proof fn lemma_fact_pos(n: nat)
    ensures
        fact(n) >= 1,
    decreases n,
{
    if n > 0 {
        lemma_fact_pos((n - 1) as nat);
        assert(n * fact((n - 1) as nat) >= 1) by (nonlinear_arith)
            requires
                n >= 1,
                fact((n - 1) as nat) >= 1,
        ;
    }
}

/// Powers of positive rationals are positive.
pub proof fn lemma_q_pow_pos(b: Q, e: nat)
    requires
        q_wf(b),
        q_pos(b),
    ensures
        q_wf(q_pow(b, e)),
        q_pos(q_pow(b, e)),
    decreases e,
{
    if e > 0 {
        lemma_q_pow_pos(b, (e - 1) as nat);
        lemma_q_mul_pos(q_pow(b, (e - 1) as nat), b);
    }
}

/// Quotients of positive rationals are positive.
pub proof fn lemma_q_div_pos(a: Q, b: Q)
    requires
        q_wf(a),
        q_wf(b),
        q_pos(a),
        q_pos(b),
    ensures
        q_wf(q_div(a, b)),
        q_pos(q_div(a, b)),
{
    lemma_q_mul_pos(a, q_inv(b));
}

/// A nonnegative value plus a positive value is positive.
pub proof fn lemma_q_add_nonneg_pos(a: Q, b: Q)
    requires
        q_wf(a),
        q_wf(b),
        a.n >= 0,
        q_pos(b),
    ensures
        q_wf(q_add(a, b)),
        q_pos(q_add(a, b)),
{
    assert(a.n * b.d + b.n * a.d > 0 && a.d * b.d > 0) by (nonlinear_arith)
        requires
            a.n >= 0,
            b.n > 0,
            a.d > 0,
            b.d > 0,
    ;
}

/// The partial Erlang sum is nonnegative, and positive once it has at
/// least one term.
pub proof fn lemma_erlang_sum_pos(rho: Q, m: nat)
    requires
        q_wf(rho),
        q_pos(rho),
    ensures
        q_wf(erlang_sum(rho, m)),
        erlang_sum(rho, m).n >= 0,
        m >= 1 ==> q_pos(erlang_sum(rho, m)),
    decreases m,
{
    if m > 0 {
        let i = (m - 1) as nat;
        lemma_erlang_sum_pos(rho, i);
        lemma_q_pow_pos(rho, i);
        lemma_fact_pos(i);
        lemma_q_div_pos(q_pow(rho, i), q_int(fact(i) as int));
        lemma_q_add_nonneg_pos(erlang_sum(rho, i), q_div(q_pow(rho, i), q_int(fact(i) as int)));
    }
}

/// The geometric-style power sum is nonnegative, and positive once it has
/// at least one term.
pub proof fn lemma_pow_sum_pos(x: Q, lo: nat, cnt: nat)
    requires
        q_wf(x),
        q_pos(x),
    ensures
        q_wf(pow_sum(x, lo, cnt)),
        pow_sum(x, lo, cnt).n >= 0,
        cnt >= 1 ==> q_pos(pow_sum(x, lo, cnt)),
    decreases cnt,
{
    if cnt > 0 {
        lemma_pow_sum_pos(x, lo, (cnt - 1) as nat);
        lemma_q_pow_pos(x, (lo + cnt - 1) as nat);
        lemma_q_add_nonneg_pos(pow_sum(x, lo, (cnt - 1) as nat), q_pow(x, (lo + cnt - 1) as nat));
    }
}

/// The channel factor is positive.
pub proof fn lemma_chan_factor_pos(c: nat)
    requires
        c >= 1,
    ensures
        q_wf(chan_factor(c)),
        q_pos(chan_factor(c)),
{
    lemma_q_pow_pos(q_int(c as int), c);
    lemma_fact_pos(c);
    lemma_q_div_pos(q_pow(q_int(c as int), c), q_int(fact(c) as int));
}

/// The idle-probability denominator is positive for valid parameters.
pub proof fn lemma_idle_denom_pos(lam: Q, mu: Q, c: nat, k: nat)
    requires
        q_wf(lam),
        q_wf(mu),
        q_pos(lam),
        q_pos(mu),
        c >= 1,
    ensures
        q_wf(idle_denom_spec(lam, mu, c, k)),
        q_pos(idle_denom_spec(lam, mu, c, k)),
        q_wf(rho_spec(lam, mu)),
        q_pos(rho_spec(lam, mu)),
{
    let rho = rho_spec(lam, mu);
    lemma_q_div_pos(lam, mu);
    let roc = q_div(rho, q_int(c as int));
    lemma_q_div_pos(rho, q_int(c as int));
    lemma_erlang_sum_pos(rho, c);
    lemma_pow_sum_pos(roc, c, k + 1);
    lemma_chan_factor_pos(c);
    lemma_q_mul_pos(chan_factor(c), pow_sum(roc, c, k + 1));
    lemma_q_add_nonneg_pos(erlang_sum(rho, c), q_mul(chan_factor(c), pow_sum(roc, c, k + 1)));
}

// ---------------------------------------------------------------------------
// When the fixed-width computations can fail: each predicate names the
// exact canonical intermediates of one computation, and holds exactly
// when one of them leaves the representable range.  A result is owed
// whenever the predicate is false.
// ---------------------------------------------------------------------------

/// Some canonical power of the base, up to the exponent, leaves the
/// representable range.
pub open spec fn pow_overflows(b: Q, e: nat) -> bool {
    exists|t: nat| 1 <= t <= e && !q_fits(q_norm(#[trigger] q_pow(b, t)))
}

/// Some canonical intermediate of the partial Erlang sum leaves the
/// representable range: a power of the load factor, a factorial, a term,
/// or a partial sum.
pub open spec fn erlang_overflows(rho: Q, m: nat) -> bool {
    exists|i: nat|
        i < m && (#[trigger] pow_overflows(rho, i) || fact(i) >= RAT_BOUND || !q_fits(
            q_norm(q_div(q_pow(rho, i), q_int(fact(i) as int))),
        ) || !q_fits(q_norm(erlang_sum(rho, i + 1))))
}

/// Some canonical intermediate of the power sum leaves the representable
/// range: a power of the base or a partial sum.
pub open spec fn pow_sum_overflows(x: Q, lo: nat, cnt: nat) -> bool {
    exists|i: nat|
        i < cnt && (#[trigger] pow_overflows(x, lo + i) || !q_fits(
            q_norm(pow_sum(x, lo, i + 1)),
        ))
}

/// Some canonical intermediate of the channel factor `c^c / c!` leaves
/// the representable range.
pub open spec fn chan_factor_overflows(c: nat) -> bool {
    ||| pow_overflows(q_int(c as int), c)
    ||| fact(c) >= RAT_BOUND
    ||| !q_fits(q_norm(chan_factor(c)))
}

/// Some canonical intermediate of the idle probability P0 leaves the
/// representable range.  The powers and sums are raised on the canonical
/// load factor, exactly as the computation holds it.
pub open spec fn idle_prob_overflows(lam: Q, mu: Q, c: nat, k: nat) -> bool {
    let rho = rho_spec(lam, mu);
    let roc = q_div(rho, q_int(c as int));
    ||| !q_fits(q_norm(rho))
    ||| !q_fits(q_norm(roc))
    ||| erlang_overflows(q_norm(rho), c)
    ||| chan_factor_overflows(c)
    ||| pow_sum_overflows(q_norm(roc), c, k + 1)
    ||| !q_fits(q_norm(q_mul(chan_factor(c), pow_sum(q_norm(roc), c, k + 1))))
    ||| !q_fits(
        q_norm(
            q_add(
                erlang_sum(q_norm(rho), c),
                q_mul(chan_factor(c), pow_sum(q_norm(roc), c, k + 1)),
            ),
        ),
    )
    ||| !q_fits(q_norm(idle_prob_spec(lam, mu, c, k)))
}

/// Some canonical intermediate of the steady-state probability of state
/// `i` leaves the representable range.
pub open spec fn state_prob_overflows(lam: Q, mu: Q, c: nat, k: nat, i: nat) -> bool {
    let rho = rho_spec(lam, mu);
    let p0 = idle_prob_spec(lam, mu, c, k);
    ||| !q_fits(q_norm(rho))
    ||| (if i <= c {
        ||| pow_overflows(q_norm(rho), i)
        ||| fact(i) >= RAT_BOUND
        ||| !q_fits(q_norm(q_mul(p0, q_pow(rho, i))))
        ||| !q_fits(q_norm(state_prob_spec(lam, mu, c, k, i)))
    } else {
        ||| chan_factor_overflows(c)
        ||| !q_fits(q_norm(q_div(rho, q_int(c as int))))
        ||| pow_overflows(q_norm(q_div(rho, q_int(c as int))), i)
        ||| !q_fits(q_norm(q_mul(p0, chan_factor(c))))
        ||| !q_fits(q_norm(state_prob_spec(lam, mu, c, k, i)))
    })
}

/// Some canonical intermediate of the rejection probability leaves the
/// representable range.
pub open spec fn rejection_overflows(lam: Q, mu: Q, c: nat, k: nat) -> bool {
    let rho = rho_spec(lam, mu);
    let roc = q_div(rho, q_int(c as int));
    ||| idle_prob_overflows(lam, mu, c, k)
    ||| chan_factor_overflows(c)
    ||| !q_fits(q_norm(rho))
    ||| !q_fits(q_norm(roc))
    ||| pow_overflows(q_norm(roc), k + c)
    ||| !q_fits(q_norm(q_mul(idle_prob_spec(lam, mu, c, k), chan_factor(c))))
    ||| !q_fits(q_norm(rejection_prob_spec(lam, mu, c, k)))
}

/// Some canonical intermediate of the busy-channel term for state `i`
/// leaves the representable range: the state probability, the weighted
/// term, or the running sum.
pub open spec fn busy_term_overflows(lam: Q, mu: Q, c: nat, k: nat, i: nat) -> bool {
    ||| state_prob_overflows(lam, mu, c, k, i)
    ||| !q_fits(
        q_norm(
            q_mul(
                q_int(
                    (if i <= c {
                        i
                    } else {
                        c
                    }) as int,
                ),
                state_prob_spec(lam, mu, c, k, i),
            ),
        ),
    )
    ||| !q_fits(q_norm(busy_sum_spec(lam, mu, c, k, i + 1)))
}

/// Some canonical intermediate of the busy-channel mean leaves the
/// representable range.
pub open spec fn busy_overflows(lam: Q, mu: Q, c: nat, k: nat) -> bool {
    ||| idle_prob_overflows(lam, mu, c, k)
    ||| exists|i: nat| i < c + k + 1 && #[trigger] busy_term_overflows(lam, mu, c, k, i)
}

/// Some canonical intermediate of the mean queue length Lq leaves the
/// representable range.
pub open spec fn queue_len_overflows(lam: Q, mu: Q, c: nat, k: nat) -> bool {
    let rho = rho_spec(lam, mu);
    let cmr = q_sub(q_int(c as int), rho);
    ||| !q_fits(q_norm(rho))
    ||| idle_prob_overflows(lam, mu, c, k)
    ||| fact((c - 1) as nat) >= RAT_BOUND
    ||| !q_fits(q_norm(cmr))
    ||| !q_fits(q_norm(q_mul(cmr, cmr)))
    ||| !q_fits(q_norm(q_mul(q_int(fact((c - 1) as nat) as int), q_mul(cmr, cmr))))
    ||| pow_overflows(q_norm(rho), c + 1)
    ||| !q_fits(
        q_norm(
            q_div(
                q_pow(rho, (c + 1) as nat),
                q_mul(q_int(fact((c - 1) as nat) as int), q_mul(cmr, cmr)),
            ),
        ),
    )
    ||| !q_fits(q_norm(queue_len_spec(lam, mu, c, k)))
}

/// Some canonical intermediate of the per-channel probability table
/// leaves the representable range.
pub open spec fn state_probs_overflow(lam: Q, mu: Q, c: nat, k: nat) -> bool {
    ||| idle_prob_overflows(lam, mu, c, k)
    ||| exists|i: nat| i <= c && #[trigger] state_prob_overflows(lam, mu, c, k, i)
}

/// Some canonical intermediate of the queue-state probability table
/// leaves the representable range.
pub open spec fn queue_probs_overflow(lam: Q, mu: Q, c: nat, k: nat) -> bool {
    ||| idle_prob_overflows(lam, mu, c, k)
    ||| exists|i: nat| c < i <= c + k && #[trigger] state_prob_overflows(lam, mu, c, k, i)
}

/// Some canonical intermediate of the queue-wait mean Wq leaves the
/// representable range.
pub open spec fn queue_wait_overflows(lam: Q, mu: Q, c: nat, k: nat) -> bool {
    ||| queue_len_overflows(lam, mu, c, k)
    ||| !q_fits(q_norm(queue_wait_spec(lam, mu, c, k)))
}

/// Some canonical intermediate of the total-requests mean L leaves the
/// representable range.
pub open spec fn total_requests_overflows(lam: Q, mu: Q, c: nat, k: nat) -> bool {
    ||| queue_len_overflows(lam, mu, c, k)
    ||| !q_fits(q_norm(rho_spec(lam, mu)))
    ||| !q_fits(q_norm(total_requests_spec(lam, mu, c, k)))
}

/// Some canonical intermediate of the system-wait mean W leaves the
/// representable range.
pub open spec fn system_wait_overflows(lam: Q, mu: Q, c: nat, k: nat) -> bool {
    ||| total_requests_overflows(lam, mu, c, k)
    ||| !q_fits(q_norm(system_wait_spec(lam, mu, c, k)))
}

// ---------------------------------------------------------------------------
// Executable powers, factorials and partial sums.
// ---------------------------------------------------------------------------

/// The exact `e`-th power of a rational.
fn rat_pow(b: &Rational, e: u64) -> (r: Result<Rational, Error>)
    requires
        b.inv(),
    ensures
        r is Err <==> pow_overflows(b@, e as nat),
        match r {
            Ok(p) => p.inv() && q_eq(p@, q_pow(b@, e as nat)),
            Err(er) => er == Error::Overflow,
        },
{
    let mut cur = Rational::one();
    let mut i: u64 = 0;
    while i < e
        invariant
            b.inv(),
            i <= e,
            cur.inv(),
            q_eq(cur@, q_pow(b@, i as nat)),
            forall|t: nat| 1 <= t <= i ==> q_fits(q_norm(#[trigger] q_pow(b@, t))),
        decreases e - i,
    {
        let nxt = match cur.mul(b) {
            Ok(x) => x,
            Err(er) => {
                proof {
                    lemma_q_pow_wf(b@, i as nat);
                    lemma_q_mul_wf(cur@, b@);
                    lemma_q_mul_wf(q_pow(b@, i as nat), b@);
                    lemma_q_mul_congr(cur@, b@, q_pow(b@, i as nat), b@);
                    lemma_q_norm_congr(q_mul(cur@, b@), q_mul(q_pow(b@, i as nat), b@));
                    assert(q_mul(q_pow(b@, i as nat), b@) == q_pow(b@, i as nat + 1));
                    assert(!q_fits(q_norm(q_pow(b@, (i as nat + 1) as nat))));
                }
                return Err(er);
            },
        };
        proof {
            lemma_q_pow_congr_step(b@, i as nat, cur@, nxt@);
            // the new canonical power fits
            lemma_q_pow_wf(b@, i as nat);
            lemma_q_mul_wf(cur@, b@);
            lemma_q_mul_wf(q_pow(b@, i as nat), b@);
            lemma_q_mul_congr(cur@, b@, q_pow(b@, i as nat), b@);
            lemma_q_norm_congr(q_mul(cur@, b@), q_mul(q_pow(b@, i as nat), b@));
            assert(q_mul(q_pow(b@, i as nat), b@) == q_pow(b@, i as nat + 1));
            assert(q_fits(q_norm(q_pow(b@, (i as nat + 1) as nat))));
            assert forall|t: nat| 1 <= t <= i + 1 implies q_fits(
                q_norm(#[trigger] q_pow(b@, t)),
            ) by {}
        }
        cur = nxt;
        i = i + 1;
    }
    proof {
        if pow_overflows(b@, e as nat) {
            let t = choose|t: nat| 1 <= t <= e && !q_fits(q_norm(#[trigger] q_pow(b@, t)));
            assert(false);
        }
    }
    Ok(cur)
}

/// One step of the power recursion, transported along `q_eq`.
proof fn lemma_q_pow_congr_step(b: Q, i: nat, cur: Q, nxt: Q)
    requires
        q_wf(b),
        q_wf(cur),
        q_wf(nxt),
        q_eq(cur, q_pow(b, i)),
        q_eq(nxt, q_mul(cur, b)),
    ensures
        q_eq(nxt, q_pow(b, i + 1)),
{
    lemma_q_pow_wf(b, i);
    lemma_q_mul_wf(cur, b);
    lemma_q_mul_wf(q_pow(b, i), b);
    lemma_q_mul_congr(cur, b, q_pow(b, i), b);
    lemma_q_eq_trans(nxt, q_mul(cur, b), q_mul(q_pow(b, i), b));
}

/// Powers of well-formed values are well-formed.
pub proof fn lemma_q_pow_wf(b: Q, e: nat)
    requires
        q_wf(b),
    ensures
        q_wf(q_pow(b, e)),
    decreases e,
{
    if e > 0 {
        lemma_q_pow_wf(b, (e - 1) as nat);
        lemma_q_mul_wf(q_pow(b, (e - 1) as nat), b);
    }
}

/// The exact factorial of `n` as a rational; it fails exactly when the
/// factorial leaves the representable range.
fn rat_factorial(n: u32) -> (r: Result<Rational, Error>)
    ensures
        r is Err <==> fact(n as nat) >= RAT_BOUND,
        match r {
            Ok(f) => f.inv() && q_eq(f@, q_int(fact(n as nat) as int)),
            Err(er) => er == Error::Overflow,
        },
{
    let mut cur = Rational::one();
    let mut i: u32 = 0;
    while i < n
        invariant
            i <= n,
            cur.inv(),
            q_eq(cur@, q_int(fact(i as nat) as int)),
            fact(i as nat) < RAT_BOUND,
        decreases n - i,
    {
        let next_i = i + 1;
        let step = Rational::from_int(next_i as i64);
        let nxt = match cur.mul(&step) {
            Ok(x) => x,
            Err(er) => {
                proof {
                    let fi = fact(i as nat) as int;
                    lemma_q_mul_congr(cur@, step@, q_int(fi), q_int(next_i as int));
                    assert(q_mul(q_int(fi), q_int(next_i as int)) == q_int(fi * (next_i as int)))
                        by (nonlinear_arith);
                    assert(fact((i + 1) as nat) == (i + 1) as nat * fact(i as nat));
                    assert(fi * (next_i as int) == fact((i + 1) as nat) as int)
                        by (nonlinear_arith)
                        requires
                            fact((i + 1) as nat) == (i + 1) as nat * fact(i as nat),
                            fi == fact(i as nat) as int,
                            next_i as int == i + 1,
                    ;
                    lemma_q_mul_wf(q_int(fi), q_int(next_i as int));
                    lemma_q_mul_wf(cur@, step@);
                    lemma_q_norm_congr(q_mul(cur@, step@), q_int(fact((i + 1) as nat) as int));
                    lemma_int_canonical(fact((i + 1) as nat) as int);
                    lemma_norm_of_canonical(q_int(fact((i + 1) as nat) as int));
                    assert(!q_fits(q_int(fact((i + 1) as nat) as int)));
                    assert(fact((i + 1) as nat) >= RAT_BOUND);
                    lemma_fact_mono((i + 1) as nat, n as nat);
                }
                return Err(er);
            },
        };
        proof {
            let fi = fact(i as nat) as int;
            lemma_q_mul_congr(cur@, step@, q_int(fi), q_int(next_i as int));
            assert(q_mul(q_int(fi), q_int(next_i as int)) == q_int(fi * (next_i as int)))
                by (nonlinear_arith);
            assert(fact((i + 1) as nat) == (i + 1) as nat * fact(i as nat));
            assert(fi * (next_i as int) == fact((i + 1) as nat) as int) by (nonlinear_arith)
                requires
                    fact((i + 1) as nat) == (i + 1) as nat * fact(i as nat),
                    fi == fact(i as nat) as int,
                    next_i as int == i + 1,
            ;
            lemma_q_mul_wf(q_int(fi), q_int(next_i as int));
            lemma_q_mul_wf(cur@, step@);
            lemma_q_eq_trans(nxt@, q_mul(cur@, step@), q_mul(q_int(fi), q_int(next_i as int)));
            // the new canonical factorial fits, so it stays below the bound
            lemma_q_norm_congr(q_mul(cur@, step@), q_int(fact((i + 1) as nat) as int));
            lemma_int_canonical(fact((i + 1) as nat) as int);
            lemma_norm_of_canonical(q_int(fact((i + 1) as nat) as int));
            assert(fact((i + 1) as nat) < RAT_BOUND);
        }
        cur = nxt;
        i = next_i;
    }
    Ok(cur)
}

/// The exact partial Erlang sum with `m` terms.
fn erlang_sum_exec(rho: &Rational, m: u32) -> (r: Result<Rational, Error>)
    requires
        rho.inv(),
        q_pos(rho@),
    ensures
        r is Err ==> erlang_overflows(rho@, m as nat),
        match r {
            Ok(s) => s.inv() && q_eq(s@, erlang_sum(rho@, m as nat)),
            Err(er) => er == Error::Overflow,
        },
{
    let mut acc = Rational::zero();
    let mut i: u32 = 0;
    while i < m
        invariant
            rho.inv(),
            q_pos(rho@),
            i <= m,
            acc.inv(),
            q_eq(acc@, erlang_sum(rho@, i as nat)),
        decreases m - i,
    {
        let p = match rat_pow(rho, i as u64) {
            Ok(x) => x,
            Err(er) => {
                proof {
                    assert(pow_overflows(rho@, i as nat));
                    assert(erlang_overflows(rho@, m as nat));
                }
                return Err(er);
            },
        };
        let f = match rat_factorial(i) {
            Ok(x) => x,
            Err(er) => {
                proof {
                    assert(fact(i as nat) >= RAT_BOUND);
                    assert(erlang_overflows(rho@, m as nat));
                }
                return Err(er);
            },
        };
        proof {
            lemma_fact_pos(i as nat);
            lemma_q_pos_congr(q_int(fact(i as nat) as int), f@);
        }
        let term = match p.div(&f) {
            Ok(x) => x,
            Err(er) => {
                proof {
                    lemma_q_pow_wf(rho@, i as nat);
                    lemma_q_div_congr(p@, f@, q_pow(rho@, i as nat), q_int(fact(i as nat) as int));
                    lemma_q_norm_congr(
                        q_div(p@, f@),
                        q_div(q_pow(rho@, i as nat), q_int(fact(i as nat) as int)),
                    );
                    assert(!q_fits(
                        q_norm(q_div(q_pow(rho@, i as nat), q_int(fact(i as nat) as int))),
                    ));
                    assert(erlang_overflows(rho@, m as nat));
                }
                return Err(er);
            },
        };
        let nxt = match acc.add(&term) {
            Ok(x) => x,
            Err(er) => {
                proof {
                    let ii = i as nat;
                    let gterm = q_div(q_pow(rho@, ii), q_int(fact(ii) as int));
                    lemma_q_pow_wf(rho@, ii);
                    lemma_q_div_congr(p@, f@, q_pow(rho@, ii), q_int(fact(ii) as int));
                    lemma_q_eq_trans(term@, q_div(p@, f@), gterm);
                    lemma_erlang_sum_pos(rho@, ii);
                    lemma_q_add_wf(acc@, term@);
                    lemma_q_add_wf(erlang_sum(rho@, ii), gterm);
                    lemma_q_add_congr(acc@, term@, erlang_sum(rho@, ii), gterm);
                    lemma_q_norm_congr(q_add(acc@, term@), q_add(erlang_sum(rho@, ii), gterm));
                    assert(q_add(erlang_sum(rho@, ii), gterm) == erlang_sum(rho@, ii + 1));
                    assert(!q_fits(q_norm(erlang_sum(rho@, ii + 1))));
                    assert(erlang_overflows(rho@, m as nat));
                }
                return Err(er);
            },
        };
        proof {
            let ii = i as nat;
            let gterm = q_div(q_pow(rho@, ii), q_int(fact(ii) as int));
            lemma_q_pow_wf(rho@, ii);
            lemma_q_pow_pos(rho@, ii);
            lemma_fact_pos(ii);
            lemma_q_div_pos(q_pow(rho@, ii), q_int(fact(ii) as int));
            // term == p / f == pow / fact up to q_eq
            lemma_q_div_congr(p@, f@, q_pow(rho@, ii), q_int(fact(ii) as int));
            lemma_q_eq_trans(term@, q_div(p@, f@), gterm);
            lemma_erlang_sum_pos(rho@, ii);
            lemma_q_add_wf(acc@, term@);
            lemma_q_add_wf(erlang_sum(rho@, ii), gterm);
            lemma_q_add_congr(acc@, term@, erlang_sum(rho@, ii), gterm);
            lemma_q_eq_trans(nxt@, q_add(acc@, term@), q_add(erlang_sum(rho@, ii), gterm));
        }
        acc = nxt;
        i = i + 1;
    }
    Ok(acc)
}

/// The exact sum of `x^i` for `i` from `lo` to `lo + cnt - 1`.
fn pow_sum_exec(x: &Rational, lo: u64, cnt: u64) -> (r: Result<Rational, Error>)
    requires
        x.inv(),
        q_pos(x@),
        lo + cnt <= u64::MAX,
    ensures
        r is Err ==> pow_sum_overflows(x@, lo as nat, cnt as nat),
        match r {
            Ok(s) => s.inv() && q_eq(s@, pow_sum(x@, lo as nat, cnt as nat)),
            Err(er) => er == Error::Overflow,
        },
{
    let mut acc = Rational::zero();
    let mut i: u64 = 0;
    while i < cnt
        invariant
            x.inv(),
            q_pos(x@),
            lo + cnt <= u64::MAX,
            i <= cnt,
            acc.inv(),
            q_eq(acc@, pow_sum(x@, lo as nat, i as nat)),
        decreases cnt - i,
    {
        let p = match rat_pow(x, lo + i) {
            Ok(v) => v,
            Err(er) => {
                proof {
                    assert((lo + i) as nat == lo as nat + i as nat);
                    assert(pow_overflows(x@, lo as nat + i as nat));
                    assert(pow_sum_overflows(x@, lo as nat, cnt as nat));
                }
                return Err(er);
            },
        };
        let nxt = match acc.add(&p) {
            Ok(v) => v,
            Err(er) => {
                proof {
                    let ii = i as nat;
                    let gterm = q_pow(x@, (lo as nat + ii) as nat);
                    assert((lo + i) as nat == lo as nat + ii);
                    lemma_q_pow_wf(x@, (lo as nat + ii) as nat);
                    lemma_pow_sum_pos(x@, lo as nat, ii);
                    lemma_q_add_wf(acc@, p@);
                    lemma_q_add_wf(pow_sum(x@, lo as nat, ii), gterm);
                    lemma_q_add_congr(acc@, p@, pow_sum(x@, lo as nat, ii), gterm);
                    lemma_q_norm_congr(q_add(acc@, p@), q_add(pow_sum(x@, lo as nat, ii), gterm));
                    assert(q_add(pow_sum(x@, lo as nat, ii), gterm) == pow_sum(
                        x@,
                        lo as nat,
                        ii + 1,
                    ));
                    assert(!q_fits(q_norm(pow_sum(x@, lo as nat, ii + 1))));
                    assert(pow_sum_overflows(x@, lo as nat, cnt as nat));
                }
                return Err(er);
            },
        };
        proof {
            let ii = i as nat;
            let gterm = q_pow(x@, (lo as nat + ii) as nat);
            assert((lo + i) as nat == lo as nat + ii);
            lemma_q_pow_wf(x@, (lo as nat + ii) as nat);
            lemma_pow_sum_pos(x@, lo as nat, ii);
            lemma_q_add_wf(acc@, p@);
            lemma_q_add_wf(pow_sum(x@, lo as nat, ii), gterm);
            lemma_q_add_congr(acc@, p@, pow_sum(x@, lo as nat, ii), gterm);
            lemma_q_eq_trans(nxt@, q_add(acc@, p@), q_add(pow_sum(x@, lo as nat, ii), gterm));
            assert(q_add(pow_sum(x@, lo as nat, ii), gterm) == pow_sum(x@, lo as nat, ii + 1));
        }
        acc = nxt;
        i = i + 1;
    }
    Ok(acc)
}

/// Powers respect `q_eq`.
pub proof fn lemma_q_pow_congr(b: Q, b2: Q, e: nat)
    requires
        q_wf(b),
        q_wf(b2),
        q_eq(b, b2),
    ensures
        q_wf(q_pow(b, e)),
        q_wf(q_pow(b2, e)),
        q_eq(q_pow(b, e), q_pow(b2, e)),
    decreases e,
{
    if e > 0 {
        lemma_q_pow_congr(b, b2, (e - 1) as nat);
        lemma_q_mul_congr(q_pow(b, (e - 1) as nat), b, q_pow(b2, (e - 1) as nat), b2);
        lemma_q_mul_wf(q_pow(b2, (e - 1) as nat), b2);
    }
}

/// The partial Erlang sum respects `q_eq` of the load factor.
pub proof fn lemma_erlang_sum_congr(rho: Q, rho2: Q, m: nat)
    requires
        q_wf(rho),
        q_wf(rho2),
        q_eq(rho, rho2),
    ensures
        q_wf(erlang_sum(rho, m)),
        q_wf(erlang_sum(rho2, m)),
        q_eq(erlang_sum(rho, m), erlang_sum(rho2, m)),
    decreases m,
{
    if m > 0 {
        let i = (m - 1) as nat;
        lemma_erlang_sum_congr(rho, rho2, i);
        lemma_q_pow_congr(rho, rho2, i);
        lemma_fact_pos(i);
        lemma_q_div_congr(q_pow(rho, i), q_int(fact(i) as int), q_pow(rho2, i), q_int(
            fact(i) as int,
        ));
        lemma_q_add_congr(
            erlang_sum(rho, i),
            q_div(q_pow(rho, i), q_int(fact(i) as int)),
            erlang_sum(rho2, i),
            q_div(q_pow(rho2, i), q_int(fact(i) as int)),
        );
        lemma_q_add_wf(erlang_sum(rho2, i), q_div(q_pow(rho2, i), q_int(fact(i) as int)));
    }
}

/// The power sum respects `q_eq` of the base.
pub proof fn lemma_pow_sum_congr(x: Q, x2: Q, lo: nat, cnt: nat)
    requires
        q_wf(x),
        q_wf(x2),
        q_eq(x, x2),
    ensures
        q_wf(pow_sum(x, lo, cnt)),
        q_wf(pow_sum(x2, lo, cnt)),
        q_eq(pow_sum(x, lo, cnt), pow_sum(x2, lo, cnt)),
    decreases cnt,
{
    if cnt > 0 {
        let i = (cnt - 1) as nat;
        lemma_pow_sum_congr(x, x2, lo, i);
        lemma_q_pow_congr(x, x2, (lo + i) as nat);
        lemma_q_add_congr(
            pow_sum(x, lo, i),
            q_pow(x, (lo + i) as nat),
            pow_sum(x2, lo, i),
            q_pow(x2, (lo + i) as nat),
        );
        lemma_q_add_wf(pow_sum(x2, lo, i), q_pow(x2, (lo + i) as nat));
    }
}

/// A difference denotes zero exactly when the operands denote the same
/// rational.
pub proof fn lemma_q_sub_zero_iff(a: Q, b: Q)
    requires
        q_wf(a),
        q_wf(b),
    ensures
        q_wf(q_sub(a, b)),
        (q_sub(a, b).n == 0 <==> q_eq(a, b)),
{
    lemma_q_add_wf(a, q_neg(b));
    assert(q_sub(a, b).n == a.n * b.d + (-b.n) * a.d);
    assert(a.n * b.d + (-b.n) * a.d == a.n * b.d - b.n * a.d) by (nonlinear_arith);
}

/// Quotients respect `q_eq` when the divisor is positive.
pub proof fn lemma_q_div_congr(a: Q, b: Q, a2: Q, b2: Q)
    requires
        q_wf(a),
        q_wf(b),
        q_wf(a2),
        q_wf(b2),
        q_eq(a, a2),
        q_eq(b, b2),
        b.n != 0,
    ensures
        b2.n != 0,
        q_wf(q_div(a, b)),
        q_wf(q_div(a2, b2)),
        q_eq(q_div(a, b), q_div(a2, b2)),
{
    crate::rational::lemma_q_inv_congr(b, b2);
    lemma_q_mul_congr(a, q_inv(b), a2, q_inv(b2));
    lemma_q_mul_wf(a2, q_inv(b2));
}

// ---------------------------------------------------------------------------
// The steady-state analyzer.
// ---------------------------------------------------------------------------

/// Closed-form birth-death performance characteristics of a queuing
/// system, computed purely from the validated parameters.
///
/// Every method returns the exact rational value of its formula; the
/// formulas with the `(c - rho)^2` denominator report `UndefinedResult`
/// exactly when the load factor equals the channel count.
pub trait QueuingSystemCharacteristics: Sized {
    /// The arrival rate as a mathematical rational.
    spec fn lam_q(&self) -> Q;

    /// The service rate as a mathematical rational.
    spec fn mu_q(&self) -> Q;

    /// The channel count.
    spec fn channels_n(&self) -> nat;

    /// The queue capacity.
    spec fn capacity_n(&self) -> nat;

    /// The simulation horizon as a mathematical rational.
    spec fn horizon_q(&self) -> Q;

    /// The validity invariant the methods rely on.
    spec fn chars_inv(&self) -> bool;

    /// The load factor rho = lambda / mu.
    fn calculate_load_factor(&self) -> (r: Result<Rational, Error>)
        requires
            self.chars_inv(),
        ensures
            r is Err <==> !crate::rational::q_fits(q_norm(rho_spec(self.lam_q(), self.mu_q()))),
            match r {
                Ok(q) => q.inv() && q_eq(q@, rho_spec(self.lam_q(), self.mu_q())),
                Err(e) => e == Error::Overflow,
            },
    ;

    /// The idle probability P0.
    fn calculate_probability_of_downtime(&self) -> (r: Result<Rational, Error>)
        requires
            self.chars_inv(),
        ensures
            r is Err ==> idle_prob_overflows(
                self.lam_q(),
                self.mu_q(),
                self.channels_n(),
                self.capacity_n(),
            ),
            match r {
                Ok(q) => q.inv() && q_eq(
                    q@,
                    idle_prob_spec(self.lam_q(), self.mu_q(), self.channels_n(), self.capacity_n()),
                ),
                Err(e) => e == Error::Overflow,
            },
    ;

    /// The factorial of `n`.
    fn factorial(n: u64) -> (r: u64)
        requires
            n <= 20,
        ensures
            r == fact(n as nat),
    ;

    /// The steady-state probabilities of the channel states `0 ..= c`.
    fn calculate_probabilities(&self) -> (r: Result<Vec<Rational>, Error>)
        requires
            self.chars_inv(),
        ensures
            r is Err ==> state_probs_overflow(
                self.lam_q(),
                self.mu_q(),
                self.channels_n(),
                self.capacity_n(),
            ),
            match r {
                Ok(v) => {
                    &&& v@.len() == self.channels_n() + 1
                    &&& forall|i: int|
                        0 <= i < v@.len() ==> (#[trigger] v@[i]).inv() && q_eq(
                            v@[i]@,
                            state_prob_spec(
                                self.lam_q(),
                                self.mu_q(),
                                self.channels_n(),
                                self.capacity_n(),
                                i as nat,
                            ),
                        )
                },
                Err(e) => e == Error::Overflow,
            },
    ;

    /// The steady-state probabilities of the queue states `c+1 ..= c+K`.
    fn calculate_queue_probabilities(&self) -> (r: Result<Vec<Rational>, Error>)
        requires
            self.chars_inv(),
        ensures
            r is Err ==> queue_probs_overflow(
                self.lam_q(),
                self.mu_q(),
                self.channels_n(),
                self.capacity_n(),
            ),
            match r {
                Ok(v) => {
                    &&& v@.len() == self.capacity_n()
                    &&& forall|i: int|
                        0 <= i < v@.len() ==> (#[trigger] v@[i]).inv() && q_eq(
                            v@[i]@,
                            state_prob_spec(
                                self.lam_q(),
                                self.mu_q(),
                                self.channels_n(),
                                self.capacity_n(),
                                (self.channels_n() + 1 + i) as nat,
                            ),
                        )
                },
                Err(e) => e == Error::Overflow,
            },
    ;

    /// The rejection (blocking) probability.
    fn calculate_rejection_probability(&self) -> (r: Result<Rational, Error>)
        requires
            self.chars_inv(),
        ensures
            r is Err ==> rejection_overflows(
                self.lam_q(),
                self.mu_q(),
                self.channels_n(),
                self.capacity_n(),
            ),
            match r {
                Ok(q) => q.inv() && q_eq(
                    q@,
                    rejection_prob_spec(
                        self.lam_q(),
                        self.mu_q(),
                        self.channels_n(),
                        self.capacity_n(),
                    ),
                ),
                Err(e) => e == Error::Overflow,
            },
    ;

    /// The mean number of arrivals over the horizon: lambda * T.
    fn calculate_average_incoming_requests_during_t(&self) -> (r: Result<Rational, Error>)
        requires
            self.chars_inv(),
        ensures
            r is Err <==> !crate::rational::q_fits(
                q_norm(q_mul(self.lam_q(), self.horizon_q())),
            ),
            match r {
                Ok(q) => q.inv() && q_eq(q@, q_mul(self.lam_q(), self.horizon_q())),
                Err(e) => e == Error::Overflow,
            },
    ;

    /// The mean service time of one request: 1 / mu.
    fn calculate_average_service_time_per_request(&self) -> (r: Result<Rational, Error>)
        requires
            self.chars_inv(),
        ensures
            r is Err <==> !crate::rational::q_fits(q_norm(q_div(q_one(), self.mu_q()))),
            match r {
                Ok(q) => q.inv() && q_eq(q@, q_div(q_one(), self.mu_q())),
                Err(e) => e == Error::Overflow,
            },
    ;

    /// The mean per-channel service time over the horizon: rho * T.
    fn average_service_time_per_channel_for_t(&self) -> (r: Result<Rational, Error>)
        requires
            self.chars_inv(),
        ensures
            r is Err ==> !q_fits(q_norm(rho_spec(self.lam_q(), self.mu_q()))) || !q_fits(
                q_norm(q_mul(rho_spec(self.lam_q(), self.mu_q()), self.horizon_q())),
            ),
            match r {
                Ok(q) => q.inv() && q_eq(
                    q@,
                    q_mul(rho_spec(self.lam_q(), self.mu_q()), self.horizon_q()),
                ),
                Err(e) => e == Error::Overflow,
            },
    ;

    /// The mean number of busy channels: every steady-state probability
    /// weighted by `min(i, c)`.
    fn calculate_average_busy_channels(&self) -> (r: Result<Rational, Error>)
        requires
            self.chars_inv(),
        ensures
            r is Err ==> busy_overflows(
                self.lam_q(),
                self.mu_q(),
                self.channels_n(),
                self.capacity_n(),
            ),
            match r {
                Ok(q) => q.inv() && q_eq(
                    q@,
                    busy_sum_spec(
                        self.lam_q(),
                        self.mu_q(),
                        self.channels_n(),
                        self.capacity_n(),
                        self.channels_n() + self.capacity_n() + 1,
                    ),
                ),
                Err(e) => e == Error::Overflow,
            },
    ;

    /// The mean queue length Lq.
    fn calculate_average_number_of_requests_in_queue(&self) -> (r: Result<Rational, Error>)
        requires
            self.chars_inv(),
        ensures
            (r matches Err(e) && e == Error::Overflow) ==> queue_len_overflows(
                self.lam_q(),
                self.mu_q(),
                self.channels_n(),
                self.capacity_n(),
            ),
            (r matches Err(e) && e == Error::UndefinedResult) <==> q_eq(
                rho_spec(self.lam_q(), self.mu_q()),
                q_int(self.channels_n() as int),
            ),
            match r {
                Ok(q) => q.inv() && q_eq(
                    q@,
                    queue_len_spec(self.lam_q(), self.mu_q(), self.channels_n(), self.capacity_n()),
                ),
                Err(e) => e == Error::UndefinedResult || e == Error::Overflow,
            },
    ;

    /// The mean waiting time in the queue: Wq = Lq / lambda.
    fn calculate_average_waiting_time_in_queue(&self) -> (r: Result<Rational, Error>)
        requires
            self.chars_inv(),
        ensures
            (r matches Err(e) && e == Error::Overflow) ==> queue_wait_overflows(
                self.lam_q(),
                self.mu_q(),
                self.channels_n(),
                self.capacity_n(),
            ),
            (r matches Err(e) && e == Error::UndefinedResult) <==> q_eq(
                rho_spec(self.lam_q(), self.mu_q()),
                q_int(self.channels_n() as int),
            ),
            match r {
                Ok(q) => q.inv() && q_eq(
                    q@,
                    queue_wait_spec(self.lam_q(), self.mu_q(), self.channels_n(), self.capacity_n()),
                ),
                Err(e) => e == Error::UndefinedResult || e == Error::Overflow,
            },
    ;

    /// The mean number of requests in the system: L = Lq + rho.
    fn calculate_total_number_of_requests(&self) -> (r: Result<Rational, Error>)
        requires
            self.chars_inv(),
        ensures
            (r matches Err(e) && e == Error::Overflow) ==> total_requests_overflows(
                self.lam_q(),
                self.mu_q(),
                self.channels_n(),
                self.capacity_n(),
            ),
            (r matches Err(e) && e == Error::UndefinedResult) <==> q_eq(
                rho_spec(self.lam_q(), self.mu_q()),
                q_int(self.channels_n() as int),
            ),
            match r {
                Ok(q) => q.inv() && q_eq(
                    q@,
                    total_requests_spec(
                        self.lam_q(),
                        self.mu_q(),
                        self.channels_n(),
                        self.capacity_n(),
                    ),
                ),
                Err(e) => e == Error::UndefinedResult || e == Error::Overflow,
            },
    ;

    /// The mean waiting time in the system: W = L / lambda, the textbook
    /// relation, distinct from Wq = Lq / lambda.
    fn calculate_average_waiting_time(&self) -> (r: Result<Rational, Error>)
        requires
            self.chars_inv(),
        ensures
            (r matches Err(e) && e == Error::Overflow) ==> system_wait_overflows(
                self.lam_q(),
                self.mu_q(),
                self.channels_n(),
                self.capacity_n(),
            ),
            (r matches Err(e) && e == Error::UndefinedResult) <==> q_eq(
                rho_spec(self.lam_q(), self.mu_q()),
                q_int(self.channels_n() as int),
            ),
            match r {
                Ok(q) => q.inv() && q_eq(
                    q@,
                    system_wait_spec(
                        self.lam_q(),
                        self.mu_q(),
                        self.channels_n(),
                        self.capacity_n(),
                    ),
                ),
                Err(e) => e == Error::UndefinedResult || e == Error::Overflow,
            },
    ;

    /// The mean time a request spends in the system: W = L / lambda.
    fn calculate_average_time_in_system(&self) -> (r: Result<Rational, Error>)
        requires
            self.chars_inv(),
        ensures
            (r matches Err(e) && e == Error::Overflow) ==> system_wait_overflows(
                self.lam_q(),
                self.mu_q(),
                self.channels_n(),
                self.capacity_n(),
            ),
            (r matches Err(e) && e == Error::UndefinedResult) <==> q_eq(
                rho_spec(self.lam_q(), self.mu_q()),
                q_int(self.channels_n() as int),
            ),
            match r {
                Ok(q) => q.inv() && q_eq(
                    q@,
                    system_wait_spec(
                        self.lam_q(),
                        self.mu_q(),
                        self.channels_n(),
                        self.capacity_n(),
                    ),
                ),
                Err(e) => e == Error::UndefinedResult || e == Error::Overflow,
            },
    ;
}

// ---------------------------------------------------------------------------
// Helper lemmas and executable pieces shared by the analyzer methods.
// ---------------------------------------------------------------------------

/// The idle probability is positive for valid parameters.
pub proof fn lemma_idle_prob_pos(lam: Q, mu: Q, c: nat, k: nat)
    requires
        q_wf(lam),
        q_wf(mu),
        q_pos(lam),
        q_pos(mu),
        c >= 1,
    ensures
        q_wf(idle_prob_spec(lam, mu, c, k)),
        q_pos(idle_prob_spec(lam, mu, c, k)),
{
    lemma_idle_denom_pos(lam, mu, c, k);
    lemma_q_div_pos(q_one(), idle_denom_spec(lam, mu, c, k));
}

/// Every steady-state probability is positive for valid parameters.
pub proof fn lemma_state_prob_pos(lam: Q, mu: Q, c: nat, k: nat, i: nat)
    requires
        q_wf(lam),
        q_wf(mu),
        q_pos(lam),
        q_pos(mu),
        c >= 1,
    ensures
        q_wf(state_prob_spec(lam, mu, c, k, i)),
        q_pos(state_prob_spec(lam, mu, c, k, i)),
{
    let rho = rho_spec(lam, mu);
    lemma_q_div_pos(lam, mu);
    lemma_idle_prob_pos(lam, mu, c, k);
    let p0 = idle_prob_spec(lam, mu, c, k);
    if i <= c {
        lemma_q_pow_pos(rho, i);
        lemma_q_mul_pos(p0, q_pow(rho, i));
        lemma_fact_pos(i);
        lemma_q_div_pos(q_mul(p0, q_pow(rho, i)), q_int(fact(i) as int));
    } else {
        lemma_chan_factor_pos(c);
        lemma_q_mul_pos(p0, chan_factor(c));
        lemma_q_div_pos(rho, q_int(c as int));
        lemma_q_pow_pos(q_div(rho, q_int(c as int)), i);
        lemma_q_mul_pos(q_mul(p0, chan_factor(c)), q_pow(q_div(rho, q_int(c as int)), i));
    }
}

/// The weighted busy-channel sum is well-formed.
pub proof fn lemma_busy_sum_wf(lam: Q, mu: Q, c: nat, k: nat, m: nat)
    requires
        q_wf(lam),
        q_wf(mu),
        q_pos(lam),
        q_pos(mu),
        c >= 1,
    ensures
        q_wf(busy_sum_spec(lam, mu, c, k, m)),
    decreases m,
{
    if m > 0 {
        let i = (m - 1) as nat;
        lemma_busy_sum_wf(lam, mu, c, k, i);
        lemma_state_prob_pos(lam, mu, c, k, i);
        let weight: nat = if i <= c {
            i
        } else {
            c
        };
        lemma_q_mul_wf(q_int(weight as int), state_prob_spec(lam, mu, c, k, i));
        lemma_q_add_wf(
            busy_sum_spec(lam, mu, c, k, i),
            q_mul(q_int(weight as int), state_prob_spec(lam, mu, c, k, i)),
        );
    }
}

/// Factorials are monotone.
pub proof fn lemma_fact_mono(i: nat, j: nat)
    requires
        i <= j,
    ensures
        fact(i) <= fact(j),
    decreases j,
{
    if i < j {
        lemma_fact_mono(i, (j - 1) as nat);
        lemma_fact_pos((j - 1) as nat);
        assert(j * fact((j - 1) as nat) >= fact((j - 1) as nat)) by (nonlinear_arith)
            requires
                j >= 1,
                fact((j - 1) as nat) >= 1,
        ;
    }
}

/// The exact channel factor `c^c / c!`; it fails exactly when a
/// canonical intermediate leaves the representable range.
fn chan_factor_exec(c: u32) -> (r: Result<Rational, Error>)
    requires
        c >= 1,
    ensures
        r is Err <==> chan_factor_overflows(c as nat),
        match r {
            Ok(f) => f.inv() && q_eq(f@, chan_factor(c as nat)),
            Err(er) => er == Error::Overflow,
        },
{
    let crat = Rational::from_u32(c);
    let cc = match rat_pow(&crat, c as u64) {
        Ok(x) => x,
        Err(er) => {
            proof {
                assert(pow_overflows(q_int(c as int), c as nat));
            }
            return Err(er);
        },
    };
    let cf = match rat_factorial(c) {
        Ok(x) => x,
        Err(er) => {
            return Err(er);
        },
    };
    proof {
        lemma_fact_pos(c as nat);
        lemma_q_pos_congr(q_int(fact(c as nat) as int), cf@);
        lemma_q_pow_wf(q_int(c as int), c as nat);
    }
    let f = match cc.div(&cf) {
        Ok(x) => x,
        Err(er) => {
            proof {
                lemma_q_div_congr(
                    cc@,
                    cf@,
                    q_pow(q_int(c as int), c as nat),
                    q_int(fact(c as nat) as int),
                );
                lemma_q_norm_congr(q_div(cc@, cf@), chan_factor(c as nat));
                assert(!q_fits(q_norm(chan_factor(c as nat))));
            }
            return Err(er);
        },
    };
    proof {
        lemma_q_div_congr(cc@, cf@, q_pow(q_int(c as int), c as nat), q_int(fact(c as nat) as int));
        lemma_q_eq_trans(f@, q_div(cc@, cf@), chan_factor(c as nat));
        // no intermediate left the range
        lemma_q_norm_congr(q_div(cc@, cf@), chan_factor(c as nat));
        assert(!chan_factor_overflows(c as nat));
    }
    Ok(f)
}

/// The exact steady-state probability of state `i`, given the exact idle
/// probability.
fn state_prob_exec(lam: &Rational, mu: &Rational, c: u32, k: u32, p0: &Rational, i: u64) -> (r:
    Result<Rational, Error>)
    requires
        lam.inv(),
        q_pos(lam@),
        mu.inv(),
        q_pos(mu@),
        c >= 1,
        p0.inv(),
        q_eq(p0@, idle_prob_spec(lam@, mu@, c as nat, k as nat)),
    ensures
        r is Err ==> state_prob_overflows(lam@, mu@, c as nat, k as nat, i as nat),
        match r {
            Ok(p) => p.inv() && q_eq(p@, state_prob_spec(lam@, mu@, c as nat, k as nat, i as nat)),
            Err(er) => er == Error::Overflow,
        },
{
    let ghost grho = rho_spec(lam@, mu@);
    let ghost gp0 = idle_prob_spec(lam@, mu@, c as nat, k as nat);
    let rho = match lam.div(mu) {
        Ok(x) => x,
        Err(er) => {
            proof {
                assert(!q_fits(q_norm(grho)));
            }
            return Err(er);
        },
    };
    proof {
        lemma_q_div_pos(lam@, mu@);
        lemma_idle_prob_pos(lam@, mu@, c as nat, k as nat);
        lemma_q_pos_congr(grho, rho@);
        lemma_norm(grho);
        assert(q_eq(rho@, grho));
    }
    if i <= c as u64 {
        let p = match rat_pow(&rho, i) {
            Ok(x) => x,
            Err(er) => {
                proof {
                    assert(pow_overflows(q_norm(grho), i as nat));
                }
                return Err(er);
            },
        };
        let f = match rat_factorial(i as u32) {
            Ok(x) => x,
            Err(er) => {
                proof {
                    assert((i as u32) as nat == i as nat);
                    assert(fact(i as nat) >= RAT_BOUND);
                }
                return Err(er);
            },
        };
        let num = match p0.mul(&p) {
            Ok(x) => x,
            Err(er) => {
                proof {
                    let ii = i as nat;
                    lemma_q_pow_congr(rho@, grho, ii);
                    lemma_q_eq_trans(p@, q_pow(rho@, ii), q_pow(grho, ii));
                    lemma_q_mul_wf(p0@, p@);
                    lemma_q_mul_wf(gp0, q_pow(grho, ii));
                    lemma_q_mul_congr(p0@, p@, gp0, q_pow(grho, ii));
                    lemma_q_norm_congr(q_mul(p0@, p@), q_mul(gp0, q_pow(grho, ii)));
                    assert(!q_fits(q_norm(q_mul(gp0, q_pow(grho, ii)))));
                }
                return Err(er);
            },
        };
        proof {
            lemma_fact_pos(i as nat);
            lemma_q_pos_congr(q_int(fact(i as nat) as int), f@);
        }
        let res = match num.div(&f) {
            Ok(x) => x,
            Err(er) => {
                proof {
                    let ii = i as nat;
                    lemma_q_pow_congr(rho@, grho, ii);
                    lemma_q_eq_trans(p@, q_pow(rho@, ii), q_pow(grho, ii));
                    lemma_q_mul_wf(gp0, q_pow(grho, ii));
                    lemma_q_mul_congr(p0@, p@, gp0, q_pow(grho, ii));
                    lemma_q_mul_wf(p0@, p@);
                    lemma_q_eq_trans(num@, q_mul(p0@, p@), q_mul(gp0, q_pow(grho, ii)));
                    lemma_q_div_congr(num@, f@, q_mul(gp0, q_pow(grho, ii)), q_int(
                        fact(ii) as int,
                    ));
                    lemma_q_norm_congr(
                        q_div(num@, f@),
                        q_div(q_mul(gp0, q_pow(grho, ii)), q_int(fact(ii) as int)),
                    );
                    assert(!q_fits(
                        q_norm(state_prob_spec(lam@, mu@, c as nat, k as nat, i as nat)),
                    ));
                }
                return Err(er);
            },
        };
        proof {
            let ii = i as nat;
            lemma_q_pow_congr(rho@, grho, ii);
            lemma_q_eq_trans(p@, q_pow(rho@, ii), q_pow(grho, ii));
            lemma_q_mul_wf(gp0, q_pow(grho, ii));
            lemma_q_mul_congr(p0@, p@, gp0, q_pow(grho, ii));
            lemma_q_mul_wf(p0@, p@);
            lemma_q_eq_trans(num@, q_mul(p0@, p@), q_mul(gp0, q_pow(grho, ii)));
            lemma_q_div_congr(num@, f@, q_mul(gp0, q_pow(grho, ii)), q_int(fact(ii) as int));
            lemma_q_eq_trans(
                res@,
                q_div(num@, f@),
                q_div(q_mul(gp0, q_pow(grho, ii)), q_int(fact(ii) as int)),
            );
        }
        Ok(res)
    } else {
        let ccf = match chan_factor_exec(c) {
            Ok(x) => x,
            Err(er) => {
                return Err(er);
            },
        };
        let crat = Rational::from_u32(c);
        let roc = match rho.div(&crat) {
            Ok(x) => x,
            Err(er) => {
                proof {
                    lemma_q_div_congr(rho@, crat@, grho, q_int(c as int));
                    lemma_q_norm_congr(q_div(rho@, crat@), q_div(grho, q_int(c as int)));
                    assert(!q_fits(q_norm(q_div(grho, q_int(c as int)))));
                }
                return Err(er);
            },
        };
        proof {
            lemma_q_div_congr(rho@, crat@, grho, q_int(c as int));
            lemma_q_norm_congr(q_div(rho@, crat@), q_div(grho, q_int(c as int)));
            assert(roc@ == q_norm(q_div(grho, q_int(c as int))));
        }
        let pw = match rat_pow(&roc, i) {
            Ok(x) => x,
            Err(er) => {
                proof {
                    assert(pow_overflows(q_norm(q_div(grho, q_int(c as int))), i as nat));
                }
                return Err(er);
            },
        };
        let t = match p0.mul(&ccf) {
            Ok(x) => x,
            Err(er) => {
                proof {
                    lemma_chan_factor_pos(c as nat);
                    lemma_q_mul_wf(p0@, ccf@);
                    lemma_q_mul_wf(gp0, chan_factor(c as nat));
                    lemma_q_mul_congr(p0@, ccf@, gp0, chan_factor(c as nat));
                    lemma_q_norm_congr(q_mul(p0@, ccf@), q_mul(gp0, chan_factor(c as nat)));
                    assert(!q_fits(q_norm(q_mul(gp0, chan_factor(c as nat)))));
                }
                return Err(er);
            },
        };
        let res = match t.mul(&pw) {
            Ok(x) => x,
            Err(er) => {
                proof {
                    let ii = i as nat;
                    let groc = q_div(grho, q_int(c as int));
                    lemma_q_div_pos(grho, q_int(c as int));
                    lemma_norm(groc);
                    assert(q_eq(roc@, groc));
                    lemma_q_pow_congr(roc@, groc, ii);
                    lemma_q_eq_trans(pw@, q_pow(roc@, ii), q_pow(groc, ii));
                    lemma_chan_factor_pos(c as nat);
                    lemma_q_mul_wf(gp0, chan_factor(c as nat));
                    lemma_q_mul_congr(p0@, ccf@, gp0, chan_factor(c as nat));
                    lemma_q_mul_wf(p0@, ccf@);
                    lemma_q_eq_trans(t@, q_mul(p0@, ccf@), q_mul(gp0, chan_factor(c as nat)));
                    lemma_q_mul_wf(t@, pw@);
                    lemma_q_mul_wf(q_mul(gp0, chan_factor(c as nat)), q_pow(groc, ii));
                    lemma_q_mul_congr(t@, pw@, q_mul(gp0, chan_factor(c as nat)), q_pow(groc, ii));
                    lemma_q_norm_congr(
                        q_mul(t@, pw@),
                        q_mul(q_mul(gp0, chan_factor(c as nat)), q_pow(groc, ii)),
                    );
                    assert(!q_fits(
                        q_norm(state_prob_spec(lam@, mu@, c as nat, k as nat, i as nat)),
                    ));
                }
                return Err(er);
            },
        };
        proof {
            let ii = i as nat;
            let groc = q_div(grho, q_int(c as int));
            lemma_q_div_pos(grho, q_int(c as int));
            lemma_q_div_congr(rho@, crat@, grho, q_int(c as int));
            lemma_q_eq_trans(roc@, q_div(rho@, crat@), groc);
            lemma_q_pow_congr(roc@, groc, ii);
            lemma_q_eq_trans(pw@, q_pow(roc@, ii), q_pow(groc, ii));
            lemma_chan_factor_pos(c as nat);
            lemma_q_mul_wf(gp0, chan_factor(c as nat));
            lemma_q_mul_congr(p0@, ccf@, gp0, chan_factor(c as nat));
            lemma_q_mul_wf(p0@, ccf@);
            lemma_q_eq_trans(t@, q_mul(p0@, ccf@), q_mul(gp0, chan_factor(c as nat)));
            lemma_q_mul_congr(t@, pw@, q_mul(gp0, chan_factor(c as nat)), q_pow(groc, ii));
            lemma_q_mul_wf(t@, pw@);
            lemma_q_mul_wf(q_mul(gp0, chan_factor(c as nat)), q_pow(groc, ii));
            lemma_q_eq_trans(
                res@,
                q_mul(t@, pw@),
                q_mul(q_mul(gp0, chan_factor(c as nat)), q_pow(groc, ii)),
            );
        }
        Ok(res)
    }
}

/// If the load factor denotes the channel count, its canonical form is
/// the integer embedding of the channel count and fits the
/// representation.
proof fn lemma_rho_eq_c_canonical(lam: Q, mu: Q, c: nat)
    requires
        q_wf(lam),
        q_wf(mu),
        q_pos(lam),
        q_pos(mu),
        c < 0x1_0000_0000,
        q_eq(rho_spec(lam, mu), q_int(c as int)),
    ensures
        crate::rational::q_norm(rho_spec(lam, mu)) == q_int(c as int),
        q_fits(crate::rational::q_norm(rho_spec(lam, mu))),
{
    let rho = rho_spec(lam, mu);
    lemma_q_div_pos(lam, mu);
    lemma_norm(rho);
    lemma_int_canonical(c as int);
    lemma_q_eq_trans(crate::rational::q_norm(rho), rho, q_int(c as int));
    lemma_canonical_unique(crate::rational::q_norm(rho), q_int(c as int));
}

/// Check whether the load factor equals the channel count; report the
/// domain error exactly in that case, and hand back the exact load
/// factor otherwise.
fn load_factor_checked(lam: &Rational, mu: &Rational, c: u32) -> (r: Result<Rational, Error>)
    requires
        lam.inv(),
        q_pos(lam@),
        mu.inv(),
        q_pos(mu@),
        c >= 1,
    ensures
        (r matches Err(e) && e == Error::UndefinedResult) <==> q_eq(
            rho_spec(lam@, mu@),
            q_int(c as int),
        ),
        (r matches Err(e) && e == Error::Overflow) ==> !q_fits(q_norm(rho_spec(lam@, mu@))),
        match r {
            Ok(q) => {
                &&& q.inv()
                &&& q_eq(q@, rho_spec(lam@, mu@))
                &&& q_pos(q@)
                &&& !q_eq(rho_spec(lam@, mu@), q_int(c as int))
            },
            Err(e) => e == Error::UndefinedResult || e == Error::Overflow,
        },
{
    let ghost grho = rho_spec(lam@, mu@);
    let crat = Rational::from_u32(c);
    let rho = match lam.div(mu) {
        Ok(x) => x,
        Err(e) => {
            proof {
                lemma_q_div_pos(lam@, mu@);
                if q_eq(grho, q_int(c as int)) {
                    lemma_rho_eq_c_canonical(lam@, mu@, c as nat);
                    assert(false);
                }
            }
            return Err(e);
        },
    };
    proof {
        lemma_q_div_pos(lam@, mu@);
        lemma_q_pos_congr(grho, rho@);
    }
    if rho == crat {
        proof {
            assert(q_eq(rho@, q_int(c as int)));
            lemma_q_eq_trans(grho, rho@, q_int(c as int));
        }
        return Err(Error::UndefinedResult);
    }
    proof {
        if q_eq(grho, q_int(c as int)) {
            lemma_rho_eq_c_canonical(lam@, mu@, c as nat);
            assert(rho@ == q_int(c as int));
            assert(rho.num as int == c as int && rho.den as int == 1);
            assert(crat.num as int == c as int && crat.den as int == 1);
            assert(rho.num == crat.num && rho.den == crat.den);
            assert(false);
        }
    }
    Ok(rho)
}

impl QueuingSystemCharacteristics for QueuingSystem {
    open spec fn lam_q(&self) -> Q {
        self.lambda_rate@
    }

    open spec fn mu_q(&self) -> Q {
        self.mu_rate@
    }

    open spec fn channels_n(&self) -> nat {
        self.num_channels as nat
    }

    open spec fn capacity_n(&self) -> nat {
        self.queue_size as nat
    }

    open spec fn horizon_q(&self) -> Q {
        self.time@
    }

    open spec fn chars_inv(&self) -> bool {
        self.valid()
    }

    fn calculate_load_factor(&self) -> (r: Result<Rational, Error>) {
        self.lambda_rate.div(&self.mu_rate)
    }

    fn calculate_probability_of_downtime(&self) -> (r: Result<Rational, Error>) {
        let ghost lam = self.lambda_rate@;
        let ghost mu = self.mu_rate@;
        let ghost cn = self.num_channels as nat;
        let ghost kn = self.queue_size as nat;
        let ghost grho = rho_spec(lam, mu);
        let ghost groc = q_div(grho, q_int(cn as int));
        proof {
            lemma_idle_denom_pos(lam, mu, cn, kn);
            lemma_q_div_pos(grho, q_int(cn as int));
            lemma_erlang_sum_pos(grho, cn);
            lemma_pow_sum_pos(groc, cn, kn + 1);
            lemma_chan_factor_pos(cn);
            lemma_norm(grho);
            lemma_norm(groc);
            lemma_q_pos_congr(groc, q_norm(groc));
            lemma_pow_sum_pos(q_norm(groc), cn, kn + 1);
            lemma_q_pos_congr(grho, q_norm(grho));
            lemma_erlang_sum_pos(q_norm(grho), cn);
        }
        let rho = match self.lambda_rate.div(&self.mu_rate) {
            Ok(x) => x,
            Err(e) => {
                proof {
                    assert(!q_fits(q_norm(grho)));
                    assert(idle_prob_overflows(lam, mu, cn, kn));
                }
                return Err(e);
            },
        };
        proof {
            lemma_q_pos_congr(grho, rho@);
            assert(rho@ == q_norm(grho));
            assert(q_eq(rho@, grho));
        }
        let crat = Rational::from_u32(self.num_channels);
        let roc = match rho.div(&crat) {
            Ok(x) => x,
            Err(e) => {
                proof {
                    lemma_q_div_congr(rho@, crat@, grho, q_int(cn as int));
                    lemma_q_norm_congr(q_div(rho@, crat@), groc);
                    assert(!q_fits(q_norm(groc)));
                    assert(idle_prob_overflows(lam, mu, cn, kn));
                }
                return Err(e);
            },
        };
        proof {
            lemma_q_div_congr(rho@, crat@, grho, q_int(cn as int));
            lemma_q_eq_trans(roc@, q_div(rho@, crat@), groc);
            lemma_q_pos_congr(groc, roc@);
            lemma_q_norm_congr(q_div(rho@, crat@), groc);
            assert(roc@ == q_norm(groc));
        }
        let es = match erlang_sum_exec(&rho, self.num_channels) {
            Ok(x) => x,
            Err(e) => {
                proof {
                    assert(erlang_overflows(q_norm(grho), cn));
                    assert(idle_prob_overflows(lam, mu, cn, kn));
                }
                return Err(e);
            },
        };
        proof {
            lemma_erlang_sum_congr(rho@, grho, cn);
            lemma_q_eq_trans(es@, erlang_sum(rho@, cn), erlang_sum(grho, cn));
        }
        let ccf = match chan_factor_exec(self.num_channels) {
            Ok(x) => x,
            Err(e) => {
                proof {
                    assert(chan_factor_overflows(cn));
                    assert(idle_prob_overflows(lam, mu, cn, kn));
                }
                return Err(e);
            },
        };
        let ps = match pow_sum_exec(&roc, self.num_channels as u64, self.queue_size as u64 + 1) {
            Ok(x) => x,
            Err(e) => {
                proof {
                    assert(pow_sum_overflows(q_norm(groc), cn, kn + 1));
                    assert(idle_prob_overflows(lam, mu, cn, kn));
                }
                return Err(e);
            },
        };
        proof {
            lemma_pow_sum_congr(roc@, groc, cn, kn + 1);
            lemma_q_eq_trans(ps@, pow_sum(roc@, cn, kn + 1), pow_sum(groc, cn, kn + 1));
        }
        let m2 = match ccf.mul(&ps) {
            Ok(x) => x,
            Err(e) => {
                proof {
                    lemma_q_mul_wf(chan_factor(cn), pow_sum(q_norm(groc), cn, kn + 1));
                    lemma_q_mul_wf(ccf@, ps@);
                    lemma_q_mul_congr(ccf@, ps@, chan_factor(cn), pow_sum(q_norm(groc), cn, kn + 1));
                    lemma_q_norm_congr(
                        q_mul(ccf@, ps@),
                        q_mul(chan_factor(cn), pow_sum(q_norm(groc), cn, kn + 1)),
                    );
                    assert(!q_fits(
                        q_norm(q_mul(chan_factor(cn), pow_sum(q_norm(groc), cn, kn + 1))),
                    ));
                    assert(idle_prob_overflows(lam, mu, cn, kn));
                }
                return Err(e);
            },
        };
        let den = match es.add(&m2) {
            Ok(x) => x,
            Err(e) => {
                proof {
                    let gm2 = q_mul(chan_factor(cn), pow_sum(q_norm(groc), cn, kn + 1));
                    lemma_q_mul_wf(chan_factor(cn), pow_sum(q_norm(groc), cn, kn + 1));
                    lemma_q_mul_congr(ccf@, ps@, chan_factor(cn), pow_sum(q_norm(groc), cn, kn + 1));
                    lemma_q_mul_wf(ccf@, ps@);
                    lemma_q_eq_trans(m2@, q_mul(ccf@, ps@), gm2);
                    lemma_q_add_wf(es@, m2@);
                    lemma_q_add_wf(erlang_sum(q_norm(grho), cn), gm2);
                    lemma_q_add_congr(es@, m2@, erlang_sum(q_norm(grho), cn), gm2);
                    lemma_q_norm_congr(q_add(es@, m2@), q_add(erlang_sum(q_norm(grho), cn), gm2));
                    assert(!q_fits(q_norm(q_add(erlang_sum(q_norm(grho), cn), gm2))));
                    assert(idle_prob_overflows(lam, mu, cn, kn));
                }
                return Err(e);
            },
        };
        proof {
            lemma_q_mul_wf(chan_factor(cn), pow_sum(groc, cn, kn + 1));
            lemma_q_mul_congr(ccf@, ps@, chan_factor(cn), pow_sum(groc, cn, kn + 1));
            lemma_q_mul_wf(ccf@, ps@);
            lemma_q_eq_trans(
                m2@,
                q_mul(ccf@, ps@),
                q_mul(chan_factor(cn), pow_sum(groc, cn, kn + 1)),
            );
            lemma_q_add_wf(
                erlang_sum(grho, cn),
                q_mul(chan_factor(cn), pow_sum(groc, cn, kn + 1)),
            );
            lemma_q_add_congr(
                es@,
                m2@,
                erlang_sum(grho, cn),
                q_mul(chan_factor(cn), pow_sum(groc, cn, kn + 1)),
            );
            lemma_q_add_wf(es@, m2@);
            lemma_q_eq_trans(den@, q_add(es@, m2@), idle_denom_spec(lam, mu, cn, kn));
            lemma_q_pos_congr(idle_denom_spec(lam, mu, cn, kn), den@);
        }
        let one = Rational::one();
        let p0 = match one.div(&den) {
            Ok(x) => x,
            Err(e) => {
                proof {
                    lemma_q_div_congr(one@, den@, q_one(), idle_denom_spec(lam, mu, cn, kn));
                    lemma_q_norm_congr(
                        q_div(one@, den@),
                        q_div(q_one(), idle_denom_spec(lam, mu, cn, kn)),
                    );
                    assert(!q_fits(q_norm(idle_prob_spec(lam, mu, cn, kn))));
                    assert(idle_prob_overflows(lam, mu, cn, kn));
                }
                return Err(e);
            },
        };
        proof {
            lemma_q_div_congr(one@, den@, q_one(), idle_denom_spec(lam, mu, cn, kn));
            lemma_q_eq_trans(p0@, q_div(one@, den@), idle_prob_spec(lam, mu, cn, kn));
        }
        Ok(p0)
    }

    fn factorial(n: u64) -> (r: u64) {
        proof {
            assert(fact(20) == 2432902008176640000) by {
                reveal_with_fuel(fact, 21);
            }
        }
        let mut cur: u64 = 1;
        let mut i: u64 = 0;
        while i < n
            invariant
                n <= 20,
                i <= n,
                cur == fact(i as nat),
                fact(20) == 2432902008176640000,
            decreases n - i,
        {
            proof {
                lemma_fact_mono((i + 1) as nat, n as nat);
                lemma_fact_mono(n as nat, 20);
                lemma_fact_pos(i as nat);
                assert(fact((i + 1) as nat) == (i + 1) as nat * fact(i as nat));
                assert(cur * (i + 1) == fact((i + 1) as nat)) by (nonlinear_arith)
                    requires
                        cur == fact(i as nat),
                        fact((i + 1) as nat) == (i + 1) as nat * fact(i as nat),
                ;
            }
            cur = cur * (i + 1);
            i = i + 1;
        }
        cur
    }

    fn calculate_probabilities(&self) -> (r: Result<Vec<Rational>, Error>) {
        let ghost lam = self.lambda_rate@;
        let ghost mu = self.mu_rate@;
        let ghost cn = self.num_channels as nat;
        let ghost kn = self.queue_size as nat;
        let p0 = match self.calculate_probability_of_downtime() {
            Ok(x) => x,
            Err(e) => {
                return Err(e);
            },
        };
        let mut v: Vec<Rational> = Vec::new();
        let bound: u64 = self.num_channels as u64 + 1;
        let mut i: u64 = 0;
        while i < bound
            invariant
                self.valid(),
                lam == self.lambda_rate@,
                mu == self.mu_rate@,
                cn == self.num_channels as nat,
                kn == self.queue_size as nat,
                bound == cn + 1,
                p0.inv(),
                q_eq(p0@, idle_prob_spec(lam, mu, cn, kn)),
                i <= bound,
                v@.len() == i,
                forall|t: int|
                    0 <= t < i ==> (#[trigger] v@[t]).inv() && q_eq(
                        v@[t]@,
                        state_prob_spec(lam, mu, cn, kn, t as nat),
                    ),
            decreases bound - i,
        {
            let p = match state_prob_exec(
                &self.lambda_rate,
                &self.mu_rate,
                self.num_channels,
                self.queue_size,
                &p0,
                i,
            ) {
                Ok(x) => x,
                Err(e) => {
                    return Err(e);
                },
            };
            v.push(p);
            i = i + 1;
        }
        Ok(v)
    }

    fn calculate_queue_probabilities(&self) -> (r: Result<Vec<Rational>, Error>) {
        let ghost lam = self.lambda_rate@;
        let ghost mu = self.mu_rate@;
        let ghost cn = self.num_channels as nat;
        let ghost kn = self.queue_size as nat;
        let p0 = match self.calculate_probability_of_downtime() {
            Ok(x) => x,
            Err(e) => {
                return Err(e);
            },
        };
        let mut v: Vec<Rational> = Vec::new();
        let mut i: u32 = 0;
        while i < self.queue_size
            invariant
                self.valid(),
                lam == self.lambda_rate@,
                mu == self.mu_rate@,
                cn == self.num_channels as nat,
                kn == self.queue_size as nat,
                p0.inv(),
                q_eq(p0@, idle_prob_spec(lam, mu, cn, kn)),
                i <= self.queue_size,
                v@.len() == i,
                forall|t: int|
                    0 <= t < i ==> (#[trigger] v@[t]).inv() && q_eq(
                        v@[t]@,
                        state_prob_spec(lam, mu, cn, kn, (cn + 1 + t) as nat),
                    ),
            decreases self.queue_size - i,
        {
            let p = match state_prob_exec(
                &self.lambda_rate,
                &self.mu_rate,
                self.num_channels,
                self.queue_size,
                &p0,
                self.num_channels as u64 + 1 + i as u64,
            ) {
                Ok(x) => x,
                Err(e) => {
                    return Err(e);
                },
            };
            v.push(p);
            i = i + 1;
        }
        Ok(v)
    }

    fn calculate_rejection_probability(&self) -> (r: Result<Rational, Error>) {
        let ghost lam = self.lambda_rate@;
        let ghost mu = self.mu_rate@;
        let ghost cn = self.num_channels as nat;
        let ghost kn = self.queue_size as nat;
        let ghost grho = rho_spec(lam, mu);
        let ghost groc = q_div(grho, q_int(cn as int));
        let ghost gp0 = idle_prob_spec(lam, mu, cn, kn);
        proof {
            lemma_q_div_pos(lam, mu);
            lemma_q_div_pos(grho, q_int(cn as int));
            lemma_idle_prob_pos(lam, mu, cn, kn);
            lemma_chan_factor_pos(cn);
            lemma_norm(grho);
            lemma_norm(groc);
        }
        let p0 = match self.calculate_probability_of_downtime() {
            Ok(x) => x,
            Err(e) => {
                return Err(e);
            },
        };
        let ccf = match chan_factor_exec(self.num_channels) {
            Ok(x) => x,
            Err(e) => {
                return Err(e);
            },
        };
        let rho = match self.lambda_rate.div(&self.mu_rate) {
            Ok(x) => x,
            Err(e) => {
                proof {
                    assert(!q_fits(q_norm(grho)));
                }
                return Err(e);
            },
        };
        let crat = Rational::from_u32(self.num_channels);
        proof {
            lemma_q_pos_congr(grho, rho@);
            assert(rho@ == q_norm(grho));
            assert(q_eq(rho@, grho));
        }
        let roc = match rho.div(&crat) {
            Ok(x) => x,
            Err(e) => {
                proof {
                    lemma_q_div_congr(rho@, crat@, grho, q_int(cn as int));
                    lemma_q_norm_congr(q_div(rho@, crat@), groc);
                    assert(!q_fits(q_norm(groc)));
                }
                return Err(e);
            },
        };
        proof {
            lemma_q_div_congr(rho@, crat@, grho, q_int(cn as int));
            lemma_q_eq_trans(roc@, q_div(rho@, crat@), groc);
            lemma_q_norm_congr(q_div(rho@, crat@), groc);
            assert(roc@ == q_norm(groc));
        }
        let pw = match rat_pow(&roc, self.queue_size as u64 + self.num_channels as u64) {
            Ok(x) => x,
            Err(e) => {
                proof {
                    assert(pow_overflows(q_norm(groc), kn + cn));
                }
                return Err(e);
            },
        };
        let t = match p0.mul(&ccf) {
            Ok(x) => x,
            Err(e) => {
                proof {
                    lemma_q_mul_wf(p0@, ccf@);
                    lemma_q_mul_wf(gp0, chan_factor(cn));
                    lemma_q_mul_congr(p0@, ccf@, gp0, chan_factor(cn));
                    lemma_q_norm_congr(q_mul(p0@, ccf@), q_mul(gp0, chan_factor(cn)));
                    assert(!q_fits(q_norm(q_mul(gp0, chan_factor(cn)))));
                }
                return Err(e);
            },
        };
        let res = match t.mul(&pw) {
            Ok(x) => x,
            Err(e) => {
                proof {
                    let ex = (kn + cn) as nat;
                    lemma_q_pow_congr(roc@, groc, ex);
                    lemma_q_eq_trans(pw@, q_pow(roc@, ex), q_pow(groc, ex));
                    lemma_q_mul_wf(gp0, chan_factor(cn));
                    lemma_q_mul_congr(p0@, ccf@, gp0, chan_factor(cn));
                    lemma_q_mul_wf(p0@, ccf@);
                    lemma_q_eq_trans(t@, q_mul(p0@, ccf@), q_mul(gp0, chan_factor(cn)));
                    lemma_q_mul_wf(t@, pw@);
                    lemma_q_mul_wf(q_mul(gp0, chan_factor(cn)), q_pow(groc, ex));
                    lemma_q_mul_congr(t@, pw@, q_mul(gp0, chan_factor(cn)), q_pow(groc, ex));
                    lemma_q_norm_congr(
                        q_mul(t@, pw@),
                        q_mul(q_mul(gp0, chan_factor(cn)), q_pow(groc, ex)),
                    );
                    assert(!q_fits(q_norm(rejection_prob_spec(lam, mu, cn, kn))));
                }
                return Err(e);
            },
        };
        proof {
            let e = (kn + cn) as nat;
            lemma_q_div_congr(rho@, crat@, grho, q_int(cn as int));
            lemma_q_eq_trans(roc@, q_div(rho@, crat@), groc);
            lemma_q_pow_congr(roc@, groc, e);
            lemma_q_eq_trans(pw@, q_pow(roc@, e), q_pow(groc, e));
            lemma_q_mul_wf(gp0, chan_factor(cn));
            lemma_q_mul_congr(p0@, ccf@, gp0, chan_factor(cn));
            lemma_q_mul_wf(p0@, ccf@);
            lemma_q_eq_trans(t@, q_mul(p0@, ccf@), q_mul(gp0, chan_factor(cn)));
            lemma_q_mul_congr(t@, pw@, q_mul(gp0, chan_factor(cn)), q_pow(groc, e));
            lemma_q_mul_wf(t@, pw@);
            lemma_q_mul_wf(q_mul(gp0, chan_factor(cn)), q_pow(groc, e));
            lemma_q_eq_trans(res@, q_mul(t@, pw@), q_mul(q_mul(gp0, chan_factor(cn)), q_pow(groc, e)));
        }
        Ok(res)
    }

    fn calculate_average_incoming_requests_during_t(&self) -> (r: Result<Rational, Error>) {
        self.lambda_rate.mul(&self.time)
    }

    fn calculate_average_service_time_per_request(&self) -> (r: Result<Rational, Error>) {
        let one = Rational::one();
        let res = match one.div(&self.mu_rate) {
            Ok(x) => x,
            Err(e) => {
                return Err(e);
            },
        };
        Ok(res)
    }

    fn average_service_time_per_channel_for_t(&self) -> (r: Result<Rational, Error>) {
        let ghost grho = rho_spec(self.lambda_rate@, self.mu_rate@);
        proof {
            lemma_q_div_pos(self.lambda_rate@, self.mu_rate@);
            lemma_norm(grho);
        }
        let rho = match self.lambda_rate.div(&self.mu_rate) {
            Ok(x) => x,
            Err(e) => {
                proof {
                    assert(!q_fits(q_norm(grho)));
                }
                return Err(e);
            },
        };
        let res = match rho.mul(&self.time) {
            Ok(x) => x,
            Err(e) => {
                proof {
                    assert(q_eq(rho@, grho));
                    lemma_q_mul_wf(rho@, self.time@);
                    lemma_q_mul_wf(grho, self.time@);
                    lemma_q_mul_congr(rho@, self.time@, grho, self.time@);
                    lemma_q_norm_congr(q_mul(rho@, self.time@), q_mul(grho, self.time@));
                    assert(!q_fits(q_norm(q_mul(grho, self.time@))));
                }
                return Err(e);
            },
        };
        proof {
            lemma_q_mul_wf(grho, self.time@);
            lemma_q_mul_congr(rho@, self.time@, grho, self.time@);
            lemma_q_mul_wf(rho@, self.time@);
            lemma_q_eq_trans(res@, q_mul(rho@, self.time@), q_mul(grho, self.time@));
        }
        Ok(res)
    }

    fn calculate_average_busy_channels(&self) -> (r: Result<Rational, Error>) {
        let ghost lam = self.lambda_rate@;
        let ghost mu = self.mu_rate@;
        let ghost cn = self.num_channels as nat;
        let ghost kn = self.queue_size as nat;
        let p0 = match self.calculate_probability_of_downtime() {
            Ok(x) => x,
            Err(e) => {
                return Err(e);
            },
        };
        let states: u64 = self.num_channels as u64 + self.queue_size as u64 + 1;
        let mut acc = Rational::zero();
        let mut i: u64 = 0;
        while i < states
            invariant
                self.valid(),
                lam == self.lambda_rate@,
                mu == self.mu_rate@,
                cn == self.num_channels as nat,
                kn == self.queue_size as nat,
                states == cn + kn + 1,
                p0.inv(),
                q_eq(p0@, idle_prob_spec(lam, mu, cn, kn)),
                i <= states,
                acc.inv(),
                q_eq(acc@, busy_sum_spec(lam, mu, cn, kn, i as nat)),
            decreases states - i,
        {
            let pi = match state_prob_exec(
                &self.lambda_rate,
                &self.mu_rate,
                self.num_channels,
                self.queue_size,
                &p0,
                i,
            ) {
                Ok(x) => x,
                Err(e) => {
                    proof {
                        assert(busy_term_overflows(lam, mu, cn, kn, i as nat));
                        assert(busy_overflows(lam, mu, cn, kn));
                    }
                    return Err(e);
                },
            };
            let wgt: u32 = if i < self.num_channels as u64 {
                i as u32
            } else {
                self.num_channels
            };
            let wr = Rational::from_u32(wgt);
            let term = match wr.mul(&pi) {
                Ok(x) => x,
                Err(e) => {
                    proof {
                        let ii = i as nat;
                        let weight: nat = if ii <= cn {
                            ii
                        } else {
                            cn
                        };
                        assert(wgt as nat == weight);
                        lemma_state_prob_pos(lam, mu, cn, kn, ii);
                        lemma_q_mul_wf(wr@, pi@);
                        lemma_q_mul_wf(q_int(weight as int), state_prob_spec(lam, mu, cn, kn, ii));
                        lemma_q_mul_congr(
                            wr@,
                            pi@,
                            q_int(weight as int),
                            state_prob_spec(lam, mu, cn, kn, ii),
                        );
                        lemma_q_norm_congr(
                            q_mul(wr@, pi@),
                            q_mul(q_int(weight as int), state_prob_spec(lam, mu, cn, kn, ii)),
                        );
                        assert(!q_fits(
                            q_norm(
                                q_mul(q_int(weight as int), state_prob_spec(lam, mu, cn, kn, ii)),
                            ),
                        ));
                        assert(busy_term_overflows(lam, mu, cn, kn, ii));
                        assert(busy_overflows(lam, mu, cn, kn));
                    }
                    return Err(e);
                },
            };
            let nxt = match acc.add(&term) {
                Ok(x) => x,
                Err(e) => {
                    proof {
                        let ii = i as nat;
                        let weight: nat = if ii <= cn {
                            ii
                        } else {
                            cn
                        };
                        assert(wgt as nat == weight);
                        let gterm = q_mul(q_int(weight as int), state_prob_spec(lam, mu, cn, kn, ii));
                        lemma_state_prob_pos(lam, mu, cn, kn, ii);
                        lemma_q_mul_wf(q_int(weight as int), state_prob_spec(lam, mu, cn, kn, ii));
                        lemma_q_mul_congr(
                            wr@,
                            pi@,
                            q_int(weight as int),
                            state_prob_spec(lam, mu, cn, kn, ii),
                        );
                        lemma_q_mul_wf(wr@, pi@);
                        lemma_q_eq_trans(term@, q_mul(wr@, pi@), gterm);
                        lemma_busy_sum_wf(lam, mu, cn, kn, ii);
                        lemma_q_add_wf(acc@, term@);
                        lemma_q_add_wf(busy_sum_spec(lam, mu, cn, kn, ii), gterm);
                        lemma_q_add_congr(acc@, term@, busy_sum_spec(lam, mu, cn, kn, ii), gterm);
                        lemma_q_norm_congr(
                            q_add(acc@, term@),
                            q_add(busy_sum_spec(lam, mu, cn, kn, ii), gterm),
                        );
                        assert(q_add(busy_sum_spec(lam, mu, cn, kn, ii), gterm) == busy_sum_spec(
                            lam,
                            mu,
                            cn,
                            kn,
                            ii + 1,
                        ));
                        assert(!q_fits(q_norm(busy_sum_spec(lam, mu, cn, kn, ii + 1))));
                        assert(busy_term_overflows(lam, mu, cn, kn, ii));
                        assert(busy_overflows(lam, mu, cn, kn));
                    }
                    return Err(e);
                },
            };
            proof {
                let ii = i as nat;
                let weight: nat = if ii <= cn {
                    ii
                } else {
                    cn
                };
                assert(wgt as nat == weight);
                let gterm = q_mul(q_int(weight as int), state_prob_spec(lam, mu, cn, kn, ii));
                lemma_state_prob_pos(lam, mu, cn, kn, ii);
                lemma_q_mul_wf(q_int(weight as int), state_prob_spec(lam, mu, cn, kn, ii));
                lemma_q_mul_congr(wr@, pi@, q_int(weight as int), state_prob_spec(lam, mu, cn, kn, ii));
                lemma_q_mul_wf(wr@, pi@);
                lemma_q_eq_trans(term@, q_mul(wr@, pi@), gterm);
                lemma_busy_sum_wf(lam, mu, cn, kn, ii);
                lemma_q_add_wf(busy_sum_spec(lam, mu, cn, kn, ii), gterm);
                lemma_q_add_congr(acc@, term@, busy_sum_spec(lam, mu, cn, kn, ii), gterm);
                lemma_q_add_wf(acc@, term@);
                lemma_q_eq_trans(
                    nxt@,
                    q_add(acc@, term@),
                    q_add(busy_sum_spec(lam, mu, cn, kn, ii), gterm),
                );
                assert(q_add(busy_sum_spec(lam, mu, cn, kn, ii), gterm) == busy_sum_spec(
                    lam,
                    mu,
                    cn,
                    kn,
                    ii + 1,
                ));
            }
            acc = nxt;
            i = i + 1;
        }
        Ok(acc)
    }

    fn calculate_average_number_of_requests_in_queue(&self) -> (r: Result<Rational, Error>) {
        let ghost lam = self.lambda_rate@;
        let ghost mu = self.mu_rate@;
        let ghost cn = self.num_channels as nat;
        let ghost kn = self.queue_size as nat;
        let ghost grho = rho_spec(lam, mu);
        let ghost gcmr = q_sub(q_int(cn as int), grho);
        let ghost gden = q_mul(q_int(fact((cn - 1) as nat) as int), q_mul(gcmr, gcmr));
        proof {
            lemma_q_div_pos(lam, mu);
            lemma_idle_prob_pos(lam, mu, cn, kn);
        }
        let rho = match load_factor_checked(&self.lambda_rate, &self.mu_rate, self.num_channels) {
            Ok(x) => x,
            Err(e) => {
                return Err(e);
            },
        };
        proof {
            crate::rational::lemma_pinned_norm(rho@, grho);
            lemma_q_add_wf(q_int(cn as int), q_neg(grho));
        }
        let crat = Rational::from_u32(self.num_channels);
        let p0 = match self.calculate_probability_of_downtime() {
            Ok(x) => x,
            Err(e) => {
                return Err(e);
            },
        };
        let f1 = match rat_factorial(self.num_channels - 1) {
            Ok(x) => x,
            Err(e) => {
                return Err(e);
            },
        };
        let cmr = match crat.sub(&rho) {
            Ok(x) => x,
            Err(e) => {
                proof {
                    crate::rational::lemma_q_neg_congr(rho@, grho);
                    lemma_q_add_wf(q_int(cn as int), q_neg(rho@));
                    lemma_q_add_congr(q_int(cn as int), q_neg(rho@), q_int(cn as int), q_neg(grho));
                    lemma_q_norm_congr(q_sub(crat@, rho@), gcmr);
                    assert(!q_fits(q_norm(gcmr)));
                    assert(queue_len_overflows(lam, mu, cn, kn));
                }
                return Err(e);
            },
        };
        proof {
            // cmr denotes c - rho, which is nonzero since rho differs
            // from c
            crate::rational::lemma_q_neg_congr(rho@, grho);
            lemma_q_add_wf(q_int(cn as int), q_neg(rho@));
            lemma_q_add_wf(q_int(cn as int), q_neg(grho));
            lemma_q_add_congr(q_int(cn as int), q_neg(rho@), q_int(cn as int), q_neg(grho));
            lemma_q_eq_trans(cmr@, q_sub(crat@, rho@), gcmr);
            lemma_q_sub_zero_iff(q_int(cn as int), grho);
            assert(gcmr.n != 0);
        }
        let sq = match cmr.mul(&cmr) {
            Ok(x) => x,
            Err(e) => {
                proof {
                    lemma_q_mul_wf(cmr@, cmr@);
                    lemma_q_mul_wf(gcmr, gcmr);
                    lemma_q_mul_congr(cmr@, cmr@, gcmr, gcmr);
                    lemma_q_norm_congr(q_mul(cmr@, cmr@), q_mul(gcmr, gcmr));
                    assert(!q_fits(q_norm(q_mul(gcmr, gcmr))));
                    assert(queue_len_overflows(lam, mu, cn, kn));
                }
                return Err(e);
            },
        };
        let den = match f1.mul(&sq) {
            Ok(x) => x,
            Err(e) => {
                proof {
                    lemma_q_mul_wf(gcmr, gcmr);
                    lemma_q_mul_congr(cmr@, cmr@, gcmr, gcmr);
                    lemma_q_mul_wf(cmr@, cmr@);
                    lemma_q_eq_trans(sq@, q_mul(cmr@, cmr@), q_mul(gcmr, gcmr));
                    lemma_fact_pos((cn - 1) as nat);
                    lemma_q_mul_wf(q_int(fact((cn - 1) as nat) as int), q_mul(gcmr, gcmr));
                    lemma_q_mul_congr(
                        f1@,
                        sq@,
                        q_int(fact((cn - 1) as nat) as int),
                        q_mul(gcmr, gcmr),
                    );
                    lemma_q_mul_wf(f1@, sq@);
                    lemma_q_norm_congr(q_mul(f1@, sq@), gden);
                    assert(!q_fits(q_norm(gden)));
                    assert(queue_len_overflows(lam, mu, cn, kn));
                }
                return Err(e);
            },
        };
        proof {
            lemma_q_mul_wf(gcmr, gcmr);
            lemma_q_mul_congr(cmr@, cmr@, gcmr, gcmr);
            lemma_q_mul_wf(cmr@, cmr@);
            lemma_q_eq_trans(sq@, q_mul(cmr@, cmr@), q_mul(gcmr, gcmr));
            lemma_fact_pos((cn - 1) as nat);
            lemma_q_mul_wf(q_int(fact((cn - 1) as nat) as int), q_mul(gcmr, gcmr));
            lemma_q_mul_congr(f1@, sq@, q_int(fact((cn - 1) as nat) as int), q_mul(gcmr, gcmr));
            lemma_q_mul_wf(f1@, sq@);
            lemma_q_eq_trans(den@, q_mul(f1@, sq@), gden);
            // the exact denominator is nonzero
            assert(q_mul(gcmr, gcmr).n != 0) by (nonlinear_arith)
                requires
                    q_mul(gcmr, gcmr).n == gcmr.n * gcmr.n,
                    gcmr.n != 0,
            ;
            assert(gden.n != 0) by (nonlinear_arith)
                requires
                    gden.n == fact((cn - 1) as nat) as int * q_mul(gcmr, gcmr).n,
                    fact((cn - 1) as nat) >= 1,
                    q_mul(gcmr, gcmr).n != 0,
            ;
            crate::rational::lemma_q_inv_congr(gden, den@);
        }
        let num = match rat_pow(&rho, self.num_channels as u64 + 1) {
            Ok(x) => x,
            Err(e) => {
                proof {
                    assert(pow_overflows(q_norm(grho), cn + 1));
                    assert(queue_len_overflows(lam, mu, cn, kn));
                }
                return Err(e);
            },
        };
        let frac = match num.div(&den) {
            Ok(x) => x,
            Err(e) => {
                proof {
                    let e1 = (cn + 1) as nat;
                    lemma_q_pow_congr(rho@, grho, e1);
                    lemma_q_eq_trans(num@, q_pow(rho@, e1), q_pow(grho, e1));
                    lemma_q_div_congr(num@, den@, q_pow(grho, e1), gden);
                    lemma_q_norm_congr(q_div(num@, den@), q_div(q_pow(grho, e1), gden));
                    assert(!q_fits(q_norm(q_div(q_pow(grho, e1), gden))));
                    assert(queue_len_overflows(lam, mu, cn, kn));
                }
                return Err(e);
            },
        };
        let res = match frac.mul(&p0) {
            Ok(x) => x,
            Err(e) => {
                proof {
                    let e1 = (cn + 1) as nat;
                    lemma_q_pow_congr(rho@, grho, e1);
                    lemma_q_eq_trans(num@, q_pow(rho@, e1), q_pow(grho, e1));
                    lemma_q_div_congr(num@, den@, q_pow(grho, e1), gden);
                    lemma_q_eq_trans(frac@, q_div(num@, den@), q_div(q_pow(grho, e1), gden));
                    lemma_q_mul_wf(frac@, p0@);
                    lemma_q_mul_wf(q_div(q_pow(grho, e1), gden), idle_prob_spec(lam, mu, cn, kn));
                    lemma_q_mul_congr(
                        frac@,
                        p0@,
                        q_div(q_pow(grho, e1), gden),
                        idle_prob_spec(lam, mu, cn, kn),
                    );
                    lemma_q_norm_congr(
                        q_mul(frac@, p0@),
                        q_mul(q_div(q_pow(grho, e1), gden), idle_prob_spec(lam, mu, cn, kn)),
                    );
                    assert(!q_fits(q_norm(queue_len_spec(lam, mu, cn, kn))));
                    assert(queue_len_overflows(lam, mu, cn, kn));
                }
                return Err(e);
            },
        };
        proof {
            let e1 = (cn + 1) as nat;
            lemma_q_pow_congr(rho@, grho, e1);
            lemma_q_eq_trans(num@, q_pow(rho@, e1), q_pow(grho, e1));
            lemma_q_div_congr(num@, den@, q_pow(grho, e1), gden);
            lemma_q_eq_trans(frac@, q_div(num@, den@), q_div(q_pow(grho, e1), gden));
            lemma_q_mul_wf(q_div(q_pow(grho, e1), gden), idle_prob_spec(lam, mu, cn, kn));
            lemma_q_mul_congr(
                frac@,
                p0@,
                q_div(q_pow(grho, e1), gden),
                idle_prob_spec(lam, mu, cn, kn),
            );
            lemma_q_mul_wf(frac@, p0@);
            lemma_q_eq_trans(
                res@,
                q_mul(frac@, p0@),
                q_mul(q_div(q_pow(grho, e1), gden), idle_prob_spec(lam, mu, cn, kn)),
            );
        }
        Ok(res)
    }

    fn calculate_average_waiting_time_in_queue(&self) -> (r: Result<Rational, Error>) {
        let lq = match self.calculate_average_number_of_requests_in_queue() {
            Ok(x) => x,
            Err(e) => {
                return Err(e);
            },
        };
        let res = match lq.div(&self.lambda_rate) {
            Ok(x) => x,
            Err(e) => {
                proof {
                    let lam = self.lambda_rate@;
                    let mu = self.mu_rate@;
                    let cn = self.num_channels as nat;
                    let kn = self.queue_size as nat;
                    let glq = queue_len_spec(lam, mu, cn, kn);
                    lemma_queue_len_wf(lam, mu, cn, kn);
                    lemma_q_div_congr(lq@, lam, glq, lam);
                    lemma_q_norm_congr(q_div(lq@, lam), q_div(glq, lam));
                    assert(!q_fits(q_norm(queue_wait_spec(lam, mu, cn, kn))));
                    assert(queue_wait_overflows(lam, mu, cn, kn));
                }
                return Err(e);
            },
        };
        proof {
            let lam = self.lambda_rate@;
            let mu = self.mu_rate@;
            let cn = self.num_channels as nat;
            let kn = self.queue_size as nat;
            let glq = queue_len_spec(lam, mu, cn, kn);
            lemma_queue_len_wf(lam, mu, cn, kn);
            lemma_q_div_congr(lq@, lam, glq, lam);
            lemma_q_eq_trans(res@, q_div(lq@, lam), q_div(glq, lam));
        }
        Ok(res)
    }

    fn calculate_total_number_of_requests(&self) -> (r: Result<Rational, Error>) {
        let lq = match self.calculate_average_number_of_requests_in_queue() {
            Ok(x) => x,
            Err(e) => {
                return Err(e);
            },
        };
        let rho = match self.lambda_rate.div(&self.mu_rate) {
            Ok(x) => x,
            Err(e) => {
                proof {
                    assert(!q_fits(q_norm(rho_spec(self.lambda_rate@, self.mu_rate@))));
                }
                return Err(e);
            },
        };
        let res = match lq.add(&rho) {
            Ok(x) => x,
            Err(e) => {
                proof {
                    let lam = self.lambda_rate@;
                    let mu = self.mu_rate@;
                    let cn = self.num_channels as nat;
                    let kn = self.queue_size as nat;
                    let glq = queue_len_spec(lam, mu, cn, kn);
                    let grho = rho_spec(lam, mu);
                    lemma_queue_len_wf(lam, mu, cn, kn);
                    lemma_q_div_pos(lam, mu);
                    lemma_q_add_wf(lq@, rho@);
                    lemma_q_add_wf(glq, grho);
                    lemma_q_add_congr(lq@, rho@, glq, grho);
                    lemma_q_norm_congr(q_add(lq@, rho@), q_add(glq, grho));
                    assert(!q_fits(q_norm(total_requests_spec(lam, mu, cn, kn))));
                    assert(total_requests_overflows(lam, mu, cn, kn));
                }
                return Err(e);
            },
        };
        proof {
            let lam = self.lambda_rate@;
            let mu = self.mu_rate@;
            let cn = self.num_channels as nat;
            let kn = self.queue_size as nat;
            let glq = queue_len_spec(lam, mu, cn, kn);
            let grho = rho_spec(lam, mu);
            lemma_queue_len_wf(lam, mu, cn, kn);
            lemma_q_div_pos(lam, mu);
            lemma_q_add_wf(glq, grho);
            lemma_q_add_congr(lq@, rho@, glq, grho);
            lemma_q_add_wf(lq@, rho@);
            lemma_q_eq_trans(res@, q_add(lq@, rho@), q_add(glq, grho));
        }
        Ok(res)
    }

    fn calculate_average_waiting_time(&self) -> (r: Result<Rational, Error>) {
        let l = match self.calculate_total_number_of_requests() {
            Ok(x) => x,
            Err(e) => {
                return Err(e);
            },
        };
        let res = match l.div(&self.lambda_rate) {
            Ok(x) => x,
            Err(e) => {
                proof {
                    let lam = self.lambda_rate@;
                    let mu = self.mu_rate@;
                    let cn = self.num_channels as nat;
                    let kn = self.queue_size as nat;
                    let gl = total_requests_spec(lam, mu, cn, kn);
                    lemma_total_requests_wf(lam, mu, cn, kn);
                    lemma_q_div_congr(l@, lam, gl, lam);
                    lemma_q_norm_congr(q_div(l@, lam), q_div(gl, lam));
                    assert(!q_fits(q_norm(system_wait_spec(lam, mu, cn, kn))));
                    assert(system_wait_overflows(lam, mu, cn, kn));
                }
                return Err(e);
            },
        };
        proof {
            let lam = self.lambda_rate@;
            let mu = self.mu_rate@;
            let cn = self.num_channels as nat;
            let kn = self.queue_size as nat;
            let gl = total_requests_spec(lam, mu, cn, kn);
            lemma_total_requests_wf(lam, mu, cn, kn);
            lemma_q_div_congr(l@, lam, gl, lam);
            lemma_q_eq_trans(res@, q_div(l@, lam), q_div(gl, lam));
        }
        Ok(res)
    }

    fn calculate_average_time_in_system(&self) -> (r: Result<Rational, Error>) {
        let l = match self.calculate_total_number_of_requests() {
            Ok(x) => x,
            Err(e) => {
                return Err(e);
            },
        };
        let res = match l.div(&self.lambda_rate) {
            Ok(x) => x,
            Err(e) => {
                proof {
                    let lam = self.lambda_rate@;
                    let mu = self.mu_rate@;
                    let cn = self.num_channels as nat;
                    let kn = self.queue_size as nat;
                    let gl = total_requests_spec(lam, mu, cn, kn);
                    lemma_total_requests_wf(lam, mu, cn, kn);
                    lemma_q_div_congr(l@, lam, gl, lam);
                    lemma_q_norm_congr(q_div(l@, lam), q_div(gl, lam));
                    assert(!q_fits(q_norm(system_wait_spec(lam, mu, cn, kn))));
                    assert(system_wait_overflows(lam, mu, cn, kn));
                }
                return Err(e);
            },
        };
        proof {
            let lam = self.lambda_rate@;
            let mu = self.mu_rate@;
            let cn = self.num_channels as nat;
            let kn = self.queue_size as nat;
            let gl = total_requests_spec(lam, mu, cn, kn);
            lemma_total_requests_wf(lam, mu, cn, kn);
            lemma_q_div_congr(l@, lam, gl, lam);
            lemma_q_eq_trans(res@, q_div(l@, lam), q_div(gl, lam));
        }
        Ok(res)
    }
}

/// The mean queue length formula is well-formed when the load factor
/// differs from the channel count.
pub proof fn lemma_queue_len_wf(lam: Q, mu: Q, c: nat, k: nat)
    requires
        q_wf(lam),
        q_wf(mu),
        q_pos(lam),
        q_pos(mu),
        c >= 1,
        !q_eq(rho_spec(lam, mu), q_int(c as int)),
    ensures
        q_wf(queue_len_spec(lam, mu, c, k)),
{
    let rho = rho_spec(lam, mu);
    lemma_q_div_pos(lam, mu);
    let cmr = q_sub(q_int(c as int), rho);
    lemma_q_add_wf(q_int(c as int), q_neg(rho));
    lemma_q_sub_zero_iff(q_int(c as int), rho);
    assert(cmr.n != 0);
    lemma_q_mul_wf(cmr, cmr);
    lemma_fact_pos((c - 1) as nat);
    lemma_q_mul_wf(q_int(fact((c - 1) as nat) as int), q_mul(cmr, cmr));
    lemma_q_pow_wf(rho, (c + 1) as nat);
    let den = q_mul(q_int(fact((c - 1) as nat) as int), q_mul(cmr, cmr));
    assert(q_mul(cmr, cmr).n != 0) by (nonlinear_arith)
        requires
            q_mul(cmr, cmr).n == cmr.n * cmr.n,
            cmr.n != 0,
    ;
    assert(den.n != 0) by (nonlinear_arith)
        requires
            den.n == fact((c - 1) as nat) as int * q_mul(cmr, cmr).n,
            fact((c - 1) as nat) >= 1,
            q_mul(cmr, cmr).n != 0,
    ;
    assert(q_wf(q_inv(den)));
    lemma_q_mul_wf(q_pow(rho, (c + 1) as nat), q_inv(den));
    lemma_idle_prob_pos(lam, mu, c, k);
    lemma_q_mul_wf(q_div(q_pow(rho, (c + 1) as nat), den), idle_prob_spec(lam, mu, c, k));
}

/// Multiplying two quotients is the quotient of the products, on the
/// nose, for positive divisors.
pub proof fn lemma_q_div_mul_div(x: Q, y: Q, u: Q, v: Q)
    requires
        q_wf(x),
        q_wf(u),
        q_wf(y),
        q_wf(v),
        q_pos(y),
        q_pos(v),
    ensures
        q_mul(q_div(x, y), q_div(u, v)) == q_div(q_mul(x, u), q_mul(y, v)),
{
    broadcast use vstd::arithmetic::mul::group_mul_properties;

    assert(q_mul(y, v).n == y.n * v.n && y.n * v.n > 0) by (nonlinear_arith)
        requires
            q_mul(y, v).n == y.n * v.n,
            y.n > 0,
            v.n > 0,
    ;
    assert((x.n * y.d) * (u.n * v.d) == (x.n * u.n) * (y.d * v.d));
    assert((x.d * y.n) * (u.d * v.n) == (x.d * u.d) * (y.n * v.n));
}

/// The power of a quotient is the quotient of the powers.
pub proof fn lemma_q_pow_div(a: Q, b: Q, e: nat)
    requires
        q_wf(a),
        q_wf(b),
        q_pos(a),
        q_pos(b),
    ensures
        q_eq(q_pow(q_div(a, b), e), q_div(q_pow(a, e), q_pow(b, e))),
    decreases e,
{
    let d = q_div(a, b);
    lemma_q_div_pos(a, b);
    lemma_q_pow_pos(a, e);
    lemma_q_pow_pos(b, e);
    lemma_q_pow_pos(d, e);
    if e == 0 {
        assert(q_pow(d, 0) == q_one());
        assert(q_div(q_one(), q_one()) == q_one());
    } else {
        let e1 = (e - 1) as nat;
        lemma_q_pow_div(a, b, e1);
        let pa = q_pow(a, e1);
        let pb = q_pow(b, e1);
        lemma_q_pow_pos(a, e1);
        lemma_q_pow_pos(b, e1);
        lemma_q_pow_pos(d, e1);
        lemma_q_div_pos(pa, pb);
        lemma_q_mul_congr(q_pow(d, e1), d, q_div(pa, pb), q_div(a, b));
        lemma_q_div_mul_div(pa, pb, a, b);
        lemma_q_mul_wf(q_pow(d, e1), d);
        lemma_q_div_pos(q_mul(pa, a), q_mul(pb, b));
        lemma_q_mul_pos(pa, a);
        lemma_q_mul_pos(pb, b);
        lemma_q_eq_trans(q_pow(d, e), q_mul(q_div(pa, pb), q_div(a, b)), q_div(
            q_pow(a, e),
            q_pow(b, e),
        ));
    }
}

/// A common positive factor cancels across a quotient of products.
pub proof fn lemma_q_cancel_common(u: Q, f: Q, p: Q)
    requires
        q_wf(p),
        q_wf(u),
        q_wf(f),
        q_pos(u),
        q_pos(f),
    ensures
        q_eq(q_div(q_mul(u, p), q_mul(f, u)), q_div(p, f)),
{
    broadcast use vstd::arithmetic::mul::group_mul_properties;

    let lhs = q_div(q_mul(u, p), q_mul(f, u));
    let rhs = q_div(p, f);
    assert(q_mul(f, u).n == f.n * u.n && f.n * u.n > 0) by (nonlinear_arith)
        requires
            q_mul(f, u).n == f.n * u.n,
            f.n > 0,
            u.n > 0,
    ;
    assert(lhs.n == (u.n * p.n) * (f.d * u.d));
    assert(lhs.d == (u.d * p.d) * (f.n * u.n));
    assert(((u.n * p.n) * (f.d * u.d)) * (p.d * f.n) == (p.n * f.d) * ((u.d * p.d) * (f.n * u.n)))
        by (nonlinear_arith);
}

/// With a zero-capacity queue the system collapses to a pure loss model:
/// the rejection probability equals the last per-channel probability
/// `P_c` exactly.
pub proof fn lemma_loss_system_rejection(lam: Q, mu: Q, c: nat)
    requires
        q_wf(lam),
        q_wf(mu),
        q_pos(lam),
        q_pos(mu),
        c >= 1,
    ensures
        q_eq(rejection_prob_spec(lam, mu, c, 0), state_prob_spec(lam, mu, c, 0, c)),
{
    let rho = rho_spec(lam, mu);
    let p0 = idle_prob_spec(lam, mu, c, 0);
    let cc = q_pow(q_int(c as int), c);
    let f = q_int(fact(c) as int);
    let roc = q_div(rho, q_int(c as int));
    let prho = q_pow(rho, c);
    lemma_q_div_pos(lam, mu);
    lemma_idle_prob_pos(lam, mu, c, 0);
    lemma_q_pow_pos(q_int(c as int), c);
    lemma_fact_pos(c);
    lemma_q_pow_pos(rho, c);
    lemma_q_div_pos(rho, q_int(c as int));
    lemma_q_pow_pos(roc, c);
    lemma_chan_factor_pos(c);
    // (rho/c)^c == rho^c / c^c
    lemma_q_pow_div(rho, q_int(c as int), c);
    // (c^c/c!) * (rho^c/c^c) == (c^c * rho^c) / (c! * c^c) == rho^c / c!
    lemma_q_div_pos(prho, cc);
    lemma_q_mul_congr(chan_factor(c), q_pow(roc, c), chan_factor(c), q_div(prho, cc));
    lemma_q_div_mul_div(cc, f, prho, cc);
    lemma_q_cancel_common(cc, f, prho);
    lemma_q_mul_wf(chan_factor(c), q_pow(roc, c));
    lemma_q_mul_wf(chan_factor(c), q_div(prho, cc));
    lemma_q_mul_pos(cc, prho);
    lemma_q_mul_pos(f, cc);
    lemma_q_div_pos(q_mul(cc, prho), q_mul(f, cc));
    lemma_q_div_pos(prho, f);
    lemma_q_eq_trans(
        q_mul(chan_factor(c), q_pow(roc, c)),
        q_div(q_mul(cc, prho), q_mul(f, cc)),
        q_div(prho, f),
    );
    // fold the idle probability back in
    lemma_q_mul_assoc(p0, chan_factor(c), q_pow(roc, c));
    lemma_q_mul_congr(p0, q_mul(chan_factor(c), q_pow(roc, c)), p0, q_div(prho, f));
    lemma_q_mul_assoc(p0, prho, q_inv(f));
    lemma_q_mul_wf(p0, q_mul(chan_factor(c), q_pow(roc, c)));
    lemma_q_mul_wf(p0, q_div(prho, f));
    lemma_q_eq_trans(
        q_mul(q_mul(p0, chan_factor(c)), q_pow(roc, c)),
        q_mul(p0, q_mul(chan_factor(c), q_pow(roc, c))),
        q_mul(p0, q_div(prho, f)),
    );
    assert(q_mul(p0, q_div(prho, f)) == q_div(q_mul(p0, prho), f));
    assert(rejection_prob_spec(lam, mu, c, 0) == q_mul(q_mul(p0, chan_factor(c)), q_pow(roc, c)));
    assert(state_prob_spec(lam, mu, c, 0, c) == q_div(q_mul(p0, prho), f));
}

/// The total-requests formula is well-formed when the load factor
/// differs from the channel count.
pub proof fn lemma_total_requests_wf(lam: Q, mu: Q, c: nat, k: nat)
    requires
        q_wf(lam),
        q_wf(mu),
        q_pos(lam),
        q_pos(mu),
        c >= 1,
        !q_eq(rho_spec(lam, mu), q_int(c as int)),
    ensures
        q_wf(total_requests_spec(lam, mu, c, k)),
{
    lemma_queue_len_wf(lam, mu, c, k);
    lemma_q_div_pos(lam, mu);
    lemma_q_add_wf(queue_len_spec(lam, mu, c, k), rho_spec(lam, mu));
}

// ---------------------------------------------------------------------------
// The full metric record.
// ---------------------------------------------------------------------------

/// All closed-form steady-state performance characteristics, named
/// metric by metric.
pub struct SteadyStateMetrics {
    /// rho = lambda / mu.
    pub load_factor: Rational,
    /// P0.
    pub idle_probability: Rational,
    /// P_0 ..= P_c by state index.
    pub state_probabilities: Vec<Rational>,
    /// P_{c+1} ..= P_{c+K} by state index.
    pub queue_probabilities: Vec<Rational>,
    /// The blocking probability.
    pub rejection_probability: Rational,
    /// lambda * T.
    pub average_incoming_requests: Rational,
    /// 1 / mu.
    pub average_service_time: Rational,
    /// rho * T.
    pub average_service_time_per_channel: Rational,
    /// The mean number of busy channels.
    pub average_busy_channels: Rational,
    /// Lq.
    pub average_queue_length: Rational,
    /// Wq = Lq / lambda.
    pub average_waiting_time_in_queue: Rational,
    /// L = Lq + rho.
    pub total_requests: Rational,
    /// W = L / lambda.
    pub average_waiting_time: Rational,
    /// W = L / lambda.
    pub average_time_in_system: Rational,
}

/// What it means for a metric record to report exactly the closed-form
/// values of a system: every field is canonical and denotes its formula.
pub open spec fn metrics_match(qs: QueuingSystem, m: SteadyStateMetrics) -> bool {
    let lam = qs.lambda_rate@;
    let mu = qs.mu_rate@;
    let c = qs.num_channels as nat;
    let k = qs.queue_size as nat;
    &&& !q_eq(rho_spec(lam, mu), q_int(c as int))
    &&& m.load_factor.inv() && q_eq(m.load_factor@, rho_spec(lam, mu))
    &&& m.idle_probability.inv() && q_eq(m.idle_probability@, idle_prob_spec(lam, mu, c, k))
    &&& m.state_probabilities@.len() == c + 1
    &&& forall|i: int|
        0 <= i < m.state_probabilities@.len() ==> (#[trigger] m.state_probabilities@[i]).inv()
            && q_eq(m.state_probabilities@[i]@, state_prob_spec(lam, mu, c, k, i as nat))
    &&& m.queue_probabilities@.len() == k
    &&& forall|i: int|
        0 <= i < m.queue_probabilities@.len() ==> (#[trigger] m.queue_probabilities@[i]).inv()
            && q_eq(m.queue_probabilities@[i]@, state_prob_spec(lam, mu, c, k, (c + 1 + i) as nat))
    &&& m.rejection_probability.inv() && q_eq(
        m.rejection_probability@,
        rejection_prob_spec(lam, mu, c, k),
    )
    &&& m.average_incoming_requests.inv() && q_eq(
        m.average_incoming_requests@,
        q_mul(lam, qs.time@),
    )
    &&& m.average_service_time.inv() && q_eq(m.average_service_time@, q_div(q_one(), mu))
    &&& m.average_service_time_per_channel.inv() && q_eq(
        m.average_service_time_per_channel@,
        q_mul(rho_spec(lam, mu), qs.time@),
    )
    &&& m.average_busy_channels.inv() && q_eq(
        m.average_busy_channels@,
        busy_sum_spec(lam, mu, c, k, c + k + 1),
    )
    &&& m.average_queue_length.inv() && q_eq(m.average_queue_length@, queue_len_spec(lam, mu, c, k))
    &&& m.average_waiting_time_in_queue.inv() && q_eq(
        m.average_waiting_time_in_queue@,
        queue_wait_spec(lam, mu, c, k),
    )
    &&& m.total_requests.inv() && q_eq(m.total_requests@, total_requests_spec(lam, mu, c, k))
    &&& m.average_waiting_time.inv() && q_eq(
        m.average_waiting_time@,
        system_wait_spec(lam, mu, c, k),
    )
    &&& m.average_time_in_system.inv() && q_eq(
        m.average_time_in_system@,
        system_wait_spec(lam, mu, c, k),
    )
}

/// Some canonical intermediate of some metric leaves the representable
/// range; this is the one way the full record can fail besides the
/// domain error.
pub open spec fn metrics_overflow(qs: QueuingSystem) -> bool {
    let lam = qs.lambda_rate@;
    let mu = qs.mu_rate@;
    let c = qs.num_channels as nat;
    let k = qs.queue_size as nat;
    ||| !q_fits(q_norm(rho_spec(lam, mu)))
    ||| idle_prob_overflows(lam, mu, c, k)
    ||| state_probs_overflow(lam, mu, c, k)
    ||| queue_probs_overflow(lam, mu, c, k)
    ||| rejection_overflows(lam, mu, c, k)
    ||| !q_fits(q_norm(q_mul(lam, qs.time@)))
    ||| !q_fits(q_norm(q_div(q_one(), mu)))
    ||| !q_fits(q_norm(q_mul(rho_spec(lam, mu), qs.time@)))
    ||| busy_overflows(lam, mu, c, k)
    ||| queue_len_overflows(lam, mu, c, k)
    ||| queue_wait_overflows(lam, mu, c, k)
    ||| total_requests_overflows(lam, mu, c, k)
    ||| system_wait_overflows(lam, mu, c, k)
}

impl QueuingSystem {
    /// Compute the full metric record.  The record is produced whole or
    /// not at all: the domain error is reported exactly when the load
    /// factor equals the channel count, the overflow error only when a
    /// canonical intermediate of some metric leaves the representable
    /// range, and no partial record is ever returned.
    pub fn calculate_metrics(&self) -> (r: Result<SteadyStateMetrics, Error>)
        requires
            self.valid(),
        ensures
            (r matches Err(e) && e == Error::UndefinedResult) <==> q_eq(
                rho_spec(self.lambda_rate@, self.mu_rate@),
                q_int(self.num_channels as int),
            ),
            (r matches Err(e) && e == Error::Overflow) ==> metrics_overflow(*self),
            match r {
                Ok(m) => metrics_match(*self, m),
                Err(e) => e == Error::UndefinedResult || e == Error::Overflow,
            },
    {
        let load_factor = match load_factor_checked(
            &self.lambda_rate,
            &self.mu_rate,
            self.num_channels,
        ) {
            Ok(x) => x,
            Err(e) => {
                return Err(e);
            },
        };
        let idle_probability = match self.calculate_probability_of_downtime() {
            Ok(x) => x,
            Err(e) => {
                return Err(e);
            },
        };
        let state_probabilities = match self.calculate_probabilities() {
            Ok(x) => x,
            Err(e) => {
                return Err(e);
            },
        };
        let queue_probabilities = match self.calculate_queue_probabilities() {
            Ok(x) => x,
            Err(e) => {
                return Err(e);
            },
        };
        let rejection_probability = match self.calculate_rejection_probability() {
            Ok(x) => x,
            Err(e) => {
                return Err(e);
            },
        };
        let average_incoming_requests = match self.calculate_average_incoming_requests_during_t() {
            Ok(x) => x,
            Err(e) => {
                return Err(e);
            },
        };
        let average_service_time = match self.calculate_average_service_time_per_request() {
            Ok(x) => x,
            Err(e) => {
                return Err(e);
            },
        };
        let average_service_time_per_channel = match self.average_service_time_per_channel_for_t() {
            Ok(x) => x,
            Err(e) => {
                return Err(e);
            },
        };
        let average_busy_channels = match self.calculate_average_busy_channels() {
            Ok(x) => x,
            Err(e) => {
                return Err(e);
            },
        };
        let average_queue_length = match self.calculate_average_number_of_requests_in_queue() {
            Ok(x) => x,
            Err(e) => {
                return Err(e);
            },
        };
        let average_waiting_time_in_queue = match self.calculate_average_waiting_time_in_queue() {
            Ok(x) => x,
            Err(e) => {
                return Err(e);
            },
        };
        let total_requests = match self.calculate_total_number_of_requests() {
            Ok(x) => x,
            Err(e) => {
                return Err(e);
            },
        };
        let average_waiting_time = match self.calculate_average_waiting_time() {
            Ok(x) => x,
            Err(e) => {
                return Err(e);
            },
        };
        let average_time_in_system = match self.calculate_average_time_in_system() {
            Ok(x) => x,
            Err(e) => {
                return Err(e);
            },
        };
        Ok(
            SteadyStateMetrics {
                load_factor,
                idle_probability,
                state_probabilities,
                queue_probabilities,
                rejection_probability,
                average_incoming_requests,
                average_service_time,
                average_service_time_per_channel,
                average_busy_channels,
                average_queue_length,
                average_waiting_time_in_queue,
                total_requests,
                average_waiting_time,
                average_time_in_system,
            },
        )
    }
}

/// Two canonical rationals pinned to the same denoted value are equal as
/// bit patterns.
proof fn lemma_rat_pinned(a: Rational, b: Rational, g: Q)
    requires
        a.inv(),
        b.inv(),
        q_wf(g),
        q_eq(a@, g),
        q_eq(b@, g),
    ensures
        a == b,
{
    lemma_q_eq_trans(a@, g, b@);
    lemma_canonical_unique(a@, b@);
    assert(a.num as int == b.num as int && a.den as int == b.den as int);
}

/// The steady-state analyzer is idempotent: any two metric records that
/// report the closed-form values of the same parameters are bit-identical,
/// field by field.  Together with `calculate_metrics`, whose result is
/// pinned to those values, two calls with identical parameters can only
/// produce identical records.
pub proof fn lemma_analyzer_deterministic(
    qs: QueuingSystem,
    m1: SteadyStateMetrics,
    m2: SteadyStateMetrics,
)
    requires
        qs.valid(),
        metrics_match(qs, m1),
        metrics_match(qs, m2),
    ensures
        m1.load_factor == m2.load_factor,
        m1.idle_probability == m2.idle_probability,
        m1.state_probabilities@ == m2.state_probabilities@,
        m1.queue_probabilities@ == m2.queue_probabilities@,
        m1.rejection_probability == m2.rejection_probability,
        m1.average_incoming_requests == m2.average_incoming_requests,
        m1.average_service_time == m2.average_service_time,
        m1.average_service_time_per_channel == m2.average_service_time_per_channel,
        m1.average_busy_channels == m2.average_busy_channels,
        m1.average_queue_length == m2.average_queue_length,
        m1.average_waiting_time_in_queue == m2.average_waiting_time_in_queue,
        m1.total_requests == m2.total_requests,
        m1.average_waiting_time == m2.average_waiting_time,
        m1.average_time_in_system == m2.average_time_in_system,
{
    let lam = qs.lambda_rate@;
    let mu = qs.mu_rate@;
    let c = qs.num_channels as nat;
    let k = qs.queue_size as nat;
    lemma_q_div_pos(lam, mu);
    lemma_idle_prob_pos(lam, mu, c, k);
    lemma_chan_factor_pos(c);
    lemma_q_div_pos(rho_spec(lam, mu), q_int(c as int));
    lemma_q_pow_pos(q_div(rho_spec(lam, mu), q_int(c as int)), k + c);
    lemma_q_mul_pos(idle_prob_spec(lam, mu, c, k), chan_factor(c));
    lemma_q_mul_pos(
        q_mul(idle_prob_spec(lam, mu, c, k), chan_factor(c)),
        q_pow(q_div(rho_spec(lam, mu), q_int(c as int)), k + c),
    );
    lemma_rat_pinned(m1.load_factor, m2.load_factor, rho_spec(lam, mu));
    lemma_rat_pinned(m1.idle_probability, m2.idle_probability, idle_prob_spec(lam, mu, c, k));
    assert forall|i: int|
        0 <= i < m1.state_probabilities@.len() implies #[trigger] m1.state_probabilities@[i]
        == m2.state_probabilities@[i] by {
        lemma_state_prob_pos(lam, mu, c, k, i as nat);
        lemma_rat_pinned(
            m1.state_probabilities@[i],
            m2.state_probabilities@[i],
            state_prob_spec(lam, mu, c, k, i as nat),
        );
    }
    assert(m1.state_probabilities@ =~= m2.state_probabilities@);
    assert forall|i: int|
        0 <= i < m1.queue_probabilities@.len() implies #[trigger] m1.queue_probabilities@[i]
        == m2.queue_probabilities@[i] by {
        lemma_state_prob_pos(lam, mu, c, k, (c + 1 + i) as nat);
        lemma_rat_pinned(
            m1.queue_probabilities@[i],
            m2.queue_probabilities@[i],
            state_prob_spec(lam, mu, c, k, (c + 1 + i) as nat),
        );
    }
    assert(m1.queue_probabilities@ =~= m2.queue_probabilities@);
    lemma_rat_pinned(
        m1.rejection_probability,
        m2.rejection_probability,
        rejection_prob_spec(lam, mu, c, k),
    );
    lemma_q_mul_wf(lam, qs.time@);
    lemma_rat_pinned(
        m1.average_incoming_requests,
        m2.average_incoming_requests,
        q_mul(lam, qs.time@),
    );
    lemma_q_div_pos(q_one(), mu);
    lemma_rat_pinned(m1.average_service_time, m2.average_service_time, q_div(q_one(), mu));
    lemma_q_mul_wf(rho_spec(lam, mu), qs.time@);
    lemma_rat_pinned(
        m1.average_service_time_per_channel,
        m2.average_service_time_per_channel,
        q_mul(rho_spec(lam, mu), qs.time@),
    );
    lemma_busy_sum_wf(lam, mu, c, k, c + k + 1);
    lemma_rat_pinned(
        m1.average_busy_channels,
        m2.average_busy_channels,
        busy_sum_spec(lam, mu, c, k, c + k + 1),
    );
    lemma_queue_len_wf(lam, mu, c, k);
    lemma_rat_pinned(m1.average_queue_length, m2.average_queue_length, queue_len_spec(lam, mu, c, k));
    lemma_q_div_congr(queue_len_spec(lam, mu, c, k), lam, queue_len_spec(lam, mu, c, k), lam);
    lemma_rat_pinned(
        m1.average_waiting_time_in_queue,
        m2.average_waiting_time_in_queue,
        queue_wait_spec(lam, mu, c, k),
    );
    lemma_total_requests_wf(lam, mu, c, k);
    lemma_rat_pinned(m1.total_requests, m2.total_requests, total_requests_spec(lam, mu, c, k));
    lemma_q_div_congr(
        total_requests_spec(lam, mu, c, k),
        lam,
        total_requests_spec(lam, mu, c, k),
        lam,
    );
    lemma_rat_pinned(m1.average_waiting_time, m2.average_waiting_time, system_wait_spec(lam, mu, c, k));
    lemma_rat_pinned(
        m1.average_time_in_system,
        m2.average_time_in_system,
        system_wait_spec(lam, mu, c, k),
    );
}

} // verus!
