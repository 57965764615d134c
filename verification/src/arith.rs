//! Number-theoretic groundwork: the Euclidean gcd, Bezout
//! coefficients, and exact-division facts used to keep rationals in
//! lowest terms.

use vstd::prelude::*;

verus! {

use vstd::arithmetic::div_mod::{
    lemma_fundamental_div_mod, lemma_mod_self_0, lemma_small_mod, lemma_mod_multiples_basic,
    lemma_div_multiples_vanish, lemma_div_nonincreasing, lemma_div_of0, lemma_div_by_self,
};

/// Greatest common divisor, by the Euclidean recursion.
pub open spec fn gcd(a: nat, b: nat) -> nat
    decreases b,
{
    if b == 0 {
        a
    } else {
        gcd(b, a % b)
    }
}

/// The gcd of two numbers that are not both zero is positive, and it
/// divides both of them.
pub proof fn lemma_gcd_divides(a: nat, b: nat)
    requires
        a > 0 || b > 0,
    ensures
        gcd(a, b) > 0,
        a as int % (gcd(a, b) as int) == 0,
        b as int % (gcd(a, b) as int) == 0,
    decreases b,
{
    let g = gcd(a, b) as int;
    if b == 0 {
        lemma_mod_self_0(a as int);
        lemma_small_mod(0, a);
    } else {
        lemma_gcd_divides(b, a % b);
        lemma_fundamental_div_mod(a as int, b as int);
        lemma_fundamental_div_mod(b as int, g);
        lemma_fundamental_div_mod((a % b) as int, g);
        let q = a as int / b as int;
        let qb = b as int / g;
        let qr = (a % b) as int / g;
        assert(a as int == (q * qb + qr) * g) by (nonlinear_arith)
            requires
                a as int == b as int * q + (a % b) as int,
                b as int == g * qb,
                (a % b) as int == g * qr,
        ;
        lemma_mod_multiples_basic(q * qb + qr, g);
    }
}

/// Bezout coefficients: the gcd is an integer combination of its arguments.
pub proof fn lemma_bezout(a: nat, b: nat) -> (st: (int, int))
    ensures
        gcd(a, b) == a * st.0 + b * st.1,
    decreases b,
{
    if b == 0 {
        assert(gcd(a, b) == a * 1int + b * 0int) by (nonlinear_arith)
            requires
                gcd(a, b) == a,
                b == 0,
        ;
        (1int, 0int)
    } else {
        let (s, t) = lemma_bezout(b, a % b);
        lemma_fundamental_div_mod(a as int, b as int);
        let q = a as int / b as int;
        assert(b * s + (a % b) * t == a * t + b * (s - q * t)) by (nonlinear_arith)
            requires
                (a % b) as int == a as int - b as int * q,
        ;
        (t, s - q * t)
    }
}

/// Dividing two numbers by their gcd leaves a coprime pair.
pub proof fn lemma_gcd_quotients_coprime(a: nat, b: nat)
    requires
        b > 0,
    ensures
        ({
            let g = gcd(a, b) as int;
            gcd((a as int / g) as nat, (b as int / g) as nat) == 1
        }),
{
    let g = gcd(a, b) as int;
    lemma_gcd_divides(a, b);
    lemma_fundamental_div_mod(a as int, g);
    lemma_fundamental_div_mod(b as int, g);
    let qa = a as int / g;
    let qb = b as int / g;
    assert(a as int == g * qa && b as int == g * qb);
    assert(qa >= 0 && qb >= 1) by (nonlinear_arith)
        requires
            a as int == g * qa,
            b as int == g * qb,
            g > 0,
            a >= 0,
            b > 0,
    ;
    let g2 = gcd(qa as nat, qb as nat) as int;
    lemma_gcd_divides(qa as nat, qb as nat);
    lemma_fundamental_div_mod(qa, g2);
    lemma_fundamental_div_mod(qb, g2);
    let ka = qa / g2;
    let kb = qb / g2;
    let (s, t) = lemma_bezout(a, b);
    let m = ka * s + kb * t;
    assert(g == g * (qa * s + qb * t)) by (nonlinear_arith)
        requires
            g == a * s + b * t,
            a as int == g * qa,
            b as int == g * qb,
    ;
    assert(qa * s + qb * t == g2 * m) by (nonlinear_arith)
        requires
            qa == g2 * ka,
            qb == g2 * kb,
            m == ka * s + kb * t,
    ;
    assert(g2 * m == 1) by (nonlinear_arith)
        requires
            g == g * (g2 * m),
            g > 0,
    ;
    assert(g2 == 1) by (nonlinear_arith)
        requires
            g2 >= 1,
            g2 * m == 1,
    ;
}

/// Exact division of a negated multiple: if `g` divides `m`, then
/// `(-m) / g` is the negation of `m / g`.
pub proof fn lemma_div_neg_exact(m: int, g: int)
    requires
        g > 0,
        m >= 0,
        m % g == 0,
    ensures
        (-m) / g == -(m / g),
{
    lemma_fundamental_div_mod(m, g);
    let k = m / g;
    assert(-m == g * (-k)) by (nonlinear_arith)
        requires
            m == g * k,
    ;
    lemma_div_multiples_vanish(-k, g);
}

/// The gcd of any number with one is one.
pub proof fn lemma_gcd_one(a: nat)
    ensures
        gcd(a, 1) == 1,
{
    lemma_small_mod(0, 1);
    assert(gcd(a, 1) == gcd(1, a % 1));
    assert(a % 1 == 0) by {
        lemma_fundamental_div_mod(a as int, 1);
        lemma_mod_multiples_basic(a as int, 1);
    }
    assert(gcd(1, 0) == 1);
}

/// The gcd of zero with a positive number is that number.
pub proof fn lemma_gcd_zero(d: nat)
    requires
        d > 0,
    ensures
        gcd(0, d) == d,
{
    lemma_small_mod(0, d);
    assert(gcd(0, d) == gcd(d, 0nat % d));
}

} // verus!
