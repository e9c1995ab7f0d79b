//! The mathematical model of exact rational numbers.
//!
//! A `Rat` is an integer pair; it is well-formed when its denominator is
//! positive, and two pairs denote the same rational exactly when they agree
//! under cross-multiplication.  All coefficient contracts of the crate speak
//! in this model.

use vstd::prelude::*;

verus! {

/// A rational number `n / d` as an unreduced integer pair.
pub ghost struct Rat {
    pub n: int,
    pub d: int,
}

/// Well-formed rationals keep the denominator positive.
pub open spec fn rat_wf(a: Rat) -> bool {
    a.d > 0
}

/// Two pairs denote the same rational: `a.n / a.d == b.n / b.d`.
pub open spec fn rat_eqv(a: Rat, b: Rat) -> bool {
    a.n * b.d == b.n * a.d
}

pub open spec fn rat_int(i: int) -> Rat {
    Rat { n: i, d: 1 }
}

pub open spec fn rat_add(a: Rat, b: Rat) -> Rat {
    Rat { n: a.n * b.d + b.n * a.d, d: a.d * b.d }
}

pub open spec fn rat_mul(a: Rat, b: Rat) -> Rat {
    Rat { n: a.n * b.n, d: a.d * b.d }
}

pub open spec fn rat_neg(a: Rat) -> Rat {
    Rat { n: -a.n, d: a.d }
}

pub open spec fn rat_abs(a: Rat) -> Rat {
    Rat {
        n: if a.n >= 0 {
            a.n
        } else {
            -a.n
        },
        d: a.d,
    }
}

/// Division keeps the denominator positive by moving the divisor's sign into
/// the numerator; meaningful only for a nonzero divisor.
pub open spec fn rat_div(a: Rat, b: Rat) -> Rat {
    if b.n >= 0 {
        Rat { n: a.n * b.d, d: a.d * b.n }
    } else {
        Rat { n: -(a.n * b.d), d: a.d * -b.n }
    }
}

pub open spec fn rat_is_zero(a: Rat) -> bool {
    a.n == 0
}

pub proof fn lemma_eqv_transitive(a: Rat, b: Rat, c: Rat)
    requires
        rat_wf(a),
        rat_wf(b),
        rat_wf(c),
        rat_eqv(a, b),
        rat_eqv(b, c),
    ensures
        rat_eqv(a, c),
{
    assert((a.n * b.d) * c.d == (b.n * a.d) * c.d) by (nonlinear_arith)
        requires
            a.n * b.d == b.n * a.d,
    ;
    assert((b.n * c.d) * a.d == (c.n * b.d) * a.d) by (nonlinear_arith)
        requires
            b.n * c.d == c.n * b.d,
    ;
    assert(a.n * c.d == c.n * a.d) by (nonlinear_arith)
        requires
            (a.n * b.d) * c.d == (b.n * a.d) * c.d,
            (b.n * c.d) * a.d == (c.n * b.d) * a.d,
            b.d > 0,
    ;
}

/// Equivalent rationals are zero together.
pub proof fn lemma_eqv_zero(a: Rat, b: Rat)
    requires
        rat_wf(a),
        rat_wf(b),
        rat_eqv(a, b),
    ensures
        rat_is_zero(a) <==> rat_is_zero(b),
{
    assert((a.n == 0) <==> (b.n == 0)) by (nonlinear_arith)
        requires
            a.n * b.d == b.n * a.d,
            a.d > 0,
            b.d > 0,
    ;
}

/// Addition respects the equivalence.
pub proof fn lemma_add_congruence(a1: Rat, a2: Rat, b1: Rat, b2: Rat)
    requires
        rat_wf(a1),
        rat_wf(a2),
        rat_wf(b1),
        rat_wf(b2),
        rat_eqv(a1, a2),
        rat_eqv(b1, b2),
    ensures
        rat_eqv(rat_add(a1, b1), rat_add(a2, b2)),
{
    assert((a1.n * b1.d) * (a2.d * b2.d) == (a2.n * b2.d) * (a1.d * b1.d)) by (nonlinear_arith)
        requires
            a1.n * a2.d == a2.n * a1.d,
    ;
    assert((b1.n * a1.d) * (a2.d * b2.d) == (b2.n * a2.d) * (a1.d * b1.d)) by (nonlinear_arith)
        requires
            b1.n * b2.d == b2.n * b1.d,
    ;
    assert((a1.n * b1.d + b1.n * a1.d) * (a2.d * b2.d) == (a2.n * b2.d + b2.n * a2.d) * (a1.d
        * b1.d)) by (nonlinear_arith)
        requires
            (a1.n * b1.d) * (a2.d * b2.d) == (a2.n * b2.d) * (a1.d * b1.d),
            (b1.n * a1.d) * (a2.d * b2.d) == (b2.n * a2.d) * (a1.d * b1.d),
    ;
}

/// Multiplication respects the equivalence.
pub proof fn lemma_mul_congruence(a1: Rat, a2: Rat, b1: Rat, b2: Rat)
    requires
        rat_eqv(a1, a2),
        rat_eqv(b1, b2),
    ensures
        rat_eqv(rat_mul(a1, b1), rat_mul(a2, b2)),
{
    assert((a1.n * b1.n) * (a2.d * b2.d) == (a2.n * b2.n) * (a1.d * b1.d)) by (nonlinear_arith)
        requires
            a1.n * a2.d == a2.n * a1.d,
            b1.n * b2.d == b2.n * b1.d,
    ;
}

pub proof fn lemma_neg_congruence(a: Rat, b: Rat)
    requires
        rat_eqv(a, b),
    ensures
        rat_eqv(rat_neg(a), rat_neg(b)),
{
    assert((-a.n) * b.d == (-b.n) * a.d) by (nonlinear_arith)
        requires
            a.n * b.d == b.n * a.d,
    ;
}

pub proof fn lemma_abs_congruence(a: Rat, b: Rat)
    requires
        rat_wf(a),
        rat_wf(b),
        rat_eqv(a, b),
    ensures
        rat_eqv(rat_abs(a), rat_abs(b)),
{
    assert((a.n >= 0) <==> (b.n >= 0)) by (nonlinear_arith)
        requires
            a.n * b.d == b.n * a.d,
            a.d > 0,
            b.d > 0,
    ;
    if a.n < 0 {
        assert((-a.n) * b.d == (-b.n) * a.d) by (nonlinear_arith)
            requires
                a.n * b.d == b.n * a.d,
        ;
    }
}

/// Division respects the equivalence, for nonzero divisors.
pub proof fn lemma_div_congruence(a1: Rat, a2: Rat, b1: Rat, b2: Rat)
    requires
        rat_wf(a1),
        rat_wf(a2),
        rat_wf(b1),
        rat_wf(b2),
        !rat_is_zero(b1),
        rat_eqv(a1, a2),
        rat_eqv(b1, b2),
    ensures
        rat_eqv(rat_div(a1, b1), rat_div(a2, b2)),
{
    lemma_eqv_zero(b1, b2);
    assert((b1.n >= 0) <==> (b2.n >= 0)) by (nonlinear_arith)
        requires
            b1.n * b2.d == b2.n * b1.d,
            b1.d > 0,
            b2.d > 0,
    ;
    assert((a1.n * b1.d) * (a2.d * b2.n) == (a2.n * b2.d) * (a1.d * b1.n)) by (nonlinear_arith)
        requires
            a1.n * a2.d == a2.n * a1.d,
            b1.n * b2.d == b2.n * b1.d,
    ;
    if b1.n < 0 {
        assert(-(a1.n * b1.d) * (a2.d * -b2.n) == -(a2.n * b2.d) * (a1.d * -b1.n))
            by (nonlinear_arith)
            requires
                (a1.n * b1.d) * (a2.d * b2.n) == (a2.n * b2.d) * (a1.d * b1.n),
        ;
    }
}

/// The result of a well-formed addition is well-formed, and so on for the
/// other operations.
pub proof fn lemma_ops_wf(a: Rat, b: Rat)
    requires
        rat_wf(a),
        rat_wf(b),
    ensures
        rat_wf(rat_add(a, b)),
        rat_wf(rat_mul(a, b)),
        rat_wf(rat_neg(a)),
        rat_wf(rat_abs(a)),
        !rat_is_zero(b) ==> rat_wf(rat_div(a, b)),
{
    assert(a.d * b.d > 0) by (nonlinear_arith)
        requires
            a.d > 0,
            b.d > 0,
    ;
    if b.n > 0 {
        assert(a.d * b.n > 0) by (nonlinear_arith)
            requires
                a.d > 0,
                b.n > 0,
        ;
    }
    if b.n < 0 {
        assert(a.d * -b.n > 0) by (nonlinear_arith)
            requires
                a.d > 0,
                b.n < 0,
        ;
    }
}

/// Addition is associative, as exact pairs.
#[verifier::rlimit(50)]
pub proof fn lemma_add_associates(a: Rat, b: Rat, c: Rat)
    ensures
        rat_add(rat_add(a, b), c) == rat_add(a, rat_add(b, c)),
{
    assert((a.n * b.d + b.n * a.d) * c.d + c.n * (a.d * b.d) == a.n * (b.d * c.d) + (b.n * c.d
        + c.n * b.d) * a.d) by (nonlinear_arith);
    assert((a.d * b.d) * c.d == a.d * (b.d * c.d)) by (nonlinear_arith);
}

/// The order of two additions onto the same value does not matter, as exact
/// pairs.
#[verifier::rlimit(50)]
pub proof fn lemma_add_rotates(a: Rat, x: Rat, y: Rat)
    ensures
        rat_add(rat_add(a, x), y) == rat_add(rat_add(a, y), x),
{
    assert((a.n * x.d + x.n * a.d) * y.d == (a.n * x.d) * y.d + (x.n * a.d) * y.d)
        by (nonlinear_arith);
    assert((a.n * y.d + y.n * a.d) * x.d == (a.n * y.d) * x.d + (y.n * a.d) * x.d)
        by (nonlinear_arith);
    assert((a.n * x.d) * y.d == (a.n * y.d) * x.d) by (nonlinear_arith);
    assert((x.n * a.d) * y.d == x.n * (a.d * y.d)) by (nonlinear_arith);
    assert(y.n * (a.d * x.d) == (y.n * a.d) * x.d) by (nonlinear_arith);
    assert((a.d * x.d) * y.d == (a.d * y.d) * x.d) by (nonlinear_arith);
}


} // verus!
