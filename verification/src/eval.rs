//! The evaluator: a pure recursive interpretation of an expression tree
//! against a metric, producing a merged polynomial or a typed failure that
//! carries the source ranges to underline.

use vstd::prelude::*;

use crate::basis::{axis_blade, product_bits, product_defined, product_sign, Basis};
use crate::expr::{expr_wf, Binary, Expr, Span, Spanned, Unary};
use crate::metric::{Metric, Square};
use crate::monomial::{
    sign_rat, term_inverse_fails, term_power_fails, term_zero, Monomial, Product, Term,
};
use crate::polynomial::{
    coeffs_wf, conjugated_terms, dual_terms, inverted_terms, involuted_terms, merge_terms, merged,
    negated_terms, norms_sum, pair_products, powered_terms, reversed_terms, terms_equiv_seq,
    Polynomial,
};
use crate::rat::{rat_eqv, rat_int, rat_neg, rat_wf, Rat};
use crate::rational::Rational;
use crate::sign::Sign;
use crate::symbols::syms_overflow;

verus! {

/// A failed evaluation: the source ranges of the undefined parts.
#[derive(Debug)]
pub struct Undefined(pub Vec<Span>);

/// A scalar term: a bare coefficient on the scalar basis.
pub open spec fn scalar_term(c: Rat, n: nat) -> Term {
    Term { c, s: Map::empty(), b: Seq::new(n, |i: int| false) }
}

/// What an evaluation denotes: a sum of terms, or the failing source spans.
pub ghost enum Outcome {
    Value { ts: Seq<Term> },
    Undef { spans: Seq<Span> },
}

/// Folding the listed axes through the geometric product, left to right;
/// `None` as soon as two copies of a null axis have met.
pub open spec fn axes_fold(ixs: Seq<usize>, n: nat, m: Seq<Square>) -> Option<(Sign, Seq<bool>)>
    decreases ixs.len(),
{
    if ixs.len() == 0 {
        Some((Sign::Pos, Seq::new(n, |i: int| false)))
    } else {
        match axes_fold(ixs.drop_last(), n, m) {
            None => None,
            Some(acc) => {
                let axis = axis_blade(n, ixs.last() as int);
                if product_defined(acc.1, axis, m) {
                    Some(
                        (
                            product_sign(acc.1, axis, m).spec_times(acc.0),
                            product_bits(acc.1, axis),
                        ),
                    )
                } else {
                    None
                }
            },
        }
    }
}

/// Once the fold vanished, it stays vanished.
proof fn lemma_axes_fold_none(ixs: Seq<usize>, k: int, n: nat, m: Seq<Square>)
    requires
        0 <= k <= ixs.len(),
        axes_fold(ixs.take(k), n, m) is None,
    ensures
        axes_fold(ixs, n, m) is None,
    decreases ixs.len() - k,
{
    if k < ixs.len() {
        assert(ixs.take(k + 1).drop_last() =~= ixs.take(k));
        lemma_axes_fold_none(ixs, k + 1, n, m);
    } else {
        assert(ixs.take(k) =~= ixs);
    }
}

/// A binary product node's outcome: undefined on an exponent overflow, the
/// merged pairwise products otherwise.
pub open spec fn product_outcome(
    kind: Product,
    lt: Seq<Term>,
    rt: Seq<Term>,
    span: Span,
    m: Seq<Square>,
) -> Outcome {
    if exists|i: int, j: int|
        0 <= i < lt.len() && 0 <= j < rt.len() && crate::monomial::kind_defined(
            kind,
            (#[trigger] lt[i]).b,
            (#[trigger] rt[j]).b,
            m,
        ) && syms_overflow(lt[i].s, rt[j].s) {
        Outcome::Undef { spans: seq![span] }
    } else {
        Outcome::Value { ts: merge_terms(pair_products(lt, rt, kind, m)) }
    }
}

/// A binary node's outcome from its children's values.
pub open spec fn binary_outcome(
    op: Binary,
    lt: Seq<Term>,
    rt: Seq<Term>,
    span: Span,
    m: Seq<Square>,
) -> Outcome {
    match op {
        Binary::Geometric => product_outcome(Product::Geometric, lt, rt, span, m),
        Binary::Exterior => product_outcome(Product::Exterior, lt, rt, span, m),
        Binary::Regressive => product_outcome(Product::Regressive, lt, rt, span, m),
        Binary::LeftContraction => product_outcome(Product::LeftContraction, lt, rt, span, m),
        Binary::RightContraction => product_outcome(Product::RightContraction, lt, rt, span, m),
        Binary::Inner => product_outcome(Product::Inner, lt, rt, span, m),
        Binary::Scalar => product_outcome(Product::Scalar, lt, rt, span, m),
        Binary::Add => Outcome::Value { ts: merge_terms(lt + rt) },
        Binary::Sub => Outcome::Value { ts: merge_terms(lt + negated_terms(rt)) },
        Binary::Divide => {
            if exists|i: int| 0 <= i < rt.len() && term_inverse_fails(#[trigger] rt[i], m) {
                Outcome::Undef { spans: seq![span] }
            } else {
                product_outcome(
                    Product::Geometric,
                    lt,
                    merge_terms(inverted_terms(rt, m)),
                    span,
                    m,
                )
            }
        },
    }
}

/// A power node's outcome from its base's value.
pub open spec fn power_outcome(ts: Seq<Term>, e: int, span: Span, m: Seq<Square>) -> Outcome {
    if exists|i: int| 0 <= i < ts.len() && term_power_fails(#[trigger] ts[i], e, m) {
        Outcome::Undef { spans: seq![span] }
    } else {
        Outcome::Value { ts: merge_terms(powered_terms(ts, e, m)) }
    }
}

/// A unary node's outcome from its child's value.
pub open spec fn unary_outcome(
    op: Unary,
    xt: Seq<Term>,
    span: Span,
    m: Seq<Square>,
) -> Outcome {
    match op {
        Unary::Neg => Outcome::Value { ts: negated_terms(xt) },
        Unary::Dual => Outcome::Value { ts: merge_terms(dual_terms(xt)) },
        Unary::Reverse => Outcome::Value { ts: merge_terms(reversed_terms(xt)) },
        Unary::Involution => Outcome::Value { ts: merge_terms(involuted_terms(xt)) },
        Unary::Conjugate => Outcome::Value { ts: merge_terms(conjugated_terms(xt)) },
        Unary::Inverse => {
            if exists|i: int| 0 <= i < xt.len() && term_inverse_fails(#[trigger] xt[i], m) {
                Outcome::Undef { spans: seq![span] }
            } else {
                Outcome::Value { ts: merge_terms(inverted_terms(xt, m)) }
            }
        },
    }
}

/// The denotation of an expression under a metric: a depth-first pure
/// interpretation.  A failing operand surfaces its spans; a failing pair of
/// operands surfaces both in order.
pub open spec fn eval_spec(e: Spanned<Expr>, m: Seq<Square>) -> Outcome
    decreases e,
{
    let n = m.len();
    let span = e.1;
    match e.0 {
        Expr::Number(r) => Outcome::Value { ts: seq![scalar_term(r@, n)] },
        Expr::Pseudoscalar => Outcome::Value {
            ts: seq![
                Term { c: rat_int(1), s: Map::empty(), b: Seq::new(n, |i: int| true) },
            ],
        },
        Expr::Basis(v) => {
            if exists|i: int| 0 <= i < v@.len() && (#[trigger] v@[i]) >= n {
                Outcome::Undef { spans: seq![span] }
            } else {
                match axes_fold(v@, n, m) {
                    Some(acc) => Outcome::Value {
                        ts: seq![
                            Term { c: sign_rat(acc.0, rat_int(1)), s: Map::empty(), b: acc.1 },
                        ],
                    },
                    None => Outcome::Value { ts: seq![term_zero(n)] },
                }
            }
        },
        Expr::Unknown(name) => Outcome::Value {
            ts: seq![
                Term {
                    c: rat_int(1),
                    s: Map::<Seq<char>, int>::empty().insert(name@, 1),
                    b: Seq::new(n, |i: int| false),
                },
            ],
        },
        Expr::Bottom => Outcome::Undef { spans: seq![span] },
        Expr::Binary(op, l, r) => {
            let lo = eval_spec(*l, m);
            let ro = eval_spec(*r, m);
            if lo is Undef && ro is Undef {
                Outcome::Undef { spans: lo->spans + ro->spans }
            } else if lo is Undef {
                lo
            } else if ro is Undef {
                ro
            } else {
                binary_outcome(op, lo->ts, ro->ts, span, m)
            }
        },
        Expr::Power(b, e2) => {
            match eval_spec(*b, m) {
                Outcome::Undef { spans } => Outcome::Undef { spans },
                Outcome::Value { ts } => power_outcome(ts, e2 as int, span, m),
            }
        },
        Expr::Unary(op, x) => {
            match eval_spec(*x, m) {
                Outcome::Undef { spans } => Outcome::Undef { spans },
                Outcome::Value { ts } => unary_outcome(op, ts, span, m),
            }
        },
        Expr::Norm(x) => {
            match eval_spec(*x, m) {
                Outcome::Undef { spans } => Outcome::Undef { spans },
                Outcome::Value { ts } => Outcome::Value {
                    ts: seq![scalar_term(norms_sum(ts, m), n)],
                },
            }
        },
    }
}

/// A valid evaluation denotes well-formed coefficients.
pub proof fn lemma_eval_spec_wf(e: Spanned<Expr>, m: Seq<Square>)
    requires
        expr_wf(e.0),
    ensures
        eval_spec(e, m) is Value ==> coeffs_wf(eval_spec(e, m)->ts),
    decreases e,
{
    let n = m.len();
    match e.0 {
        Expr::Number(r) => {
            assert(coeffs_wf(seq![scalar_term(r@, n)])) by {
                assert(seq![scalar_term(r@, n)][0].c == r@);
            }
        },
        Expr::Pseudoscalar => {
            let ts = eval_spec(e, m)->ts;
            assert(coeffs_wf(ts)) by {
                assert(ts[0].c == rat_int(1));
            }
        },
        Expr::Basis(v) => {
            if eval_spec(e, m) is Value {
                let ts = eval_spec(e, m)->ts;
                assert(coeffs_wf(ts)) by {
                    assert(rat_wf(rat_int(1)) && rat_wf(rat_neg(rat_int(1))) && rat_wf(
                        rat_int(0),
                    ));
                    assert(ts.len() == 1);
                }
            }
        },
        Expr::Unknown(_) => {
            let ts = eval_spec(e, m)->ts;
            assert(coeffs_wf(ts)) by {
                assert(ts[0].c == rat_int(1));
            }
        },
        Expr::Bottom => {},
        Expr::Binary(op, l, r) => {
            lemma_eval_spec_wf(*l, m);
            lemma_eval_spec_wf(*r, m);
            let lo = eval_spec(*l, m);
            let ro = eval_spec(*r, m);
            if lo is Value && ro is Value {
                let lt = lo->ts;
                let rt = ro->ts;
                match op {
                    Binary::Add => {
                        assert(coeffs_wf(lt + rt)) by {
                            assert(forall|i: int|
                                0 <= i < lt.len() ==> (lt + rt)[i] == lt[i]);
                            assert(forall|i: int|
                                lt.len() <= i < lt.len() + rt.len() ==> (lt + rt)[i] == rt[i
                                    - lt.len()]);
                        }
                        crate::polynomial::lemma_merge_terms_invariants(lt + rt);
                    },
                    Binary::Sub => {
                        crate::polynomial::lemma_negated_terms_wf(rt);
                        assert(coeffs_wf(lt + negated_terms(rt))) by {
                            assert(forall|i: int|
                                0 <= i < lt.len() ==> (lt + negated_terms(rt))[i] == lt[i]);
                            assert(forall|i: int|
                                lt.len() <= i < lt.len() + rt.len() ==> (lt + negated_terms(
                                    rt,
                                ))[i] == negated_terms(rt)[i - lt.len()]);
                        }
                        crate::polynomial::lemma_merge_terms_invariants(lt + negated_terms(rt));
                    },
                    Binary::Divide => {
                        if !(exists|i: int|
                            0 <= i < rt.len() && term_inverse_fails(#[trigger] rt[i], m)) {
                            crate::polynomial::lemma_inverted_terms_wf(rt, m);
                            crate::polynomial::lemma_merge_terms_invariants(
                                inverted_terms(rt, m),
                            );
                            let dt = merge_terms(inverted_terms(rt, m));
                            crate::polynomial::lemma_pair_products_wf(
                                lt,
                                dt,
                                Product::Geometric,
                                m,
                            );
                            crate::polynomial::lemma_merge_terms_invariants(
                                pair_products(lt, dt, Product::Geometric, m),
                            );
                        }
                    },
                    Binary::Geometric => {
                        lemma_product_outcome_wf(Product::Geometric, lt, rt, e.1, m);
                    },
                    Binary::Exterior => {
                        lemma_product_outcome_wf(Product::Exterior, lt, rt, e.1, m);
                    },
                    Binary::Regressive => {
                        lemma_product_outcome_wf(Product::Regressive, lt, rt, e.1, m);
                    },
                    Binary::LeftContraction => {
                        lemma_product_outcome_wf(Product::LeftContraction, lt, rt, e.1, m);
                    },
                    Binary::RightContraction => {
                        lemma_product_outcome_wf(Product::RightContraction, lt, rt, e.1, m);
                    },
                    Binary::Inner => {
                        lemma_product_outcome_wf(Product::Inner, lt, rt, e.1, m);
                    },
                    Binary::Scalar => {
                        lemma_product_outcome_wf(Product::Scalar, lt, rt, e.1, m);
                    },
                }
            }
        },
        Expr::Power(b, e2) => {
            lemma_eval_spec_wf(*b, m);
            match eval_spec(*b, m) {
                Outcome::Undef { spans } => {},
                Outcome::Value { ts } => {
                    if !(exists|i: int|
                        0 <= i < ts.len() && term_power_fails(#[trigger] ts[i], e2 as int, m)) {
                        crate::polynomial::lemma_powered_terms_wf(ts, e2 as int, m);
                        crate::polynomial::lemma_merge_terms_invariants(
                            powered_terms(ts, e2 as int, m),
                        );
                    }
                },
            }
        },
        Expr::Unary(op, x) => {
            lemma_eval_spec_wf(*x, m);
            match eval_spec(*x, m) {
                Outcome::Undef { spans } => {},
                Outcome::Value { ts } => {
                    match op {
                        Unary::Neg => {
                            crate::polynomial::lemma_negated_terms_wf(ts);
                        },
                        Unary::Dual => {
                            crate::polynomial::lemma_mapped_terms_wf(ts);
                            crate::polynomial::lemma_merge_terms_invariants(dual_terms(ts));
                        },
                        Unary::Reverse => {
                            crate::polynomial::lemma_mapped_terms_wf(ts);
                            crate::polynomial::lemma_merge_terms_invariants(reversed_terms(ts));
                        },
                        Unary::Involution => {
                            crate::polynomial::lemma_mapped_terms_wf(ts);
                            crate::polynomial::lemma_merge_terms_invariants(involuted_terms(ts));
                        },
                        Unary::Conjugate => {
                            crate::polynomial::lemma_mapped_terms_wf(ts);
                            crate::polynomial::lemma_merge_terms_invariants(
                                conjugated_terms(ts),
                            );
                        },
                        Unary::Inverse => {
                            if !(exists|i: int|
                                0 <= i < ts.len() && term_inverse_fails(#[trigger] ts[i], m)) {
                                crate::polynomial::lemma_inverted_terms_wf(ts, m);
                                crate::polynomial::lemma_merge_terms_invariants(
                                    inverted_terms(ts, m),
                                );
                            }
                        },
                    }
                },
            }
        },
        Expr::Norm(x) => {
            lemma_eval_spec_wf(*x, m);
            match eval_spec(*x, m) {
                Outcome::Undef { spans } => {},
                Outcome::Value { ts } => {
                    crate::polynomial::lemma_norms_sum_wf(ts, m);
                    let out = eval_spec(e, m)->ts;
                    assert(coeffs_wf(out)) by {
                        assert(out[0].c == norms_sum(ts, m));
                    }
                },
            }
        },
    }
}

/// A product outcome's value has well-formed coefficients.
proof fn lemma_product_outcome_wf(
    kind: Product,
    lt: Seq<Term>,
    rt: Seq<Term>,
    span: Span,
    m: Seq<Square>,
)
    requires
        coeffs_wf(lt),
        coeffs_wf(rt),
    ensures
        product_outcome(kind, lt, rt, span, m) is Value ==> coeffs_wf(
            product_outcome(kind, lt, rt, span, m)->ts,
        ),
{
    if product_outcome(kind, lt, rt, span, m) is Value {
        crate::polynomial::lemma_pair_products_wf(lt, rt, kind, m);
        crate::polynomial::lemma_merge_terms_invariants(pair_products(lt, rt, kind, m));
    }
}

/// A binary outcome's value has well-formed coefficients.
proof fn lemma_binary_outcome_wf(
    op: Binary,
    lt: Seq<Term>,
    rt: Seq<Term>,
    span: Span,
    m: Seq<Square>,
)
    requires
        coeffs_wf(lt),
        coeffs_wf(rt),
    ensures
        binary_outcome(op, lt, rt, span, m) is Value ==> coeffs_wf(
            binary_outcome(op, lt, rt, span, m)->ts,
        ),
{
    if binary_outcome(op, lt, rt, span, m) is Value {
        match op {
            Binary::Add => {
                assert(coeffs_wf(lt + rt)) by {
                    assert(forall|i: int| 0 <= i < lt.len() ==> (lt + rt)[i] == lt[i]);
                    assert(forall|i: int|
                        lt.len() <= i < lt.len() + rt.len() ==> (lt + rt)[i] == rt[i - lt.len()]);
                }
                crate::polynomial::lemma_merge_terms_invariants(lt + rt);
            },
            Binary::Sub => {
                crate::polynomial::lemma_negated_terms_wf(rt);
                assert(coeffs_wf(lt + negated_terms(rt))) by {
                    assert(forall|i: int|
                        0 <= i < lt.len() ==> (lt + negated_terms(rt))[i] == lt[i]);
                    assert(forall|i: int|
                        lt.len() <= i < lt.len() + rt.len() ==> (lt + negated_terms(rt))[i]
                            == negated_terms(rt)[i - lt.len()]);
                }
                crate::polynomial::lemma_merge_terms_invariants(lt + negated_terms(rt));
            },
            Binary::Divide => {
                crate::polynomial::lemma_inverted_terms_wf(rt, m);
                crate::polynomial::lemma_merge_terms_invariants(inverted_terms(rt, m));
                let dt = merge_terms(inverted_terms(rt, m));
                crate::polynomial::lemma_pair_products_wf(lt, dt, Product::Geometric, m);
                crate::polynomial::lemma_merge_terms_invariants(
                    pair_products(lt, dt, Product::Geometric, m),
                );
            },
            _ => {
                let kind = match op {
                    Binary::Geometric => Product::Geometric,
                    Binary::Exterior => Product::Exterior,
                    Binary::Regressive => Product::Regressive,
                    Binary::LeftContraction => Product::LeftContraction,
                    Binary::RightContraction => Product::RightContraction,
                    Binary::Inner => Product::Inner,
                    _ => Product::Scalar,
                };
                crate::polynomial::lemma_pair_products_wf(lt, rt, kind, m);
                crate::polynomial::lemma_merge_terms_invariants(pair_products(lt, rt, kind, m));
            },
        }
    }
}

/// A unary outcome's value has well-formed coefficients.
proof fn lemma_unary_outcome_wf(op: Unary, xt: Seq<Term>, span: Span, m: Seq<Square>)
    requires
        coeffs_wf(xt),
    ensures
        unary_outcome(op, xt, span, m) is Value ==> coeffs_wf(unary_outcome(op, xt, span, m)->ts),
{
    if unary_outcome(op, xt, span, m) is Value {
        match op {
            Unary::Neg => {
                crate::polynomial::lemma_negated_terms_wf(xt);
            },
            Unary::Dual => {
                crate::polynomial::lemma_mapped_terms_wf(xt);
                crate::polynomial::lemma_merge_terms_invariants(dual_terms(xt));
            },
            Unary::Reverse => {
                crate::polynomial::lemma_mapped_terms_wf(xt);
                crate::polynomial::lemma_merge_terms_invariants(reversed_terms(xt));
            },
            Unary::Involution => {
                crate::polynomial::lemma_mapped_terms_wf(xt);
                crate::polynomial::lemma_merge_terms_invariants(involuted_terms(xt));
            },
            Unary::Conjugate => {
                crate::polynomial::lemma_mapped_terms_wf(xt);
                crate::polynomial::lemma_merge_terms_invariants(conjugated_terms(xt));
            },
            Unary::Inverse => {
                crate::polynomial::lemma_inverted_terms_wf(xt, m);
                crate::polynomial::lemma_merge_terms_invariants(inverted_terms(xt, m));
            },
        }
    }
}

/// A power outcome's value has well-formed coefficients.
proof fn lemma_power_outcome_wf(xt: Seq<Term>, e: int, span: Span, m: Seq<Square>)
    requires
        coeffs_wf(xt),
    ensures
        power_outcome(xt, e, span, m) is Value ==> coeffs_wf(power_outcome(xt, e, span, m)->ts),
{
    if power_outcome(xt, e, span, m) is Value {
        crate::polynomial::lemma_powered_terms_wf(xt, e, m);
        crate::polynomial::lemma_merge_terms_invariants(powered_terms(xt, e, m));
    }
}

/// Product outcomes respect pointwise equivalence of the operands.
proof fn lemma_product_outcome_congruent(
    kind: Product,
    l1: Seq<Term>,
    l2: Seq<Term>,
    r1: Seq<Term>,
    r2: Seq<Term>,
    span: Span,
    m: Seq<Square>,
)
    requires
        coeffs_wf(l1),
        coeffs_wf(l2),
        coeffs_wf(r1),
        coeffs_wf(r2),
        terms_equiv_seq(l1, l2),
        terms_equiv_seq(r1, r2),
    ensures
        product_outcome(kind, l1, r1, span, m) is Value <==> product_outcome(
            kind,
            l2,
            r2,
            span,
            m,
        ) is Value,
        product_outcome(kind, l1, r1, span, m) is Undef ==> product_outcome(
            kind,
            l1,
            r1,
            span,
            m,
        )->spans == product_outcome(kind, l2, r2, span, m)->spans,
        product_outcome(kind, l1, r1, span, m) is Value ==> terms_equiv_seq(
            product_outcome(kind, l1, r1, span, m)->ts,
            product_outcome(kind, l2, r2, span, m)->ts,
        ),
{
    assert((exists|i: int, j: int|
        0 <= i < l1.len() && 0 <= j < r1.len() && crate::monomial::kind_defined(
            kind,
            (#[trigger] l1[i]).b,
            (#[trigger] r1[j]).b,
            m,
        ) && syms_overflow(l1[i].s, r1[j].s)) <==> (exists|i: int, j: int|
        0 <= i < l2.len() && 0 <= j < r2.len() && crate::monomial::kind_defined(
            kind,
            (#[trigger] l2[i]).b,
            (#[trigger] r2[j]).b,
            m,
        ) && syms_overflow(l2[i].s, r2[j].s))) by {
        if exists|i: int, j: int|
            0 <= i < l1.len() && 0 <= j < r1.len() && crate::monomial::kind_defined(
                kind,
                (#[trigger] l1[i]).b,
                (#[trigger] r1[j]).b,
                m,
            ) && syms_overflow(l1[i].s, r1[j].s) {
            let (i, j) = choose|i: int, j: int|
                0 <= i < l1.len() && 0 <= j < r1.len() && crate::monomial::kind_defined(
                    kind,
                    (#[trigger] l1[i]).b,
                    (#[trigger] r1[j]).b,
                    m,
                ) && syms_overflow(l1[i].s, r1[j].s);
            assert(l2[i].b == l1[i].b && l2[i].s == l1[i].s && r2[j].b == r1[j].b && r2[j].s
                == r1[j].s);
        }
        if exists|i: int, j: int|
            0 <= i < l2.len() && 0 <= j < r2.len() && crate::monomial::kind_defined(
                kind,
                (#[trigger] l2[i]).b,
                (#[trigger] r2[j]).b,
                m,
            ) && syms_overflow(l2[i].s, r2[j].s) {
            let (i, j) = choose|i: int, j: int|
                0 <= i < l2.len() && 0 <= j < r2.len() && crate::monomial::kind_defined(
                    kind,
                    (#[trigger] l2[i]).b,
                    (#[trigger] r2[j]).b,
                    m,
                ) && syms_overflow(l2[i].s, r2[j].s);
            assert(l1[i].b == l2[i].b && l1[i].s == l2[i].s && r1[j].b == r2[j].b && r1[j].s
                == r2[j].s);
        }
    }
    if product_outcome(kind, l1, r1, span, m) is Value {
        crate::polynomial::lemma_pair_products_congruent(l1, l2, r1, r2, kind, m);
        crate::polynomial::lemma_pair_products_wf(l1, r1, kind, m);
        crate::polynomial::lemma_pair_products_wf(l2, r2, kind, m);
        crate::polynomial::lemma_merge_terms_congruent(
            pair_products(l1, r1, kind, m),
            pair_products(l2, r2, kind, m),
        );
    }
}

/// Binary outcomes respect pointwise equivalence of the operands.
proof fn lemma_binary_outcome_congruent(
    op: Binary,
    l1: Seq<Term>,
    l2: Seq<Term>,
    r1: Seq<Term>,
    r2: Seq<Term>,
    span: Span,
    m: Seq<Square>,
)
    requires
        coeffs_wf(l1),
        coeffs_wf(l2),
        coeffs_wf(r1),
        coeffs_wf(r2),
        terms_equiv_seq(l1, l2),
        terms_equiv_seq(r1, r2),
    ensures
        binary_outcome(op, l1, r1, span, m) is Value <==> binary_outcome(
            op,
            l2,
            r2,
            span,
            m,
        ) is Value,
        binary_outcome(op, l1, r1, span, m) is Undef ==> binary_outcome(
            op,
            l1,
            r1,
            span,
            m,
        )->spans == binary_outcome(op, l2, r2, span, m)->spans,
        binary_outcome(op, l1, r1, span, m) is Value ==> terms_equiv_seq(
            binary_outcome(op, l1, r1, span, m)->ts,
            binary_outcome(op, l2, r2, span, m)->ts,
        ),
{
    match op {
        Binary::Add => {
            assert(coeffs_wf(l1 + r1) && coeffs_wf(l2 + r2) && terms_equiv_seq(
                l1 + r1,
                l2 + r2,
            )) by {
                lemma_concat_facts(l1, l2, r1, r2);
            }
            crate::polynomial::lemma_merge_terms_congruent(l1 + r1, l2 + r2);
        },
        Binary::Sub => {
            crate::polynomial::lemma_mapped_terms_congruent(r1, r2);
            crate::polynomial::lemma_negated_terms_wf(r1);
            crate::polynomial::lemma_negated_terms_wf(r2);
            assert(coeffs_wf(l1 + negated_terms(r1)) && coeffs_wf(l2 + negated_terms(r2))
                && terms_equiv_seq(l1 + negated_terms(r1), l2 + negated_terms(r2))) by {
                lemma_concat_facts(l1, l2, negated_terms(r1), negated_terms(r2));
            }
            crate::polynomial::lemma_merge_terms_congruent(
                l1 + negated_terms(r1),
                l2 + negated_terms(r2),
            );
        },
        Binary::Divide => {
            assert forall|i: int|
                0 <= i < r1.len() implies (term_inverse_fails(#[trigger] r1[i], m)
                <==> term_inverse_fails(r2[i], m)) by {
                crate::polynomial::lemma_term_fails_congruent(r1[i], r2[i], 0, m);
            }
            if !(exists|i: int| 0 <= i < r1.len() && term_inverse_fails(#[trigger] r1[i], m)) {
                assert(!(exists|i: int|
                    0 <= i < r2.len() && term_inverse_fails(#[trigger] r2[i], m))) by {
                    if exists|i: int|
                        0 <= i < r2.len() && term_inverse_fails(#[trigger] r2[i], m) {
                        let w = choose|w: int|
                            0 <= w < r2.len() && term_inverse_fails(#[trigger] r2[w], m);
                        assert(term_inverse_fails(r1[w], m));
                    }
                }
                crate::polynomial::lemma_inverted_terms_congruent(r1, r2, m);
                crate::polynomial::lemma_inverted_terms_wf(r1, m);
                crate::polynomial::lemma_inverted_terms_wf(r2, m);
                crate::polynomial::lemma_merge_terms_congruent(
                    inverted_terms(r1, m),
                    inverted_terms(r2, m),
                );
                crate::polynomial::lemma_merge_terms_invariants(inverted_terms(r1, m));
                crate::polynomial::lemma_merge_terms_invariants(inverted_terms(r2, m));
                lemma_product_outcome_congruent(
                    Product::Geometric,
                    l1,
                    l2,
                    merge_terms(inverted_terms(r1, m)),
                    merge_terms(inverted_terms(r2, m)),
                    span,
                    m,
                );
            } else {
                assert(exists|i: int|
                    0 <= i < r2.len() && term_inverse_fails(#[trigger] r2[i], m)) by {
                    let w = choose|w: int|
                        0 <= w < r1.len() && term_inverse_fails(#[trigger] r1[w], m);
                    assert(term_inverse_fails(r2[w], m));
                }
            }
        },
        Binary::Geometric => {
            lemma_product_outcome_congruent(Product::Geometric, l1, l2, r1, r2, span, m);
        },
        Binary::Exterior => {
            lemma_product_outcome_congruent(Product::Exterior, l1, l2, r1, r2, span, m);
        },
        Binary::Regressive => {
            lemma_product_outcome_congruent(Product::Regressive, l1, l2, r1, r2, span, m);
        },
        Binary::LeftContraction => {
            lemma_product_outcome_congruent(Product::LeftContraction, l1, l2, r1, r2, span, m);
        },
        Binary::RightContraction => {
            lemma_product_outcome_congruent(Product::RightContraction, l1, l2, r1, r2, span, m);
        },
        Binary::Inner => {
            lemma_product_outcome_congruent(Product::Inner, l1, l2, r1, r2, span, m);
        },
        Binary::Scalar => {
            lemma_product_outcome_congruent(Product::Scalar, l1, l2, r1, r2, span, m);
        },
    }
}

/// Concatenation of equivalent sequences is equivalent, with well-formed
/// coefficients.
proof fn lemma_concat_facts(a1: Seq<Term>, a2: Seq<Term>, b1: Seq<Term>, b2: Seq<Term>)
    requires
        coeffs_wf(a1),
        coeffs_wf(a2),
        coeffs_wf(b1),
        coeffs_wf(b2),
        terms_equiv_seq(a1, a2),
        terms_equiv_seq(b1, b2),
    ensures
        coeffs_wf(a1 + b1),
        coeffs_wf(a2 + b2),
        terms_equiv_seq(a1 + b1, a2 + b2),
{
    assert forall|i: int|
        0 <= i < (a1 + b1).len() implies rat_wf((#[trigger] (a1 + b1)[i]).c) && rat_wf(
        (#[trigger] (a2 + b2)[i]).c,
    ) && rat_eqv((a1 + b1)[i].c, (a2 + b2)[i].c) && (a1 + b1)[i].b == (a2 + b2)[i].b && (a1
        + b1)[i].s == (a2 + b2)[i].s by {
        if i < a1.len() {
            assert((a1 + b1)[i] == a1[i] && (a2 + b2)[i] == a2[i]);
            assert(rat_eqv(a1[i].c, a2[i].c) && a1[i].b == a2[i].b && a1[i].s == a2[i].s);
        } else {
            assert((a1 + b1)[i] == b1[i - a1.len()] && (a2 + b2)[i] == b2[i - a1.len()]);
            assert(rat_eqv(b1[i - a1.len()].c, b2[i - a1.len()].c));
        }
    }
}

/// Unary outcomes respect pointwise equivalence of the operand.
proof fn lemma_unary_outcome_congruent(
    op: Unary,
    x1: Seq<Term>,
    x2: Seq<Term>,
    span: Span,
    m: Seq<Square>,
)
    requires
        coeffs_wf(x1),
        coeffs_wf(x2),
        terms_equiv_seq(x1, x2),
    ensures
        unary_outcome(op, x1, span, m) is Value <==> unary_outcome(op, x2, span, m) is Value,
        unary_outcome(op, x1, span, m) is Undef ==> unary_outcome(op, x1, span, m)->spans
            == unary_outcome(op, x2, span, m)->spans,
        unary_outcome(op, x1, span, m) is Value ==> terms_equiv_seq(
            unary_outcome(op, x1, span, m)->ts,
            unary_outcome(op, x2, span, m)->ts,
        ),
{
    crate::polynomial::lemma_mapped_terms_congruent(x1, x2);
    crate::polynomial::lemma_mapped_terms_wf(x1);
    crate::polynomial::lemma_mapped_terms_wf(x2);
    crate::polynomial::lemma_negated_terms_wf(x1);
    crate::polynomial::lemma_negated_terms_wf(x2);
    match op {
        Unary::Neg => {},
        Unary::Dual => {
            crate::polynomial::lemma_merge_terms_congruent(dual_terms(x1), dual_terms(x2));
        },
        Unary::Reverse => {
            crate::polynomial::lemma_merge_terms_congruent(
                reversed_terms(x1),
                reversed_terms(x2),
            );
        },
        Unary::Involution => {
            crate::polynomial::lemma_merge_terms_congruent(
                involuted_terms(x1),
                involuted_terms(x2),
            );
        },
        Unary::Conjugate => {
            crate::polynomial::lemma_merge_terms_congruent(
                conjugated_terms(x1),
                conjugated_terms(x2),
            );
        },
        Unary::Inverse => {
            assert forall|i: int|
                0 <= i < x1.len() implies (term_inverse_fails(#[trigger] x1[i], m)
                <==> term_inverse_fails(x2[i], m)) by {
                crate::polynomial::lemma_term_fails_congruent(x1[i], x2[i], 0, m);
            }
            if !(exists|i: int| 0 <= i < x1.len() && term_inverse_fails(#[trigger] x1[i], m)) {
                assert(!(exists|i: int|
                    0 <= i < x2.len() && term_inverse_fails(#[trigger] x2[i], m))) by {
                    if exists|i: int|
                        0 <= i < x2.len() && term_inverse_fails(#[trigger] x2[i], m) {
                        let w = choose|w: int|
                            0 <= w < x2.len() && term_inverse_fails(#[trigger] x2[w], m);
                        assert(term_inverse_fails(x1[w], m));
                    }
                }
                crate::polynomial::lemma_inverted_terms_congruent(x1, x2, m);
                crate::polynomial::lemma_inverted_terms_wf(x1, m);
                crate::polynomial::lemma_inverted_terms_wf(x2, m);
                crate::polynomial::lemma_merge_terms_congruent(
                    inverted_terms(x1, m),
                    inverted_terms(x2, m),
                );
            } else {
                assert(exists|i: int|
                    0 <= i < x2.len() && term_inverse_fails(#[trigger] x2[i], m)) by {
                    let w = choose|w: int|
                        0 <= w < x1.len() && term_inverse_fails(#[trigger] x1[w], m);
                    assert(term_inverse_fails(x2[w], m));
                }
            }
        },
    }
}

/// Power outcomes respect pointwise equivalence of the base.
proof fn lemma_power_outcome_congruent(
    x1: Seq<Term>,
    x2: Seq<Term>,
    e: int,
    span: Span,
    m: Seq<Square>,
)
    requires
        coeffs_wf(x1),
        coeffs_wf(x2),
        terms_equiv_seq(x1, x2),
    ensures
        power_outcome(x1, e, span, m) is Value <==> power_outcome(x2, e, span, m) is Value,
        power_outcome(x1, e, span, m) is Undef ==> power_outcome(x1, e, span, m)->spans
            == power_outcome(x2, e, span, m)->spans,
        power_outcome(x1, e, span, m) is Value ==> terms_equiv_seq(
            power_outcome(x1, e, span, m)->ts,
            power_outcome(x2, e, span, m)->ts,
        ),
{
    assert forall|i: int|
        0 <= i < x1.len() implies (term_power_fails(#[trigger] x1[i], e, m) <==> term_power_fails(
        x2[i],
        e,
        m,
    )) by {
        crate::polynomial::lemma_term_fails_congruent(x1[i], x2[i], e, m);
    }
    if !(exists|i: int| 0 <= i < x1.len() && term_power_fails(#[trigger] x1[i], e, m)) {
        assert(!(exists|i: int|
            0 <= i < x2.len() && term_power_fails(#[trigger] x2[i], e, m))) by {
            if exists|i: int| 0 <= i < x2.len() && term_power_fails(#[trigger] x2[i], e, m) {
                let w = choose|w: int|
                    0 <= w < x2.len() && term_power_fails(#[trigger] x2[w], e, m);
                assert(term_power_fails(x1[w], e, m));
            }
        }
        crate::polynomial::lemma_powered_terms_congruent(x1, x2, e, m);
        crate::polynomial::lemma_powered_terms_wf(x1, e, m);
        crate::polynomial::lemma_powered_terms_wf(x2, e, m);
        crate::polynomial::lemma_merge_terms_congruent(
            powered_terms(x1, e, m),
            powered_terms(x2, e, m),
        );
    } else {
        assert(exists|i: int| 0 <= i < x2.len() && term_power_fails(#[trigger] x2[i], e, m)) by {
            let w = choose|w: int| 0 <= w < x1.len() && term_power_fails(#[trigger] x1[w], e, m);
            assert(term_power_fails(x2[w], e, m));
        }
    }
}

/// The node's span alone, as an error value.
fn span_error(span: Span) -> (r: Undefined)
    ensures
        r.0@ == seq![span],
{
    let mut spans: Vec<Span> = Vec::new();
    spans.push(span);
    proof {
        assert(spans@ =~= seq![span]);
    }
    Undefined(spans)
}

/// One product node: the chosen product of the two evaluated operands, or
/// the node's span when an exponent sum overflowed.
fn eval_product(
    kind: Product,
    lp: &Polynomial,
    rp: &Polynomial,
    span: Span,
    metric: &Metric,
) -> (r: Result<Polynomial, Undefined>)
    requires
        lp.wf(),
        rp.wf(),
        lp.dim_ok(metric.0@.len()),
        rp.dim_ok(metric.0@.len()),
    ensures
        match r {
            Ok(p) => product_outcome(kind, lp.terms(), rp.terms(), span, metric.0@) is Value
                && p.wf() && p.dim_ok(metric.0@.len()) && merged(p.terms()) && terms_equiv_seq(
                p.terms(),
                product_outcome(kind, lp.terms(), rp.terms(), span, metric.0@)->ts,
            ),
            Err(u) => product_outcome(kind, lp.terms(), rp.terms(), span, metric.0@) is Undef
                && u.0@ == seq![span],
        },
{
    match lp.product(kind, rp, metric) {
        None => Err(span_error(span)),
        Some(p) => Ok(p),
    }
}

/// One binary node, applied to the evaluated operands.
fn eval_binary_values(
    op: Binary,
    lp: &Polynomial,
    rp: &Polynomial,
    span: Span,
    metric: &Metric,
) -> (r: Result<Polynomial, Undefined>)
    requires
        lp.wf(),
        rp.wf(),
        lp.dim_ok(metric.0@.len()),
        rp.dim_ok(metric.0@.len()),
    ensures
        match r {
            Ok(p) => binary_outcome(op, lp.terms(), rp.terms(), span, metric.0@) is Value
                && p.wf() && p.dim_ok(metric.0@.len()) && merged(p.terms()) && terms_equiv_seq(
                p.terms(),
                binary_outcome(op, lp.terms(), rp.terms(), span, metric.0@)->ts,
            ),
            Err(u) => binary_outcome(op, lp.terms(), rp.terms(), span, metric.0@) is Undef && u.0@
                == binary_outcome(op, lp.terms(), rp.terms(), span, metric.0@)->spans,
        },
{
    let ghost m = metric.0@;
    match op {
        Binary::Geometric => eval_product(Product::Geometric, lp, rp, span, metric),
        Binary::Exterior => eval_product(Product::Exterior, lp, rp, span, metric),
        Binary::Regressive => eval_product(Product::Regressive, lp, rp, span, metric),
        Binary::LeftContraction => eval_product(Product::LeftContraction, lp, rp, span, metric),
        Binary::RightContraction => eval_product(
            Product::RightContraction,
            lp,
            rp,
            span,
            metric,
        ),
        Binary::Inner => eval_product(Product::Inner, lp, rp, span, metric),
        Binary::Scalar => eval_product(Product::Scalar, lp, rp, span, metric),
        Binary::Add => {
            let p = lp.add(rp);
            Ok(p)
        },
        Binary::Sub => {
            let rn = rp.neg();
            let p = lp.add(&rn);
            proof {
                assert(lp.terms() + rn.terms() == lp.terms() + negated_terms(rp.terms()));
            }
            Ok(p)
        },
        Binary::Divide => {
            proof {
                assert forall|i: int|
                    0 <= i < rp.terms().len() implies (crate::monomial::inverse_fails(
                    #[trigger] rp.monomials@[i],
                    m,
                ) <==> term_inverse_fails(rp.terms()[i], m)) by {
                    crate::monomial::lemma_fails_on_term(rp.monomials@[i], 0, m);
                    assert(rp.monomials@[i].term() == rp.terms()[i]);
                }
            }
            match rp.inverse(metric) {
                None => {
                    proof {
                        let w = choose|w: int|
                            0 <= w < rp.monomials@.len() && crate::monomial::inverse_fails(
                                #[trigger] rp.monomials@[w],
                                m,
                            );
                        assert(term_inverse_fails(rp.terms()[w], m));
                    }
                    Err(span_error(span))
                },
                Some(inv) => {
                    proof {
                        assert(!(exists|i: int|
                            0 <= i < rp.terms().len() && term_inverse_fails(
                                #[trigger] rp.terms()[i],
                                m,
                            ))) by {
                            if exists|i: int|
                                0 <= i < rp.terms().len() && term_inverse_fails(
                                    #[trigger] rp.terms()[i],
                                    m,
                                ) {
                                let w = choose|w: int|
                                    0 <= w < rp.terms().len() && term_inverse_fails(
                                        #[trigger] rp.terms()[w],
                                        m,
                                    );
                            }
                        }
                        crate::polynomial::lemma_inverted_terms_wf(rp.terms(), m);
                        crate::polynomial::lemma_merge_terms_invariants(
                            inverted_terms(rp.terms(), m),
                        );
                    }
                    let res = eval_product(Product::Geometric, lp, &inv, span, metric);
                    proof {
                        let dt = merge_terms(inverted_terms(rp.terms(), m));
                        lemma_product_outcome_congruent(
                            Product::Geometric,
                            lp.terms(),
                            lp.terms(),
                            inv.terms(),
                            dt,
                            span,
                            m,
                        );
                        if product_outcome(Product::Geometric, lp.terms(), inv.terms(), span, m)
                            is Value {
                            lemma_product_outcome_wf(
                                Product::Geometric,
                                lp.terms(),
                                inv.terms(),
                                span,
                                m,
                            );
                            lemma_product_outcome_wf(Product::Geometric, lp.terms(), dt, span, m);
                            if let Ok(p) = &res {
                                crate::polynomial::lemma_terms_equiv_transitive(
                                    p.terms(),
                                    product_outcome(
                                        Product::Geometric,
                                        lp.terms(),
                                        inv.terms(),
                                        span,
                                        m,
                                    )->ts,
                                    product_outcome(Product::Geometric, lp.terms(), dt, span, m)->ts,
                                );
                            }
                        }
                    }
                    res
                },
            }
        },
    }
}

/// One unary node, applied to the evaluated operand.
fn eval_unary_values(op: Unary, xp: &Polynomial, span: Span, metric: &Metric) -> (r: Result<
    Polynomial,
    Undefined,
>)
    requires
        xp.wf(),
        xp.dim_ok(metric.0@.len()),
        merged(xp.terms()),
    ensures
        match r {
            Ok(p) => unary_outcome(op, xp.terms(), span, metric.0@) is Value && p.wf()
                && p.dim_ok(metric.0@.len()) && merged(p.terms()) && terms_equiv_seq(
                p.terms(),
                unary_outcome(op, xp.terms(), span, metric.0@)->ts,
            ),
            Err(u) => unary_outcome(op, xp.terms(), span, metric.0@) is Undef && u.0@
                == unary_outcome(op, xp.terms(), span, metric.0@)->spans,
        },
{
    let ghost m = metric.0@;
    match op {
        Unary::Neg => {
            let p = xp.neg();
            proof {
                assert(merged(p.terms())) by {
                    assert(forall|i: int|
                        0 <= i < p.terms().len() ==> (#[trigger] p.terms()[i]).b
                            == xp.terms()[i].b && p.terms()[i].s == xp.terms()[i].s);
                }
            }
            Ok(p)
        },
        Unary::Dual => Ok(xp.dual()),
        Unary::Reverse => Ok(xp.reverse()),
        Unary::Involution => Ok(xp.involute()),
        Unary::Conjugate => Ok(xp.conjugate()),
        Unary::Inverse => {
            proof {
                assert forall|i: int|
                    0 <= i < xp.terms().len() implies (crate::monomial::inverse_fails(
                    #[trigger] xp.monomials@[i],
                    m,
                ) <==> term_inverse_fails(xp.terms()[i], m)) by {
                    crate::monomial::lemma_fails_on_term(xp.monomials@[i], 0, m);
                    assert(xp.monomials@[i].term() == xp.terms()[i]);
                }
            }
            match xp.inverse(metric) {
                None => {
                    proof {
                        let w = choose|w: int|
                            0 <= w < xp.monomials@.len() && crate::monomial::inverse_fails(
                                #[trigger] xp.monomials@[w],
                                m,
                            );
                        assert(term_inverse_fails(xp.terms()[w], m));
                    }
                    Err(span_error(span))
                },
                Some(p) => {
                    proof {
                        assert(!(exists|i: int|
                            0 <= i < xp.terms().len() && term_inverse_fails(
                                #[trigger] xp.terms()[i],
                                m,
                            )));
                    }
                    Ok(p)
                },
            }
        },
    }
}

/// One power node, applied to the evaluated base.
fn eval_power_value(bp: &Polynomial, exponent: i64, span: Span, metric: &Metric) -> (r: Result<
    Polynomial,
    Undefined,
>)
    requires
        bp.wf(),
        bp.dim_ok(metric.0@.len()),
    ensures
        match r {
            Ok(p) => power_outcome(bp.terms(), exponent as int, span, metric.0@) is Value
                && p.wf() && p.dim_ok(metric.0@.len()) && merged(p.terms()) && terms_equiv_seq(
                p.terms(),
                power_outcome(bp.terms(), exponent as int, span, metric.0@)->ts,
            ),
            Err(u) => power_outcome(bp.terms(), exponent as int, span, metric.0@) is Undef
                && u.0@ == power_outcome(bp.terms(), exponent as int, span, metric.0@)->spans,
        },
{
    let ghost m = metric.0@;
    proof {
        assert forall|i: int|
            0 <= i < bp.terms().len() implies (crate::monomial::power_fails(
            #[trigger] bp.monomials@[i],
            exponent as int,
            m,
        ) <==> term_power_fails(bp.terms()[i], exponent as int, m)) by {
            crate::monomial::lemma_fails_on_term(bp.monomials@[i], exponent as int, m);
            assert(bp.monomials@[i].term() == bp.terms()[i]);
        }
    }
    match bp.power(exponent, metric) {
        None => {
            proof {
                let w = choose|w: int|
                    0 <= w < bp.monomials@.len() && crate::monomial::power_fails(
                        #[trigger] bp.monomials@[w],
                        exponent as int,
                        m,
                    );
                assert(term_power_fails(bp.terms()[w], exponent as int, m));
            }
            Err(span_error(span))
        },
        Some(p) => {
            proof {
                assert(!(exists|i: int|
                    0 <= i < bp.terms().len() && term_power_fails(
                        #[trigger] bp.terms()[i],
                        exponent as int,
                        m,
                    )));
            }
            Ok(p)
        },
    }
}

/// One basis-vector-list leaf: fold the axes through the geometric product.
fn eval_basis_node(axes: &Vec<usize>, span: Span, metric: &Metric) -> (r: Result<
    Polynomial,
    Undefined,
>)
    ensures
        ({
            let n = metric.0@.len();
            let m = metric.0@;
            match r {
                Ok(p) => !(exists|i: int| 0 <= i < axes@.len() && (#[trigger] axes@[i]) >= n)
                    && p.wf() && p.dim_ok(n) && merged(p.terms()) && terms_equiv_seq(
                    p.terms(),
                    match axes_fold(axes@, n, m) {
                        Some(acc) => seq![
                            Term { c: sign_rat(acc.0, rat_int(1)), s: Map::empty(), b: acc.1 },
                        ],
                        None => seq![term_zero(n)],
                    },
                ),
                Err(u) => (exists|i: int| 0 <= i < axes@.len() && (#[trigger] axes@[i]) >= n)
                    && u.0@ == seq![span],
            }
        }),
{
    let ghost m = metric.0@;
    let ghost gaxes = axes@;
    let n = metric.dimension();
    let len = axes.len();
    let mut i: usize = 0;
    while i < len
        invariant
            0 <= i <= len,
            len == gaxes.len(),
            gaxes == axes@,
            n == m.len(),
            m == metric.0@,
            forall|k: int| 0 <= k < i ==> (#[trigger] gaxes[k]) < n,
        decreases len - i,
    {
        if axes[i] >= n {
            proof {
                assert(0 <= i < gaxes.len() && gaxes[i as int] >= n);
            }
            return Err(span_error(span));
        }
        i += 1;
    }
    let mut sign = Sign::Pos;
    let mut basis = Basis::scalar(n);
    proof {
        assert(basis@ =~= Seq::new(n as nat, |i: int| false));
        assert(gaxes.take(0) =~= Seq::<usize>::empty());
    }
    let mut j: usize = 0;
    while j < len
        invariant
            0 <= j <= len,
            len == gaxes.len(),
            gaxes == axes@,
            n == m.len(),
            m == metric.0@,
            forall|k: int| 0 <= k < len ==> (#[trigger] gaxes[k]) < n,
            basis@.len() == n,
            axes_fold(gaxes.take(j as int), n as nat, m) == Some((sign, basis@)),
        decreases len - j,
    {
        let axis = Basis::axis(n, axes[j]);
        let ghost old_sign = sign;
        let ghost old_bits = basis@;
        match basis.geometric_product(&axis, metric) {
            None => {
                proof {
                    assert(gaxes.take(j + 1).drop_last() =~= gaxes.take(j as int));
                    assert(gaxes.take(j + 1).last() == gaxes[j as int]);
                    assert(axis@ == axis_blade(n as nat, gaxes[j as int] as int));
                    assert(axes_fold(gaxes.take(j + 1), n as nat, m) is None);
                    lemma_axes_fold_none(gaxes, j + 1, n as nat, m);
                }
                let p = Polynomial::of_monomial(Monomial::vanished(n));
                proof {
                    assert(p.terms() =~= seq![term_zero(n as nat)]);
                }
                return Ok(p);
            },
            Some(pair) => {
                let (s2, b2) = pair;
                proof {
                    assert(gaxes.take(j + 1).drop_last() =~= gaxes.take(j as int));
                    assert(gaxes.take(j + 1).last() == gaxes[j as int]);
                    assert(axis@ == axis_blade(n as nat, gaxes[j as int] as int));
                    assert(axes_fold(gaxes.take(j + 1), n as nat, m) == Some(
                        (
                            product_sign(old_bits, axis@, m).spec_times(old_sign),
                            product_bits(old_bits, axis@),
                        ),
                    ));
                }
                sign = s2.times(sign);
                basis = b2;
            },
        }
        j += 1;
    }
    proof {
        assert(gaxes.take(len as int) =~= gaxes);
    }
    let scalar = match sign {
        Sign::Pos => Rational::one(),
        Sign::Neg => Rational::one().neg(),
    };
    let mono = Monomial { scalar, symbols: Vec::new(), basis };
    proof {
        assert(crate::symbols::syms_map(mono.symbols@) =~= Map::<Seq<char>, int>::empty());
    }
    let p = Polynomial::of_monomial(mono);
    proof {
        assert(p.terms() =~= seq![mono.term()]);
    }
    Ok(p)
}

/// Evaluate an expression against a metric: a well-formed, merged polynomial
/// denoting exactly what `eval_spec` gives, or the failing source spans.
#[verifier::rlimit(100)]
pub fn eval(expr: Spanned<Expr>, metric: &Metric) -> (r: Result<Polynomial, Undefined>)
    requires
        expr_wf(expr.0),
    ensures
        match r {
            Ok(p) => eval_spec(expr, metric.0@) is Value && p.wf() && p.dim_ok(metric.0@.len())
                && merged(p.terms()) && terms_equiv_seq(
                p.terms(),
                eval_spec(expr, metric.0@)->ts,
            ),
            Err(u) => eval_spec(expr, metric.0@) is Undef && u.0@ == eval_spec(
                expr,
                metric.0@,
            )->spans,
        },
    decreases expr,
{
    let ghost gx = expr;
    let ghost m = metric.0@;
    let n = metric.dimension();
    let span = expr.1;
    match expr.0 {
        Expr::Number(scalar) => {
            let mono = Monomial { scalar, symbols: Vec::new(), basis: Basis::scalar(n) };
            proof {
                assert(crate::symbols::syms_map(mono.symbols@) =~= Map::<Seq<char>, int>::empty());
            }
            let p = Polynomial::of_monomial(mono);
            proof {
                assert(p.terms() =~= seq![scalar_term(mono.scalar@, n as nat)]);
                assert(eval_spec(gx, m)->ts == seq![scalar_term(mono.scalar@, n as nat)]);
            }
            Ok(p)
        },
        Expr::Pseudoscalar => {
            let mono = Monomial {
                scalar: Rational::one(),
                symbols: Vec::new(),
                basis: Basis::pseudoscalar(n),
            };
            proof {
                assert(crate::symbols::syms_map(mono.symbols@) =~= Map::<Seq<char>, int>::empty());
            }
            let p = Polynomial::of_monomial(mono);
            proof {
                assert(p.terms() =~= eval_spec(gx, m)->ts);
            }
            Ok(p)
        },
        Expr::Unknown(name) => {
            let ghost gname = name@;
            let mut symbols: Vec<(String, i64)> = Vec::new();
            symbols.push((name, 1));
            proof {
                assert(crate::symbols::syms_wf(symbols@));
                crate::symbols::lemma_syms_map_at(symbols@, 0);
                assert(crate::symbols::syms_map(symbols@) =~= Map::<Seq<char>, int>::empty().insert(
                    gname,
                    1,
                )) by {
                    assert forall|k: Seq<char>| crate::symbols::sym_has(symbols@, k) implies k
                        == gname by {
                        let w = crate::symbols::sym_idx(symbols@, k);
                        assert(0 <= w < symbols@.len() && symbols@[w].0@ == k);
                    }
                }
            }
            let mono = Monomial { scalar: Rational::one(), symbols, basis: Basis::scalar(n) };
            let p = Polynomial::of_monomial(mono);
            proof {
                assert(p.terms() =~= eval_spec(gx, m)->ts);
            }
            Ok(p)
        },
        Expr::Bottom => Err(span_error(span)),
        Expr::Basis(axes) => {
            let res = eval_basis_node(&axes, span, metric);
            proof {
                if eval_spec(gx, m) is Value {
                    assert(eval_spec(gx, m)->ts == match axes_fold(axes@, n as nat, m) {
                        Some(acc) => seq![
                            Term { c: sign_rat(acc.0, rat_int(1)), s: Map::empty(), b: acc.1 },
                        ],
                        None => seq![term_zero(n as nat)],
                    });
                }
            }
            res
        },
        Expr::Binary(op, l, r) => {
            let ghost gl = *l;
            let ghost gr = *r;
            proof {
                lemma_eval_spec_wf(gl, m);
                lemma_eval_spec_wf(gr, m);
            }
            let lr = eval(*l, metric);
            let rr = eval(*r, metric);
            match (lr, rr) {
                (Err(ul), Err(ur)) => {
                    let Undefined(mut sl) = ul;
                    let sr = ur.0;
                    let ghost gsl = sl@;
                    let nb = sr.len();
                    let mut t: usize = 0;
                    while t < nb
                        invariant
                            0 <= t <= nb,
                            nb == sr@.len(),
                            sl@ =~= gsl + sr@.take(t as int),
                        decreases nb - t,
                    {
                        sl.push(sr[t]);
                        proof {
                            assert(sl@ =~= gsl + sr@.take(t + 1));
                        }
                        t += 1;
                    }
                    proof {
                        assert(sr@.take(nb as int) =~= sr@);
                        assert(sl@ =~= gsl + sr@);
                    }
                    Err(Undefined(sl))
                },
                (Err(ul), Ok(_)) => Err(ul),
                (Ok(_), Err(ur)) => Err(ur),
                (Ok(lp), Ok(rp)) => {
                    let ghost lt = eval_spec(gl, m)->ts;
                    let ghost rt = eval_spec(gr, m)->ts;
                    let res = eval_binary_values(op, &lp, &rp, span, metric);
                    proof {
                        assert(coeffs_wf(lp.terms()));
                        assert(coeffs_wf(rp.terms()));
                        lemma_binary_outcome_congruent(
                            op,
                            lp.terms(),
                            lt,
                            rp.terms(),
                            rt,
                            span,
                            m,
                        );
                        if binary_outcome(op, lp.terms(), rp.terms(), span, m) is Value {
                            lemma_binary_outcome_wf(op, lp.terms(), rp.terms(), span, m);
                            lemma_binary_outcome_wf(op, lt, rt, span, m);
                            if let Ok(p) = &res {
                                crate::polynomial::lemma_terms_equiv_transitive(
                                    p.terms(),
                                    binary_outcome(op, lp.terms(), rp.terms(), span, m)->ts,
                                    binary_outcome(op, lt, rt, span, m)->ts,
                                );
                            }
                        }
                    }
                    res
                },
            }
        },
        Expr::Power(b, exponent) => {
            let ghost gb = *b;
            proof {
                lemma_eval_spec_wf(gb, m);
            }
            match eval(*b, metric) {
                Err(u) => Err(u),
                Ok(bp) => {
                    let ghost bt = eval_spec(gb, m)->ts;
                    let res = eval_power_value(&bp, exponent, span, metric);
                    proof {
                        assert(coeffs_wf(bp.terms()));
                        lemma_power_outcome_congruent(bp.terms(), bt, exponent as int, span, m);
                        if power_outcome(bp.terms(), exponent as int, span, m) is Value {
                            lemma_power_outcome_wf(bp.terms(), exponent as int, span, m);
                            lemma_power_outcome_wf(bt, exponent as int, span, m);
                            if let Ok(p) = &res {
                                crate::polynomial::lemma_terms_equiv_transitive(
                                    p.terms(),
                                    power_outcome(bp.terms(), exponent as int, span, m)->ts,
                                    power_outcome(bt, exponent as int, span, m)->ts,
                                );
                            }
                        }
                    }
                    res
                },
            }
        },
        Expr::Unary(op, x) => {
            let ghost gxx = *x;
            proof {
                lemma_eval_spec_wf(gxx, m);
            }
            match eval(*x, metric) {
                Err(u) => Err(u),
                Ok(xp) => {
                    let ghost xt = eval_spec(gxx, m)->ts;
                    let res = eval_unary_values(op, &xp, span, metric);
                    proof {
                        assert(coeffs_wf(xp.terms()));
                        lemma_unary_outcome_congruent(op, xp.terms(), xt, span, m);
                        if unary_outcome(op, xp.terms(), span, m) is Value {
                            lemma_unary_outcome_wf(op, xp.terms(), span, m);
                            lemma_unary_outcome_wf(op, xt, span, m);
                            if let Ok(p) = &res {
                                crate::polynomial::lemma_terms_equiv_transitive(
                                    p.terms(),
                                    unary_outcome(op, xp.terms(), span, m)->ts,
                                    unary_outcome(op, xt, span, m)->ts,
                                );
                            }
                        }
                    }
                    res
                },
            }
        },
        Expr::Norm(x) => {
            let ghost gxx = *x;
            proof {
                lemma_eval_spec_wf(gxx, m);
            }
            match eval(*x, metric) {
                Err(u) => Err(u),
                Ok(xp) => {
                    let ghost xt = eval_spec(gxx, m)->ts;
                    let value = xp.norm(metric);
                    let mono = Monomial {
                        scalar: value,
                        symbols: Vec::new(),
                        basis: Basis::scalar(n),
                    };
                    proof {
                        assert(crate::symbols::syms_map(mono.symbols@) =~= Map::<
                            Seq<char>,
                            int,
                        >::empty());
                    }
                    let p = Polynomial::of_monomial(mono);
                    proof {
                        assert(coeffs_wf(xp.terms()));
                        crate::polynomial::lemma_norms_sum_congruent(xp.terms(), xt, m);
                        crate::polynomial::lemma_norms_sum_wf(xp.terms(), m);
                        crate::polynomial::lemma_norms_sum_wf(xt, m);
                        crate::rat::lemma_eqv_transitive(
                            mono.scalar@,
                            norms_sum(xp.terms(), m),
                            norms_sum(xt, m),
                        );
                        assert(p.terms() =~= seq![mono.term()]);
                        let goal = eval_spec(gx, m)->ts;
                        assert(goal == seq![scalar_term(norms_sum(xt, m), n as nat)]);
                        assert(terms_equiv_seq(p.terms(), goal)) by {
                            assert(p.terms()[0].b =~= goal[0].b);
                            assert(p.terms()[0].s =~= goal[0].s);
                        }
                    }
                    Ok(p)
                },
            }
        },
    }
}

} // verus!
