//! End-to-end evaluation scenarios.

use clifford::{
    eval, Basis, Binary, Expr, Metric, Rational, Span, Spanned, Square, Unary,
};

fn sp(e: Expr) -> Box<Spanned<Expr>> {
    Box::new(Spanned(e, Span { start: 0, end: 0 }))
}

fn at(e: Expr, start: usize, end: usize) -> Spanned<Expr> {
    Spanned(e, Span { start, end })
}

#[test]
fn annihilating_axis_leaves_the_rest() {
    // Metric {+1,+1}: "e0 e01" evaluates to e1 with a positive sign.
    let metric = Metric(vec![Square::Pos, Square::Pos]);
    let expr = at(
        Expr::Binary(Binary::Geometric, sp(Expr::Basis(vec![0])), sp(Expr::Basis(vec![0, 1]))),
        0,
        5,
    );
    let p = eval(expr, &metric).unwrap();
    assert_eq!(p.monomials.len(), 1);
    assert_eq!(p.monomials[0].basis, Basis(vec![false, true]));
    assert!(p.monomials[0].symbols.is_empty());
    assert!(p.monomials[0].scalar.eq_rational(&Rational::one()));
}

#[test]
fn degenerate_square_vanishes_and_blocks_division() {
    // Metric {0,+1,+1}: "e0 e0" is the zero scalar, and dividing by it is
    // undefined.
    let metric = Metric(vec![Square::Zero, Square::Pos, Square::Pos]);
    let square = Expr::Binary(
        Binary::Geometric,
        sp(Expr::Basis(vec![0])),
        sp(Expr::Basis(vec![0])),
    );
    let p = eval(at(square, 0, 5), &metric).unwrap();
    assert_eq!(p.monomials.len(), 1);
    assert!(p.monomials[0].scalar.is_zero());
    assert_eq!(p.monomials[0].basis.grade(), 0);

    let square = Expr::Binary(
        Binary::Geometric,
        sp(Expr::Basis(vec![0])),
        sp(Expr::Basis(vec![0])),
    );
    let division = Expr::Binary(
        Binary::Divide,
        sp(Expr::Number(Rational::one())),
        sp(square),
    );
    let err = eval(at(division, 0, 9), &metric).unwrap_err();
    assert_eq!(err.0, vec![Span { start: 0, end: 9 }]);
}

#[test]
fn left_contraction_of_negated_bivector() {
    // Metric {+1,+1,+1}: the left contraction of e0 onto -e01 is -e1.
    let metric = Metric(vec![Square::Pos, Square::Pos, Square::Pos]);
    let expr = at(
        Expr::Binary(
            Binary::LeftContraction,
            sp(Expr::Basis(vec![0])),
            sp(Expr::Unary(Unary::Neg, sp(Expr::Basis(vec![0, 1])))),
        ),
        0,
        9,
    );
    let p = eval(expr, &metric).unwrap();
    assert_eq!(p.monomials.len(), 1);
    assert_eq!(p.monomials[0].basis, Basis(vec![false, true, false]));
    assert_eq!(p.monomials[0].basis.grade(), 1);
    assert!(p.monomials[0]
        .scalar
        .eq_rational(&Rational::one().neg()));
}

#[test]
fn inverse_of_scaled_bivector() {
    // Metric {+1,+1,+1}: "4e12 ^ -1" is the single monomial -(1/4) e12.
    let metric = Metric(vec![Square::Pos, Square::Pos, Square::Pos]);
    let scaled = Expr::Binary(
        Binary::Geometric,
        sp(Expr::Number(Rational::from_u64(4))),
        sp(Expr::Basis(vec![1, 2])),
    );
    let expr = at(Expr::Power(sp(scaled), -1), 0, 7);
    let p = eval(expr, &metric).unwrap();
    assert_eq!(p.monomials.len(), 1);
    assert_eq!(p.monomials[0].basis, Basis(vec![false, true, true]));
    let quarter = Rational::one().div(&Rational::from_u64(4));
    assert!(p.monomials[0].scalar.eq_rational(&quarter.neg()));
}

#[test]
fn out_of_range_axis_fails() {
    // An axis index beyond the metric's dimension is rejected, not a crash.
    let metric = Metric(vec![Square::Pos, Square::Pos, Square::Pos]);
    let expr = at(Expr::Basis(vec![5]), 2, 4);
    let err = eval(expr, &metric).unwrap_err();
    assert_eq!(err.0, vec![Span { start: 2, end: 4 }]);
}

#[test]
fn addition_merges_like_terms() {
    // x + x merges to a single term with coefficient 2.
    let metric = Metric(vec![Square::Pos]);
    let expr = at(
        Expr::Binary(
            Binary::Add,
            sp(Expr::Unknown(String::from("x"))),
            sp(Expr::Unknown(String::from("x"))),
        ),
        0,
        5,
    );
    let p = eval(expr, &metric).unwrap();
    assert_eq!(p.monomials.len(), 1);
    assert!(p.monomials[0].scalar.eq_rational(&Rational::from_u64(2)));
    assert_eq!(p.monomials[0].symbols, vec![(String::from("x"), 1)]);
}

#[test]
fn subtraction_cancels_to_zero_coefficient() {
    let metric = Metric(vec![Square::Pos]);
    let expr = at(
        Expr::Binary(
            Binary::Sub,
            sp(Expr::Unknown(String::from("x"))),
            sp(Expr::Unknown(String::from("x"))),
        ),
        0,
        5,
    );
    let p = eval(expr, &metric).unwrap();
    assert_eq!(p.monomials.len(), 1);
    assert!(p.monomials[0].scalar.is_zero());
}

#[test]
fn pseudoscalar_and_dual() {
    // The dual of the pseudoscalar is the scalar.
    let metric = Metric(vec![Square::Pos, Square::Pos]);
    let expr = at(Expr::Unary(Unary::Dual, sp(Expr::Pseudoscalar)), 0, 2);
    let p = eval(expr, &metric).unwrap();
    assert_eq!(p.monomials.len(), 1);
    assert_eq!(p.monomials[0].basis, Basis(vec![false, false]));
    assert!(p.monomials[0].scalar.eq_rational(&Rational::one()));
}

#[test]
fn symbol_division_keeps_exponents() {
    // (2x) / x evaluates to the constant 2.
    let metric = Metric(vec![Square::Pos]);
    let two_x = Expr::Binary(
        Binary::Geometric,
        sp(Expr::Number(Rational::from_u64(2))),
        sp(Expr::Unknown(String::from("x"))),
    );
    let expr = at(
        Expr::Binary(Binary::Divide, sp(two_x), sp(Expr::Unknown(String::from("x")))),
        0,
        6,
    );
    let p = eval(expr, &metric).unwrap();
    assert_eq!(p.monomials.len(), 1);
    assert!(p.monomials[0].symbols.is_empty());
    assert!(p.monomials[0].scalar.eq_rational(&Rational::from_u64(2)));
}

#[test]
fn division_by_zero_fails() {
    let metric = Metric(vec![Square::Pos]);
    let expr = at(
        Expr::Binary(
            Binary::Divide,
            sp(Expr::Number(Rational::one())),
            sp(Expr::Number(Rational::zero())),
        ),
        1,
        4,
    );
    let err = eval(expr, &metric).unwrap_err();
    assert_eq!(err.0, vec![Span { start: 1, end: 4 }]);
}

#[test]
fn unary_inverse_of_zero_fails() {
    let metric = Metric(vec![Square::Pos]);
    let expr = at(
        Expr::Unary(Unary::Inverse, sp(Expr::Number(Rational::zero()))),
        0,
        2,
    );
    assert!(eval(expr, &metric).is_err());
}

#[test]
fn bottom_reports_its_span() {
    let metric = Metric(vec![Square::Pos]);
    let err = eval(at(Expr::Bottom, 3, 6), &metric).unwrap_err();
    assert_eq!(err.0, vec![Span { start: 3, end: 6 }]);
}

#[test]
fn failing_operands_report_both_spans() {
    let metric = Metric(vec![Square::Pos]);
    let expr = at(
        Expr::Binary(
            Binary::Add,
            Box::new(at(Expr::Bottom, 0, 1)),
            Box::new(at(Expr::Bottom, 4, 5)),
        ),
        0,
        5,
    );
    let err = eval(expr, &metric).unwrap_err();
    assert_eq!(
        err.0,
        vec![Span { start: 0, end: 1 }, Span { start: 4, end: 5 }]
    );
}

#[test]
fn norm_of_a_sum() {
    // [3 - e0] under {0}: the scalar contributes 3, the null vector nothing.
    let metric = Metric(vec![Square::Zero]);
    let inner = Expr::Binary(
        Binary::Sub,
        sp(Expr::Number(Rational::from_u64(3))),
        sp(Expr::Basis(vec![0])),
    );
    let expr = at(Expr::Norm(sp(inner)), 0, 8);
    let p = eval(expr, &metric).unwrap();
    assert_eq!(p.monomials.len(), 1);
    assert!(p.monomials[0].scalar.eq_rational(&Rational::from_u64(3)));
}

#[test]
fn power_of_a_vector() {
    // e0^3 = e0 under {+1}; e0^2 = -1 under {-1}.
    let positive = Metric(vec![Square::Pos]);
    let expr = at(Expr::Power(sp(Expr::Basis(vec![0])), 3), 0, 4);
    let p = eval(expr, &positive).unwrap();
    assert_eq!(p.monomials.len(), 1);
    assert_eq!(p.monomials[0].basis, Basis(vec![true]));
    assert!(p.monomials[0].scalar.eq_rational(&Rational::one()));

    let negative = Metric(vec![Square::Neg]);
    let expr = at(Expr::Power(sp(Expr::Basis(vec![0])), 2), 0, 4);
    let p = eval(expr, &negative).unwrap();
    assert_eq!(p.monomials.len(), 1);
    assert_eq!(p.monomials[0].basis.grade(), 0);
    assert!(p.monomials[0]
        .scalar
        .eq_rational(&Rational::one().neg()));
}
