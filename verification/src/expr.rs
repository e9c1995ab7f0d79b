//! Expression trees, as the external parser hands them to the evaluator.

use vstd::prelude::*;

use crate::rational::Rational;

verus! {

/// A half-open range of source positions, for diagnostics.
#[derive(Debug, Clone, Copy, PartialEq, Eq, Structural)]
pub struct Span {
    pub start: usize,
    pub end: usize,
}

/// A value together with the source range it came from.
#[derive(Debug)]
pub struct Spanned<T>(pub T, pub Span);

/// The seven binary blade products, plus division, addition and subtraction.
#[derive(Debug, Clone, Copy)]
pub enum Binary {
    Geometric,
    Exterior,
    Regressive,
    LeftContraction,
    RightContraction,
    Inner,
    Scalar,
    Divide,
    Add,
    Sub,
}

/// The unary operators.
#[derive(Debug, Clone, Copy)]
pub enum Unary {
    Neg,
    Dual,
    Reverse,
    Inverse,
    Involution,
    Conjugate,
}

/// A parsed expression.  `Bottom` is the parser's explicit undefined value.
#[derive(Debug)]
pub enum Expr {
    Number(Rational),
    Pseudoscalar,
    Basis(Vec<usize>),
    Unknown(String),
    Bottom,
    Binary(Binary, Box<Spanned<Expr>>, Box<Spanned<Expr>>),
    Power(Box<Spanned<Expr>>, i64),
    Unary(Unary, Box<Spanned<Expr>>),
    Norm(Box<Spanned<Expr>>),
}

/// Every numeric literal in the tree denotes a rational.
pub open spec fn expr_wf(e: Expr) -> bool
    decreases e,
{
    match e {
        Expr::Number(r) => r.wf(),
        Expr::Pseudoscalar => true,
        Expr::Basis(_) => true,
        Expr::Unknown(_) => true,
        Expr::Bottom => true,
        Expr::Binary(_, l, r) => expr_wf(l.0) && expr_wf(r.0),
        Expr::Power(b, _) => expr_wf(b.0),
        Expr::Unary(_, x) => expr_wf(x.0),
        Expr::Norm(x) => expr_wf(x.0),
    }
}

} // verus!
