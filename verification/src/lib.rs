//! Symbolic geometric (Clifford) algebra over an arbitrary metric signature.
//!
//! A `Metric` fixes, for each orthonormal axis, whether its square is `+1`,
//! `-1` or `0`.  `Basis` values are blades over those axes; `Monomial` pairs a
//! blade with an exact rational coefficient and symbolic variables; a
//! `Polynomial` is a merged sum of monomials; `eval` interprets an expression
//! tree against a metric and returns a normalized polynomial or a typed
//! failure.

pub mod basis;
pub mod common;
pub mod eval;
pub mod expr;
pub mod metric;
pub mod monomial;
pub mod polynomial;
pub mod rat;
pub mod rational;
pub mod sign;
pub mod symbols;

pub use basis::Basis;
pub use common::{binomial, even, factorial, odd, pow};
pub use eval::{eval, Undefined};
pub use expr::{Binary, Expr, Span, Spanned, Unary};
pub use metric::{Metric, Square};
pub use monomial::{Monomial, Product};
pub use rational::Rational;
pub use polynomial::Polynomial;
pub use sign::Sign;
