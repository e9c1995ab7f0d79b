//! Blade algebra: products, involutions, duality.

use clifford::{Basis, Metric, Monomial, Polynomial, Product, Rational, Sign, Square};

#[test]
fn geometric_hyperbolic() {
    let metric = Metric(vec![Square::Pos, Square::Pos]);
    let a = Basis(vec![true, true]);
    let b = Basis(vec![true, false]);
    let (sign, basis) = a.geometric_product(&b, &metric).unwrap();
    assert_eq!(sign, Sign::Neg);
    assert_eq!(basis, Basis(vec![false, true]));
}

#[test]
fn geometric_elliptic() {
    let metric = Metric(vec![Square::Neg, Square::Pos]);
    let a = Basis(vec![true, true]);
    let b = Basis(vec![true, false]);
    let (sign, basis) = a.geometric_product(&b, &metric).unwrap();
    assert_eq!(sign, Sign::Pos);
    assert_eq!(basis, Basis(vec![false, true]));
}

#[test]
fn geometric_degenerate() {
    let metric = Metric(vec![Square::Zero, Square::Pos]);
    let a = Basis(vec![true, true]);
    let b = Basis(vec![true, false]);
    assert!(a.geometric_product(&b, &metric).is_none());
}

#[test]
fn blade_square_has_grade_zero() {
    // A blade times itself either vanishes on a null axis or lands on the
    // scalar basis.
    let metric = Metric(vec![Square::Pos, Square::Neg, Square::Pos]);
    let a = Basis(vec![true, true, false]);
    let (_, basis) = a.geometric_product(&a, &metric).unwrap();
    assert_eq!(basis.grade(), 0);

    let degenerate = Metric(vec![Square::Zero, Square::Pos, Square::Pos]);
    let b = Basis(vec![true, false, true]);
    assert!(b.geometric_product(&b, &degenerate).is_none());
}

#[test]
fn grade_one_antisymmetry() {
    // Distinct single axes anticommute; shared axes square to a scalar.
    let metric = Metric(vec![Square::Pos, Square::Pos]);
    let e0 = Basis(vec![true, false]);
    let e1 = Basis(vec![false, true]);
    let (s01, b01) = e0.geometric_product(&e1, &metric).unwrap();
    let (s10, b10) = e1.geometric_product(&e0, &metric).unwrap();
    assert_eq!(b01, b10);
    assert_eq!(s01, Sign::Pos);
    assert_eq!(s10, Sign::Neg);
    let (ss, sb) = e0.geometric_product(&e0, &metric).unwrap();
    assert_eq!(ss, Sign::Pos);
    assert_eq!(sb.grade(), 0);
}

#[test]
fn dual_is_involution() {
    let a = Basis(vec![true, false, true, false]);
    assert_eq!(a.dual().dual(), a);
    assert_eq!(a.dual(), Basis(vec![false, true, false, true]));
}

#[test]
fn conjugate_composes_reverse_and_involution() {
    for bits in [
        vec![false, false, false],
        vec![true, false, false],
        vec![true, true, false],
        vec![true, true, true],
    ] {
        let a = Basis(bits);
        assert_eq!(a.conjugate(), a.reverse().times(a.involute()));
    }
}

#[test]
fn reverse_signs_follow_grade() {
    // (-1)^(g(g-1)/2) for grades 0 through 3.
    assert_eq!(Basis(vec![false, false, false]).reverse(), Sign::Pos);
    assert_eq!(Basis(vec![true, false, false]).reverse(), Sign::Pos);
    assert_eq!(Basis(vec![true, true, false]).reverse(), Sign::Neg);
    assert_eq!(Basis(vec![true, true, true]).reverse(), Sign::Neg);
    assert_eq!(Basis(vec![true, true, false]).involute(), Sign::Pos);
    assert_eq!(Basis(vec![true, false, false]).involute(), Sign::Neg);
}

#[test]
fn derived_products_filter_by_grade() {
    let metric = Metric(vec![Square::Pos, Square::Pos, Square::Pos]);
    let e0 = Basis(vec![true, false, false]);
    let e01 = Basis(vec![true, true, false]);
    let e1 = Basis(vec![false, true, false]);

    // Exterior product of overlapping blades is rejected.
    assert!(e0.exterior_product(&e01, &metric).is_none());
    // Disjoint blades wedge fine.
    let (s, b) = e0.exterior_product(&e1, &metric).unwrap();
    assert_eq!(s, Sign::Pos);
    assert_eq!(b, Basis(vec![true, true, false]));

    // Left contraction of the vector onto the containing bivector.
    let (s, b) = e0.left_contraction(&e01, &metric).unwrap();
    assert_eq!(s, Sign::Pos);
    assert_eq!(b, Basis(vec![false, true, false]));
    // The mirrored direction is rejected.
    assert!(e01.left_contraction(&e0, &metric).is_none());
    // The right contraction accepts exactly the mirrored direction.
    assert!(e01.right_contraction(&e0, &metric).is_some());
    assert!(e0.right_contraction(&e01, &metric).is_none());

    // Inner product contracts both ways.
    assert!(e0.inner_product(&e01, &metric).is_some());
    assert!(e01.inner_product(&e0, &metric).is_some());

    // Scalar product needs matching blades.
    assert!(e0.scalar_product(&e01, &metric).is_none());
    let (s, b) = e01.scalar_product(&e01, &metric).unwrap();
    assert_eq!(s, Sign::Neg);
    assert_eq!(b.grade(), 0);
}

#[test]
fn regressive_product_is_dual_of_exterior() {
    let metric = Metric(vec![Square::Pos, Square::Pos]);
    let e0 = Basis(vec![true, false]);
    let e1 = Basis(vec![false, true]);
    let direct = e0.regressive_product(&e1, &metric);
    let (sd, bd) = e0
        .dual()
        .exterior_product(&e1.dual(), &metric)
        .map(|(s, b)| (s, b.dual()))
        .unwrap();
    let (s, b) = direct.unwrap();
    assert_eq!(s, sd);
    assert_eq!(b, bd);
}

#[test]
fn grades_count_axes() {
    let a = Basis(vec![true, false, true]);
    assert_eq!(a.grade(), 2);
    assert_eq!(a.anti_grade(), 1);
    assert_eq!(a.dimension(), 3);
    assert_eq!(Basis::scalar(3).grade(), 0);
    assert_eq!(Basis::pseudoscalar(3).grade(), 3);
}

#[test]
fn monomial_inverse_cancels() {
    // 2 e1 under an all-positive metric: the inverse is (1/2) e1 and the
    // geometric product with it merges to the scalar identity.
    let metric = Metric(vec![Square::Pos, Square::Pos]);
    let x = Monomial {
        scalar: Rational::from_u64(2),
        symbols: Vec::new(),
        basis: Basis(vec![false, true]),
    };
    let inv = x.inverse(&metric).unwrap();
    assert_eq!(inv.basis, Basis(vec![false, true]));
    let half = Rational::one().div(&Rational::from_u64(2));
    assert!(inv.scalar.eq_rational(&half));
    let product = x.product(Product::Geometric, &inv, &metric).unwrap();
    assert_eq!(product.grade(), 0);
    assert!(product.symbols.is_empty());
    assert!(product.scalar.eq_rational(&Rational::one()));
}

#[test]
fn monomial_inverse_negates_exponents() {
    let metric = Metric(vec![Square::Pos]);
    let x = Monomial {
        scalar: Rational::from_u64(3),
        symbols: vec![(String::from("a"), 2)],
        basis: Basis(vec![false]),
    };
    let inv = x.inverse(&metric).unwrap();
    assert_eq!(inv.symbols, vec![(String::from("a"), -2)]);
    let ninth = Rational::one().div(&Rational::from_u64(9));
    assert!(!inv.scalar.eq_rational(&x.scalar));
    assert!(inv
        .scalar
        .eq_rational(&Rational::from_u64(3).mul(&ninth)));
}

#[test]
fn vanished_monomial_has_no_inverse() {
    let metric = Metric(vec![Square::Zero, Square::Pos]);
    let x = Monomial {
        scalar: Rational::one(),
        symbols: Vec::new(),
        basis: Basis(vec![true, false]),
    };
    assert!(x.inverse(&metric).is_none());
    assert!(x.norm_squared(&metric).is_zero());
}

#[test]
fn monomial_power_iterates_the_product() {
    // (2 e01)^2 = -4 under an all-positive metric.
    let metric = Metric(vec![Square::Pos, Square::Pos]);
    let x = Monomial {
        scalar: Rational::from_u64(2),
        symbols: Vec::new(),
        basis: Basis(vec![true, true]),
    };
    let squared = x.power(2, &metric).unwrap();
    assert_eq!(squared.grade(), 0);
    assert!(squared
        .scalar
        .eq_rational(&Rational::from_u64(4).neg()));
    // Any power of zero exponent is the identity.
    let unit = x.power(0, &metric).unwrap();
    assert!(unit.scalar.eq_rational(&Rational::one()));
    assert_eq!(unit.grade(), 0);
}

#[test]
fn merge_is_idempotent() {
    // Two copies of the same key merge once; merging again changes nothing.
    let metric_dim = 2;
    let term = |c: u64| Monomial {
        scalar: Rational::from_u64(c),
        symbols: vec![(String::from("x"), 1)],
        basis: Basis(vec![true, false]),
    };
    let p = Polynomial { monomials: vec![term(1), term(2)] };
    let merged = p.merge_monomials();
    assert_eq!(merged.monomials.len(), 1);
    assert!(merged.monomials[0]
        .scalar
        .eq_rational(&Rational::from_u64(3)));
    let again = merged.merge_monomials();
    assert_eq!(again.monomials.len(), 1);
    assert!(again.monomials[0]
        .scalar
        .eq_rational(&Rational::from_u64(3)));
    assert_eq!(again.monomials[0].basis.dimension(), metric_dim);
}

#[test]
fn division_round_trip_restores_the_dividend() {
    // (a / b) * b merges back to a for an invertible single-monomial b.
    let metric = Metric(vec![Square::Pos, Square::Pos]);
    let a = Polynomial {
        monomials: vec![
            Monomial {
                scalar: Rational::one(),
                symbols: Vec::new(),
                basis: Basis(vec![true, false]),
            },
            Monomial {
                scalar: Rational::from_u64(2),
                symbols: Vec::new(),
                basis: Basis(vec![false, true]),
            },
        ],
    };
    let b = Polynomial {
        monomials: vec![Monomial {
            scalar: Rational::from_u64(3),
            symbols: Vec::new(),
            basis: Basis(vec![true, false]),
        }],
    };
    let inv = b.inverse(&metric).unwrap();
    let quotient = a.product(Product::Geometric, &inv, &metric).unwrap();
    let back = quotient.product(Product::Geometric, &b, &metric).unwrap();
    assert_eq!(back.monomials.len(), 2);
    for m in &back.monomials {
        if m.basis == Basis(vec![true, false]) {
            assert!(m.scalar.eq_rational(&Rational::one()));
        } else {
            assert_eq!(m.basis, Basis(vec![false, true]));
            assert!(m.scalar.eq_rational(&Rational::from_u64(2)));
        }
    }
}

#[test]
fn polynomial_involutions_flip_signs_by_grade() {
    let p = Polynomial {
        monomials: vec![Monomial {
            scalar: Rational::one(),
            symbols: Vec::new(),
            basis: Basis(vec![true, true]),
        }],
    };
    let reversed = p.reverse();
    assert!(reversed.monomials[0]
        .scalar
        .eq_rational(&Rational::one().neg()));
    let involuted = p.involute();
    assert!(involuted.monomials[0].scalar.eq_rational(&Rational::one()));
    let dualled = p.dual();
    assert_eq!(dualled.monomials[0].basis, Basis(vec![false, false]));
}

#[test]
fn polynomial_norm_sums_monomial_norms() {
    let metric = Metric(vec![Square::Zero, Square::Pos]);
    let p = Polynomial {
        monomials: vec![
            Monomial {
                scalar: Rational::from_u64(2).neg(),
                symbols: Vec::new(),
                basis: Basis(vec![false, true]),
            },
            // This blade touches the null axis: its norm is zero.
            Monomial {
                scalar: Rational::from_u64(7),
                symbols: Vec::new(),
                basis: Basis(vec![true, false]),
            },
        ],
    };
    let norm = p.norm(&metric);
    assert!(norm.eq_rational(&Rational::from_u64(2)));
}

#[test]
fn adding_a_monomial_merges_it() {
    let base = Polynomial {
        monomials: vec![Monomial {
            scalar: Rational::one(),
            symbols: Vec::new(),
            basis: Basis(vec![true, false]),
        }],
    };
    let copy = base.duplicate();
    let extra = Monomial {
        scalar: Rational::from_u64(4),
        symbols: Vec::new(),
        basis: Basis(vec![true, false]),
    };
    let sum = copy.add_monomial(&extra);
    assert_eq!(sum.monomials.len(), 1);
    assert!(sum.monomials[0].scalar.eq_rational(&Rational::from_u64(5)));
    // The original polynomial is unchanged.
    assert!(base.monomials[0].scalar.eq_rational(&Rational::one()));
}
