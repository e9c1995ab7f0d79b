//! Exact rational arithmetic at the coefficient level.

use clifford::rational::Rational;

#[test]
fn sums_and_products_are_exact() {
    let two = Rational::from_u64(2);
    let three = Rational::from_u64(3);
    assert!(two.add(&three).eq_rational(&Rational::from_u64(5)));
    assert!(two.mul(&three).eq_rational(&Rational::from_u64(6)));
    assert!(Rational::from_u64(6)
        .div(&three)
        .eq_rational(&two));
    assert!(!two.add(&three).eq_rational(&two));
}

#[test]
fn fractions_compare_by_value() {
    let third = Rational::one().div(&Rational::from_u64(3));
    let sixth = Rational::one().div(&Rational::from_u64(6));
    let half = Rational::one().div(&Rational::from_u64(2));
    assert!(third.add(&sixth).eq_rational(&half));
    assert!(!third.eq_rational(&half));
    let two_sixths = Rational::from_u64(2).div(&Rational::from_u64(6));
    assert!(third.eq_rational(&two_sixths));
}

#[test]
fn negation_and_absolute_value() {
    let five = Rational::from_u64(5);
    let minus = five.neg();
    assert!(!minus.eq_rational(&five));
    assert!(minus.abs().eq_rational(&five));
    assert!(minus.add(&five).is_zero());
    assert!(Rational::zero().neg().is_zero());
}

#[test]
fn decimal_strings_parse_to_their_value() {
    let parsed = Rational::from_decimal_str("12");
    assert!(parsed.eq_rational(&Rational::from_u64(12)));
    let wide = Rational::from_decimal_str("18446744073709551617");
    // One more than the largest 64-bit integer: exact, not wrapped.
    let max = Rational::from_u64(u64::MAX);
    assert!(wide.eq_rational(&max.add(&Rational::from_u64(2))));
    assert!(!wide.eq_rational(&max));
}

#[test]
fn decimal_pairs_divide_or_reject_zero() {
    let q = Rational::from_decimal_pair("3", "4").unwrap();
    let three_quarters = Rational::from_u64(3).div(&Rational::from_u64(4));
    assert!(q.eq_rational(&three_quarters));
    assert!(Rational::from_decimal_pair("3", "0").is_none());
    assert!(Rational::from_decimal_pair("3", "00").is_none());
}

#[test]
fn zero_tests_see_through_representation() {
    let z = Rational::from_u64(3).add(&Rational::from_u64(3).neg());
    assert!(z.is_zero());
    assert!(z.eq_rational(&Rational::zero()));
    assert!(!Rational::one().is_zero());
}
