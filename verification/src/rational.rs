//! Exact rational coefficients.
//!
//! A `Rational` holds a sign and two arbitrary-precision magnitudes as
//! little-endian base-2^32 digit vectors, so that contracts can speak of the
//! exact integer values.  The bignum arithmetic itself is delegated to the
//! `num` crate through trusted wrappers; everything stated about a result is
//! phrased over the `Rat` model of `crate::rat`.

use num::{BigInt, BigRational, BigUint};
use vstd::prelude::*;

use crate::rat::{
    rat_abs, rat_add, rat_div, rat_eqv, rat_int, rat_is_zero, rat_mul, rat_neg, rat_wf, Rat,
};

verus! {

/// Value of a little-endian base-2^32 digit vector.
pub open spec fn limbs_val(s: Seq<u32>) -> nat
    decreases s.len(),
{
    if s.len() == 0 {
        0
    } else {
        (s[0] + 0x1_0000_0000 * limbs_val(s.drop_first())) as nat
    }
}

/// A digit vector is zero exactly when every digit is zero.
pub proof fn lemma_limbs_val_zero(s: Seq<u32>)
    ensures
        limbs_val(s) == 0 <==> (forall|i: int| 0 <= i < s.len() ==> s[i] == 0),
    decreases s.len(),
{
    if s.len() > 0 {
        lemma_limbs_val_zero(s.drop_first());
        if limbs_val(s) == 0 {
            assert(forall|i: int| 0 <= i < s.drop_first().len() ==> s.drop_first()[i] == 0);
            assert(forall|i: int| 1 <= i < s.len() ==> s[i] == s.drop_first()[i - 1] && s[i] == 0);
        } else {
            if forall|i: int| 0 <= i < s.len() ==> s[i] == 0 {
                assert(forall|i: int|
                    0 <= i < s.drop_first().len() ==> s.drop_first()[i] == s[i + 1] && s.drop_first()[i]
                        == 0);
            }
        }
    }
}

/// Numeric value of a decimal digit string.
pub open spec fn dec_val(s: Seq<char>) -> nat
    decreases s.len(),
{
    if s.len() == 0 {
        0
    } else {
        (dec_val(s.drop_last()) * 10 + (s.last() as u32 - 48)) as nat
    }
}

/// The characters `'0'` through `'9'`.
pub open spec fn is_decimal_digit(c: char) -> bool {
    48 <= c as u32 <= 57
}

/// An exact rational: `(-1)^negative * numer / denom`, both magnitudes as
/// little-endian base-2^32 digits.  Well-formed when the denominator is
/// nonzero.
#[derive(Debug)]
pub struct Rational {
    pub negative: bool,
    pub numer: Vec<u32>,
    pub denom: Vec<u32>,
}

/// Copy a digit vector.
fn copy_digits(v: &Vec<u32>) -> (r: Vec<u32>)
    ensures
        r@ == v@,
{
    let mut r: Vec<u32> = Vec::new();
    let n = v.len();
    let mut i: usize = 0;
    while i < n
        invariant
            0 <= i <= n,
            n == v@.len(),
            r@ =~= v@.take(i as int),
        decreases n - i,
    {
        r.push(v[i]);
        i += 1;
    }
    proof {
        assert(r@ =~= v@);
    }
    r
}

impl Rational {
    /// The mathematical rational this value denotes.
    pub open spec fn view(&self) -> Rat {
        Rat {
            n: if self.negative {
                -(limbs_val(self.numer@) as int)
            } else {
                limbs_val(self.numer@) as int
            },
            d: limbs_val(self.denom@) as int,
        }
    }

    /// Well-formed: the denominator is nonzero, so the value is a rational.
    pub open spec fn wf(&self) -> bool {
        limbs_val(self.denom@) > 0
    }

    /// The rational zero.
    pub fn zero() -> (r: Rational)
        ensures
            r.wf(),
            r@ == rat_int(0),
    {
        let numer: Vec<u32> = Vec::new();
        let mut denom: Vec<u32> = Vec::new();
        denom.push(1);
        proof {
            assert(denom@.drop_first() =~= Seq::<u32>::empty());
        }
        Rational { negative: false, numer, denom }
    }

    /// The rational denoting `v`.
    pub fn from_u64(v: u64) -> (r: Rational)
        ensures
            r.wf(),
            r@ == rat_int(v as int),
    {
        let lo: u32 = (v & 0xFFFF_FFFF) as u32;
        let hi: u32 = (v >> 32) as u32;
        proof {
            assert((v & 0xFFFF_FFFF) < 0x1_0000_0000 && (v >> 32) < 0x1_0000_0000 && (v
                & 0xFFFF_FFFF) + 0x1_0000_0000 * (v >> 32) == v) by (bit_vector);
        }
        let mut numer: Vec<u32> = Vec::new();
        numer.push(lo);
        numer.push(hi);
        let mut denom: Vec<u32> = Vec::new();
        denom.push(1);
        proof {
            assert(denom@.drop_first() =~= Seq::<u32>::empty());
            assert(limbs_val(Seq::<u32>::empty()) == 0);
            assert(limbs_val(denom@) == 1);
            assert(numer@.drop_first() =~= seq![hi]);
            assert(seq![hi].drop_first() =~= Seq::<u32>::empty());
            assert(limbs_val(seq![hi]) == hi);
            assert(limbs_val(numer@) == lo + 0x1_0000_0000 * (hi as nat));
        }
        Rational { negative: false, numer, denom }
    }

    /// The rational one.
    pub fn one() -> (r: Rational)
        ensures
            r.wf(),
            r@ == rat_int(1),
    {
        Rational::from_u64(1)
    }

    /// An identical copy.
    pub fn duplicate(&self) -> (r: Rational)
        ensures
            r@ == self@,
            r.wf() == self.wf(),
            r.negative == self.negative,
            r.numer@ == self.numer@,
            r.denom@ == self.denom@,
    {
        Rational {
            negative: self.negative,
            numer: copy_digits(&self.numer),
            denom: copy_digits(&self.denom),
        }
    }

    /// Whether the value is exactly zero.
    pub fn is_zero(&self) -> (r: bool)
        ensures
            r == rat_is_zero(self@),
    {
        let n = self.numer.len();
        let mut i: usize = 0;
        while i < n
            invariant
                0 <= i <= n,
                n == self.numer@.len(),
                forall|k: int| 0 <= k < i ==> self.numer@[k] == 0,
            decreases n - i,
        {
            if self.numer[i] != 0 {
                proof {
                    lemma_limbs_val_zero(self.numer@);
                }
                return false;
            }
            i += 1;
        }
        proof {
            lemma_limbs_val_zero(self.numer@);
        }
        true
    }

    /// Negation: flip the sign bit.
    pub fn neg(&self) -> (r: Rational)
        requires
            self.wf(),
        ensures
            r.wf(),
            r@ == rat_neg(self@),
    {
        Rational {
            negative: !self.negative,
            numer: copy_digits(&self.numer),
            denom: copy_digits(&self.denom),
        }
    }

    /// Absolute value: clear the sign bit.
    pub fn abs(&self) -> (r: Rational)
        requires
            self.wf(),
        ensures
            r.wf(),
            r@ == rat_abs(self@),
    {
        Rational {
            negative: false,
            numer: copy_digits(&self.numer),
            denom: copy_digits(&self.denom),
        }
    }

    /// Exact sum.  Relies on `num`'s `BigRational` addition: `Ratio`
    /// arithmetic is exact and keeps the denominator positive.
    #[verifier::external_body]
    pub fn add(&self, other: &Rational) -> (r: Rational)
        requires
            self.wf(),
            other.wf(),
        ensures
            r.wf(),
            rat_eqv(r@, rat_add(self@, other@)),
    {
        let mut an = BigInt::from(BigUint::new(self.numer.clone()));
        if self.negative { an = -an; }
        let a = BigRational::new(an, BigInt::from(BigUint::new(self.denom.clone())));
        let mut bn = BigInt::from(BigUint::new(other.numer.clone()));
        if other.negative { bn = -bn; }
        let b = BigRational::new(bn, BigInt::from(BigUint::new(other.denom.clone())));
        let c = &a + &b;
        Rational {
            negative: c.numer().sign() == num::bigint::Sign::Minus,
            numer: c.numer().magnitude().to_u32_digits(),
            denom: c.denom().magnitude().to_u32_digits(),
        }
    }

    /// Exact product.  Relies on `num`'s `BigRational` multiplication:
    /// `Ratio` arithmetic is exact and keeps the denominator positive.
    #[verifier::external_body]
    pub fn mul(&self, other: &Rational) -> (r: Rational)
        requires
            self.wf(),
            other.wf(),
        ensures
            r.wf(),
            rat_eqv(r@, rat_mul(self@, other@)),
    {
        let mut an = BigInt::from(BigUint::new(self.numer.clone()));
        if self.negative { an = -an; }
        let a = BigRational::new(an, BigInt::from(BigUint::new(self.denom.clone())));
        let mut bn = BigInt::from(BigUint::new(other.numer.clone()));
        if other.negative { bn = -bn; }
        let b = BigRational::new(bn, BigInt::from(BigUint::new(other.denom.clone())));
        let c = &a * &b;
        Rational {
            negative: c.numer().sign() == num::bigint::Sign::Minus,
            numer: c.numer().magnitude().to_u32_digits(),
            denom: c.denom().magnitude().to_u32_digits(),
        }
    }

    /// Exact quotient by a nonzero rational.  Relies on `num`'s
    /// `BigRational` division: `Ratio` arithmetic is exact and keeps the
    /// denominator positive; division by zero would panic and is excluded.
    #[verifier::external_body]
    pub fn div(&self, other: &Rational) -> (r: Rational)
        requires
            self.wf(),
            other.wf(),
            !rat_is_zero(other@),
        ensures
            r.wf(),
            rat_eqv(r@, rat_div(self@, other@)),
    {
        let mut an = BigInt::from(BigUint::new(self.numer.clone()));
        if self.negative { an = -an; }
        let a = BigRational::new(an, BigInt::from(BigUint::new(self.denom.clone())));
        let mut bn = BigInt::from(BigUint::new(other.numer.clone()));
        if other.negative { bn = -bn; }
        let b = BigRational::new(bn, BigInt::from(BigUint::new(other.denom.clone())));
        let c = &a / &b;
        Rational {
            negative: c.numer().sign() == num::bigint::Sign::Minus,
            numer: c.numer().magnitude().to_u32_digits(),
            denom: c.denom().magnitude().to_u32_digits(),
        }
    }

    /// Exact value comparison.  Relies on `num`'s `PartialEq` for `Ratio`,
    /// which compares the denoted rational values.
    #[verifier::external_body]
    pub fn eq_rational(&self, other: &Rational) -> (r: bool)
        requires
            self.wf(),
            other.wf(),
        ensures
            r == rat_eqv(self@, other@),
    {
        let mut an = BigInt::from(BigUint::new(self.numer.clone()));
        if self.negative { an = -an; }
        let a = BigRational::new(an, BigInt::from(BigUint::new(self.denom.clone())));
        let mut bn = BigInt::from(BigUint::new(other.numer.clone()));
        if other.negative { bn = -bn; }
        let b = BigRational::new(bn, BigInt::from(BigUint::new(other.denom.clone())));
        a == b
    }

    /// The integer denoted by a decimal digit string.
    pub fn from_decimal_str(s: &str) -> (r: Rational)
        requires
            s@.len() > 0,
            forall|i: int| 0 <= i < s@.len() ==> is_decimal_digit(s@[i]),
        ensures
            r.wf(),
            r@ == rat_int(dec_val(s@) as int),
    {
        let numer = digits_from_decimal(s);
        let mut denom: Vec<u32> = Vec::new();
        denom.push(1);
        proof {
            assert(denom@.drop_first() =~= Seq::<u32>::empty());
            assert(limbs_val(Seq::<u32>::empty()) == 0);
            assert(limbs_val(denom@) == 1);
        }
        Rational { negative: false, numer, denom }
    }

    /// The exact ratio of two decimal digit strings, or `None` when the
    /// denominator string denotes zero.
    pub fn from_decimal_pair(numer: &str, denom: &str) -> (r: Option<Rational>)
        requires
            numer@.len() > 0,
            forall|i: int| 0 <= i < numer@.len() ==> is_decimal_digit(numer@[i]),
            denom@.len() > 0,
            forall|i: int| 0 <= i < denom@.len() ==> is_decimal_digit(denom@[i]),
        ensures
            match r {
                Some(q) => dec_val(denom@) != 0 && q.wf() && rat_eqv(
                    q@,
                    rat_div(rat_int(dec_val(numer@) as int), rat_int(dec_val(denom@) as int)),
                ),
                None => dec_val(denom@) == 0,
            },
    {
        let n = Rational::from_decimal_str(numer);
        let d = Rational::from_decimal_str(denom);
        if d.is_zero() {
            None
        } else {
            Some(n.div(&d))
        }
    }
}

/// Digits of the integer denoted by a decimal string.  Relies on
/// `BigUint::parse_bytes` in base 10, which parses exactly the decimal
/// digits, and on `BigUint::to_u32_digits`, which returns the little-endian
/// base-2^32 digits of the value.
#[verifier::external_body]
fn digits_from_decimal(s: &str) -> (r: Vec<u32>)
    requires
        s@.len() > 0,
        forall|i: int| 0 <= i < s@.len() ==> is_decimal_digit(s@[i]),
    ensures
        limbs_val(r@) == dec_val(s@),
{
    BigUint::parse_bytes(s.as_bytes(), 10).unwrap().to_u32_digits()
}

} // verus!
