//! Basis blades and the blade product algorithm.
//!
//! A `Basis` is a boolean vector over the metric's axes; bit `i` set means
//! axis `i` participates in the blade.  No factor order is retained, so the
//! geometric product reconstructs the permutation parity from bit positions.

use vstd::prelude::*;

use crate::metric::{Metric, Square};
use crate::sign::Sign;

verus! {

/// Number of set bits: the grade of a blade with these bits.
pub open spec fn count_ones(s: Seq<bool>) -> nat
    decreases s.len(),
{
    if s.len() == 0 {
        0
    } else {
        count_ones(s.drop_last()) + (if s.last() {
            1nat
        } else {
            0nat
        })
    }
}

/// Axiswise complement: the Poincaré dual's bits.
pub open spec fn complement(s: Seq<bool>) -> Seq<bool> {
    Seq::new(s.len(), |i: int| !s[i])
}

/// Bits of a blade product: an axis survives iff exactly one operand holds it.
pub open spec fn product_bits(a: Seq<bool>, b: Seq<bool>) -> Seq<bool> {
    Seq::new(a.len(), |i: int| a[i] != b[i])
}

/// The geometric product is defined iff no shared axis squares to zero.
pub open spec fn product_defined(a: Seq<bool>, b: Seq<bool>, m: Seq<Square>) -> bool {
    forall|i: int| 0 <= i < a.len() ==> !(a[i] && b[i] && m[i] == Square::Zero)
}

/// Sign flips contributed by axis `i` of `a`: one transposition for every
/// factor of `b` on a strictly lower axis, plus one flip if both operands
/// share axis `i` and it squares to `-1`.
pub open spec fn axis_flips(a: Seq<bool>, b: Seq<bool>, m: Seq<Square>, i: int) -> nat {
    (if a[i] {
        count_ones(b.take(i))
    } else {
        0nat
    }) + (if a[i] && b[i] && m[i] == Square::Neg {
        1nat
    } else {
        0nat
    })
}

/// Total sign flips over axes `0..k`.
pub open spec fn flips_below(a: Seq<bool>, b: Seq<bool>, m: Seq<Square>, k: int) -> nat
    decreases k,
{
    if k <= 0 {
        0
    } else {
        flips_below(a, b, m, k - 1) + axis_flips(a, b, m, k - 1)
    }
}

/// The sign carried by a parity of flips.
pub open spec fn sign_of_flips(n: nat) -> Sign {
    if n % 2 == 0 {
        Sign::Pos
    } else {
        Sign::Neg
    }
}

/// Sign of the geometric product of two blades.
pub open spec fn product_sign(a: Seq<bool>, b: Seq<bool>, m: Seq<Square>) -> Sign {
    sign_of_flips(flips_below(a, b, m, a.len() as int))
}

/// The exterior product keeps a geometric product only when no contraction
/// occurred, i.e. the grades add up.
pub open spec fn exterior_defined(a: Seq<bool>, b: Seq<bool>, m: Seq<Square>) -> bool {
    product_defined(a, b, m) && count_ones(product_bits(a, b)) == count_ones(a) + count_ones(b)
}

/// The left contraction keeps a geometric product only when the whole left
/// operand contracted into the right one: the grades subtract exactly.
pub open spec fn left_contraction_defined(a: Seq<bool>, b: Seq<bool>, m: Seq<Square>) -> bool {
    product_defined(a, b, m) && count_ones(a) <= count_ones(b) && count_ones(product_bits(a, b))
        == count_ones(b) - count_ones(a)
}

/// The inner product contracts in whichever direction fits: the result grade
/// is the absolute grade difference.
pub open spec fn inner_defined(a: Seq<bool>, b: Seq<bool>, m: Seq<Square>) -> bool {
    product_defined(a, b, m) && count_ones(product_bits(a, b)) == (if count_ones(a)
        <= count_ones(b) {
        count_ones(b) - count_ones(a)
    } else {
        count_ones(a) - count_ones(b)
    })
}

/// The scalar product keeps only grade-zero results.
pub open spec fn scalar_defined(a: Seq<bool>, b: Seq<bool>, m: Seq<Square>) -> bool {
    product_defined(a, b, m) && count_ones(product_bits(a, b)) == 0
}

/// Sign correction of the right contraction, preserving the convention
/// `A << B == ~(~B >> ~A)`.
pub open spec fn right_contraction_sign(a: Seq<bool>, b: Seq<bool>, m: Seq<Square>) -> Sign {
    product_sign(b, a, m).spec_times(reverse_sign(count_ones(b))).spec_times(
        reverse_sign(count_ones(a)),
    ).spec_times(reverse_sign(count_ones(product_bits(b, a))))
}

/// Sign of the reversion of a grade-`g` blade: `(-1)^(g(g-1)/2)`.
pub open spec fn reverse_sign(g: nat) -> Sign {
    if (g * (g - 1) / 2) % 2 == 0 {
        Sign::Pos
    } else {
        Sign::Neg
    }
}

/// Sign of the grade involution of a grade-`g` blade: `(-1)^g`.
pub open spec fn involute_sign(g: nat) -> Sign {
    if g % 2 == 0 {
        Sign::Pos
    } else {
        Sign::Neg
    }
}

/// Sign of the Clifford conjugate: reversion composed with grade involution.
pub open spec fn conjugate_sign(g: nat) -> Sign {
    reverse_sign(g).spec_times(involute_sign(g))
}

/// Counting bits of a prefix grows by the bit that the prefix gains.
pub proof fn lemma_count_ones_take_step(s: Seq<bool>, j: int)
    requires
        0 <= j < s.len(),
    ensures
        count_ones(s.take(j + 1)) == count_ones(s.take(j)) + (if s[j] {
            1nat
        } else {
            0nat
        }),
{
    assert(s.take(j + 1).drop_last() =~= s.take(j));
    assert(s.take(j + 1).last() == s[j]);
}

/// A full take is the sequence itself.
pub proof fn lemma_count_ones_take_all(s: Seq<bool>)
    ensures
        count_ones(s.take(s.len() as int)) == count_ones(s),
{
    assert(s.take(s.len() as int) =~= s);
}

/// A blade's basis: one bit per axis of the metric.
#[derive(Debug)]
pub struct Basis(pub Vec<bool>);

impl Clone for Basis {
    fn clone(&self) -> (r: Basis)
        ensures
            r@ == self@,
    {
        let n = self.0.len();
        let mut bits: Vec<bool> = Vec::new();
        let mut i: usize = 0;
        while i < n
            invariant
                0 <= i <= n,
                n == self.0@.len(),
                bits@ =~= self.0@.take(i as int),
            decreases n - i,
        {
            bits.push(self.0[i]);
            i += 1;
        }
        proof {
            assert(bits@ =~= self.0@);
        }
        Basis(bits)
    }
}

impl PartialEq for Basis {
    fn eq(&self, other: &Basis) -> (r: bool) {
        if self.0.len() != other.0.len() {
            return false;
        }
        let n = self.0.len();
        let mut i: usize = 0;
        while i < n
            invariant
                0 <= i <= n,
                n == self.0@.len(),
                n == other.0@.len(),
                forall|k: int| 0 <= k < i ==> self.0@[k] == other.0@[k],
            decreases n - i,
        {
            if self.0[i] != other.0[i] {
                return false;
            }
            i += 1;
        }
        proof {
            assert(self.0@ =~= other.0@);
        }
        true
    }
}

impl vstd::std_specs::cmp::PartialEqSpecImpl for Basis {
    open spec fn obeys_eq_spec() -> bool {
        true
    }

    open spec fn eq_spec(&self, other: &Basis) -> bool {
        self.0@ == other.0@
    }
}

impl Basis {
    /// The blade's bits, as a mathematical sequence.
    pub open spec fn view(&self) -> Seq<bool> {
        self.0@
    }

    /// Basis for a scalar: no axis participates.
    pub fn scalar(dimension: usize) -> (r: Basis)
        ensures
            r@ =~= Seq::new(dimension as nat, |i: int| false),
    {
        let mut bits: Vec<bool> = Vec::new();
        let mut i: usize = 0;
        while i < dimension
            invariant
                0 <= i <= dimension,
                bits@.len() == i,
                forall|k: int| 0 <= k < i ==> bits@[k] == false,
            decreases dimension - i,
        {
            bits.push(false);
            i += 1;
        }
        Basis(bits)
    }

    /// Basis for the pseudoscalar: every axis participates.
    pub fn pseudoscalar(dimension: usize) -> (r: Basis)
        ensures
            r@ =~= Seq::new(dimension as nat, |i: int| true),
    {
        let mut bits: Vec<bool> = Vec::new();
        let mut i: usize = 0;
        while i < dimension
            invariant
                0 <= i <= dimension,
                bits@.len() == i,
                forall|k: int| 0 <= k < i ==> bits@[k] == true,
            decreases dimension - i,
        {
            bits.push(true);
            i += 1;
        }
        Basis(bits)
    }

    /// Basis holding the single axis `index`.
    pub fn axis(dimension: usize, index: usize) -> (r: Basis)
        requires
            index < dimension,
        ensures
            r@ =~= axis_blade(dimension as nat, index as int),
    {
        let mut bits: Vec<bool> = Vec::new();
        let mut i: usize = 0;
        while i < dimension
            invariant
                0 <= i <= dimension,
                bits@.len() == i,
                forall|k: int| 0 <= k < i ==> bits@[k] == (k == index),
            decreases dimension - i,
        {
            bits.push(i == index);
            i += 1;
        }
        Basis(bits)
    }

    pub fn dimension(&self) -> (n: usize)
        ensures
            n == self@.len(),
    {
        self.0.len()
    }

    /// The grade: how many axes participate in this blade.
    pub fn grade(&self) -> (g: usize)
        ensures
            g == count_ones(self@),
    {
        let n = self.0.len();
        let mut g: usize = 0;
        let mut i: usize = 0;
        while i < n
            invariant
                0 <= i <= n,
                n == self@.len(),
                g == count_ones(self@.take(i as int)),
                g <= i,
            decreases n - i,
        {
            proof {
                lemma_count_ones_take_step(self@, i as int);
            }
            if self.0[i] {
                g += 1;
            }
            i += 1;
        }
        proof {
            lemma_count_ones_take_all(self@);
        }
        g
    }

    pub fn anti_grade(&self) -> (g: usize)
        ensures
            g == self@.len() - count_ones(self@),
    {
        proof {
            lemma_count_ones_le_len(self@);
        }
        self.dimension() - self.grade()
    }

    /// Poincaré duality operator: complement every axis.
    pub fn dual(&self) -> (r: Basis)
        ensures
            r@ =~= complement(self@),
    {
        let n = self.0.len();
        let mut bits: Vec<bool> = Vec::new();
        let mut i: usize = 0;
        while i < n
            invariant
                0 <= i <= n,
                n == self@.len(),
                bits@.len() == i,
                forall|k: int| 0 <= k < i ==> bits@[k] == !self@[k],
            decreases n - i,
        {
            bits.push(!self.0[i]);
            i += 1;
        }
        Basis(bits)
    }

    /// Parity of the reversion operator, which rewrites the blade's factors
    /// in the opposite order.
    pub fn reverse(&self) -> (s: Sign)
        ensures
            s == reverse_sign(count_ones(self@)),
    {
        let g = self.grade();
        if g == 0 {
            proof {
                assert(count_ones(self@) == 0);
                assert(reverse_sign(0nat) == Sign::Pos);
            }
            Sign::Pos
        } else {
            let gi = g as u128;
            proof {
                assert(gi * (gi - 1) < 0x100000000000000000000000000000000) by (nonlinear_arith)
                    requires gi < 0x10000000000000000;
            }
            let p = gi * (gi - 1) / 2;
            proof {
                assert(gi * (gi - 1) == count_ones(self@) * (count_ones(self@) - 1));
                assert(p == count_ones(self@) * (count_ones(self@) - 1) / 2);
            }
            if p % 2 == 0 {
                Sign::Pos
            } else {
                Sign::Neg
            }
        }
    }

    /// Parity of the grade involution, which negates odd-graded blades.
    pub fn involute(&self) -> (s: Sign)
        ensures
            s == involute_sign(count_ones(self@)),
    {
        let g = self.grade();
        if g % 2 == 0 {
            Sign::Pos
        } else {
            Sign::Neg
        }
    }

    /// Clifford conjugate: reversion composed with grade involution.
    pub fn conjugate(&self) -> (s: Sign)
        ensures
            s == conjugate_sign(count_ones(self@)),
    {
        self.reverse().times(self.involute())
    }

    /// Geometric product.  Walks the axes in increasing order, counting the
    /// transpositions needed to move the right factors past the left ones
    /// into canonical order; shared axes annihilate according to the metric,
    /// and a shared axis that squares to zero vanishes the whole product.
    pub fn geometric_product(&self, rhs: &Basis, metric: &Metric) -> (r: Option<(Sign, Basis)>)
        requires
            self@.len() == rhs@.len(),
            self@.len() == metric.0@.len(),
        ensures
            match r {
                Some((s, basis)) => product_defined(self@, rhs@, metric.0@) && s == product_sign(
                    self@,
                    rhs@,
                    metric.0@,
                ) && basis@ == product_bits(self@, rhs@),
                None => !product_defined(self@, rhs@, metric.0@),
            },
    {
        let n = self.0.len();
        let mut bits: Vec<bool> = Vec::new();
        let mut sign = Sign::Pos;
        let mut i: usize = 0;
        while i < n
            invariant
                0 <= i <= n,
                n == self@.len(),
                n == rhs@.len(),
                n == metric.0@.len(),
                bits@.len() == i,
                forall|k: int| 0 <= k < i ==> bits@[k] == (self@[k] != rhs@[k]),
                forall|k: int|
                    0 <= k < i ==> !(self@[k] && rhs@[k] && metric.0@[k] == Square::Zero),
                sign == sign_of_flips(flips_below(self@, rhs@, metric.0@, i as int)),
            decreases n - i,
        {
            if self.0[i] {
                let mut j: usize = 0;
                while j < i
                    invariant
                        0 <= j <= i < n,
                        n == self@.len(),
                        n == rhs@.len(),
                        n == metric.0@.len(),
                        sign == sign_of_flips(
                            flips_below(self@, rhs@, metric.0@, i as int) + count_ones(
                                rhs@.take(j as int),
                            ),
                        ),
                    decreases i - j,
                {
                    proof {
                        lemma_count_ones_take_step(rhs@, j as int);
                    }
                    if rhs.0[j] {
                        sign = sign.flip();
                    }
                    j += 1;
                }
            }
            let shared = self.0[i] && rhs.0[i];
            if shared {
                match metric.0[i] {
                    Square::Pos => {},
                    Square::Neg => {
                        sign = sign.flip();
                    },
                    Square::Zero => {
                        return None;
                    },
                }
            }
            let bit = if shared {
                false
            } else {
                self.0[i] != rhs.0[i]
            };
            bits.push(bit);
            proof {
                assert(flips_below(self@, rhs@, metric.0@, i + 1) == flips_below(
                    self@,
                    rhs@,
                    metric.0@,
                    i as int,
                ) + axis_flips(self@, rhs@, metric.0@, i as int));
            }
            i += 1;
        }
        proof {
            assert(bits@ =~= product_bits(self@, rhs@));
        }
        Some((sign, Basis(bits)))
    }

    /// Exterior product: the geometric product, kept only when the grades
    /// add (no contraction occurred).
    pub fn exterior_product(&self, rhs: &Basis, metric: &Metric) -> (r: Option<(Sign, Basis)>)
        requires
            self@.len() == rhs@.len(),
            self@.len() == metric.0@.len(),
        ensures
            match r {
                Some((s, basis)) => exterior_defined(self@, rhs@, metric.0@) && s == product_sign(
                    self@,
                    rhs@,
                    metric.0@,
                ) && basis@ == product_bits(self@, rhs@),
                None => !exterior_defined(self@, rhs@, metric.0@),
            },
    {
        match self.geometric_product(rhs, metric) {
            None => None,
            Some((sign, product)) => {
                let ga = self.grade() as u128;
                let gb = rhs.grade() as u128;
                if ga + gb == product.grade() as u128 {
                    Some((sign, product))
                } else {
                    None
                }
            },
        }
    }

    /// Regressive product, computed as the Poincaré dual of the exterior
    /// product of the duals: `A \/ B == J(J(A) /\ J(B))`.
    pub fn regressive_product(&self, rhs: &Basis, metric: &Metric) -> (r: Option<(Sign, Basis)>)
        requires
            self@.len() == rhs@.len(),
            self@.len() == metric.0@.len(),
        ensures
            match r {
                Some((s, basis)) => exterior_defined(complement(self@), complement(rhs@), metric.0@)
                    && s == product_sign(complement(self@), complement(rhs@), metric.0@) && basis@
                    == complement(product_bits(complement(self@), complement(rhs@))),
                None => !exterior_defined(complement(self@), complement(rhs@), metric.0@),
            },
    {
        match self.dual().exterior_product(&rhs.dual(), metric) {
            None => None,
            Some((sign, product)) => Some((sign, product.dual())),
        }
    }

    /// Contraction of `self` onto `rhs`: the sub-blade of `rhs` perpendicular
    /// to `self`.  Defined only when all of `self` contracts away.
    pub fn left_contraction(&self, rhs: &Basis, metric: &Metric) -> (r: Option<(Sign, Basis)>)
        requires
            self@.len() == rhs@.len(),
            self@.len() == metric.0@.len(),
        ensures
            match r {
                Some((s, basis)) => left_contraction_defined(self@, rhs@, metric.0@) && s
                    == product_sign(self@, rhs@, metric.0@) && basis@ == product_bits(self@, rhs@),
                None => !left_contraction_defined(self@, rhs@, metric.0@),
            },
    {
        match self.geometric_product(rhs, metric) {
            None => None,
            Some((sign, product)) => {
                let ga = self.grade();
                let gb = rhs.grade();
                if ga <= gb && gb - ga == product.grade() {
                    Some((sign, product))
                } else {
                    None
                }
            },
        }
    }

    /// Contraction of `self` by `rhs`: the mirrored left contraction with the
    /// sign correction that keeps `A << B == ~(~B >> ~A)`.
    pub fn right_contraction(&self, rhs: &Basis, metric: &Metric) -> (r: Option<(Sign, Basis)>)
        requires
            self@.len() == rhs@.len(),
            self@.len() == metric.0@.len(),
        ensures
            match r {
                Some((s, basis)) => left_contraction_defined(rhs@, self@, metric.0@) && s
                    == right_contraction_sign(self@, rhs@, metric.0@) && basis@ == product_bits(
                    rhs@,
                    self@,
                ),
                None => !left_contraction_defined(rhs@, self@, metric.0@),
            },
    {
        match rhs.left_contraction(self, metric) {
            None => None,
            Some((sign, product)) => {
                let sign = sign.times(rhs.reverse()).times(self.reverse()).times(product.reverse());
                Some((sign, product))
            },
        }
    }

    /// Inner product: bi-directional contraction, defined when the result
    /// grade is the absolute grade difference.
    pub fn inner_product(&self, rhs: &Basis, metric: &Metric) -> (r: Option<(Sign, Basis)>)
        requires
            self@.len() == rhs@.len(),
            self@.len() == metric.0@.len(),
        ensures
            match r {
                Some((s, basis)) => inner_defined(self@, rhs@, metric.0@) && s == product_sign(
                    self@,
                    rhs@,
                    metric.0@,
                ) && basis@ == product_bits(self@, rhs@),
                None => !inner_defined(self@, rhs@, metric.0@),
            },
    {
        match self.geometric_product(rhs, metric) {
            None => None,
            Some((sign, product)) => {
                let ga = self.grade();
                let gb = rhs.grade();
                let diff = if ga <= gb {
                    gb - ga
                } else {
                    ga - gb
                };
                if diff == product.grade() {
                    Some((sign, product))
                } else {
                    None
                }
            },
        }
    }

    /// Scalar product: the geometric product, kept only when it lands on the
    /// scalar basis.
    pub fn scalar_product(&self, rhs: &Basis, metric: &Metric) -> (r: Option<(Sign, Basis)>)
        requires
            self@.len() == rhs@.len(),
            self@.len() == metric.0@.len(),
        ensures
            match r {
                Some((s, basis)) => scalar_defined(self@, rhs@, metric.0@) && s == product_sign(
                    self@,
                    rhs@,
                    metric.0@,
                ) && basis@ == product_bits(self@, rhs@),
                None => !scalar_defined(self@, rhs@, metric.0@),
            },
    {
        match self.geometric_product(rhs, metric) {
            None => None,
            Some((sign, product)) => {
                if product.grade() == 0 {
                    Some((sign, product))
                } else {
                    None
                }
            },
        }
    }
}

/// A blade's grade never exceeds the dimension.
pub proof fn lemma_count_ones_le_len(s: Seq<bool>)
    ensures
        count_ones(s) <= s.len(),
    decreases s.len(),
{
    if s.len() > 0 {
        lemma_count_ones_le_len(s.drop_last());
    }
}

/// A sequence without set bits has no ones to count.
pub proof fn lemma_count_ones_none(s: Seq<bool>)
    requires
        forall|i: int| 0 <= i < s.len() ==> !s[i],
    ensures
        count_ones(s) == 0,
    decreases s.len(),
{
    if s.len() > 0 {
        lemma_count_ones_none(s.drop_last());
    }
}

/// The blade holding exactly axis `i` of `n`.
pub open spec fn axis_blade(n: nat, i: int) -> Seq<bool> {
    Seq::new(n, |k: int| k == i)
}

/// Ones of a prefix of a single-axis blade: one once the prefix covers the axis.
proof fn lemma_count_ones_axis_take(n: nat, i: int, k: int)
    requires
        0 <= i < n,
        0 <= k <= n,
    ensures
        count_ones(axis_blade(n, i).take(k)) == if i < k {
            1nat
        } else {
            0nat
        },
    decreases k,
{
    if k > 0 {
        lemma_count_ones_axis_take(n, i, k - 1);
        lemma_count_ones_take_step(axis_blade(n, i), k - 1);
    }
}

/// Flips of a product whose left operand holds the single axis `i` and shares
/// no axis with the right operand: only axis `i` contributes.
proof fn lemma_flips_below_single_axis(
    a: Seq<bool>,
    b: Seq<bool>,
    m: Seq<Square>,
    i: int,
    k: int,
)
    requires
        a.len() == b.len() == m.len(),
        0 <= i < a.len(),
        forall|t: int| 0 <= t < a.len() ==> (a[t] <==> t == i),
        forall|t: int| 0 <= t < a.len() ==> !(a[t] && b[t]),
        0 <= k <= a.len(),
    ensures
        flips_below(a, b, m, k) == if i < k {
            count_ones(b.take(i))
        } else {
            0nat
        },
    decreases k,
{
    if k > 0 {
        lemma_flips_below_single_axis(a, b, m, i, k - 1);
    }
}

/// The square of a blade: `a.geometric_product(a, m)` vanishes exactly when
/// `a` touches an axis whose square is zero; otherwise the product lands on
/// the scalar basis (grade zero).  Both factors coincide, so no factor order
/// can affect the sign.
pub proof fn lemma_blade_square(a: Seq<bool>, m: Seq<Square>)
    requires
        a.len() == m.len(),
    ensures
        product_defined(a, a, m) <==> (forall|i: int|
            0 <= i < a.len() ==> !(a[i] && m[i] == Square::Zero)),
        count_ones(product_bits(a, a)) == 0,
{
    lemma_count_ones_none(product_bits(a, a));
}

/// Anti-symmetry on grade one: the geometric product of two distinct single
/// axes is defined, yields the same two-axis basis in either order, and the
/// two orders carry opposite signs.  (Equal axes square by `lemma_blade_square`
/// and trivially commute.)
pub proof fn lemma_grade_one_antisymmetry(n: nat, i: int, j: int, m: Seq<Square>)
    requires
        m.len() == n,
        0 <= i < n,
        0 <= j < n,
        i != j,
    ensures
        product_defined(axis_blade(n, i), axis_blade(n, j), m),
        product_defined(axis_blade(n, j), axis_blade(n, i), m),
        product_bits(axis_blade(n, i), axis_blade(n, j)) == product_bits(
            axis_blade(n, j),
            axis_blade(n, i),
        ),
        product_sign(axis_blade(n, i), axis_blade(n, j), m) == product_sign(
            axis_blade(n, j),
            axis_blade(n, i),
            m,
        ).spec_flip(),
{
    let a = axis_blade(n, i);
    let b = axis_blade(n, j);
    assert(product_bits(a, b) =~= product_bits(b, a));
    lemma_flips_below_single_axis(a, b, m, i, n as int);
    lemma_flips_below_single_axis(b, a, m, j, n as int);
    lemma_count_ones_axis_take(n, j, i);
    lemma_count_ones_axis_take(n, i, j);
}

/// Poincaré duality is an involution: complementing every axis twice gives
/// back the original blade.
pub proof fn lemma_dual_involution(a: Seq<bool>)
    ensures
        complement(complement(a)) == a,
{
    assert(complement(complement(a)) =~= a);
}

/// The Clifford conjugate of a blade is the composition of its reversion and
/// its grade involution, as signs.
pub proof fn lemma_conjugate_composition(a: Seq<bool>)
    ensures
        conjugate_sign(count_ones(a)) == reverse_sign(count_ones(a)).spec_times(
            involute_sign(count_ones(a)),
        ),
{
}

} // verus!
