//! Monomials: an exact rational coefficient, a symbol-exponent mapping and a
//! basis blade, together with the algebra that delegates blade products to
//! `Basis` and combines coefficients and exponents.

use vstd::prelude::*;

use crate::basis::{
    complement, count_ones, conjugate_sign, exterior_defined, inner_defined, involute_sign,
    left_contraction_defined, product_bits, product_defined, product_sign, reverse_sign,
    right_contraction_sign, scalar_defined, Basis,
};
use crate::metric::{Metric, Square};
use crate::rat::{
    lemma_abs_congruence, lemma_div_congruence, lemma_eqv_zero, lemma_mul_congruence,
    lemma_neg_congruence, lemma_ops_wf, rat_abs, rat_div, rat_eqv, rat_int, rat_is_zero, rat_mul,
    rat_neg, rat_wf, Rat,
};
use crate::rational::Rational;
use crate::sign::Sign;
use crate::symbols::{
    copy_syms, lemma_syms_map_congruent, merge_syms, negate_syms, syms_equal, syms_map, syms_neg,
    syms_overflow, syms_union, syms_wf,
};

verus! {

/// The seven blade product variants, all grade filters over one underlying
/// geometric product.
#[derive(Debug, Clone, Copy)]
pub enum Product {
    Geometric,
    Exterior,
    Regressive,
    LeftContraction,
    RightContraction,
    Inner,
    Scalar,
}

/// When the chosen product variant of two blades is defined.
pub open spec fn kind_defined(kind: Product, a: Seq<bool>, b: Seq<bool>, m: Seq<Square>) -> bool {
    match kind {
        Product::Geometric => product_defined(a, b, m),
        Product::Exterior => exterior_defined(a, b, m),
        Product::Regressive => exterior_defined(complement(a), complement(b), m),
        Product::LeftContraction => left_contraction_defined(a, b, m),
        Product::RightContraction => left_contraction_defined(b, a, m),
        Product::Inner => inner_defined(a, b, m),
        Product::Scalar => scalar_defined(a, b, m),
    }
}

/// The bits the chosen product variant produces.
pub open spec fn kind_bits(kind: Product, a: Seq<bool>, b: Seq<bool>) -> Seq<bool> {
    match kind {
        Product::Regressive => complement(product_bits(complement(a), complement(b))),
        Product::RightContraction => product_bits(b, a),
        _ => product_bits(a, b),
    }
}

/// The sign the chosen product variant produces.
pub open spec fn kind_sign(kind: Product, a: Seq<bool>, b: Seq<bool>, m: Seq<Square>) -> Sign {
    match kind {
        Product::Regressive => product_sign(complement(a), complement(b), m),
        Product::RightContraction => right_contraction_sign(a, b, m),
        _ => product_sign(a, b, m),
    }
}

/// A sign acting on a rational.
pub open spec fn sign_rat(s: Sign, r: Rat) -> Rat {
    if s == Sign::Pos {
        r
    } else {
        rat_neg(r)
    }
}

/// The mathematical content of a monomial: coefficient, exponent mapping and
/// blade bits.
pub ghost struct Term {
    pub c: Rat,
    pub s: Map<Seq<char>, int>,
    pub b: Seq<bool>,
}

/// Terms denoting the same value: equal blade and exponents, equivalent
/// coefficients.
pub open spec fn term_equiv(x: Term, y: Term) -> bool {
    rat_eqv(x.c, y.c) && x.s == y.s && x.b == y.b
}

/// The scalar-identity term over `n` axes.
pub open spec fn term_one(n: nat) -> Term {
    Term { c: rat_int(1), s: Map::empty(), b: Seq::new(n, |i: int| false) }
}

/// The vanished term over `n` axes: coefficient zero on the scalar basis.
pub open spec fn term_zero(n: nat) -> Term {
    Term { c: rat_int(0), s: Map::empty(), b: Seq::new(n, |i: int| false) }
}

/// The geometric product at the term level: blade product with sign,
/// coefficient product, exponent sums; a vanishing blade product collapses
/// to the zero term.
pub open spec fn term_geo(x: Term, y: Term, m: Seq<Square>) -> Term {
    if product_defined(x.b, y.b, m) {
        Term {
            c: sign_rat(product_sign(x.b, y.b, m), rat_mul(x.c, y.c)),
            s: syms_union(x.s, y.s),
            b: product_bits(x.b, y.b),
        }
    } else {
        term_zero(x.b.len())
    }
}

/// Iterated geometric product: `x^k` starting from the scalar identity,
/// multiplying `x` on the right.
pub open spec fn term_pow(x: Term, k: nat, m: Seq<Square>) -> Term
    decreases k,
{
    if k == 0 {
        term_one(x.b.len())
    } else {
        term_geo(term_pow(x, (k - 1) as nat, m), x, m)
    }
}

/// Whether some step of the iterated product overflows an exponent sum.
pub open spec fn pow_overflows(x: Term, k: nat, m: Seq<Square>) -> bool
    decreases k,
{
    if k == 0 {
        false
    } else {
        pow_overflows(x, (k - 1) as nat, m) || (product_defined(
            term_pow(x, (k - 1) as nat, m).b,
            x.b,
            m,
        ) && syms_overflow(term_pow(x, (k - 1) as nat, m).s, x.s))
    }
}

/// The squared-norm coefficient of a blade with coefficient `c`: the absolute
/// coefficient of the scalar product of the monomial with its conjugate,
/// which vanishes when the blade squares to zero.
pub open spec fn spec_norm_sq(c: Rat, b: Seq<bool>, m: Seq<Square>) -> Rat {
    if product_defined(b, b, m) {
        rat_abs(
            sign_rat(
                product_sign(b, b, m).spec_times(conjugate_sign(count_ones(b))),
                rat_mul(c, c),
            ),
        )
    } else {
        rat_int(0)
    }
}

/// The coefficient of a monomial's inverse: the reversed coefficient divided
/// by the squared norm.
pub open spec fn spec_inverse_coeff(c: Rat, b: Seq<bool>, m: Seq<Square>) -> Rat {
    rat_div(sign_rat(reverse_sign(count_ones(b)), c), spec_norm_sq(c, b, m))
}

/// The magnitude of an integer exponent.
pub open spec fn abs_nat(e: int) -> nat {
    if e >= 0 {
        e as nat
    } else {
        (-e) as nat
    }
}

/// The term a power iterates on: the monomial itself for a nonnegative
/// exponent, its inverse for a negative one.
pub open spec fn pow_base(t: Term, e: int, m: Seq<Square>) -> Term {
    if e >= 0 {
        t
    } else {
        Term { c: spec_inverse_coeff(t.c, t.b, m), s: syms_neg(t.s), b: t.b }
    }
}

/// Iterated products keep the coefficient well-formed and the dimension.
pub proof fn lemma_term_pow_wf(t: Term, k: nat, m: Seq<Square>)
    requires
        rat_wf(t.c),
    ensures
        rat_wf(term_pow(t, k, m).c),
        term_pow(t, k, m).b.len() == t.b.len(),
    decreases k,
{
    if k > 0 {
        lemma_term_pow_wf(t, (k - 1) as nat, m);
        let prev = term_pow(t, (k - 1) as nat, m);
        lemma_ops_wf(prev.c, t.c);
        lemma_ops_wf(rat_mul(prev.c, t.c), rat_mul(prev.c, t.c));
    }
}

/// Once a power step overflows, every longer power does.
pub proof fn lemma_pow_overflows_monotone(t: Term, j: nat, k: nat, m: Seq<Square>)
    requires
        j <= k,
        pow_overflows(t, j, m),
    ensures
        pow_overflows(t, k, m),
    decreases k,
{
    if j < k {
        lemma_pow_overflows_monotone(t, j, (k - 1) as nat, m);
    }
}

/// The squared norm of a well-formed coefficient is well-formed.
pub proof fn lemma_spec_norm_sq_wf(c: Rat, b: Seq<bool>, m: Seq<Square>)
    requires
        rat_wf(c),
    ensures
        rat_wf(spec_norm_sq(c, b, m)),
        rat_wf(sign_rat(reverse_sign(count_ones(b)), c)),
        rat_wf(spec_inverse_coeff(c, b, m)) || rat_is_zero(spec_norm_sq(c, b, m)),
{
    lemma_ops_wf(c, c);
    lemma_ops_wf(rat_mul(c, c), rat_mul(c, c));
    lemma_ops_wf(rat_neg(rat_mul(c, c)), rat_neg(rat_mul(c, c)));
    lemma_ops_wf(c, spec_norm_sq(c, b, m));
    lemma_ops_wf(rat_neg(c), spec_norm_sq(c, b, m));
}

/// When a monomial has no inverse: its squared norm vanishes, or negating
/// an exponent leaves the machine range.
pub open spec fn inverse_fails(mo: Monomial, m: Seq<Square>) -> bool {
    rat_is_zero(spec_norm_sq(mo.scalar@, mo.basis@, m)) || exists|i: int|
        0 <= i < mo.symbols@.len() && mo.symbols@[i].1 == i64::MIN
}

/// When a monomial power fails: a negative exponent without an inverse, or
/// an exponent sum leaving the machine range along the way.
pub open spec fn power_fails(mo: Monomial, e: int, m: Seq<Square>) -> bool {
    (e < 0 && inverse_fails(mo, m)) || pow_overflows(pow_base(mo.term(), e, m), abs_nat(e), m)
}

/// Whether a blade touches an axis whose square is zero.
pub open spec fn touches_null(b: Seq<bool>, m: Seq<Square>) -> bool {
    exists|i: int| 0 <= i < b.len() && b[i] && m[i] == Square::Zero
}

/// `inverse_fails`, stated over the term alone.
pub open spec fn term_inverse_fails(t: Term, m: Seq<Square>) -> bool {
    rat_is_zero(spec_norm_sq(t.c, t.b, m)) || exists|k: Seq<char>|
        t.s.dom().contains(k) && t.s[k] == i64::MIN as int
}

/// `power_fails`, stated over the term alone.
pub open spec fn term_power_fails(t: Term, e: int, m: Seq<Square>) -> bool {
    (e < 0 && term_inverse_fails(t, m)) || pow_overflows(pow_base(t, e, m), abs_nat(e), m)
}

/// The monomial-level failure predicates agree with the term-level ones.
pub proof fn lemma_fails_on_term(mo: Monomial, e: int, m: Seq<Square>)
    requires
        mo.wf(),
    ensures
        inverse_fails(mo, m) <==> term_inverse_fails(mo.term(), m),
        power_fails(mo, e, m) <==> term_power_fails(mo.term(), e, m),
{
    crate::symbols::lemma_syms_value_present(mo.symbols@, i64::MIN);
    assert(mo.term().s == syms_map(mo.symbols@));
    assert((exists|i: int| 0 <= i < mo.symbols@.len() && mo.symbols@[i].1 == i64::MIN) <==> (
    exists|k: Seq<char>|
        syms_map(mo.symbols@).dom().contains(k) && syms_map(mo.symbols@)[k]
            == i64::MIN as int));
}

/// Equivalent coefficients give equivalent squared norms, and the same
/// failure behaviour.
pub proof fn lemma_norm_sq_congruent(c1: Rat, c2: Rat, b: Seq<bool>, m: Seq<Square>)
    requires
        rat_wf(c1),
        rat_wf(c2),
        rat_eqv(c1, c2),
    ensures
        rat_eqv(spec_norm_sq(c1, b, m), spec_norm_sq(c2, b, m)),
        rat_is_zero(spec_norm_sq(c1, b, m)) <==> rat_is_zero(spec_norm_sq(c2, b, m)),
{
    lemma_ops_wf(c1, c1);
    lemma_ops_wf(c2, c2);
    lemma_ops_wf(rat_mul(c1, c1), rat_mul(c1, c1));
    lemma_ops_wf(rat_mul(c2, c2), rat_mul(c2, c2));
    lemma_mul_congruence(c1, c2, c1, c2);
    if product_defined(b, b, m) {
        let sg = product_sign(b, b, m).spec_times(conjugate_sign(count_ones(b)));
        if sg == Sign::Neg {
            lemma_neg_congruence(rat_mul(c1, c1), rat_mul(c2, c2));
            lemma_ops_wf(rat_neg(rat_mul(c1, c1)), rat_neg(rat_mul(c1, c1)));
            lemma_ops_wf(rat_neg(rat_mul(c2, c2)), rat_neg(rat_mul(c2, c2)));
            lemma_abs_congruence(rat_neg(rat_mul(c1, c1)), rat_neg(rat_mul(c2, c2)));
        } else {
            lemma_abs_congruence(rat_mul(c1, c1), rat_mul(c2, c2));
        }
        lemma_spec_norm_sq_wf(c1, b, m);
        lemma_spec_norm_sq_wf(c2, b, m);
        lemma_eqv_zero(spec_norm_sq(c1, b, m), spec_norm_sq(c2, b, m));
    }
}

/// Equivalent coefficients give equivalent inverse coefficients, when the
/// inverse exists.
pub proof fn lemma_inverse_coeff_congruent(c1: Rat, c2: Rat, b: Seq<bool>, m: Seq<Square>)
    requires
        rat_wf(c1),
        rat_wf(c2),
        rat_eqv(c1, c2),
        !rat_is_zero(spec_norm_sq(c1, b, m)),
    ensures
        rat_eqv(spec_inverse_coeff(c1, b, m), spec_inverse_coeff(c2, b, m)),
{
    lemma_norm_sq_congruent(c1, c2, b, m);
    lemma_spec_norm_sq_wf(c1, b, m);
    lemma_spec_norm_sq_wf(c2, b, m);
    let r = reverse_sign(count_ones(b));
    if r == Sign::Neg {
        lemma_neg_congruence(c1, c2);
        lemma_ops_wf(c1, c1);
        lemma_ops_wf(c2, c2);
    }
    crate::rat::lemma_div_congruence(
        sign_rat(r, c1),
        sign_rat(r, c2),
        spec_norm_sq(c1, b, m),
        spec_norm_sq(c2, b, m),
    );
}

/// The blade and exponent parts of an iterated product depend only on the
/// base's blade and exponents.
pub proof fn lemma_term_pow_shape(t1: Term, t2: Term, k: nat, m: Seq<Square>)
    requires
        t1.b == t2.b,
        t1.s == t2.s,
    ensures
        term_pow(t1, k, m).b == term_pow(t2, k, m).b,
        term_pow(t1, k, m).s == term_pow(t2, k, m).s,
        pow_overflows(t1, k, m) == pow_overflows(t2, k, m),
    decreases k,
{
    if k > 0 {
        lemma_term_pow_shape(t1, t2, (k - 1) as nat, m);
    }
}

/// Equivalent bases give equivalent iterated products.
pub proof fn lemma_term_pow_congruent(t1: Term, t2: Term, k: nat, m: Seq<Square>)
    requires
        rat_wf(t1.c),
        rat_wf(t2.c),
        rat_eqv(t1.c, t2.c),
        t1.b == t2.b,
        t1.s == t2.s,
    ensures
        rat_eqv(term_pow(t1, k, m).c, term_pow(t2, k, m).c),
        term_pow(t1, k, m).b == term_pow(t2, k, m).b,
        term_pow(t1, k, m).s == term_pow(t2, k, m).s,
    decreases k,
{
    lemma_term_pow_shape(t1, t2, k, m);
    if k > 0 {
        lemma_term_pow_congruent(t1, t2, (k - 1) as nat, m);
        let p1 = term_pow(t1, (k - 1) as nat, m);
        let p2 = term_pow(t2, (k - 1) as nat, m);
        lemma_term_pow_wf(t1, (k - 1) as nat, m);
        lemma_term_pow_wf(t2, (k - 1) as nat, m);
        if product_defined(p1.b, t1.b, m) {
            lemma_mul_congruence(p1.c, p2.c, t1.c, t2.c);
            if product_sign(p1.b, t1.b, m) == Sign::Neg {
                lemma_neg_congruence(rat_mul(p1.c, t1.c), rat_mul(p2.c, t2.c));
            }
        }
    }
}

/// How many axes of the blade's first `k` square to `-1`.
pub open spec fn neg_count(b: Seq<bool>, m: Seq<Square>, k: int) -> nat
    decreases k,
{
    if k <= 0 {
        0
    } else {
        neg_count(b, m, k - 1) + (if b[k - 1] && m[k - 1] == Square::Neg {
            1nat
        } else {
            0nat
        })
    }
}

/// One more factor moves past `g` previous ones: the triangular count grows
/// by `g`.
proof fn lemma_triangular_step(g: nat)
    ensures
        (g + 1) * g / 2 == g * (g - 1) / 2 + g,
{
    let q = g / 2;
    let r = g % 2;
    assert(g == 2 * q + r && (r == 0 || r == 1));
    if r == 0 {
        assert(g * (g - 1) == 2 * (q * (g - 1))) by (nonlinear_arith)
            requires
                g == 2 * q,
        ;
        assert(g * (g - 1) % 2 == 0) by (nonlinear_arith)
            requires
                g * (g - 1) == 2 * (q * (g - 1)),
        ;
    } else {
        assert(g * (g - 1) == 2 * (g * q)) by (nonlinear_arith)
            requires
                g == 2 * q + 1,
        ;
        assert(g * (g - 1) % 2 == 0) by (nonlinear_arith)
            requires
                g * (g - 1) == 2 * (g * q),
        ;
    }
    assert((g + 1) * g == g * (g - 1) + 2 * g) by (nonlinear_arith);
    assert((g * (g - 1) + 2 * g) / 2 == g * (g - 1) / 2 + g) by (nonlinear_arith)
        requires
            g * (g - 1) % 2 == 0,
    ;
}

/// The flips of a blade squared: the triangular number of the grade (the
/// reversion parity) plus one flip per negative-squaring axis.
proof fn lemma_flips_of_square(b: Seq<bool>, m: Seq<Square>, k: int)
    requires
        b.len() == m.len(),
        0 <= k <= b.len(),
    ensures
        crate::basis::flips_below(b, b, m, k) == count_ones(b.take(k)) * (count_ones(b.take(k))
            - 1) / 2 + neg_count(b, m, k),
    decreases k,
{
    if k > 0 {
        lemma_flips_of_square(b, m, k - 1);
        crate::basis::lemma_count_ones_take_step(b, k - 1);
        if b[k - 1] {
            lemma_triangular_step(count_ones(b.take(k - 1)));
        }
    }
}

/// The sign of a blade's square is its reversion sign, corrected by the
/// parity of its negative-squaring axes.
proof fn lemma_square_sign(b: Seq<bool>, m: Seq<Square>)
    requires
        b.len() == m.len(),
    ensures
        neg_count(b, m, b.len() as int) % 2 == 0 ==> product_sign(b, b, m) == reverse_sign(
            count_ones(b),
        ),
        neg_count(b, m, b.len() as int) % 2 == 1 ==> product_sign(b, b, m) == reverse_sign(
            count_ones(b),
        ).spec_flip(),
{
    lemma_flips_of_square(b, m, b.len() as int);
    crate::basis::lemma_count_ones_take_all(b);
}

/// When the blade product is defined, the squared norm is exactly the square
/// of the coefficient.
proof fn lemma_norm_sq_is_square(c: Rat, b: Seq<bool>, m: Seq<Square>)
    requires
        rat_wf(c),
        product_defined(b, b, m),
    ensures
        spec_norm_sq(c, b, m) == rat_mul(c, c),
{
    assert(c.n * c.n >= 0) by (nonlinear_arith);
}

/// The transpositions of `a` and of `a xor b` past `b` together have the
/// parity of the transpositions of `b` past itself: every axis of `a` outside
/// `b` contributes twice, every axis of `b` contributes once either through
/// `a` or through `a xor b`.
proof fn lemma_flips_split(a: Seq<bool>, b: Seq<bool>, m: Seq<Square>, k: int)
    requires
        a.len() == b.len(),
        a.len() == m.len(),
        0 <= k <= a.len(),
    ensures
        (crate::basis::flips_below(a, b, m, k) + crate::basis::flips_below(
            product_bits(a, b),
            b,
            m,
            k,
        )) % 2 == crate::basis::flips_below(b, b, m, k) % 2,
    decreases k,
{
    if k > 0 {
        lemma_flips_split(a, b, m, k - 1);
        assert(product_bits(a, b)[k - 1] == (a[k - 1] != b[k - 1]));
    }
}

/// A mapping whose exponents are all nonzero, as a well-formed symbol list
/// provides.
pub open spec fn syms_values_nonzero(s: Map<Seq<char>, int>) -> bool {
    forall|k: Seq<char>| s.dom().contains(k) ==> s[k] != 0
}

/// A well-formed monomial's exponent mapping has nonzero values.
pub proof fn lemma_term_values_nonzero(s: Seq<(String, i64)>)
    requires
        syms_wf(s),
    ensures
        syms_values_nonzero(syms_map(s)),
{
    assert forall|k: Seq<char>| syms_map(s).dom().contains(k) implies syms_map(s)[k] != 0 by {
        let i = crate::symbols::sym_idx(s, k);
        assert(0 <= i < s.len() && s[i].0@ == k);
        crate::symbols::lemma_syms_map_at(s, i);
    }
}

/// Division/multiplication round trip: dividing by an invertible monomial
/// and multiplying back returns the dividend — the blade's axes cancel and
/// reappear, the exponents subtract and re-add, and the coefficient's cross
/// products cancel.  As with the inverse itself, the blade divided by must
/// span an even number of negative-squaring axes; with an odd count the
/// round trip returns the negated dividend.
pub proof fn lemma_division_round_trip(a: Term, b: Term, m: Seq<Square>)
    requires
        rat_wf(a.c),
        rat_wf(b.c),
        a.b.len() == m.len(),
        b.b.len() == m.len(),
        syms_values_nonzero(a.s),
        syms_values_nonzero(b.s),
        !rat_is_zero(spec_norm_sq(b.c, b.b, m)),
        neg_count(b.b, m, m.len() as int) % 2 == 0,
    ensures
        term_equiv(
            term_geo(
                term_geo(a, Term { c: spec_inverse_coeff(b.c, b.b, m), s: syms_neg(b.s), b: b.b }, m),
                b,
                m,
            ),
            a,
        ),
{
    let inv = Term { c: spec_inverse_coeff(b.c, b.b, m), s: syms_neg(b.s), b: b.b };
    let n = m.len();
    let g = count_ones(b.b);
    // The blade of `b` holds no null axis, so both products are defined.
    assert(product_defined(b.b, b.b, m));
    assert(product_defined(a.b, b.b, m));
    let mid = term_geo(a, inv, m);
    assert(mid.b == product_bits(a.b, b.b));
    assert(product_defined(mid.b, b.b, m)) by {
        assert(forall|i: int|
            0 <= i < n && mid.b[i] && b.b[i] ==> b.b[i] && m[i] != Square::Zero);
    }
    let out = term_geo(mid, b, m);
    // Bits: the axes of `b` cancel and return.
    assert(out.b =~= a.b);
    // Symbols: exponents of `b` subtract and re-add; names whose difference
    // vanished reappear with their old exponents.
    assert(out.s =~= a.s);
    // Coefficient: the two product signs compose to the sign of b squared,
    // which the even negative count makes the reversion sign, and the cross
    // products cancel.
    lemma_norm_sq_is_square(b.c, b.b, m);
    lemma_square_sign(b.b, m);
    let s1 = product_sign(a.b, b.b, m);
    let s2 = product_sign(mid.b, b.b, m);
    let ss = product_sign(b.b, b.b, m);
    assert(s2 == ss.spec_times(s1)) by {
        lemma_flips_split(a.b, b.b, m, n as int);
    }
    let an = a.c.n;
    let ad = a.c.d;
    let bn = b.c.n;
    let bd = b.c.d;
    assert(bn != 0);
    assert(bn * bn >= 0) by (nonlinear_arith);
    if reverse_sign(g) == Sign::Pos {
        assert(inv.c == Rat { n: bn * (bd * bd), d: bd * (bn * bn) });
    } else {
        assert(inv.c == Rat { n: (-bn) * (bd * bd), d: bd * (bn * bn) });
    }
    assert(rat_eqv(out.c, a.c)) by {
        if reverse_sign(g) == Sign::Pos {
            if s1 == Sign::Pos {
                assert(((an * (bn * (bd * bd))) * bn) * ad == an * (((ad * (bd * (bn * bn))) * bd)))
                    by (nonlinear_arith);
            } else {
                assert((-((-(an * (bn * (bd * bd)))) * bn)) * ad == an * (((ad * (bd * (bn * bn)))
                    * bd))) by (nonlinear_arith);
            }
        } else {
            if s1 == Sign::Pos {
                assert((-((an * ((-bn) * (bd * bd))) * bn)) * ad == an * (((ad * (bd * (bn * bn)))
                    * bd))) by (nonlinear_arith);
            } else {
                assert(((-(an * ((-bn) * (bd * bd)))) * bn) * ad == an * (((ad * (bd * (bn * bn)))
                    * bd))) by (nonlinear_arith);
            }
        }
    }
}

/// Inverse correctness: multiplying a monomial by its inverse yields the
/// scalar identity — coefficients cancel to one and every exponent sum
/// cancels to zero.  This holds whenever the inverse exists and the blade
/// spans an even number of negative-squaring axes; with an odd count the
/// absolute value inside the squared norm discards the sign that the square
/// of the blade produces, and the product is minus one instead.
pub proof fn lemma_inverse_cancels(x: Term, m: Seq<Square>)
    requires
        rat_wf(x.c),
        x.b.len() == m.len(),
        !rat_is_zero(spec_norm_sq(x.c, x.b, m)),
        neg_count(x.b, m, m.len() as int) % 2 == 0,
    ensures
        term_equiv(
            term_geo(x, Term { c: spec_inverse_coeff(x.c, x.b, m), s: syms_neg(x.s), b: x.b }, m),
            term_one(x.b.len()),
        ),
{
    let inv = Term { c: spec_inverse_coeff(x.c, x.b, m), s: syms_neg(x.s), b: x.b };
    let g = count_ones(x.b);
    let n = x.b.len();
    // The blade product is defined, else the squared norm would be zero.
    assert(product_defined(x.b, x.b, m));
    // Bits: every axis cancels, leaving the scalar basis.
    assert(product_bits(x.b, x.b) =~= Seq::new(n, |i: int| false));
    // Symbols: every exponent meets its negation and the sums all vanish.
    assert(syms_union(x.s, syms_neg(x.s)) =~= Map::<Seq<char>, int>::empty());
    // Coefficient: the square's sign equals the reversion sign, the norm is
    // the squared coefficient, and the cross products cancel to one.
    lemma_square_sign(x.b, m);
    lemma_norm_sq_is_square(x.c, x.b, m);
    let cn = x.c.n;
    let cd = x.c.d;
    assert(cn != 0);
    assert(cn * cn >= 0) by (nonlinear_arith);
    let geo = term_geo(x, inv, m);
    if reverse_sign(g) == Sign::Pos {
        assert(geo.c == rat_mul(x.c, rat_div(x.c, rat_mul(x.c, x.c))));
        assert((cn * (cn * (cd * cd))) * 1 == 1 * (cd * (cd * (cn * cn)))) by (nonlinear_arith);
    } else {
        assert(geo.c == rat_neg(rat_mul(x.c, rat_div(rat_neg(x.c), rat_mul(x.c, x.c)))));
        assert((-(cn * ((-cn) * (cd * cd)))) * 1 == 1 * (cd * (cd * (cn * cn))))
            by (nonlinear_arith);
    }
}

/// One term of a polynomial: `scalar * symbols * basis`, with an exact
/// rational scalar, unique nonzero symbol exponents, and a basis blade.
#[derive(Debug)]
pub struct Monomial {
    pub scalar: Rational,
    pub symbols: Vec<(String, i64)>,
    pub basis: Basis,
}

impl Monomial {
    /// Well-formed: the coefficient is a rational and the symbol list is a
    /// mapping.
    pub open spec fn wf(&self) -> bool {
        self.scalar.wf() && syms_wf(self.symbols@)
    }

    /// The term this monomial denotes.
    pub open spec fn term(&self) -> Term {
        Term { c: self.scalar@, s: syms_map(self.symbols@), b: self.basis@ }
    }

    /// The scalar-identity monomial over `dimension` axes.
    pub fn one(dimension: usize) -> (r: Monomial)
        ensures
            r.wf(),
            r.term() == term_one(dimension as nat),
            r.basis@.len() == dimension,
    {
        let r = Monomial {
            scalar: Rational::one(),
            symbols: Vec::new(),
            basis: Basis::scalar(dimension),
        };
        proof {
            assert(syms_map(r.symbols@) =~= Map::<Seq<char>, int>::empty());
        }
        r
    }

    /// The vanished monomial over `dimension` axes: coefficient zero on the
    /// scalar basis.
    pub fn vanished(dimension: usize) -> (r: Monomial)
        ensures
            r.wf(),
            r.term() == term_zero(dimension as nat),
            r.basis@.len() == dimension,
    {
        let r = Monomial {
            scalar: Rational::zero(),
            symbols: Vec::new(),
            basis: Basis::scalar(dimension),
        };
        proof {
            assert(syms_map(r.symbols@) =~= Map::<Seq<char>, int>::empty());
        }
        r
    }

    /// An identical copy.
    pub fn duplicate(&self) -> (r: Monomial)
        requires
            self.wf(),
        ensures
            r.wf(),
            r.term() == self.term(),
            r.basis@ == self.basis@,
    {
        let r = Monomial {
            scalar: self.scalar.duplicate(),
            symbols: copy_syms(&self.symbols),
            basis: self.basis.clone(),
        };
        proof {
            lemma_syms_map_congruent(self.symbols@, r.symbols@);
        }
        r
    }

    pub fn grade(&self) -> (g: usize)
        ensures
            g == count_ones(self.basis@),
    {
        self.basis.grade()
    }

    pub fn anti_grade(&self) -> (g: usize)
        ensures
            g == self.basis@.len() - count_ones(self.basis@),
    {
        self.basis.anti_grade()
    }

    /// Whether this monomial and `other` can merge: same blade, same
    /// exponents.
    pub fn same_key(&self, other: &Monomial) -> (r: bool)
        requires
            self.wf(),
            other.wf(),
        ensures
            r == (self.basis@ == other.basis@ && self.term().s == other.term().s),
    {
        if self.basis == other.basis {
            syms_equal(&self.symbols, &other.symbols)
        } else {
            false
        }
    }

    /// The chosen product of two monomials: blade product with its sign on
    /// the coefficient product and summed exponents.  A vanishing or
    /// grade-filtered blade product collapses to the vanished monomial;
    /// `None` exactly when a summed exponent leaves the machine range.
    pub fn product(&self, kind: Product, rhs: &Monomial, metric: &Metric) -> (r: Option<Monomial>)
        requires
            self.wf(),
            rhs.wf(),
            self.basis@.len() == metric.0@.len(),
            rhs.basis@.len() == metric.0@.len(),
        ensures
            match r {
                Some(m) => m.wf() && m.basis@.len() == metric.0@.len() && (if kind_defined(
                    kind,
                    self.basis@,
                    rhs.basis@,
                    metric.0@,
                ) {
                    m.basis@ == kind_bits(kind, self.basis@, rhs.basis@) && rat_eqv(
                        m.scalar@,
                        sign_rat(
                            kind_sign(kind, self.basis@, rhs.basis@, metric.0@),
                            rat_mul(self.scalar@, rhs.scalar@),
                        ),
                    ) && m.term().s == syms_union(self.term().s, rhs.term().s)
                        && !syms_overflow(self.term().s, rhs.term().s)
                } else {
                    m.term() == term_zero(metric.0@.len())
                }),
                None => kind_defined(kind, self.basis@, rhs.basis@, metric.0@) && syms_overflow(
                    self.term().s,
                    rhs.term().s,
                ),
            },
    {
        let blade = match kind {
            Product::Geometric => self.basis.geometric_product(&rhs.basis, metric),
            Product::Exterior => self.basis.exterior_product(&rhs.basis, metric),
            Product::Regressive => self.basis.regressive_product(&rhs.basis, metric),
            Product::LeftContraction => self.basis.left_contraction(&rhs.basis, metric),
            Product::RightContraction => self.basis.right_contraction(&rhs.basis, metric),
            Product::Inner => self.basis.inner_product(&rhs.basis, metric),
            Product::Scalar => self.basis.scalar_product(&rhs.basis, metric),
        };
        match blade {
            None => Some(Monomial::vanished(metric.dimension())),
            Some((sign, basis)) => {
                match merge_syms(&self.symbols, &rhs.symbols) {
                    None => None,
                    Some(symbols) => {
                        let product = self.scalar.mul(&rhs.scalar);
                        let scalar = match sign {
                            Sign::Pos => product,
                            Sign::Neg => product.neg(),
                        };
                        proof {
                            lemma_ops_wf(self.scalar@, rhs.scalar@);
                            if sign == Sign::Neg {
                                lemma_neg_congruence(
                                    product@,
                                    rat_mul(self.scalar@, rhs.scalar@),
                                );
                            }
                        }
                        Some(Monomial { scalar, symbols, basis })
                    },
                }
            },
        }
    }

    /// Negation: the coefficient flips, nothing else moves.
    pub fn neg(&self) -> (r: Monomial)
        requires
            self.wf(),
        ensures
            r.wf(),
            r.basis@ == self.basis@,
            r.term().s == self.term().s,
            r.scalar@ == rat_neg(self.scalar@),
    {
        let r = Monomial {
            scalar: self.scalar.neg(),
            symbols: copy_syms(&self.symbols),
            basis: self.basis.clone(),
        };
        proof {
            lemma_syms_map_congruent(self.symbols@, r.symbols@);
        }
        r
    }

    /// Reversion: the blade's reversion sign lands on the coefficient.
    pub fn reverse(&self) -> (r: Monomial)
        requires
            self.wf(),
        ensures
            r.wf(),
            r.basis@ == self.basis@,
            r.term().s == self.term().s,
            r.scalar@ == sign_rat(reverse_sign(count_ones(self.basis@)), self.scalar@),
    {
        let sign = self.basis.reverse();
        let scalar = match sign {
            Sign::Pos => self.scalar.duplicate(),
            Sign::Neg => self.scalar.neg(),
        };
        let r = Monomial {
            scalar,
            symbols: copy_syms(&self.symbols),
            basis: self.basis.clone(),
        };
        proof {
            lemma_syms_map_congruent(self.symbols@, r.symbols@);
        }
        r
    }

    /// Grade involution: odd-graded blades flip their coefficient.
    pub fn involute(&self) -> (r: Monomial)
        requires
            self.wf(),
        ensures
            r.wf(),
            r.basis@ == self.basis@,
            r.term().s == self.term().s,
            r.scalar@ == sign_rat(involute_sign(count_ones(self.basis@)), self.scalar@),
    {
        let sign = self.basis.involute();
        let scalar = match sign {
            Sign::Pos => self.scalar.duplicate(),
            Sign::Neg => self.scalar.neg(),
        };
        let r = Monomial {
            scalar,
            symbols: copy_syms(&self.symbols),
            basis: self.basis.clone(),
        };
        proof {
            lemma_syms_map_congruent(self.symbols@, r.symbols@);
        }
        r
    }

    /// Clifford conjugation: reversion composed with grade involution.
    pub fn conjugate(&self) -> (r: Monomial)
        requires
            self.wf(),
        ensures
            r.wf(),
            r.basis@ == self.basis@,
            r.term().s == self.term().s,
            r.scalar@ == sign_rat(conjugate_sign(count_ones(self.basis@)), self.scalar@),
    {
        let sign = self.basis.conjugate();
        let scalar = match sign {
            Sign::Pos => self.scalar.duplicate(),
            Sign::Neg => self.scalar.neg(),
        };
        let r = Monomial {
            scalar,
            symbols: copy_syms(&self.symbols),
            basis: self.basis.clone(),
        };
        proof {
            lemma_syms_map_congruent(self.symbols@, r.symbols@);
        }
        r
    }

    /// Poincaré dual: the blade complements, coefficient and symbols stay.
    pub fn dual(&self) -> (r: Monomial)
        requires
            self.wf(),
        ensures
            r.wf(),
            r.basis@ == complement(self.basis@),
            r.term().s == self.term().s,
            r.scalar@ == self.scalar@,
    {
        let r = Monomial {
            scalar: self.scalar.duplicate(),
            symbols: copy_syms(&self.symbols),
            basis: self.basis.dual(),
        };
        proof {
            lemma_syms_map_congruent(self.symbols@, r.symbols@);
        }
        r
    }

    /// The squared norm: the absolute coefficient of the scalar product of
    /// this monomial with its conjugate, ignoring the symbolic factor.
    pub fn norm_squared(&self, metric: &Metric) -> (r: Rational)
        requires
            self.wf(),
            self.basis@.len() == metric.0@.len(),
        ensures
            r.wf(),
            rat_eqv(r@, spec_norm_sq(self.scalar@, self.basis@, metric.0@)),
    {
        match self.basis.scalar_product(&self.basis, metric) {
            None => {
                proof {
                    crate::basis::lemma_blade_square(self.basis@, metric.0@);
                }
                Rational::zero()
            },
            Some((sign, _)) => {
                let total = sign.times(self.basis.conjugate());
                let square = self.scalar.mul(&self.scalar);
                let signed = match total {
                    Sign::Pos => square,
                    Sign::Neg => square.neg(),
                };
                proof {
                    lemma_ops_wf(self.scalar@, self.scalar@);
                    if total == Sign::Neg {
                        lemma_neg_congruence(square@, rat_mul(self.scalar@, self.scalar@));
                    }
                    lemma_ops_wf(signed@, signed@);
                    lemma_abs_congruence(
                        signed@,
                        sign_rat(
                            product_sign(self.basis@, self.basis@, metric.0@).spec_times(
                                conjugate_sign(count_ones(self.basis@)),
                            ),
                            rat_mul(self.scalar@, self.scalar@),
                        ),
                    );
                }
                signed.abs()
            },
        }
    }

    /// The norm used for numeric display: zero when the blade touches a
    /// null axis, the absolute coefficient otherwise.
    pub fn norm(&self, metric: &Metric) -> (r: Rational)
        requires
            self.wf(),
            self.basis@.len() == metric.0@.len(),
        ensures
            r.wf(),
            r@ == if touches_null(self.basis@, metric.0@) {
                rat_int(0)
            } else {
                rat_abs(self.scalar@)
            },
    {
        let n = self.basis.dimension();
        let mut i: usize = 0;
        while i < n
            invariant
                0 <= i <= n,
                n == self.basis@.len(),
                n == metric.0@.len(),
                forall|k: int| 0 <= k < i ==> !(self.basis@[k] && metric.0@[k] == Square::Zero),
            decreases n - i,
        {
            if self.basis.0[i] && matches!(metric.0[i], Square::Zero) {
                return Rational::zero();
            }
            i += 1;
        }
        self.scalar.abs()
    }

    /// The multiplicative inverse under the geometric product:
    /// `reverse(self) / norm_squared(self)` with every exponent negated.
    /// `None` when the squared norm vanishes, or when an exponent's negation
    /// leaves the machine range.
    pub fn inverse(&self, metric: &Metric) -> (r: Option<Monomial>)
        requires
            self.wf(),
            self.basis@.len() == metric.0@.len(),
        ensures
            match r {
                Some(inv) => !inverse_fails(*self, metric.0@) && inv.wf() && inv.basis@
                    == self.basis@ && rat_eqv(
                    inv.scalar@,
                    spec_inverse_coeff(self.scalar@, self.basis@, metric.0@),
                ) && inv.term().s == syms_neg(self.term().s),
                None => inverse_fails(*self, metric.0@),
            },
    {
        let ns = self.norm_squared(metric);
        proof {
            lemma_spec_norm_sq_wf(self.scalar@, self.basis@, metric.0@);
            lemma_eqv_zero(ns@, spec_norm_sq(self.scalar@, self.basis@, metric.0@));
        }
        if ns.is_zero() {
            return None;
        }
        match negate_syms(&self.symbols) {
            None => None,
            Some(symbols) => {
                let rev = self.reverse();
                let scalar = rev.scalar.div(&ns);
                proof {
                    lemma_div_congruence(
                        rev.scalar@,
                        sign_rat(reverse_sign(count_ones(self.basis@)), self.scalar@),
                        ns@,
                        spec_norm_sq(self.scalar@, self.basis@, metric.0@),
                    );
                    lemma_ops_wf(rev.scalar@, ns@);
                    crate::rat::lemma_eqv_transitive(
                        scalar@,
                        rat_div(rev.scalar@, ns@),
                        spec_inverse_coeff(self.scalar@, self.basis@, metric.0@),
                    );
                }
                Some(Monomial { scalar, symbols, basis: self.basis.clone() })
            },
        }
    }

    /// Integer power under the geometric product: multiply the monomial (or
    /// its inverse, for a negative exponent) onto the scalar identity
    /// `|exponent|` times.  A zero exponent yields the identity even for a
    /// vanished base.  `None` when a needed inverse does not exist or an
    /// exponent sum leaves the machine range.
    pub fn power(&self, exponent: i64, metric: &Metric) -> (r: Option<Monomial>)
        requires
            self.wf(),
            self.basis@.len() == metric.0@.len(),
        ensures
            match r {
                Some(p) => {
                    let bt = pow_base(self.term(), exponent as int, metric.0@);
                    let goal = term_pow(bt, abs_nat(exponent as int), metric.0@);
                    p.wf() && p.basis@.len() == metric.0@.len() && !power_fails(
                        *self,
                        exponent as int,
                        metric.0@,
                    ) && rat_eqv(p.scalar@, goal.c) && p.term().s == goal.s && p.basis@ == goal.b
                },
                None => power_fails(*self, exponent as int, metric.0@),
            },
    {
        let ghost bt = pow_base(self.term(), exponent as int, metric.0@);
        let ghost m = metric.0@;
        let base: Monomial = if exponent >= 0 {
            self.duplicate()
        } else {
            match self.inverse(metric) {
                None => {
                    return None;
                },
                Some(inv) => inv,
            }
        };
        proof {
            if exponent < 0 {
                lemma_spec_norm_sq_wf(self.scalar@, self.basis@, m);
            }
        }
        let iters: u64 = if exponent >= 0 {
            exponent as u64
        } else if exponent == i64::MIN {
            9223372036854775808u64
        } else {
            (-exponent) as u64
        };
        proof {
            assert(iters as nat == abs_nat(exponent as int));
        }
        let n = metric.dimension();
        let mut acc = Monomial::one(n);
        let mut j: u64 = 0;
        while j < iters
            invariant
                0 <= j <= iters,
                n == metric.0@.len(),
                m == metric.0@,
                self.wf(),
                bt == pow_base(self.term(), exponent as int, metric.0@),
                iters as nat == abs_nat(exponent as int),
                exponent < 0 ==> !rat_is_zero(spec_norm_sq(self.scalar@, self.basis@, metric.0@)),
                base.wf(),
                acc.wf(),
                base.basis@.len() == n,
                acc.basis@.len() == n,
                rat_wf(bt.c),
                bt.b.len() == n,
                base.basis@ == bt.b,
                base.term().s == bt.s,
                rat_eqv(base.scalar@, bt.c),
                rat_eqv(acc.scalar@, term_pow(bt, j as nat, m).c),
                acc.term().s == term_pow(bt, j as nat, m).s,
                acc.basis@ == term_pow(bt, j as nat, m).b,
                !pow_overflows(bt, j as nat, m),
            decreases iters - j,
        {
            proof {
                lemma_term_pow_wf(bt, j as nat, m);
            }
            match acc.product(Product::Geometric, &base, metric) {
                None => {
                    proof {
                        assert(pow_overflows(bt, (j + 1) as nat, m));
                        lemma_pow_overflows_monotone(
                            bt,
                            (j + 1) as nat,
                            abs_nat(exponent as int),
                            m,
                        );
                    }
                    return None;
                },
                Some(next) => {
                    proof {
                        let prev = term_pow(bt, j as nat, m);
                        let goal = term_pow(bt, (j + 1) as nat, m);
                        if product_defined(acc.basis@, base.basis@, m) {
                            lemma_mul_congruence(acc.scalar@, prev.c, base.scalar@, bt.c);
                            lemma_ops_wf(acc.scalar@, base.scalar@);
                            lemma_ops_wf(prev.c, bt.c);
                            lemma_term_pow_wf(bt, (j + 1) as nat, m);
                            if product_sign(acc.basis@, base.basis@, m) == Sign::Neg {
                                lemma_neg_congruence(
                                    rat_mul(acc.scalar@, base.scalar@),
                                    rat_mul(prev.c, bt.c),
                                );
                                lemma_ops_wf(
                                    rat_mul(acc.scalar@, base.scalar@),
                                    rat_mul(prev.c, bt.c),
                                );
                            }
                            crate::rat::lemma_eqv_transitive(
                                next.scalar@,
                                sign_rat(
                                    product_sign(acc.basis@, base.basis@, m),
                                    rat_mul(acc.scalar@, base.scalar@),
                                ),
                                goal.c,
                            );
                        } else {
                            assert(next.term() == term_zero(n as nat));
                            assert(goal == term_zero(n as nat));
                        }
                    }
                    acc = next;
                },
            }
            j += 1;
        }
        Some(acc)
    }
}

} // verus!
