//! Polynomials: sums of monomials with a merging rule for like terms.
//!
//! The mathematical content of a polynomial is, for every key — a blade and
//! an exponent mapping — the summed coefficient of its terms at that key.
//! Every operation's contract says how it transforms those per-key sums.

use vstd::prelude::*;

use crate::basis::{complement, conjugate_sign, count_ones, involute_sign, reverse_sign};
use crate::metric::{Metric, Square};
use crate::monomial::{
    abs_nat, kind_bits, kind_defined, kind_sign, lemma_division_round_trip, lemma_spec_norm_sq_wf,
    neg_count, pow_base, pow_overflows, sign_rat, spec_inverse_coeff, spec_norm_sq,
    syms_values_nonzero, term_geo, term_pow, term_zero, touches_null, Monomial, Product, Term,
};
use crate::rat::{
    lemma_add_associates, lemma_add_congruence, lemma_add_rotates, lemma_eqv_transitive,
    lemma_ops_wf, rat_abs, rat_add, rat_eqv, rat_int, rat_is_zero, rat_mul, rat_neg, rat_wf, Rat,
};
use crate::rational::Rational;
use crate::symbols::{syms_neg, syms_overflow, syms_union};

verus! {

/// The terms of a monomial vector.
pub open spec fn terms_of(ms: Seq<Monomial>) -> Seq<Term> {
    Seq::new(ms.len(), |i: int| ms[i].term())
}

/// Whether a term sits at the given key: same blade, same exponents.
pub open spec fn term_key_matches(t: Term, b: Seq<bool>, s: Map<Seq<char>, int>) -> bool {
    t.b == b && t.s == s
}

/// The summed coefficient of all terms at one key.
pub open spec fn key_sum(ts: Seq<Term>, b: Seq<bool>, s: Map<Seq<char>, int>) -> Rat
    decreases ts.len(),
{
    if ts.len() == 0 {
        rat_int(0)
    } else if term_key_matches(ts.last(), b, s) {
        rat_add(key_sum(ts.drop_last(), b, s), ts.last().c)
    } else {
        key_sum(ts.drop_last(), b, s)
    }
}

/// No two terms share a key.
pub open spec fn merged(ts: Seq<Term>) -> bool {
    forall|i: int, j: int|
        0 <= i < j < ts.len() ==> !(ts[i].b == ts[j].b && ts[i].s == ts[j].s)
}

/// Every coefficient is a well-formed rational.
pub open spec fn coeffs_wf(ts: Seq<Term>) -> bool {
    forall|i: int| 0 <= i < ts.len() ==> rat_wf(#[trigger] ts[i].c)
}

/// Two term sequences with the same summed coefficient at every key.
pub open spec fn sums_match(x: Seq<Term>, y: Seq<Term>) -> bool {
    forall|b: Seq<bool>, s: Map<Seq<char>, int>|
        rat_eqv(#[trigger] key_sum(x, b, s), #[trigger] key_sum(y, b, s))
}

/// Whether some term of `ts` sits at the key.
pub open spec fn has_key(ts: Seq<Term>, b: Seq<bool>, s: Map<Seq<char>, int>) -> bool {
    exists|j: int| 0 <= j < ts.len() && (#[trigger] ts[j]).b == b && ts[j].s == s
}

/// An index of the term at the key (meaningful when `has_key`).
pub open spec fn key_index(ts: Seq<Term>, b: Seq<bool>, s: Map<Seq<char>, int>) -> int {
    choose|j: int| 0 <= j < ts.len() && (#[trigger] ts[j]).b == b && ts[j].s == s
}

/// The canonical merge of a term sequence: the first occurrence of a key
/// keeps its slot, every later occurrence adds its coefficient into it.
pub open spec fn merge_terms(ts: Seq<Term>) -> Seq<Term>
    decreases ts.len(),
{
    if ts.len() == 0 {
        Seq::empty()
    } else {
        let prev = merge_terms(ts.drop_last());
        let t = ts.last();
        if has_key(prev, t.b, t.s) {
            let j = key_index(prev, t.b, t.s);
            prev.update(j, Term { c: rat_add(prev[j].c, t.c), s: prev[j].s, b: prev[j].b })
        } else {
            prev.push(t)
        }
    }
}

/// The canonical merge keeps coefficients well-formed, never repeats a key,
/// and holds exactly the keys of its input.
pub proof fn lemma_merge_terms_invariants(ts: Seq<Term>)
    requires
        coeffs_wf(ts),
    ensures
        coeffs_wf(merge_terms(ts)),
        merged(merge_terms(ts)),
        forall|b: Seq<bool>, s: Map<Seq<char>, int>|
            #[trigger] has_key(merge_terms(ts), b, s) <==> has_key(ts, b, s),
    decreases ts.len(),
{
    if ts.len() > 0 {
        assert(coeffs_wf(ts.drop_last()));
        lemma_merge_terms_invariants(ts.drop_last());
        let prev = merge_terms(ts.drop_last());
        let t = ts.last();
        let out = merge_terms(ts);
        if has_key(prev, t.b, t.s) {
            let j = key_index(prev, t.b, t.s);
            assert(0 <= j < prev.len() && prev[j].b == t.b && prev[j].s == t.s);
            lemma_ops_wf(prev[j].c, t.c);
            assert(coeffs_wf(out)) by {
                assert(forall|i: int| 0 <= i < out.len() && i != j ==> out[i] == prev[i]);
            }
            assert(merged(out)) by {
                assert(forall|i: int|
                    0 <= i < out.len() ==> (#[trigger] out[i]).b == prev[i].b && out[i].s
                        == prev[i].s);
            }
            assert forall|b: Seq<bool>, s: Map<Seq<char>, int>| #[trigger] has_key(out, b, s)
                <==> has_key(ts, b, s) by {
                assert(forall|i: int|
                    0 <= i < out.len() ==> (#[trigger] out[i]).b == prev[i].b && out[i].s
                        == prev[i].s);
                if has_key(out, b, s) {
                    let w = choose|w: int|
                        0 <= w < out.len() && (#[trigger] out[w]).b == b && out[w].s == s;
                    assert(prev[w].b == b && prev[w].s == s);
                    assert(has_key(prev, b, s));
                    if has_key(ts.drop_last(), b, s) {
                        let v = key_index(ts.drop_last(), b, s);
                        assert(0 <= v < ts.drop_last().len() && ts.drop_last()[v].b == b
                            && ts.drop_last()[v].s == s);
                        assert(ts[v] == ts.drop_last()[v]);
                        assert(has_key(ts, b, s));
                    }
                }
                if has_key(ts, b, s) {
                    let w = key_index(ts, b, s);
                    if w < ts.len() - 1 {
                        assert(0 <= w < ts.len() && ts[w].b == b && ts[w].s == s);
                        assert(ts.drop_last()[w] == ts[w]);
                        assert(has_key(ts.drop_last(), b, s));
                        assert(has_key(prev, b, s));
                        let v = key_index(prev, b, s);
                        assert(0 <= v < prev.len() && prev[v].b == b && prev[v].s == s);
                        assert(out[v].b == prev[v].b && out[v].s == prev[v].s);
                        assert(has_key(out, b, s));
                    } else {
                        assert(0 <= w < ts.len() && ts[w].b == b && ts[w].s == s);
                        assert(out[j].b == b && out[j].s == s);
                        assert(has_key(out, b, s));
                    }
                }
            }
        } else {
            assert(out =~= prev.push(t));
            assert(coeffs_wf(out)) by {
                assert(forall|i: int| 0 <= i < prev.len() ==> out[i] == prev[i]);
                assert(rat_wf(ts[ts.len() - 1].c));
            }
            assert(merged(out)) by {
                assert(forall|i: int| 0 <= i < prev.len() ==> out[i] == prev[i]);
                assert(forall|i: int|
                    0 <= i < prev.len() ==> !((#[trigger] prev[i]).b == t.b && prev[i].s == t.s));
            }
            assert forall|b: Seq<bool>, s: Map<Seq<char>, int>| #[trigger] has_key(out, b, s)
                <==> has_key(ts, b, s) by {
                if has_key(out, b, s) {
                    let w = choose|w: int|
                        0 <= w < out.len() && (#[trigger] out[w]).b == b && out[w].s == s;
                    if w < prev.len() {
                        assert(has_key(prev, b, s));
                        let v = key_index(ts.drop_last(), b, s);
                        assert(ts[v] == ts.drop_last()[v]);
                    } else {
                        assert(ts[ts.len() - 1].b == b && ts[ts.len() - 1].s == s);
                    }
                    assert(has_key(ts, b, s));
                }
                if has_key(ts, b, s) {
                    let w = key_index(ts, b, s);
                    assert(0 <= w < ts.len() && ts[w].b == b && ts[w].s == s);
                    if w < ts.len() - 1 {
                        assert(ts.drop_last()[w] == ts[w]);
                        assert(has_key(ts.drop_last(), b, s));
                        assert(has_key(prev, b, s));
                        let v = key_index(prev, b, s);
                        assert(0 <= v < prev.len() && prev[v].b == b && prev[v].s == s);
                        assert(out[v].b == b && out[v].s == s);
                    } else {
                        assert(out[out.len() - 1].b == b && out[out.len() - 1].s == s);
                    }
                    assert(has_key(out, b, s));
                }
            }
        }
    }
}

/// Pointwise equivalent inputs merge to pointwise equivalent outputs.
pub proof fn lemma_merge_terms_congruent(x: Seq<Term>, y: Seq<Term>)
    requires
        coeffs_wf(x),
        coeffs_wf(y),
        terms_equiv_seq(x, y),
    ensures
        terms_equiv_seq(merge_terms(x), merge_terms(y)),
    decreases x.len(),
{
    if x.len() > 0 {
        assert(coeffs_wf(x.drop_last()));
        assert(coeffs_wf(y.drop_last()));
        assert(terms_equiv_seq(x.drop_last(), y.drop_last())) by {
            assert forall|i: int|
                0 <= i < x.drop_last().len() implies rat_eqv(
                (#[trigger] x.drop_last()[i]).c,
                (#[trigger] y.drop_last()[i]).c,
            ) && x.drop_last()[i].b == y.drop_last()[i].b && x.drop_last()[i].s
                == y.drop_last()[i].s by {
                assert(x.drop_last()[i] == x[i] && y.drop_last()[i] == y[i]);
                assert(rat_eqv(x[i].c, y[i].c) && x[i].b == y[i].b && x[i].s == y[i].s);
            }
        }
        lemma_merge_terms_congruent(x.drop_last(), y.drop_last());
        lemma_merge_terms_invariants(x.drop_last());
        lemma_merge_terms_invariants(y.drop_last());
        let px = merge_terms(x.drop_last());
        let py = merge_terms(y.drop_last());
        let tx = x.last();
        let ty = y.last();
        assert(rat_eqv(tx.c, ty.c) && tx.b == ty.b && tx.s == ty.s) by {
            assert(0 <= x.len() - 1 < x.len());
        }
        assert(has_key(px, tx.b, tx.s) <==> has_key(py, ty.b, ty.s)) by {
            if has_key(px, tx.b, tx.s) {
                let w = key_index(px, tx.b, tx.s);
                assert(py[w].b == tx.b && py[w].s == tx.s);
            }
            if has_key(py, ty.b, ty.s) {
                let w = key_index(py, ty.b, ty.s);
                assert(px[w].b == ty.b && px[w].s == ty.s);
            }
        }
        if has_key(px, tx.b, tx.s) {
            let jx = key_index(px, tx.b, tx.s);
            let jy = key_index(py, ty.b, ty.s);
            assert(px[jy].b == tx.b && px[jy].s == tx.s);
            assert(jx == jy);
            assert(rat_wf(px[jx].c) && rat_wf(py[jy].c));
            lemma_add_congruence(px[jx].c, py[jy].c, tx.c, ty.c);
            assert forall|i: int|
                0 <= i < merge_terms(x).len() implies rat_eqv(
                (#[trigger] merge_terms(x)[i]).c,
                (#[trigger] merge_terms(y)[i]).c,
            ) && merge_terms(x)[i].b == merge_terms(y)[i].b && merge_terms(x)[i].s
                == merge_terms(y)[i].s by {
                if i != jx {
                    assert(merge_terms(x)[i] == px[i] && merge_terms(y)[i] == py[i]);
                }
            }
        } else {
            assert(terms_equiv_seq(merge_terms(x), merge_terms(y))) by {
                assert(merge_terms(x) == px.push(tx) && merge_terms(y) == py.push(ty));
                assert forall|i: int|
                    0 <= i < px.push(tx).len() implies rat_eqv(
                    (#[trigger] px.push(tx)[i]).c,
                    (#[trigger] py.push(ty)[i]).c,
                ) && px.push(tx)[i].b == py.push(ty)[i].b && px.push(tx)[i].s
                    == py.push(ty)[i].s by {
                    if i < px.len() {
                        assert(px.push(tx)[i] == px[i] && py.push(ty)[i] == py[i]);
                    } else {
                        assert(px.push(tx)[i] == tx && py.push(ty)[i] == ty);
                    }
                }
            }
        }
    }
}

/// A key sum over well-formed coefficients is well-formed.
pub proof fn lemma_key_sum_wf(ts: Seq<Term>, b: Seq<bool>, s: Map<Seq<char>, int>)
    requires
        coeffs_wf(ts),
    ensures
        rat_wf(key_sum(ts, b, s)),
    decreases ts.len(),
{
    if ts.len() > 0 {
        assert(coeffs_wf(ts.drop_last()));
        lemma_key_sum_wf(ts.drop_last(), b, s);
        if term_key_matches(ts.last(), b, s) {
            lemma_ops_wf(key_sum(ts.drop_last(), b, s), ts.last().c);
        }
    }
}

/// Appending a term adds its coefficient to its key's sum and no other.
pub proof fn lemma_key_sum_push(ts: Seq<Term>, t: Term, b: Seq<bool>, s: Map<Seq<char>, int>)
    ensures
        key_sum(ts.push(t), b, s) == if term_key_matches(t, b, s) {
            rat_add(key_sum(ts, b, s), t.c)
        } else {
            key_sum(ts, b, s)
        },
{
    assert(ts.push(t).drop_last() =~= ts);
}

/// Pointwise equivalent sequences have equivalent key sums.
pub proof fn lemma_key_sum_equiv(
    x: Seq<Term>,
    y: Seq<Term>,
    b: Seq<bool>,
    s: Map<Seq<char>, int>,
)
    requires
        x.len() == y.len(),
        coeffs_wf(x),
        coeffs_wf(y),
        forall|i: int|
            0 <= i < x.len() ==> rat_eqv((#[trigger] x[i]).c, (#[trigger] y[i]).c) && x[i].b
                == y[i].b && x[i].s == y[i].s,
    ensures
        rat_eqv(key_sum(x, b, s), key_sum(y, b, s)),
    decreases x.len(),
{
    if x.len() == 0 {
    } else {
        assert(coeffs_wf(x.drop_last()));
        assert(coeffs_wf(y.drop_last()));
        assert(rat_eqv(x[x.len() - 1].c, y[x.len() - 1].c) && x[x.len() - 1].b == y[x.len() - 1].b
            && x[x.len() - 1].s == y[x.len() - 1].s) by {
            assert(0 <= x.len() - 1 < x.len());
        }
        assert forall|i: int|
            0 <= i < x.drop_last().len() implies rat_eqv(
            #[trigger] x.drop_last()[i].c,
            y.drop_last()[i].c,
        ) && x.drop_last()[i].b == y.drop_last()[i].b && x.drop_last()[i].s
            == y.drop_last()[i].s by {
            assert(x.drop_last()[i] == x[i] && y.drop_last()[i] == y[i]);
            assert(rat_eqv(x[i].c, y[i].c) && x[i].b == y[i].b && x[i].s == y[i].s);
        }
        lemma_key_sum_equiv(x.drop_last(), y.drop_last(), b, s);
        lemma_key_sum_wf(x.drop_last(), b, s);
        lemma_key_sum_wf(y.drop_last(), b, s);
        if term_key_matches(x.last(), b, s) {
            lemma_add_congruence(
                key_sum(x.drop_last(), b, s),
                key_sum(y.drop_last(), b, s),
                x.last().c,
                y.last().c,
            );
        }
    }
}

/// Replacing one term by another at the same key, whose coefficient absorbs
/// an extra summand, moves the key sums exactly as adding that summand would.
pub proof fn lemma_key_sum_combine(
    ts: Seq<Term>,
    j: int,
    t2: Term,
    extra: Rat,
    b: Seq<bool>,
    s: Map<Seq<char>, int>,
)
    requires
        0 <= j < ts.len(),
        coeffs_wf(ts),
        rat_wf(t2.c),
        rat_wf(extra),
        t2.b == ts[j].b,
        t2.s == ts[j].s,
        rat_eqv(t2.c, rat_add(ts[j].c, extra)),
    ensures
        term_key_matches(ts[j], b, s) ==> rat_eqv(
            key_sum(ts.update(j, t2), b, s),
            rat_add(key_sum(ts, b, s), extra),
        ),
        !term_key_matches(ts[j], b, s) ==> key_sum(ts.update(j, t2), b, s) == key_sum(ts, b, s),
    decreases ts.len(),
{
    let u = ts.update(j, t2);
    if j == ts.len() - 1 {
        assert(u.drop_last() =~= ts.drop_last());
        assert(u.last() == t2);
        if term_key_matches(ts.last(), b, s) {
            let k = key_sum(ts.drop_last(), b, s);
            assert(coeffs_wf(ts.drop_last()));
            lemma_key_sum_wf(ts.drop_last(), b, s);
            lemma_ops_wf(k, ts.last().c);
            lemma_ops_wf(rat_add(k, ts.last().c), extra);
            lemma_ops_wf(k, t2.c);
            lemma_ops_wf(ts.last().c, extra);
            lemma_ops_wf(k, rat_add(ts[j].c, extra));
            // k + t2.c  ~  k + (c_j + extra)  ==  (k + c_j) + extra
            lemma_add_congruence(k, k, t2.c, rat_add(ts[j].c, extra));
            lemma_add_associates(k, ts[j].c, extra);
            lemma_eqv_transitive(
                rat_add(k, t2.c),
                rat_add(k, rat_add(ts[j].c, extra)),
                rat_add(rat_add(k, ts[j].c), extra),
            );
        }
    } else {
        assert(u.drop_last() =~= ts.drop_last().update(j, t2));
        assert(u.last() == ts.last());
        assert(coeffs_wf(ts.drop_last()));
        lemma_key_sum_combine(ts.drop_last(), j, t2, extra, b, s);
        if term_key_matches(ts[j], b, s) {
            let kd = key_sum(ts.drop_last(), b, s);
            let ku = key_sum(u.drop_last(), b, s);
            lemma_key_sum_wf(ts.drop_last(), b, s);
            assert(coeffs_wf(u.drop_last()));
            lemma_key_sum_wf(u.drop_last(), b, s);
            lemma_ops_wf(kd, extra);
            if term_key_matches(ts.last(), b, s) {
                // ku + last.c  ~  (kd + extra) + last.c  ==  (kd + last.c) + extra
                lemma_ops_wf(kd, ts.last().c);
                lemma_add_congruence(ku, rat_add(kd, extra), ts.last().c, ts.last().c);
                lemma_add_rotates(kd, extra, ts.last().c);
                lemma_ops_wf(rat_add(kd, ts.last().c), extra);
                lemma_ops_wf(ku, ts.last().c);
                lemma_ops_wf(rat_add(kd, extra), ts.last().c);
                lemma_eqv_transitive(
                    rat_add(ku, ts.last().c),
                    rat_add(rat_add(kd, extra), ts.last().c),
                    rat_add(rat_add(kd, ts.last().c), extra),
                );
            }
        }
    }
}

/// An unordered sum of monomials; the empty sum is the zero polynomial.
#[derive(Debug)]
pub struct Polynomial {
    pub monomials: Vec<Monomial>,
}

impl Default for Polynomial {
    /// The zero polynomial.
    fn default() -> (r: Polynomial)
        ensures
            r.wf(),
            r.terms().len() == 0,
    {
        Polynomial { monomials: Vec::new() }
    }
}

impl Polynomial {
    /// Every monomial is well-formed.
    pub open spec fn wf(&self) -> bool {
        forall|i: int| 0 <= i < self.monomials@.len() ==> (#[trigger] self.monomials@[i]).wf()
    }

    /// Every blade has `n` axes.
    pub open spec fn dim_ok(&self, n: nat) -> bool {
        forall|i: int|
            0 <= i < self.monomials@.len() ==> (#[trigger] self.monomials@[i]).basis@.len() == n
    }

    /// The terms this polynomial sums.
    pub open spec fn terms(&self) -> Seq<Term> {
        terms_of(self.monomials@)
    }

    /// The polynomial of a single monomial.
    pub fn of_monomial(m: Monomial) -> (r: Polynomial)
        requires
            m.wf(),
        ensures
            r.wf(),
            r.terms() =~= seq![m.term()],
            r.monomials@.len() == 1,
            r.monomials@[0] == m,
    {
        let mut monomials: Vec<Monomial> = Vec::new();
        monomials.push(m);
        Polynomial { monomials }
    }

    /// An identical copy.
    pub fn duplicate(&self) -> (r: Polynomial)
        requires
            self.wf(),
        ensures
            r.wf(),
            r.terms() =~= self.terms(),
            forall|n: nat| self.dim_ok(n) ==> r.dim_ok(n),
    {
        let mut monomials: Vec<Monomial> = Vec::new();
        let n = self.monomials.len();
        let mut i: usize = 0;
        while i < n
            invariant
                0 <= i <= n,
                n == self.monomials@.len(),
                self.wf(),
                monomials@.len() == i,
                forall|k: int|
                    0 <= k < i ==> (#[trigger] monomials@[k]).wf() && monomials@[k].term()
                        == self.monomials@[k].term() && monomials@[k].basis@
                        == self.monomials@[k].basis@,
            decreases n - i,
        {
            monomials.push(self.monomials[i].duplicate());
            i += 1;
        }
        Polynomial { monomials }
    }

    /// Negation: every coefficient flips, keys stay.
    pub fn neg(&self) -> (r: Polynomial)
        requires
            self.wf(),
        ensures
            r.wf(),
            r.terms().len() == self.terms().len(),
            forall|i: int|
                0 <= i < self.terms().len() ==> (#[trigger] r.terms()[i]).b == self.terms()[i].b
                    && r.terms()[i].s == self.terms()[i].s && r.terms()[i].c == rat_neg(
                    self.terms()[i].c,
                ),
            r.terms() == negated_terms(self.terms()),
            forall|n: nat| self.dim_ok(n) ==> r.dim_ok(n),
    {
        let mut monomials: Vec<Monomial> = Vec::new();
        let n = self.monomials.len();
        let mut i: usize = 0;
        while i < n
            invariant
                0 <= i <= n,
                n == self.monomials@.len(),
                self.wf(),
                monomials@.len() == i,
                forall|k: int|
                    0 <= k < i ==> (#[trigger] monomials@[k]).wf() && monomials@[k].basis@
                        == self.monomials@[k].basis@ && monomials@[k].term().s
                        == self.monomials@[k].term().s && monomials@[k].term().c == rat_neg(
                        self.monomials@[k].term().c,
                    ),
            decreases n - i,
        {
            monomials.push(self.monomials[i].neg());
            i += 1;
        }
        Polynomial { monomials }
    }

    /// Merge monomials that share a blade and an exponent mapping by summing
    /// their coefficients.  The per-key sums are untouched, no two retained
    /// monomials share a key, the dimension is kept — and merging an
    /// already-merged polynomial changes nothing at all.
    pub fn merge_monomials(&self) -> (r: Polynomial)
        requires
            self.wf(),
        ensures
            r.wf(),
            merged(r.terms()),
            sums_match(r.terms(), self.terms()),
            terms_equiv_seq(r.terms(), merge_terms(self.terms())),
            forall|n: nat| self.dim_ok(n) ==> r.dim_ok(n),
            merged(self.terms()) ==> r.terms() == self.terms(),
    {
        let mut out: Vec<Monomial> = Vec::new();
        let n = self.monomials.len();
        let mut i: usize = 0;
        while i < n
            invariant
                0 <= i <= n,
                n == self.monomials@.len(),
                self.wf(),
                forall|k: int| 0 <= k < out@.len() ==> (#[trigger] out@[k]).wf(),
                merged(terms_of(out@)),
                forall|b: Seq<bool>, s: Map<Seq<char>, int>|
                    rat_eqv(
                        #[trigger] key_sum(terms_of(out@), b, s),
                        #[trigger] key_sum(terms_of(self.monomials@.take(i as int)), b, s),
                    ),
                forall|nn: nat|
                    self.dim_ok(nn) ==> forall|k: int|
                        0 <= k < out@.len() ==> (#[trigger] out@[k]).basis@.len() == nn,
                terms_equiv_seq(terms_of(out@), merge_terms(terms_of(self.monomials@.take(i as int)))),
                merged(self.terms()) ==> terms_of(out@) == terms_of(
                    self.monomials@.take(i as int),
                ),
            decreases n - i,
        {
            let ghost old_ms = out@;
            let ghost old_terms = terms_of(out@);
            let ghost prefix = terms_of(self.monomials@.take(i as int));
            let ghost prefix2 = terms_of(self.monomials@.take(i + 1));
            let ghost ti = self.monomials@[i as int].term();
            proof {
                assert(coeffs_wf(old_terms));
                assert(coeffs_wf(prefix)) by {
                    assert(forall|k: int|
                        0 <= k < prefix.len() ==> prefix[k] == (
                        #[trigger] self.monomials@.take(i as int)[k]).term());
                }
                assert(prefix.push(ti) =~= prefix2);
                assert(prefix2.drop_last() =~= prefix);
                assert(prefix2.last() == ti);
                lemma_merge_terms_invariants(prefix);
            }
            let m = &self.monomials[i];
            let found = self.find_same_key(&out, m);
            match found {
                Some(j) => {
                    let summed = out[j].scalar.add(&m.scalar);
                    let merged_m = Monomial {
                        scalar: summed,
                        symbols: crate::symbols::copy_syms(&out[j].symbols),
                        basis: out[j].basis.clone(),
                    };
                    proof {
                        crate::symbols::lemma_syms_map_congruent(
                            out@[j as int].symbols@,
                            merged_m.symbols@,
                        );
                    }
                    let ghost t2 = merged_m.term();
                    out.set(j, merged_m);
                    proof {
                        assert(t2.b == old_terms[j as int].b && t2.s == old_terms[j as int].s);
                        assert(terms_of(out@) =~= old_terms.update(j as int, t2));
                        assert forall|a: int, c: int|
                            0 <= a < c < terms_of(out@).len() implies !((#[trigger] terms_of(
                            out@,
                        )[a]).b == (#[trigger] terms_of(out@)[c]).b && terms_of(out@)[a].s
                            == terms_of(out@)[c].s) by {
                            assert(!(old_terms[a].b == old_terms[c].b && old_terms[a].s
                                == old_terms[c].s));
                        }
                        assert forall|b: Seq<bool>, s: Map<Seq<char>, int>|
                            rat_eqv(
                                #[trigger] key_sum(terms_of(out@), b, s),
                                #[trigger] key_sum(prefix2, b, s),
                            ) by {
                            lemma_key_sum_combine(old_terms, j as int, t2, ti.c, b, s);
                            lemma_key_sum_push(prefix, ti, b, s);
                            lemma_key_sum_wf(old_terms, b, s);
                            lemma_key_sum_wf(prefix, b, s);
                            assert(coeffs_wf(terms_of(out@)));
                            lemma_key_sum_wf(terms_of(out@), b, s);
                            lemma_ops_wf(key_sum(old_terms, b, s), ti.c);
                            lemma_ops_wf(key_sum(prefix, b, s), ti.c);
                            if term_key_matches(old_terms[j as int], b, s) {
                                lemma_add_congruence(
                                    key_sum(old_terms, b, s),
                                    key_sum(prefix, b, s),
                                    ti.c,
                                    ti.c,
                                );
                                lemma_eqv_transitive(
                                    key_sum(terms_of(out@), b, s),
                                    rat_add(key_sum(old_terms, b, s), ti.c),
                                    key_sum(prefix2, b, s),
                                );
                            } else {
                                assert(!term_key_matches(ti, b, s));
                            }
                        }
                        // The canonical merge lands the sum in the same slot.
                        let prev_spec = merge_terms(prefix);
                        assert(terms_equiv_seq(old_terms, prev_spec));
                        assert(prev_spec[j as int].b == ti.b && prev_spec[j as int].s == ti.s) by {
                            assert(old_terms[j as int].b == ti.b && old_terms[j as int].s == ti.s);
                        }
                        assert(has_key(prev_spec, ti.b, ti.s));
                        let jspec = key_index(prev_spec, ti.b, ti.s);
                        assert(0 <= jspec < prev_spec.len() && prev_spec[jspec].b == ti.b
                            && prev_spec[jspec].s == ti.s);
                        assert(jspec == j as int);
                        assert(merge_terms(prefix2) == prev_spec.update(
                            j as int,
                            Term {
                                c: rat_add(prev_spec[j as int].c, ti.c),
                                s: prev_spec[j as int].s,
                                b: prev_spec[j as int].b,
                            },
                        ));
                        assert(terms_equiv_seq(terms_of(out@), merge_terms(prefix2))) by {
                            assert(rat_wf(old_terms[j as int].c));
                            assert(rat_wf(prev_spec[j as int].c));
                            lemma_add_congruence(
                                old_terms[j as int].c,
                                prev_spec[j as int].c,
                                ti.c,
                                ti.c,
                            );
                            lemma_ops_wf(old_terms[j as int].c, ti.c);
                            lemma_ops_wf(prev_spec[j as int].c, ti.c);
                            lemma_eqv_transitive(
                                t2.c,
                                rat_add(old_terms[j as int].c, ti.c),
                                rat_add(prev_spec[j as int].c, ti.c),
                            );
                            assert forall|k: int|
                                0 <= k < terms_of(out@).len() implies rat_eqv(
                                (#[trigger] terms_of(out@)[k]).c,
                                (#[trigger] merge_terms(prefix2)[k]).c,
                            ) && terms_of(out@)[k].b == merge_terms(prefix2)[k].b && terms_of(
                                out@,
                            )[k].s == merge_terms(prefix2)[k].s by {
                                if k != j as int {
                                    assert(terms_of(out@)[k] == old_terms[k]);
                                    assert(merge_terms(prefix2)[k] == prev_spec[k]);
                                }
                            }
                        }
                        // A found key means the input held a duplicate.
                        assert(!merged(self.terms())) by {
                            if merged(self.terms()) {
                                assert(old_terms == prefix);
                                assert(old_terms[j as int] == old_ms[j as int].term());
                                assert(prefix[j as int] == self.monomials@.take(
                                    i as int,
                                )[j as int].term());
                                assert(self.terms()[j as int].b == self.terms()[i as int].b
                                    && self.terms()[j as int].s == self.terms()[i as int].s);
                                assert(false);
                            }
                        }
                    }
                },
                None => {
                    out.push(m.duplicate());
                    proof {
                        assert(terms_of(out@) =~= old_terms.push(ti));
                        assert forall|a: int, c: int|
                            0 <= a < c < terms_of(out@).len() implies !((#[trigger] terms_of(
                            out@,
                        )[a]).b == (#[trigger] terms_of(out@)[c]).b && terms_of(out@)[a].s
                            == terms_of(out@)[c].s) by {
                            if c < old_terms.len() {
                                assert(!(old_terms[a].b == old_terms[c].b && old_terms[a].s
                                    == old_terms[c].s));
                            } else {
                                assert(!(old_ms[a].basis@ == self.monomials@[i as int].basis@
                                    && old_ms[a].term().s == ti.s));
                            }
                        }
                        assert forall|b: Seq<bool>, s: Map<Seq<char>, int>|
                            rat_eqv(
                                #[trigger] key_sum(terms_of(out@), b, s),
                                #[trigger] key_sum(prefix2, b, s),
                            ) by {
                            lemma_key_sum_push(old_terms, ti, b, s);
                            lemma_key_sum_push(prefix, ti, b, s);
                            lemma_key_sum_wf(old_terms, b, s);
                            lemma_key_sum_wf(prefix, b, s);
                            if term_key_matches(ti, b, s) {
                                lemma_ops_wf(key_sum(old_terms, b, s), ti.c);
                                lemma_add_congruence(
                                    key_sum(old_terms, b, s),
                                    key_sum(prefix, b, s),
                                    ti.c,
                                    ti.c,
                                );
                            }
                        }
                        let prev_spec = merge_terms(prefix);
                        assert(terms_equiv_seq(old_terms, prev_spec));
                        assert(!has_key(prev_spec, ti.b, ti.s)) by {
                            if has_key(prev_spec, ti.b, ti.s) {
                                let w = key_index(prev_spec, ti.b, ti.s);
                                assert(0 <= w < prev_spec.len() && prev_spec[w].b == ti.b
                                    && prev_spec[w].s == ti.s);
                                assert(old_terms[w].b == ti.b && old_terms[w].s == ti.s);
                                assert(old_ms[w].basis@ == self.monomials@[i as int].basis@
                                    && old_ms[w].term().s == ti.s);
                            }
                        }
                        assert(merge_terms(prefix2) == prev_spec.push(ti));
                        assert(terms_equiv_seq(terms_of(out@), merge_terms(prefix2))) by {
                            assert forall|k: int|
                                0 <= k < terms_of(out@).len() implies rat_eqv(
                                (#[trigger] terms_of(out@)[k]).c,
                                (#[trigger] merge_terms(prefix2)[k]).c,
                            ) && terms_of(out@)[k].b == merge_terms(prefix2)[k].b && terms_of(
                                out@,
                            )[k].s == merge_terms(prefix2)[k].s by {
                                if k < old_terms.len() {
                                    assert(terms_of(out@)[k] == old_terms[k]);
                                    assert(merge_terms(prefix2)[k] == prev_spec[k]);
                                } else {
                                    assert(terms_of(out@)[k] == ti);
                                    assert(merge_terms(prefix2)[k] == ti);
                                }
                            }
                        }
                        if merged(self.terms()) {
                            assert(terms_of(out@) =~= prefix2);
                        }
                    }
                },
            }
            i += 1;
        }
        proof {
            assert(self.monomials@.take(n as int) =~= self.monomials@);
            assert(terms_of(self.monomials@.take(n as int)) =~= self.terms());
        }
        Polynomial { monomials: out }
    }

    /// Index of a monomial in `out` sharing `m`'s key, if any.
    fn find_same_key(&self, out: &Vec<Monomial>, m: &Monomial) -> (r: Option<usize>)
        requires
            m.wf(),
            forall|k: int| 0 <= k < out@.len() ==> (#[trigger] out@[k]).wf(),
        ensures
            match r {
                Some(j) => 0 <= j < out@.len() && out@[j as int].basis@ == m.basis@
                    && out@[j as int].term().s == m.term().s,
                None => forall|k: int|
                    0 <= k < out@.len() ==> !((#[trigger] out@[k]).basis@ == m.basis@ && out@[k].term().s
                        == m.term().s),
            },
    {
        let n = out.len();
        let mut k: usize = 0;
        while k < n
            invariant
                0 <= k <= n,
                n == out@.len(),
                m.wf(),
                forall|t: int| 0 <= t < out@.len() ==> (#[trigger] out@[t]).wf(),
                forall|t: int|
                    0 <= t < k ==> !((#[trigger] out@[t]).basis@ == m.basis@ && out@[t].term().s
                        == m.term().s),
            decreases n - k,
        {
            if out[k].same_key(m) {
                return Some(k);
            }
            k += 1;
        }
        None
    }
}

/// The chosen product of two terms, vanished when the grade filter rejects
/// the blade product.
pub open spec fn term_kind_product(kind: Product, x: Term, y: Term, m: Seq<Square>) -> Term {
    if kind_defined(kind, x.b, y.b, m) {
        Term {
            c: sign_rat(kind_sign(kind, x.b, y.b, m), rat_mul(x.c, y.c)),
            s: syms_union(x.s, y.s),
            b: kind_bits(kind, x.b, y.b),
        }
    } else {
        term_zero(m.len())
    }
}

/// The products of one left term with every term of `y`.
pub open spec fn row_products(t: Term, y: Seq<Term>, kind: Product, m: Seq<Square>) -> Seq<Term> {
    Seq::new(y.len(), |j: int| term_kind_product(kind, t, y[j], m))
}

/// All pairwise products, row by row.
pub open spec fn pair_products(x: Seq<Term>, y: Seq<Term>, kind: Product, m: Seq<Square>) -> Seq<
    Term,
>
    decreases x.len(),
{
    if x.len() == 0 {
        Seq::empty()
    } else {
        pair_products(x.drop_last(), y, kind, m) + row_products(x.last(), y, kind, m)
    }
}

/// Sequences equal up to coefficient equivalence.
pub open spec fn terms_equiv_seq(a: Seq<Term>, b: Seq<Term>) -> bool {
    a.len() == b.len() && forall|i: int|
        0 <= i < a.len() ==> rat_eqv((#[trigger] a[i]).c, (#[trigger] b[i]).c) && a[i].b == b[i].b
            && a[i].s == b[i].s
}

/// The result of a power applied to every term.
pub open spec fn powered_terms(x: Seq<Term>, e: int, m: Seq<Square>) -> Seq<Term> {
    Seq::new(x.len(), |i: int| term_pow(pow_base(x[i], e, m), abs_nat(e), m))
}

/// The inverse applied to every term.
pub open spec fn inverted_terms(x: Seq<Term>, m: Seq<Square>) -> Seq<Term> {
    Seq::new(
        x.len(),
        |i: int|
            Term {
                c: spec_inverse_coeff(x[i].c, x[i].b, m),
                s: syms_neg(x[i].s),
                b: x[i].b,
            },
    )
}

/// The sum of the terms' norms: zero for a blade touching a null axis, the
/// absolute coefficient otherwise.
pub open spec fn norms_sum(ts: Seq<Term>, m: Seq<Square>) -> Rat
    decreases ts.len(),
{
    if ts.len() == 0 {
        rat_int(0)
    } else {
        rat_add(
            norms_sum(ts.drop_last(), m),
            if touches_null(ts.last().b, m) {
                rat_int(0)
            } else {
                rat_abs(ts.last().c)
            },
        )
    }
}

/// A norm sum over well-formed coefficients is well-formed.
pub proof fn lemma_norms_sum_wf(ts: Seq<Term>, m: Seq<Square>)
    requires
        coeffs_wf(ts),
    ensures
        rat_wf(norms_sum(ts, m)),
    decreases ts.len(),
{
    if ts.len() > 0 {
        assert(coeffs_wf(ts.drop_last()));
        lemma_norms_sum_wf(ts.drop_last(), m);
        lemma_ops_wf(ts.last().c, ts.last().c);
        if touches_null(ts.last().b, m) {
            lemma_ops_wf(norms_sum(ts.drop_last(), m), rat_int(0));
        } else {
            lemma_ops_wf(norms_sum(ts.drop_last(), m), rat_abs(ts.last().c));
        }
    }
}

/// Pointwise equivalence is transitive over well-formed coefficients.
pub proof fn lemma_terms_equiv_transitive(x: Seq<Term>, y: Seq<Term>, z: Seq<Term>)
    requires
        coeffs_wf(x),
        coeffs_wf(y),
        coeffs_wf(z),
        terms_equiv_seq(x, y),
        terms_equiv_seq(y, z),
    ensures
        terms_equiv_seq(x, z),
{
    assert forall|i: int|
        0 <= i < x.len() implies rat_eqv((#[trigger] x[i]).c, (#[trigger] z[i]).c) && x[i].b
        == z[i].b && x[i].s == z[i].s by {
        assert(rat_eqv(x[i].c, y[i].c) && x[i].b == y[i].b && x[i].s == y[i].s);
        assert(rat_eqv(y[i].c, z[i].c));
        assert(rat_wf(x[i].c) && rat_wf(y[i].c) && rat_wf(z[i].c));
        lemma_eqv_transitive(x[i].c, y[i].c, z[i].c);
    }
}

/// Coefficients of a row of pairwise products are well-formed.
pub proof fn lemma_row_products_wf(t: Term, y: Seq<Term>, kind: Product, m: Seq<Square>)
    requires
        rat_wf(t.c),
        coeffs_wf(y),
    ensures
        coeffs_wf(row_products(t, y, kind, m)),
{
    let row = row_products(t, y, kind, m);
    assert forall|j: int| 0 <= j < row.len() implies rat_wf(#[trigger] row[j].c) by {
        assert(rat_wf(y[j].c));
        lemma_ops_wf(t.c, y[j].c);
        lemma_ops_wf(rat_mul(t.c, y[j].c), rat_mul(t.c, y[j].c));
    }
}

/// Coefficients of all pairwise products are well-formed.
pub proof fn lemma_pair_products_wf(x: Seq<Term>, y: Seq<Term>, kind: Product, m: Seq<Square>)
    requires
        coeffs_wf(x),
        coeffs_wf(y),
    ensures
        coeffs_wf(pair_products(x, y, kind, m)),
    decreases x.len(),
{
    if x.len() > 0 {
        assert(coeffs_wf(x.drop_last()));
        lemma_pair_products_wf(x.drop_last(), y, kind, m);
        assert(rat_wf(x[x.len() - 1].c));
        lemma_row_products_wf(x.last(), y, kind, m);
        let a = pair_products(x.drop_last(), y, kind, m);
        let r = row_products(x.last(), y, kind, m);
        assert forall|j: int| 0 <= j < (a + r).len() implies rat_wf(#[trigger] (a + r)[j].c) by {
            if j < a.len() {
                assert((a + r)[j] == a[j]);
            } else {
                assert((a + r)[j] == r[j - a.len()]);
            }
        }
    }
}

impl Polynomial {
    /// Sum of two polynomials: concatenate the terms and merge.
    pub fn add(&self, other: &Polynomial) -> (r: Polynomial)
        requires
            self.wf(),
            other.wf(),
        ensures
            r.wf(),
            merged(r.terms()),
            sums_match(r.terms(), self.terms() + other.terms()),
            terms_equiv_seq(r.terms(), merge_terms(self.terms() + other.terms())),
            forall|n: nat| self.dim_ok(n) && other.dim_ok(n) ==> r.dim_ok(n),
    {
        let mut all: Vec<Monomial> = Vec::new();
        let na = self.monomials.len();
        let mut i: usize = 0;
        while i < na
            invariant
                0 <= i <= na,
                na == self.monomials@.len(),
                self.wf(),
                all@.len() == i,
                forall|k: int|
                    0 <= k < i ==> (#[trigger] all@[k]).wf() && all@[k].term()
                        == self.monomials@[k].term() && all@[k].basis@
                        == self.monomials@[k].basis@,
            decreases na - i,
        {
            all.push(self.monomials[i].duplicate());
            i += 1;
        }
        let nb = other.monomials.len();
        let mut j: usize = 0;
        while j < nb
            invariant
                0 <= j <= nb,
                nb == other.monomials@.len(),
                na == self.monomials@.len(),
                other.wf(),
                all@.len() == na + j,
                forall|k: int|
                    0 <= k < na ==> (#[trigger] all@[k]).wf() && all@[k].term()
                        == self.monomials@[k].term() && all@[k].basis@
                        == self.monomials@[k].basis@,
                forall|k: int|
                    na <= k < na + j ==> (#[trigger] all@[k]).wf() && all@[k].term()
                        == other.monomials@[k - na].term() && all@[k].basis@
                        == other.monomials@[k - na].basis@,
            decreases nb - j,
        {
            all.push(other.monomials[j].duplicate());
            j += 1;
        }
        let combined = Polynomial { monomials: all };
        proof {
            assert(combined.terms() =~= self.terms() + other.terms());
        }
        let r = combined.merge_monomials();
        proof {
            assert forall|n: nat| self.dim_ok(n) && other.dim_ok(n) implies combined.dim_ok(
                n,
            ) by {
                assert(forall|k: int|
                    0 <= k < na ==> (#[trigger] combined.monomials@[k]).basis@
                        == self.monomials@[k].basis@);
            }
        }
        r
    }

    /// Sum of a polynomial and one monomial.
    pub fn add_monomial(&self, m: &Monomial) -> (r: Polynomial)
        requires
            self.wf(),
            m.wf(),
        ensures
            r.wf(),
            merged(r.terms()),
            sums_match(r.terms(), self.terms().push(m.term())),
            terms_equiv_seq(r.terms(), merge_terms(self.terms().push(m.term()))),
            forall|n: nat| self.dim_ok(n) && m.basis@.len() == n ==> r.dim_ok(n),
    {
        let single = Polynomial::of_monomial(m.duplicate());
        let r = self.add(&single);
        proof {
            assert(self.terms() + single.terms() =~= self.terms().push(m.term()));
        }
        r
    }

    /// The chosen product of two polynomials: every pairwise monomial
    /// product, merged.  `None` exactly when some pairwise product's summed
    /// exponent leaves the machine range.
    pub fn product(&self, kind: Product, other: &Polynomial, metric: &Metric) -> (r: Option<
        Polynomial,
    >)
        requires
            self.wf(),
            other.wf(),
            self.dim_ok(metric.0@.len()),
            other.dim_ok(metric.0@.len()),
        ensures
            match r {
                Some(p) => p.wf() && merged(p.terms()) && p.dim_ok(metric.0@.len()) && sums_match(
                    p.terms(),
                    pair_products(self.terms(), other.terms(), kind, metric.0@),
                ) && terms_equiv_seq(
                    p.terms(),
                    merge_terms(pair_products(self.terms(), other.terms(), kind, metric.0@)),
                ) && (forall|i: int, j: int|
                    0 <= i < self.terms().len() && 0 <= j < other.terms().len() ==> !(kind_defined(
                        kind,
                        (#[trigger] self.terms()[i]).b,
                        (#[trigger] other.terms()[j]).b,
                        metric.0@,
                    ) && syms_overflow(self.terms()[i].s, other.terms()[j].s))),
                None => exists|i: int, j: int|
                    0 <= i < self.terms().len() && 0 <= j < other.terms().len() && kind_defined(
                        kind,
                        (#[trigger] self.terms()[i]).b,
                        (#[trigger] other.terms()[j]).b,
                        metric.0@,
                    ) && syms_overflow(self.terms()[i].s, other.terms()[j].s),
            },
    {
        let ghost m = metric.0@;
        let ghost xs = self.terms();
        let ghost ys = other.terms();
        let mut raw: Vec<Monomial> = Vec::new();
        let na = self.monomials.len();
        let nb = other.monomials.len();
        let mut i: usize = 0;
        while i < na
            invariant
                0 <= i <= na,
                na == self.monomials@.len(),
                nb == other.monomials@.len(),
                self.wf(),
                other.wf(),
                m == metric.0@,
                xs == self.terms(),
                ys == other.terms(),
                self.dim_ok(m.len()),
                other.dim_ok(m.len()),
                forall|k: int|
                    0 <= k < raw@.len() ==> (#[trigger] raw@[k]).wf() && raw@[k].basis@.len()
                        == m.len(),
                terms_equiv_seq(terms_of(raw@), pair_products(xs.take(i as int), ys, kind, m)),
                forall|a: int, c: int|
                    0 <= a < i && 0 <= c < nb ==> !(kind_defined(
                        kind,
                        (#[trigger] xs[a]).b,
                        (#[trigger] ys[c]).b,
                        m,
                    ) && syms_overflow(xs[a].s, ys[c].s)),
            decreases na - i,
        {
            let mut j: usize = 0;
            while j < nb
                invariant
                    0 <= i < na,
                    0 <= j <= nb,
                    na == self.monomials@.len(),
                    nb == other.monomials@.len(),
                    self.wf(),
                    other.wf(),
                    m == metric.0@,
                    xs == self.terms(),
                    ys == other.terms(),
                    self.dim_ok(m.len()),
                    other.dim_ok(m.len()),
                    forall|k: int|
                        0 <= k < raw@.len() ==> (#[trigger] raw@[k]).wf() && raw@[k].basis@.len()
                            == m.len(),
                    terms_equiv_seq(
                        terms_of(raw@),
                        pair_products(xs.take(i as int), ys, kind, m) + row_products(
                            xs[i as int],
                            ys,
                            kind,
                            m,
                        ).take(j as int),
                    ),
                    forall|a: int, c: int|
                        0 <= a < i && 0 <= c < nb ==> !(kind_defined(
                            kind,
                            (#[trigger] xs[a]).b,
                            (#[trigger] ys[c]).b,
                            m,
                        ) && syms_overflow(xs[a].s, ys[c].s)),
                    forall|c: int|
                        0 <= c < j ==> !(kind_defined(
                            kind,
                            xs[i as int].b,
                            (#[trigger] ys[c]).b,
                            m,
                        ) && syms_overflow(xs[i as int].s, ys[c].s)),
                decreases nb - j,
            {
                let ghost old_terms = terms_of(raw@);
                match self.monomials[i].product(kind, &other.monomials[j], metric) {
                    None => {
                        proof {
                            assert(0 <= i < xs.len() && 0 <= j < ys.len() && kind_defined(
                                kind,
                                xs[i as int].b,
                                ys[j as int].b,
                                m,
                            ) && syms_overflow(xs[i as int].s, ys[j as int].s));
                        }
                        return None;
                    },
                    Some(p) => {
                        raw.push(p);
                        proof {
                            let target = pair_products(xs.take(i as int), ys, kind, m)
                                + row_products(xs[i as int], ys, kind, m).take(j + 1);
                            assert(terms_of(raw@) =~= old_terms.push(p.term()));
                            assert(target =~= (pair_products(xs.take(i as int), ys, kind, m)
                                + row_products(xs[i as int], ys, kind, m).take(j as int)).push(
                                row_products(xs[i as int], ys, kind, m)[j as int],
                            ));
                            assert(row_products(xs[i as int], ys, kind, m)[j as int]
                                == term_kind_product(kind, xs[i as int], ys[j as int], m));
                        }
                    },
                }
                j += 1;
            }
            proof {
                assert(row_products(xs[i as int], ys, kind, m).take(nb as int) =~= row_products(
                    xs[i as int],
                    ys,
                    kind,
                    m,
                ));
                assert(xs.take(i + 1).drop_last() =~= xs.take(i as int));
                assert(xs.take(i + 1).last() == xs[i as int]);
                assert(pair_products(xs.take(i + 1), ys, kind, m) == pair_products(
                    xs.take(i as int),
                    ys,
                    kind,
                    m,
                ) + row_products(xs[i as int], ys, kind, m));
            }
            i += 1;
        }
        let combined = Polynomial { monomials: raw };
        let p = combined.merge_monomials();
        proof {
            assert(xs.take(na as int) =~= xs);
            lemma_pair_products_wf(xs, ys, kind, m);
            assert(coeffs_wf(combined.terms()));
            assert(coeffs_wf(p.terms()));
            assert forall|b: Seq<bool>, s: Map<Seq<char>, int>|
                rat_eqv(
                    #[trigger] key_sum(p.terms(), b, s),
                    #[trigger] key_sum(pair_products(xs, ys, kind, m), b, s),
                ) by {
                lemma_key_sum_equiv(combined.terms(), pair_products(xs, ys, kind, m), b, s);
                lemma_key_sum_wf(p.terms(), b, s);
                lemma_key_sum_wf(combined.terms(), b, s);
                lemma_key_sum_wf(pair_products(xs, ys, kind, m), b, s);
                lemma_eqv_transitive(
                    key_sum(p.terms(), b, s),
                    key_sum(combined.terms(), b, s),
                    key_sum(pair_products(xs, ys, kind, m), b, s),
                );
            }
            lemma_merge_terms_congruent(combined.terms(), pair_products(xs, ys, kind, m));
            lemma_merge_terms_invariants(combined.terms());
            lemma_merge_terms_invariants(pair_products(xs, ys, kind, m));
            lemma_terms_equiv_transitive(
                p.terms(),
                merge_terms(combined.terms()),
                merge_terms(pair_products(xs, ys, kind, m)),
            );
        }
        Some(p)
    }

    /// Every monomial raised to the exponent, merged.  `None` exactly when
    /// some monomial's power fails.
    pub fn power(&self, exponent: i64, metric: &Metric) -> (r: Option<Polynomial>)
        requires
            self.wf(),
            self.dim_ok(metric.0@.len()),
        ensures
            match r {
                Some(p) => p.wf() && merged(p.terms()) && p.dim_ok(metric.0@.len()) && sums_match(
                    p.terms(),
                    powered_terms(self.terms(), exponent as int, metric.0@),
                ) && terms_equiv_seq(
                    p.terms(),
                    merge_terms(powered_terms(self.terms(), exponent as int, metric.0@)),
                ) && (forall|i: int|
                    0 <= i < self.monomials@.len() ==> !crate::monomial::power_fails(
                        #[trigger] self.monomials@[i],
                        exponent as int,
                        metric.0@,
                    )),
                None => exists|i: int|
                    0 <= i < self.monomials@.len() && crate::monomial::power_fails(
                        #[trigger] self.monomials@[i],
                        exponent as int,
                        metric.0@,
                    ),
            },
    {
        let ghost m = metric.0@;
        let ghost xs = self.terms();
        let ghost goal = powered_terms(xs, exponent as int, m);
        let mut raw: Vec<Monomial> = Vec::new();
        let n = self.monomials.len();
        let mut i: usize = 0;
        while i < n
            invariant
                0 <= i <= n,
                n == self.monomials@.len(),
                self.wf(),
                m == metric.0@,
                xs == self.terms(),
                goal == powered_terms(xs, exponent as int, m),
                self.dim_ok(m.len()),
                raw@.len() == i,
                forall|k: int|
                    0 <= k < i ==> (#[trigger] raw@[k]).wf() && raw@[k].basis@.len() == m.len(),
                forall|k: int|
                    0 <= k < i ==> rat_eqv((#[trigger] terms_of(raw@)[k]).c, goal[k].c)
                        && terms_of(raw@)[k].b == goal[k].b && terms_of(raw@)[k].s == goal[k].s,
                forall|k: int| 0 <= k < i ==> rat_wf((#[trigger] goal[k]).c),
                forall|k: int|
                    0 <= k < i ==> !crate::monomial::power_fails(
                        #[trigger] self.monomials@[k],
                        exponent as int,
                        m,
                    ),
            decreases n - i,
        {
            let ghost old_terms = terms_of(raw@);
            match self.monomials[i].power(exponent, metric) {
                None => {
                    return None;
                },
                Some(p) => {
                    proof {
                        let bt = pow_base(self.monomials@[i as int].term(), exponent as int, m);
                        if exponent < 0 {
                            lemma_spec_norm_sq_wf(
                                self.monomials@[i as int].scalar@,
                                self.monomials@[i as int].basis@,
                                m,
                            );
                        }
                        crate::monomial::lemma_term_pow_wf(bt, abs_nat(exponent as int), m);
                    }
                    raw.push(p);
                    proof {
                        assert(terms_of(raw@) =~= old_terms.push(p.term()));
                        assert(forall|k: int|
                            0 <= k < old_terms.len() ==> terms_of(raw@)[k] == old_terms[k]);
                        assert(terms_of(raw@)[i as int] == p.term());
                        assert(xs[i as int] == self.monomials@[i as int].term());
                        assert(goal[i as int] == term_pow(
                            pow_base(xs[i as int], exponent as int, m),
                            abs_nat(exponent as int),
                            m,
                        ));
                    }
                },
            }
            i += 1;
        }
        let combined = Polynomial { monomials: raw };
        let p = combined.merge_monomials();
        proof {
            assert(coeffs_wf(combined.terms()));
            assert(coeffs_wf(goal));
            assert(combined.terms().len() == goal.len());
            assert(coeffs_wf(p.terms()));
            assert forall|b: Seq<bool>, s: Map<Seq<char>, int>|
                rat_eqv(#[trigger] key_sum(p.terms(), b, s), #[trigger] key_sum(goal, b, s)) by {
                lemma_key_sum_equiv(combined.terms(), goal, b, s);
                lemma_key_sum_wf(p.terms(), b, s);
                lemma_key_sum_wf(combined.terms(), b, s);
                lemma_key_sum_wf(goal, b, s);
                lemma_eqv_transitive(
                    key_sum(p.terms(), b, s),
                    key_sum(combined.terms(), b, s),
                    key_sum(goal, b, s),
                );
            }
            lemma_merge_terms_congruent(combined.terms(), goal);
            lemma_merge_terms_invariants(combined.terms());
            lemma_merge_terms_invariants(goal);
            lemma_terms_equiv_transitive(
                p.terms(),
                merge_terms(combined.terms()),
                merge_terms(goal),
            );
        }
        Some(p)
    }

    /// Every monomial inverted, merged.  `None` exactly when some monomial
    /// has no inverse.  This inverts single-monomial polynomials; inverting
    /// a many-term polynomial term by term is the engine's documented rule,
    /// not a ring inverse.
    pub fn inverse(&self, metric: &Metric) -> (r: Option<Polynomial>)
        requires
            self.wf(),
            self.dim_ok(metric.0@.len()),
        ensures
            match r {
                Some(p) => p.wf() && merged(p.terms()) && p.dim_ok(metric.0@.len()) && sums_match(
                    p.terms(),
                    inverted_terms(self.terms(), metric.0@),
                ) && terms_equiv_seq(
                    p.terms(),
                    merge_terms(inverted_terms(self.terms(), metric.0@)),
                ) && (forall|i: int|
                    0 <= i < self.monomials@.len() ==> !crate::monomial::inverse_fails(
                        #[trigger] self.monomials@[i],
                        metric.0@,
                    )),
                None => exists|i: int|
                    0 <= i < self.monomials@.len() && crate::monomial::inverse_fails(
                        #[trigger] self.monomials@[i],
                        metric.0@,
                    ),
            },
    {
        let ghost m = metric.0@;
        let ghost xs = self.terms();
        let ghost goal = inverted_terms(xs, m);
        let mut raw: Vec<Monomial> = Vec::new();
        let n = self.monomials.len();
        let mut i: usize = 0;
        while i < n
            invariant
                0 <= i <= n,
                n == self.monomials@.len(),
                self.wf(),
                m == metric.0@,
                xs == self.terms(),
                goal == inverted_terms(xs, m),
                goal.len() == n,
                self.dim_ok(m.len()),
                raw@.len() == i,
                forall|k: int|
                    0 <= k < i ==> (#[trigger] raw@[k]).wf() && raw@[k].basis@.len() == m.len(),
                forall|k: int|
                    0 <= k < i ==> rat_eqv((#[trigger] terms_of(raw@)[k]).c, goal[k].c)
                        && terms_of(raw@)[k].b == goal[k].b && terms_of(raw@)[k].s == goal[k].s,
                forall|k: int| 0 <= k < i ==> rat_wf((#[trigger] goal[k]).c),
                forall|k: int|
                    0 <= k < i ==> !crate::monomial::inverse_fails(
                        #[trigger] self.monomials@[k],
                        m,
                    ),
            decreases n - i,
        {
            let ghost old_terms = terms_of(raw@);
            match self.monomials[i].inverse(metric) {
                None => {
                    return None;
                },
                Some(inv) => {
                    proof {
                        lemma_spec_norm_sq_wf(
                            self.monomials@[i as int].scalar@,
                            self.monomials@[i as int].basis@,
                            m,
                        );
                    }
                    raw.push(inv);
                    proof {
                        assert(terms_of(raw@) =~= old_terms.push(inv.term()));
                        assert(forall|k: int|
                            0 <= k < old_terms.len() ==> terms_of(raw@)[k] == old_terms[k]);
                        assert(terms_of(raw@)[i as int] == inv.term());
                        assert(xs[i as int] == self.monomials@[i as int].term());
                        assert(goal[i as int] == Term {
                            c: spec_inverse_coeff(xs[i as int].c, xs[i as int].b, m),
                            s: syms_neg(xs[i as int].s),
                            b: xs[i as int].b,
                        });
                    }
                },
            }
            i += 1;
        }
        let combined = Polynomial { monomials: raw };
        let p = combined.merge_monomials();
        proof {
            assert(coeffs_wf(combined.terms()));
            assert(coeffs_wf(goal));
            assert(coeffs_wf(p.terms()));
            assert forall|b: Seq<bool>, s: Map<Seq<char>, int>|
                rat_eqv(#[trigger] key_sum(p.terms(), b, s), #[trigger] key_sum(goal, b, s)) by {
                lemma_key_sum_equiv(combined.terms(), goal, b, s);
                lemma_key_sum_wf(p.terms(), b, s);
                lemma_key_sum_wf(combined.terms(), b, s);
                lemma_key_sum_wf(goal, b, s);
                lemma_eqv_transitive(
                    key_sum(p.terms(), b, s),
                    key_sum(combined.terms(), b, s),
                    key_sum(goal, b, s),
                );
            }
            lemma_merge_terms_congruent(combined.terms(), goal);
            lemma_merge_terms_invariants(combined.terms());
            lemma_merge_terms_invariants(goal);
            lemma_terms_equiv_transitive(
                p.terms(),
                merge_terms(combined.terms()),
                merge_terms(goal),
            );
        }
        Some(p)
    }
}

/// Every coefficient negated, keys untouched.
pub open spec fn negated_terms(x: Seq<Term>) -> Seq<Term> {
    Seq::new(x.len(), |i: int| Term { c: rat_neg(x[i].c), s: x[i].s, b: x[i].b })
}

/// One involution applied to every term: the sign the blade's grade gives,
/// on each coefficient.
pub open spec fn reversed_terms(x: Seq<Term>) -> Seq<Term> {
    Seq::new(
        x.len(),
        |i: int| Term { c: sign_rat(reverse_sign(count_ones(x[i].b)), x[i].c), s: x[i].s, b: x[i].b },
    )
}

pub open spec fn involuted_terms(x: Seq<Term>) -> Seq<Term> {
    Seq::new(
        x.len(),
        |i: int|
            Term { c: sign_rat(involute_sign(count_ones(x[i].b)), x[i].c), s: x[i].s, b: x[i].b },
    )
}

pub open spec fn conjugated_terms(x: Seq<Term>) -> Seq<Term> {
    Seq::new(
        x.len(),
        |i: int|
            Term { c: sign_rat(conjugate_sign(count_ones(x[i].b)), x[i].c), s: x[i].s, b: x[i].b },
    )
}

/// The Poincaré dual of every term: the blade complements.
pub open spec fn dual_terms(x: Seq<Term>) -> Seq<Term> {
    Seq::new(x.len(), |i: int| Term { c: x[i].c, s: x[i].s, b: complement(x[i].b) })
}

impl Polynomial {
    /// Reversion applied to every monomial, merged.
    pub fn reverse(&self) -> (r: Polynomial)
        requires
            self.wf(),
        ensures
            r.wf(),
            merged(r.terms()),
            sums_match(r.terms(), reversed_terms(self.terms())),
            terms_equiv_seq(r.terms(), merge_terms(reversed_terms(self.terms()))),
            forall|n: nat| self.dim_ok(n) ==> r.dim_ok(n),
    {
        let mut raw: Vec<Monomial> = Vec::new();
        let n = self.monomials.len();
        let mut i: usize = 0;
        while i < n
            invariant
                0 <= i <= n,
                n == self.monomials@.len(),
                self.wf(),
                raw@.len() == i,
                forall|k: int|
                    0 <= k < i ==> (#[trigger] raw@[k]).wf() && raw@[k].basis@
                        == self.monomials@[k].basis@ && raw@[k].term() == reversed_terms(
                        self.terms(),
                    )[k],
            decreases n - i,
        {
            raw.push(self.monomials[i].reverse());
            i += 1;
        }
        let combined = Polynomial { monomials: raw };
        proof {
            assert(combined.terms() =~= reversed_terms(self.terms()));
        }
        combined.merge_monomials()
    }

    /// Grade involution applied to every monomial, merged.
    pub fn involute(&self) -> (r: Polynomial)
        requires
            self.wf(),
        ensures
            r.wf(),
            merged(r.terms()),
            sums_match(r.terms(), involuted_terms(self.terms())),
            terms_equiv_seq(r.terms(), merge_terms(involuted_terms(self.terms()))),
            forall|n: nat| self.dim_ok(n) ==> r.dim_ok(n),
    {
        let mut raw: Vec<Monomial> = Vec::new();
        let n = self.monomials.len();
        let mut i: usize = 0;
        while i < n
            invariant
                0 <= i <= n,
                n == self.monomials@.len(),
                self.wf(),
                raw@.len() == i,
                forall|k: int|
                    0 <= k < i ==> (#[trigger] raw@[k]).wf() && raw@[k].basis@
                        == self.monomials@[k].basis@ && raw@[k].term() == involuted_terms(
                        self.terms(),
                    )[k],
            decreases n - i,
        {
            raw.push(self.monomials[i].involute());
            i += 1;
        }
        let combined = Polynomial { monomials: raw };
        proof {
            assert(combined.terms() =~= involuted_terms(self.terms()));
        }
        combined.merge_monomials()
    }

    /// Clifford conjugation applied to every monomial, merged.
    pub fn conjugate(&self) -> (r: Polynomial)
        requires
            self.wf(),
        ensures
            r.wf(),
            merged(r.terms()),
            sums_match(r.terms(), conjugated_terms(self.terms())),
            terms_equiv_seq(r.terms(), merge_terms(conjugated_terms(self.terms()))),
            forall|n: nat| self.dim_ok(n) ==> r.dim_ok(n),
    {
        let mut raw: Vec<Monomial> = Vec::new();
        let n = self.monomials.len();
        let mut i: usize = 0;
        while i < n
            invariant
                0 <= i <= n,
                n == self.monomials@.len(),
                self.wf(),
                raw@.len() == i,
                forall|k: int|
                    0 <= k < i ==> (#[trigger] raw@[k]).wf() && raw@[k].basis@
                        == self.monomials@[k].basis@ && raw@[k].term() == conjugated_terms(
                        self.terms(),
                    )[k],
            decreases n - i,
        {
            raw.push(self.monomials[i].conjugate());
            i += 1;
        }
        let combined = Polynomial { monomials: raw };
        proof {
            assert(combined.terms() =~= conjugated_terms(self.terms()));
        }
        combined.merge_monomials()
    }

    /// Poincaré duality applied to every monomial, merged.
    pub fn dual(&self) -> (r: Polynomial)
        requires
            self.wf(),
        ensures
            r.wf(),
            merged(r.terms()),
            sums_match(r.terms(), dual_terms(self.terms())),
            terms_equiv_seq(r.terms(), merge_terms(dual_terms(self.terms()))),
            forall|n: nat| self.dim_ok(n) ==> r.dim_ok(n),
    {
        let mut raw: Vec<Monomial> = Vec::new();
        let n = self.monomials.len();
        let mut i: usize = 0;
        while i < n
            invariant
                0 <= i <= n,
                n == self.monomials@.len(),
                self.wf(),
                raw@.len() == i,
                forall|k: int|
                    0 <= k < i ==> (#[trigger] raw@[k]).wf() && raw@[k].basis@ == complement(
                        self.monomials@[k].basis@,
                    ) && raw@[k].term() == dual_terms(self.terms())[k],
            decreases n - i,
        {
            raw.push(self.monomials[i].dual());
            i += 1;
        }
        let combined = Polynomial { monomials: raw };
        proof {
            assert(combined.terms() =~= dual_terms(self.terms()));
            assert forall|nn: nat| self.dim_ok(nn) implies combined.dim_ok(nn) by {
                assert(forall|k: int|
                    0 <= k < n ==> (#[trigger] combined.monomials@[k]).basis@ == complement(
                        self.monomials@[k].basis@,
                    ));
            }
        }
        combined.merge_monomials()
    }

    /// The sum of the monomials' norms: the exact nonnegative weight of the
    /// polynomial under the metric.
    pub fn norm(&self, metric: &Metric) -> (r: Rational)
        requires
            self.wf(),
            self.dim_ok(metric.0@.len()),
        ensures
            r.wf(),
            rat_eqv(r@, norms_sum(self.terms(), metric.0@)),
    {
        let ghost m = metric.0@;
        let ghost xs = self.terms();
        let mut acc = Rational::zero();
        let n = self.monomials.len();
        let mut i: usize = 0;
        while i < n
            invariant
                0 <= i <= n,
                n == self.monomials@.len(),
                self.wf(),
                m == metric.0@,
                xs == self.terms(),
                self.dim_ok(m.len()),
                acc.wf(),
                rat_eqv(acc@, norms_sum(xs.take(i as int), m)),
            decreases n - i,
        {
            let nv = self.monomials[i].norm(metric);
            let next = acc.add(&nv);
            proof {
                let prefix = xs.take(i as int);
                let prefix2 = xs.take(i + 1);
                assert(prefix2.drop_last() =~= prefix);
                assert(prefix2.last() == xs[i as int]);
                assert(coeffs_wf(prefix)) by {
                    assert(forall|k: int|
                        0 <= k < prefix.len() ==> prefix[k] == (
                        #[trigger] self.monomials@.take(i as int)[k]).term());
                    assert(forall|k: int| 0 <= k < i ==> prefix[k] == xs[k]);
                }
                lemma_norms_sum_wf(prefix, m);
                lemma_ops_wf(acc@, nv@);
                lemma_ops_wf(norms_sum(prefix, m), nv@);
                lemma_add_congruence(acc@, norms_sum(prefix, m), nv@, nv@);
                lemma_ops_wf(norms_sum(prefix, m), nv@);
                assert(coeffs_wf(prefix2)) by {
                    assert(forall|k: int| 0 <= k < i + 1 ==> prefix2[k] == xs[k]);
                }
                lemma_norms_sum_wf(prefix2, m);
                lemma_eqv_transitive(
                    next@,
                    rat_add(acc@, nv@),
                    rat_add(norms_sum(prefix, m), nv@),
                );
            }
            acc = next;
            i += 1;
        }
        proof {
            assert(xs.take(n as int) =~= xs);
        }
        acc
    }
}

/// Division/multiplication round trip, term by term: dividing every term of
/// a polynomial by an invertible monomial and multiplying back leaves every
/// key's summed coefficient unchanged.  As at the monomial level, the blade
/// divided by must span an even number of negative-squaring axes.
pub proof fn lemma_poly_division_round_trip(x: Seq<Term>, b: Term, m: Seq<Square>)
    requires
        coeffs_wf(x),
        forall|i: int| 0 <= i < x.len() ==> (#[trigger] x[i]).b.len() == m.len(),
        forall|i: int| 0 <= i < x.len() ==> syms_values_nonzero((#[trigger] x[i]).s),
        rat_wf(b.c),
        b.b.len() == m.len(),
        syms_values_nonzero(b.s),
        !rat_is_zero(spec_norm_sq(b.c, b.b, m)),
        neg_count(b.b, m, m.len() as int) % 2 == 0,
    ensures
        sums_match(
            Seq::new(
                x.len(),
                |i: int|
                    term_geo(
                        term_geo(
                            x[i],
                            Term { c: spec_inverse_coeff(b.c, b.b, m), s: syms_neg(b.s), b: b.b },
                            m,
                        ),
                        b,
                        m,
                    ),
            ),
            x,
        ),
{
    let inv = Term { c: spec_inverse_coeff(b.c, b.b, m), s: syms_neg(b.s), b: b.b };
    let mapped = Seq::new(x.len(), |i: int| term_geo(term_geo(x[i], inv, m), b, m));
    assert forall|i: int|
        0 <= i < mapped.len() implies rat_eqv((#[trigger] mapped[i]).c, (#[trigger] x[i]).c)
        && mapped[i].b == x[i].b && mapped[i].s == x[i].s by {
        lemma_division_round_trip(x[i], b, m);
    }
    assert(coeffs_wf(mapped)) by {
        assert forall|i: int| 0 <= i < mapped.len() implies rat_wf(#[trigger] mapped[i].c) by {
            lemma_spec_norm_sq_wf(b.c, b.b, m);
            let mid = term_geo(x[i], inv, m);
            lemma_ops_wf(x[i].c, inv.c);
            lemma_ops_wf(rat_mul(x[i].c, inv.c), rat_mul(x[i].c, inv.c));
            assert(rat_wf(mid.c));
            lemma_ops_wf(mid.c, b.c);
            lemma_ops_wf(rat_mul(mid.c, b.c), rat_mul(mid.c, b.c));
        }
    }
    assert forall|bb: Seq<bool>, ss: Map<Seq<char>, int>|
        rat_eqv(#[trigger] key_sum(mapped, bb, ss), #[trigger] key_sum(x, bb, ss)) by {
        lemma_key_sum_equiv(mapped, x, bb, ss);
    }
}

/// Pairwise products respect pointwise equivalence.
pub proof fn lemma_pair_products_congruent(
    x1: Seq<Term>,
    x2: Seq<Term>,
    y1: Seq<Term>,
    y2: Seq<Term>,
    kind: Product,
    m: Seq<Square>,
)
    requires
        terms_equiv_seq(x1, x2),
        terms_equiv_seq(y1, y2),
    ensures
        terms_equiv_seq(
            pair_products(x1, y1, kind, m),
            pair_products(x2, y2, kind, m),
        ),
    decreases x1.len(),
{
    if x1.len() > 0 {
        assert(terms_equiv_seq(x1.drop_last(), x2.drop_last())) by {
            assert forall|i: int|
                0 <= i < x1.drop_last().len() implies rat_eqv(
                (#[trigger] x1.drop_last()[i]).c,
                (#[trigger] x2.drop_last()[i]).c,
            ) && x1.drop_last()[i].b == x2.drop_last()[i].b && x1.drop_last()[i].s
                == x2.drop_last()[i].s by {
                assert(x1.drop_last()[i] == x1[i] && x2.drop_last()[i] == x2[i]);
                assert(rat_eqv(x1[i].c, x2[i].c) && x1[i].b == x2[i].b && x1[i].s == x2[i].s);
            }
        }
        lemma_pair_products_congruent(x1.drop_last(), x2.drop_last(), y1, y2, kind, m);
        let t1 = x1.last();
        let t2 = x2.last();
        assert(rat_eqv(t1.c, t2.c) && t1.b == t2.b && t1.s == t2.s) by {
            assert(0 <= x1.len() - 1 < x1.len());
        }
        let a1 = pair_products(x1.drop_last(), y1, kind, m);
        let a2 = pair_products(x2.drop_last(), y2, kind, m);
        let r1 = row_products(t1, y1, kind, m);
        let r2 = row_products(t2, y2, kind, m);
        assert(terms_equiv_seq(r1, r2)) by {
            assert forall|j: int|
                0 <= j < r1.len() implies rat_eqv((#[trigger] r1[j]).c, (#[trigger] r2[j]).c)
                && r1[j].b == r2[j].b && r1[j].s == r2[j].s by {
                assert(rat_eqv(y1[j].c, y2[j].c) && y1[j].b == y2[j].b && y1[j].s == y2[j].s);
                if kind_defined(kind, t1.b, y1[j].b, m) {
                    crate::rat::lemma_mul_congruence(t1.c, t2.c, y1[j].c, y2[j].c);
                    if kind_sign(kind, t1.b, y1[j].b, m) == crate::sign::Sign::Neg {
                        crate::rat::lemma_neg_congruence(
                            rat_mul(t1.c, y1[j].c),
                            rat_mul(t2.c, y2[j].c),
                        );
                    }
                }
            }
        }
        assert forall|i: int|
            0 <= i < (a1 + r1).len() implies rat_eqv(
            (#[trigger] (a1 + r1)[i]).c,
            (#[trigger] (a2 + r2)[i]).c,
        ) && (a1 + r1)[i].b == (a2 + r2)[i].b && (a1 + r1)[i].s == (a2 + r2)[i].s by {
            if i < a1.len() {
                assert((a1 + r1)[i] == a1[i] && (a2 + r2)[i] == a2[i]);
                assert(rat_eqv(a1[i].c, a2[i].c) && a1[i].b == a2[i].b && a1[i].s == a2[i].s);
            } else {
                assert((a1 + r1)[i] == r1[i - a1.len()] && (a2 + r2)[i] == r2[i - a1.len()]);
                assert(rat_eqv(r1[i - a1.len()].c, r2[i - a1.len()].c));
            }
        }
    }
}

/// The per-term failure predicates depend only on what pointwise
/// equivalence preserves.
pub proof fn lemma_term_fails_congruent(t1: Term, t2: Term, e: int, m: Seq<Square>)
    requires
        rat_wf(t1.c),
        rat_wf(t2.c),
        rat_eqv(t1.c, t2.c),
        t1.b == t2.b,
        t1.s == t2.s,
    ensures
        crate::monomial::term_inverse_fails(t1, m) == crate::monomial::term_inverse_fails(t2, m),
        crate::monomial::term_power_fails(t1, e, m) == crate::monomial::term_power_fails(
            t2,
            e,
            m,
        ),
{
    crate::monomial::lemma_norm_sq_congruent(t1.c, t2.c, t1.b, m);
    crate::monomial::lemma_term_pow_shape(
        pow_base(t1, e, m),
        pow_base(t2, e, m),
        abs_nat(e),
        m,
    );
}

/// Powered terms respect pointwise equivalence, absent failures.
pub proof fn lemma_powered_terms_congruent(x1: Seq<Term>, x2: Seq<Term>, e: int, m: Seq<Square>)
    requires
        coeffs_wf(x1),
        coeffs_wf(x2),
        terms_equiv_seq(x1, x2),
        forall|i: int|
            0 <= i < x1.len() ==> !crate::monomial::term_power_fails(#[trigger] x1[i], e, m),
    ensures
        terms_equiv_seq(powered_terms(x1, e, m), powered_terms(x2, e, m)),
{
    assert forall|i: int|
        0 <= i < x1.len() implies rat_eqv(
        (#[trigger] powered_terms(x1, e, m)[i]).c,
        (#[trigger] powered_terms(x2, e, m)[i]).c,
    ) && powered_terms(x1, e, m)[i].b == powered_terms(x2, e, m)[i].b && powered_terms(
        x1,
        e,
        m,
    )[i].s == powered_terms(x2, e, m)[i].s by {
        assert(rat_eqv(x1[i].c, x2[i].c) && x1[i].b == x2[i].b && x1[i].s == x2[i].s);
        assert(rat_wf(x1[i].c) && rat_wf(x2[i].c));
        let b1 = pow_base(x1[i], e, m);
        let b2 = pow_base(x2[i], e, m);
        if e < 0 {
            assert(!crate::monomial::term_inverse_fails(x1[i], m));
            crate::monomial::lemma_norm_sq_congruent(x1[i].c, x2[i].c, x1[i].b, m);
            crate::monomial::lemma_inverse_coeff_congruent(x1[i].c, x2[i].c, x1[i].b, m);
            lemma_spec_norm_sq_wf(x1[i].c, x1[i].b, m);
            lemma_spec_norm_sq_wf(x2[i].c, x2[i].b, m);
        }
        crate::monomial::lemma_term_pow_congruent(b1, b2, abs_nat(e), m);
    }
}

/// Inverted terms respect pointwise equivalence, absent failures.
pub proof fn lemma_inverted_terms_congruent(x1: Seq<Term>, x2: Seq<Term>, m: Seq<Square>)
    requires
        coeffs_wf(x1),
        coeffs_wf(x2),
        terms_equiv_seq(x1, x2),
        forall|i: int|
            0 <= i < x1.len() ==> !crate::monomial::term_inverse_fails(#[trigger] x1[i], m),
    ensures
        terms_equiv_seq(inverted_terms(x1, m), inverted_terms(x2, m)),
{
    assert forall|i: int|
        0 <= i < x1.len() implies rat_eqv(
        (#[trigger] inverted_terms(x1, m)[i]).c,
        (#[trigger] inverted_terms(x2, m)[i]).c,
    ) && inverted_terms(x1, m)[i].b == inverted_terms(x2, m)[i].b && inverted_terms(x1, m)[i].s
        == inverted_terms(x2, m)[i].s by {
        assert(rat_eqv(x1[i].c, x2[i].c) && x1[i].b == x2[i].b && x1[i].s == x2[i].s);
        assert(rat_wf(x1[i].c) && rat_wf(x2[i].c));
        assert(!crate::monomial::term_inverse_fails(x1[i], m));
        crate::monomial::lemma_inverse_coeff_congruent(x1[i].c, x2[i].c, x1[i].b, m);
    }
}

/// The sign-mapped term sequences respect pointwise equivalence.
pub proof fn lemma_mapped_terms_congruent(x1: Seq<Term>, x2: Seq<Term>)
    requires
        terms_equiv_seq(x1, x2),
    ensures
        terms_equiv_seq(reversed_terms(x1), reversed_terms(x2)),
        terms_equiv_seq(involuted_terms(x1), involuted_terms(x2)),
        terms_equiv_seq(conjugated_terms(x1), conjugated_terms(x2)),
        terms_equiv_seq(dual_terms(x1), dual_terms(x2)),
        terms_equiv_seq(negated_terms(x1), negated_terms(x2)),
{
    assert forall|i: int|
        0 <= i < x1.len() implies rat_eqv(
        (#[trigger] reversed_terms(x1)[i]).c,
        (#[trigger] reversed_terms(x2)[i]).c,
    ) && reversed_terms(x1)[i].b == reversed_terms(x2)[i].b && reversed_terms(x1)[i].s
        == reversed_terms(x2)[i].s by {
        assert(rat_eqv(x1[i].c, x2[i].c) && x1[i].b == x2[i].b && x1[i].s == x2[i].s);
        crate::rat::lemma_neg_congruence(x1[i].c, x2[i].c);
    }
    assert forall|i: int|
        0 <= i < x1.len() implies rat_eqv(
        (#[trigger] involuted_terms(x1)[i]).c,
        (#[trigger] involuted_terms(x2)[i]).c,
    ) && involuted_terms(x1)[i].b == involuted_terms(x2)[i].b && involuted_terms(x1)[i].s
        == involuted_terms(x2)[i].s by {
        assert(rat_eqv(x1[i].c, x2[i].c) && x1[i].b == x2[i].b && x1[i].s == x2[i].s);
        crate::rat::lemma_neg_congruence(x1[i].c, x2[i].c);
    }
    assert forall|i: int|
        0 <= i < x1.len() implies rat_eqv(
        (#[trigger] conjugated_terms(x1)[i]).c,
        (#[trigger] conjugated_terms(x2)[i]).c,
    ) && conjugated_terms(x1)[i].b == conjugated_terms(x2)[i].b && conjugated_terms(x1)[i].s
        == conjugated_terms(x2)[i].s by {
        assert(rat_eqv(x1[i].c, x2[i].c) && x1[i].b == x2[i].b && x1[i].s == x2[i].s);
        crate::rat::lemma_neg_congruence(x1[i].c, x2[i].c);
    }
    assert forall|i: int|
        0 <= i < x1.len() implies rat_eqv(
        (#[trigger] dual_terms(x1)[i]).c,
        (#[trigger] dual_terms(x2)[i]).c,
    ) && dual_terms(x1)[i].b == dual_terms(x2)[i].b && dual_terms(x1)[i].s == dual_terms(
        x2,
    )[i].s by {
        assert(rat_eqv(x1[i].c, x2[i].c) && x1[i].b == x2[i].b && x1[i].s == x2[i].s);
    }
    assert forall|i: int|
        0 <= i < x1.len() implies rat_eqv(
        (#[trigger] negated_terms(x1)[i]).c,
        (#[trigger] negated_terms(x2)[i]).c,
    ) && negated_terms(x1)[i].b == negated_terms(x2)[i].b && negated_terms(x1)[i].s
        == negated_terms(x2)[i].s by {
        assert(rat_eqv(x1[i].c, x2[i].c) && x1[i].b == x2[i].b && x1[i].s == x2[i].s);
        crate::rat::lemma_neg_congruence(x1[i].c, x2[i].c);
    }
}

/// Norm sums respect pointwise equivalence.
pub proof fn lemma_norms_sum_congruent(x1: Seq<Term>, x2: Seq<Term>, m: Seq<Square>)
    requires
        coeffs_wf(x1),
        coeffs_wf(x2),
        terms_equiv_seq(x1, x2),
    ensures
        rat_eqv(norms_sum(x1, m), norms_sum(x2, m)),
    decreases x1.len(),
{
    if x1.len() > 0 {
        assert(coeffs_wf(x1.drop_last()));
        assert(coeffs_wf(x2.drop_last()));
        assert(terms_equiv_seq(x1.drop_last(), x2.drop_last())) by {
            assert forall|i: int|
                0 <= i < x1.drop_last().len() implies rat_eqv(
                (#[trigger] x1.drop_last()[i]).c,
                (#[trigger] x2.drop_last()[i]).c,
            ) && x1.drop_last()[i].b == x2.drop_last()[i].b && x1.drop_last()[i].s
                == x2.drop_last()[i].s by {
                assert(x1.drop_last()[i] == x1[i] && x2.drop_last()[i] == x2[i]);
                assert(rat_eqv(x1[i].c, x2[i].c) && x1[i].b == x2[i].b && x1[i].s == x2[i].s);
            }
        }
        lemma_norms_sum_congruent(x1.drop_last(), x2.drop_last(), m);
        lemma_norms_sum_wf(x1.drop_last(), m);
        lemma_norms_sum_wf(x2.drop_last(), m);
        assert(rat_eqv(x1[x1.len() - 1].c, x2[x1.len() - 1].c) && x1[x1.len() - 1].b == x2[x1.len()
            - 1].b) by {
            assert(0 <= x1.len() - 1 < x1.len());
        }
        assert(rat_wf(x1.last().c) && rat_wf(x2.last().c));
        if touches_null(x1.last().b, m) {
            lemma_add_congruence(
                norms_sum(x1.drop_last(), m),
                norms_sum(x2.drop_last(), m),
                rat_int(0),
                rat_int(0),
            );
        } else {
            crate::rat::lemma_abs_congruence(x1.last().c, x2.last().c);
            lemma_ops_wf(x1.last().c, x1.last().c);
            lemma_ops_wf(x2.last().c, x2.last().c);
            lemma_add_congruence(
                norms_sum(x1.drop_last(), m),
                norms_sum(x2.drop_last(), m),
                rat_abs(x1.last().c),
                rat_abs(x2.last().c),
            );
        }
    }
}

/// Negated terms keep well-formed coefficients.
pub proof fn lemma_negated_terms_wf(x: Seq<Term>)
    requires
        coeffs_wf(x),
    ensures
        coeffs_wf(negated_terms(x)),
{
    assert forall|i: int|
        0 <= i < negated_terms(x).len() implies rat_wf(#[trigger] negated_terms(x)[i].c) by {
        assert(rat_wf(x[i].c));
        lemma_ops_wf(x[i].c, x[i].c);
    }
}

/// The sign-mapped term sequences keep well-formed coefficients.
pub proof fn lemma_mapped_terms_wf(x: Seq<Term>)
    requires
        coeffs_wf(x),
    ensures
        coeffs_wf(reversed_terms(x)),
        coeffs_wf(involuted_terms(x)),
        coeffs_wf(conjugated_terms(x)),
        coeffs_wf(dual_terms(x)),
{
    assert forall|i: int|
        0 <= i < x.len() implies rat_wf(#[trigger] reversed_terms(x)[i].c) && rat_wf(
        #[trigger] involuted_terms(x)[i].c,
    ) && rat_wf(#[trigger] conjugated_terms(x)[i].c) && rat_wf(
        #[trigger] dual_terms(x)[i].c,
    ) by {
        assert(rat_wf(x[i].c));
        lemma_ops_wf(x[i].c, x[i].c);
    }
}

/// Powered terms keep well-formed coefficients, absent failures.
pub proof fn lemma_powered_terms_wf(x: Seq<Term>, e: int, m: Seq<Square>)
    requires
        coeffs_wf(x),
        forall|i: int|
            0 <= i < x.len() ==> !crate::monomial::term_power_fails(#[trigger] x[i], e, m),
    ensures
        coeffs_wf(powered_terms(x, e, m)),
{
    assert forall|i: int|
        0 <= i < x.len() implies rat_wf(#[trigger] powered_terms(x, e, m)[i].c) by {
        assert(rat_wf(x[i].c));
        if e < 0 {
            assert(!crate::monomial::term_inverse_fails(x[i], m));
            lemma_spec_norm_sq_wf(x[i].c, x[i].b, m);
        }
        crate::monomial::lemma_term_pow_wf(pow_base(x[i], e, m), abs_nat(e), m);
    }
}

/// Inverted terms keep well-formed coefficients, absent failures.
pub proof fn lemma_inverted_terms_wf(x: Seq<Term>, m: Seq<Square>)
    requires
        coeffs_wf(x),
        forall|i: int|
            0 <= i < x.len() ==> !crate::monomial::term_inverse_fails(#[trigger] x[i], m),
    ensures
        coeffs_wf(inverted_terms(x, m)),
{
    assert forall|i: int|
        0 <= i < x.len() implies rat_wf(#[trigger] inverted_terms(x, m)[i].c) by {
        assert(rat_wf(x[i].c));
        assert(!crate::monomial::term_inverse_fails(x[i], m));
        lemma_spec_norm_sq_wf(x[i].c, x[i].b, m);
    }
}

} // verus!
