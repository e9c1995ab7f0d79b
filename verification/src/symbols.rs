//! Symbol-exponent mappings.
//!
//! A monomial's symbolic part maps symbol names to integer exponents.  It is
//! held as a vector of pairs with unique names and nonzero exponents; its
//! mathematical view is a finite `Map` from character sequences to integers.

use vstd::prelude::*;

verus! {

/// Whether some entry of `s` has the name `k`.
pub open spec fn sym_has(s: Seq<(String, i64)>, k: Seq<char>) -> bool {
    exists|i: int| 0 <= i < s.len() && s[i].0@ == k
}

/// An index of the entry named `k` (meaningful when `sym_has(s, k)`).
pub open spec fn sym_idx(s: Seq<(String, i64)>, k: Seq<char>) -> int {
    choose|i: int| 0 <= i < s.len() && s[i].0@ == k
}

/// The mapping a pair vector denotes.
pub open spec fn syms_map(s: Seq<(String, i64)>) -> Map<Seq<char>, int> {
    Map::new(|k: Seq<char>| sym_has(s, k), |k: Seq<char>| s[sym_idx(s, k)].1 as int)
}

/// Well-formed symbol lists: names unique, exponents nonzero.
pub open spec fn syms_wf(s: Seq<(String, i64)>) -> bool {
    (forall|i: int, j: int| 0 <= i < j < s.len() ==> s[i].0@ != s[j].0@) && (forall|i: int|
        0 <= i < s.len() ==> s[i].1 != 0)
}

/// The exponent of `k` in the combined mapping, with absent names at zero.
pub open spec fn sym_sum_at(x: Map<Seq<char>, int>, y: Map<Seq<char>, int>, k: Seq<char>) -> int {
    (if x.dom().contains(k) {
        x[k]
    } else {
        0
    }) + (if y.dom().contains(k) {
        y[k]
    } else {
        0
    })
}

/// Union of two exponent mappings, summing exponents and dropping the names
/// whose exponents cancel.
pub open spec fn syms_union(x: Map<Seq<char>, int>, y: Map<Seq<char>, int>) -> Map<
    Seq<char>,
    int,
> {
    Map::new(
        |k: Seq<char>| (x.dom().contains(k) || y.dom().contains(k)) && sym_sum_at(x, y, k) != 0,
        |k: Seq<char>| sym_sum_at(x, y, k),
    )
}

/// Some shared name's exponent sum leaves the machine integer range.
pub open spec fn syms_overflow(x: Map<Seq<char>, int>, y: Map<Seq<char>, int>) -> bool {
    exists|k: Seq<char>| x.dom().contains(k) && y.dom().contains(k) && !(i64::MIN <= x[k] + y[k]
        <= i64::MAX)
}

/// Every exponent negated.
pub open spec fn syms_neg(x: Map<Seq<char>, int>) -> Map<Seq<char>, int> {
    Map::new(|k: Seq<char>| x.dom().contains(k), |k: Seq<char>| -x[k])
}

/// An entry's name is in the mapping, at that entry's exponent.
pub proof fn lemma_syms_map_at(s: Seq<(String, i64)>, i: int)
    requires
        syms_wf(s),
        0 <= i < s.len(),
    ensures
        sym_has(s, s[i].0@),
        syms_map(s).dom().contains(s[i].0@),
        syms_map(s)[s[i].0@] == s[i].1 as int,
{
    assert(sym_has(s, s[i].0@)) by {
        assert(0 <= i < s.len() && s[i].0@ == s[i].0@);
    }
    let j = sym_idx(s, s[i].0@);
    assert(0 <= j < s.len() && s[j].0@ == s[i].0@);
    assert(j == i);
}

/// A value appears among the entries exactly when it appears in the mapping.
pub proof fn lemma_syms_value_present(s: Seq<(String, i64)>, v: i64)
    requires
        syms_wf(s),
    ensures
        (exists|i: int| 0 <= i < s.len() && s[i].1 == v) <==> (exists|k: Seq<char>|
            syms_map(s).dom().contains(k) && syms_map(s)[k] == v as int),
{
    if exists|i: int| 0 <= i < s.len() && s[i].1 == v {
        let i = choose|i: int| 0 <= i < s.len() && s[i].1 == v;
        lemma_syms_map_at(s, i);
        assert(syms_map(s).dom().contains(s[i].0@) && syms_map(s)[s[i].0@] == v as int);
    }
    if exists|k: Seq<char>| syms_map(s).dom().contains(k) && syms_map(s)[k] == v as int {
        let k = choose|k: Seq<char>|
            syms_map(s).dom().contains(k) && syms_map(s)[k] == v as int;
        let j = sym_idx(s, k);
        assert(0 <= j < s.len() && s[j].0@ == k);
        lemma_syms_map_at(s, j);
        assert(s[j].1 == v);
    }
}

/// Find the entry with the given name.
pub fn sym_find(v: &Vec<(String, i64)>, name: &String) -> (r: Option<usize>)
    ensures
        match r {
            Some(i) => 0 <= i < v@.len() && v@[i as int].0@ == name@,
            None => !sym_has(v@, name@),
        },
{
    let n = v.len();
    let mut i: usize = 0;
    while i < n
        invariant
            0 <= i <= n,
            n == v@.len(),
            forall|k: int| 0 <= k < i ==> v@[k].0@ != name@,
        decreases n - i,
    {
        if v[i].0 == *name {
            return Some(i);
        }
        i += 1;
    }
    None
}

/// Copy a symbol list.
pub fn copy_syms(v: &Vec<(String, i64)>) -> (r: Vec<(String, i64)>)
    ensures
        r@.len() == v@.len(),
        forall|i: int| 0 <= i < v@.len() ==> r@[i].0@ == v@[i].0@ && r@[i].1 == v@[i].1,
{
    let mut r: Vec<(String, i64)> = Vec::new();
    let n = v.len();
    let mut i: usize = 0;
    while i < n
        invariant
            0 <= i <= n,
            n == v@.len(),
            r@.len() == i,
            forall|k: int| 0 <= k < i ==> r@[k].0@ == v@[k].0@ && r@[k].1 == v@[k].1,
        decreases n - i,
    {
        let name = v[i].0.clone();
        let e = v[i].1;
        r.push((name, e));
        i += 1;
    }
    r
}

/// Two lists with the same entries denote the same mapping.
pub proof fn lemma_syms_map_congruent(s1: Seq<(String, i64)>, s2: Seq<(String, i64)>)
    requires
        s1.len() == s2.len(),
        forall|i: int| 0 <= i < s1.len() ==> s1[i].0@ == s2[i].0@ && s1[i].1 == s2[i].1,
        syms_wf(s1),
    ensures
        syms_wf(s2),
        syms_map(s1) == syms_map(s2),
{
    assert forall|k: Seq<char>| sym_has(s1, k) <==> sym_has(s2, k) by {
        if sym_has(s1, k) {
            let i = sym_idx(s1, k);
            assert(0 <= i < s2.len() && s2[i].0@ == k);
        }
        if sym_has(s2, k) {
            let i = choose|i: int| 0 <= i < s2.len() && s2[i].0@ == k;
            assert(0 <= i < s1.len() && s1[i].0@ == k);
        }
    }
    assert forall|k: Seq<char>| sym_has(s1, k) implies syms_map(s1)[k] == syms_map(s2)[k] by {
        let i = sym_idx(s1, k);
        let j = sym_idx(s2, k);
        assert(0 <= i < s1.len() && s1[i].0@ == k);
        assert(0 <= j < s2.len() && s2[j].0@ == k);
        assert(s1[j].0@ == k);
        assert(i == j);
    }
    assert(syms_map(s1) =~= syms_map(s2));
}

/// Merge two symbol lists, summing the exponents of shared names; `None`
/// exactly when a summed exponent leaves the machine integer range.
pub fn merge_syms(a: &Vec<(String, i64)>, b: &Vec<(String, i64)>) -> (r: Option<
    Vec<(String, i64)>,
>)
    requires
        syms_wf(a@),
        syms_wf(b@),
    ensures
        match r {
            Some(v) => syms_wf(v@) && syms_map(v@) == syms_union(syms_map(a@), syms_map(b@))
                && !syms_overflow(syms_map(a@), syms_map(b@)),
            None => syms_overflow(syms_map(a@), syms_map(b@)),
        },
{
    let ghost am = syms_map(a@);
    let ghost bm = syms_map(b@);
    let mut out: Vec<(String, i64)> = Vec::new();
    let na = a.len();
    let mut i: usize = 0;
    while i < na
        invariant
            0 <= i <= na,
            na == a@.len(),
            syms_wf(a@),
            syms_wf(b@),
            am == syms_map(a@),
            bm == syms_map(b@),
            syms_wf(out@),
            forall|k: int|
                0 <= k < out@.len() ==> sym_has(a@, out@[k].0@) && sym_idx(a@, out@[k].0@) < i
                    && out@[k].1 as int == sym_sum_at(am, bm, out@[k].0@),
            forall|j: int|
                0 <= j < i && sym_sum_at(am, bm, a@[j].0@) != 0 ==> sym_has(out@, a@[j].0@),
            forall|j: int|
                0 <= j < i && bm.dom().contains(a@[j].0@) ==> i64::MIN <= am[a@[j].0@]
                    + bm[a@[j].0@] <= i64::MAX,
        decreases na - i,
    {
        proof {
            lemma_syms_map_at(a@, i as int);
        }
        let name = &a[i].0;
        let e = a[i].1;
        let entry = match sym_find(b, name) {
            None => {
                proof {
                    assert(!bm.dom().contains(name@));
                    assert(sym_sum_at(am, bm, name@) == e as int);
                }
                Some(e)
            },
            Some(j) => {
                proof {
                    lemma_syms_map_at(b@, j as int);
                }
                match e.checked_add(b[j].1) {
                    None => {
                        proof {
                            assert(am.dom().contains(name@) && bm.dom().contains(name@) && !(
                            i64::MIN <= am[name@] + bm[name@] <= i64::MAX));
                        }
                        return None;
                    },
                    Some(sum) => {
                        proof {
                            assert(sym_sum_at(am, bm, name@) == sum as int);
                        }
                        if sum == 0 {
                            None
                        } else {
                            Some(sum)
                        }
                    },
                }
            },
        };
        if let Some(sum) = entry {
            let ghost old_out = out@;
            out.push((name.clone(), sum));
            proof {
                assert(forall|k: int|
                    0 <= k < old_out.len() ==> out@[k].0@ == old_out[k].0@ && out@[k].1
                        == old_out[k].1);
                assert forall|k: int, l: int| 0 <= k < l < out@.len() implies out@[k].0@
                    != out@[l].0@ by {
                    if l == out@.len() - 1 {
                        assert(sym_idx(a@, out@[k].0@) < i);
                        assert(a@[sym_idx(a@, out@[k].0@)].0@ == out@[k].0@);
                    }
                }
                assert forall|k: int| 0 <= k < out@.len() implies sym_has(a@, out@[k].0@)
                    && sym_idx(a@, out@[k].0@) < i + 1 && out@[k].1 as int == sym_sum_at(
                    am,
                    bm,
                    out@[k].0@,
                ) by {
                    if k < out@.len() - 1 {
                        assert(out@[k].0@ == old_out[k].0@ && out@[k].1 == old_out[k].1);
                    } else {
                        assert(out@[k].0@ == a@[i as int].0@);
                        assert(sym_idx(a@, a@[i as int].0@) == i as int);
                    }
                }
                assert forall|j: int|
                    0 <= j < i + 1 && sym_sum_at(am, bm, a@[j].0@) != 0 implies sym_has(
                    out@,
                    a@[j].0@,
                ) by {
                    if j < i {
                        assert(sym_has(old_out, a@[j].0@));
                        let w = sym_idx(old_out, a@[j].0@);
                        assert(out@[w].0@ == a@[j].0@);
                    } else {
                        assert(out@[out@.len() - 1].0@ == a@[j].0@);
                    }
                }
            }
        } else {
            proof {
                assert forall|j: int|
                    0 <= j < i + 1 && sym_sum_at(am, bm, a@[j].0@) != 0 implies sym_has(
                    out@,
                    a@[j].0@,
                ) by {}
            }
        }
        i += 1;
    }
    let nb = b.len();
    let mut t: usize = 0;
    while t < nb
        invariant
            0 <= t <= nb,
            nb == b@.len(),
            na == a@.len(),
            syms_wf(a@),
            syms_wf(b@),
            am == syms_map(a@),
            bm == syms_map(b@),
            syms_wf(out@),
            forall|k: int|
                0 <= k < out@.len() ==> (sym_has(a@, out@[k].0@) || (sym_has(b@, out@[k].0@)
                    && sym_idx(b@, out@[k].0@) < t)) && out@[k].1 as int == sym_sum_at(
                    am,
                    bm,
                    out@[k].0@,
                ),
            forall|j: int|
                0 <= j < na && sym_sum_at(am, bm, a@[j].0@) != 0 ==> sym_has(out@, a@[j].0@),
            forall|j: int| 0 <= j < t && !sym_has(a@, b@[j].0@) ==> sym_has(out@, b@[j].0@),
            forall|j: int|
                0 <= j < na && bm.dom().contains(a@[j].0@) ==> i64::MIN <= am[a@[j].0@]
                    + bm[a@[j].0@] <= i64::MAX,
        decreases nb - t,
    {
        proof {
            lemma_syms_map_at(b@, t as int);
        }
        let name = &b[t].0;
        let e = b[t].1;
        if sym_find(a, name).is_none() {
            let ghost old_out = out@;
            proof {
                assert(!am.dom().contains(name@));
                assert(sym_sum_at(am, bm, name@) == e as int);
                assert(!sym_has(old_out, name@));
            }
            out.push((name.clone(), e));
            proof {
                assert(forall|k: int|
                    0 <= k < old_out.len() ==> out@[k].0@ == old_out[k].0@ && out@[k].1
                        == old_out[k].1);
                assert forall|k: int, l: int| 0 <= k < l < out@.len() implies out@[k].0@
                    != out@[l].0@ by {
                    if l == out@.len() - 1 {
                        assert(out@[k].0@ == old_out[k].0@);
                    }
                }
                assert forall|j: int|
                    0 <= j < na && sym_sum_at(am, bm, a@[j].0@) != 0 implies sym_has(
                    out@,
                    a@[j].0@,
                ) by {
                    assert(sym_has(old_out, a@[j].0@));
                    let w = sym_idx(old_out, a@[j].0@);
                    assert(out@[w].0@ == a@[j].0@);
                }
                assert forall|j: int| 0 <= j < t + 1 && !sym_has(a@, b@[j].0@) implies sym_has(
                    out@,
                    b@[j].0@,
                ) by {
                    if j < t {
                        assert(sym_has(old_out, b@[j].0@));
                        let w = sym_idx(old_out, b@[j].0@);
                        assert(out@[w].0@ == b@[j].0@);
                    } else {
                        assert(out@[out@.len() - 1].0@ == b@[j].0@);
                    }
                }
            }
        }
        t += 1;
    }
    proof {
        assert forall|k: Seq<char>| #[trigger] syms_map(out@).dom().contains(k)
            <==> syms_union(am, bm).dom().contains(k) by {
            if sym_has(out@, k) {
                let w = sym_idx(out@, k);
                assert(0 <= w < out@.len() && out@[w].0@ == k);
                lemma_syms_map_at(out@, w);
            }
            if syms_union(am, bm).dom().contains(k) {
                if am.dom().contains(k) {
                    let j = sym_idx(a@, k);
                    assert(0 <= j < a@.len() && a@[j].0@ == k);
                } else {
                    assert(bm.dom().contains(k));
                    let j = sym_idx(b@, k);
                    assert(0 <= j < b@.len() && b@[j].0@ == k);
                }
            }
        }
        assert forall|k: Seq<char>| syms_map(out@).dom().contains(k) implies syms_map(out@)[k]
            == syms_union(am, bm)[k] by {
            let w = sym_idx(out@, k);
            lemma_syms_map_at(out@, w);
        }
        assert(syms_map(out@) =~= syms_union(am, bm));
        assert forall|k: Seq<char>| am.dom().contains(k) && bm.dom().contains(k) implies i64::MIN
            <= am[k] + bm[k] <= i64::MAX by {
            let j = sym_idx(a@, k);
            assert(0 <= j < a@.len() && a@[j].0@ == k);
        }
    }
    Some(out)
}

/// Negate every exponent; `None` exactly when an exponent is the one machine
/// integer whose negation does not fit.
pub fn negate_syms(v: &Vec<(String, i64)>) -> (r: Option<Vec<(String, i64)>>)
    requires
        syms_wf(v@),
    ensures
        match r {
            Some(w) => syms_wf(w@) && syms_map(w@) == syms_neg(syms_map(v@)) && forall|i: int|
                0 <= i < v@.len() ==> v@[i].1 != i64::MIN,
            None => exists|i: int| 0 <= i < v@.len() && v@[i].1 == i64::MIN,
        },
{
    let mut out: Vec<(String, i64)> = Vec::new();
    let n = v.len();
    let mut i: usize = 0;
    while i < n
        invariant
            0 <= i <= n,
            n == v@.len(),
            syms_wf(v@),
            out@.len() == i,
            forall|k: int| 0 <= k < i ==> v@[k].1 != i64::MIN,
            forall|k: int| 0 <= k < i ==> out@[k].0@ == v@[k].0@ && out@[k].1 as int == -(
            v@[k].1 as int),
        decreases n - i,
    {
        let e = v[i].1;
        if e == i64::MIN {
            return None;
        }
        out.push((v[i].0.clone(), -e));
        i += 1;
    }
    proof {
        assert forall|k: int, l: int| 0 <= k < l < out@.len() implies out@[k].0@ != out@[l].0@ by {
            assert(v@[k].0@ != v@[l].0@);
        }
        assert forall|k: Seq<char>| sym_has(out@, k) <==> sym_has(v@, k) by {
            if sym_has(out@, k) {
                let w = choose|w: int| 0 <= w < out@.len() && out@[w].0@ == k;
                assert(v@[w].0@ == k);
            }
            if sym_has(v@, k) {
                let w = sym_idx(v@, k);
                assert(out@[w].0@ == k);
            }
        }
        assert forall|k: Seq<char>| sym_has(out@, k) implies syms_map(out@)[k] == -syms_map(v@)[k]
        by {
            let w = sym_idx(out@, k);
            assert(0 <= w < out@.len() && out@[w].0@ == k);
            lemma_syms_map_at(out@, w);
            assert(v@[w].0@ == k);
            lemma_syms_map_at(v@, w);
        }
        assert(syms_map(out@) =~= syms_neg(syms_map(v@)));
    }
    Some(out)
}

/// Decide whether two well-formed symbol lists denote the same mapping.
pub fn syms_equal(a: &Vec<(String, i64)>, b: &Vec<(String, i64)>) -> (r: bool)
    requires
        syms_wf(a@),
        syms_wf(b@),
    ensures
        r == (syms_map(a@) == syms_map(b@)),
{
    let na = a.len();
    let mut i: usize = 0;
    while i < na
        invariant
            0 <= i <= na,
            na == a@.len(),
            syms_wf(a@),
            syms_wf(b@),
            forall|k: int|
                0 <= k < i ==> sym_has(b@, a@[k].0@) && syms_map(b@)[a@[k].0@] == a@[k].1 as int,
        decreases na - i,
    {
        proof {
            lemma_syms_map_at(a@, i as int);
        }
        match sym_find(b, &a[i].0) {
            None => {
                proof {
                    assert(syms_map(a@).dom().contains(a@[i as int].0@));
                    assert(!syms_map(b@).dom().contains(a@[i as int].0@));
                }
                return false;
            },
            Some(j) => {
                proof {
                    lemma_syms_map_at(b@, j as int);
                }
                if b[j].1 != a[i].1 {
                    proof {
                        assert(syms_map(a@)[a@[i as int].0@] != syms_map(b@)[a@[i as int].0@]);
                    }
                    return false;
                }
            },
        }
        i += 1;
    }
    let nb = b.len();
    let mut t: usize = 0;
    while t < nb
        invariant
            0 <= t <= nb,
            nb == b@.len(),
            na == a@.len(),
            syms_wf(a@),
            syms_wf(b@),
            forall|k: int|
                0 <= k < na ==> sym_has(b@, a@[k].0@) && syms_map(b@)[a@[k].0@] == a@[k].1 as int,
            forall|k: int| 0 <= k < t ==> sym_has(a@, b@[k].0@),
        decreases nb - t,
    {
        if sym_find(a, &b[t].0).is_none() {
            proof {
                lemma_syms_map_at(b@, t as int);
            }
            return false;
        }
        t += 1;
    }
    proof {
        assert forall|k: Seq<char>| sym_has(a@, k) <==> sym_has(b@, k) by {
            if sym_has(a@, k) {
                let w = sym_idx(a@, k);
                assert(sym_has(b@, a@[w].0@));
            }
            if sym_has(b@, k) {
                let w = sym_idx(b@, k);
                assert(sym_has(a@, b@[w].0@));
            }
        }
        assert forall|k: Seq<char>| sym_has(a@, k) implies syms_map(a@)[k] == syms_map(b@)[k] by {
            let w = sym_idx(a@, k);
            lemma_syms_map_at(a@, w);
            assert(sym_has(b@, a@[w].0@) && syms_map(b@)[a@[w].0@] == a@[w].1 as int);
        }
        assert(syms_map(a@) =~= syms_map(b@));
    }
    true
}

} // verus!
