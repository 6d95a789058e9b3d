//! Renaming a variable keeps every other variable: when the renamed
//! variable and the new name do not meet in one polynomial, the renamed
//! monomials stay distinct, so no term cancels.
use crate::monomial::{
    exponent_of, law_monomial_exponents_determine, lemma_exponent_at, lemma_mono_lt_irreflexive,
    lemma_set_exponent, powers_wf, set_exponent,
};
use crate::polynomial::{
    coefficient_of, has_variable, insert_term, lemma_insert_canonical, lemma_insert_coefficient,
    rat_reduced, rename_powers, rename_terms, terms_canonical, TermView,
};
use crate::formula::{
    all_wf, captured, captured_any, formula_wf, free_in, free_in_any, lemma_all_wf_member,
    lemma_member_decreases, lemma_views_of, rename_all, rename_bound_view, views_of, Formula,
    FormulaView,
};
use crate::rational::{normalize, rat_add, rat_zero};
use crate::variables::{lemma_exponent_listed, lemma_insert_keeps};
use vstd::prelude::*;

verus! {

/// The polynomial does not hold both `old` and `new`.
pub open spec fn lacks_one(p: Seq<TermView>, old: usize, new: usize) -> bool {
    !has_variable(p, new) || !has_variable(p, old)
}

/// A listed variable has a positive exponent, and an exponent fits `usize`.
proof fn lemma_listed_exponent(m: Seq<(usize, usize)>, k: int)
    requires
        powers_wf(m),
        0 <= k < m.len(),
    ensures
        exponent_of(m, m[k].0) == m[k].1,
        m[k].1 >= 1,
{
    lemma_exponent_at(m, k);
}

/// The exponents of a renamed monomial that lacks `old` or `new`.
pub proof fn lemma_rename_exponents(m: Seq<(usize, usize)>, old: usize, new: usize)
    requires
        powers_wf(m),
        old != new,
        exponent_of(m, old) == 0 || exponent_of(m, new) == 0,
    ensures
        powers_wf(rename_powers(m, old, new)),
        exponent_of(m, old) == 0 ==> rename_powers(m, old, new) == m,
        exponent_of(m, new) == 0 ==> forall|w: usize|
            #[trigger] exponent_of(rename_powers(m, old, new), w) == if w == old {
                0
            } else if w == new {
                exponent_of(m, old)
            } else {
                exponent_of(m, w)
            },
{
    let e = exponent_of(m, old);
    if e != 0 {
        let k = lemma_exponent_listed(m, old);
        lemma_listed_exponent(m, k);
        let q = set_exponent(m, old, 0);
        lemma_set_exponent(m, old, 0);
        assert(exponent_of(q, new) == exponent_of(m, new));
        lemma_set_exponent(q, new, (exponent_of(q, new) + e) as usize);
    }
}

/// Whether a monomial lacks `old` or lacks `new`, as every monomial of a
/// polynomial does that [`lacks_one`].
proof fn lemma_member_lacks(p: Seq<TermView>, old: usize, new: usize, i: int)
    requires
        terms_canonical(p),
        lacks_one(p, old, new),
        0 <= i < p.len(),
    ensures
        !has_variable(p, new) ==> exponent_of(p[i].0, new) == 0,
        !has_variable(p, old) ==> exponent_of(p[i].0, old) == 0,
{
    assert(powers_wf(p[i].0));
    if exponent_of(p[i].0, new) > 0 {
        let k = lemma_exponent_listed(p[i].0, new);
        assert(p[i].0[k].0 == new);
    }
    if exponent_of(p[i].0, old) > 0 {
        let k = lemma_exponent_listed(p[i].0, old);
        assert(p[i].0[k].0 == old);
    }
}

/// Renaming keeps distinct the monomials of a polynomial that lacks one of
/// the two names.
proof fn lemma_rename_injective(p: Seq<TermView>, old: usize, new: usize, i: int, j: int)
    requires
        terms_canonical(p),
        lacks_one(p, old, new),
        old != new,
        0 <= i < p.len(),
        0 <= j < p.len(),
        rename_powers(p[i].0, old, new) == rename_powers(p[j].0, old, new),
    ensures
        p[i].0 == p[j].0,
{
    let (a, b) = (p[i].0, p[j].0);
    lemma_member_lacks(p, old, new, i);
    lemma_member_lacks(p, old, new, j);
    lemma_rename_exponents(a, old, new);
    lemma_rename_exponents(b, old, new);
    if has_variable(p, new) {
        assert(rename_powers(a, old, new) == a);
        assert(rename_powers(b, old, new) == b);
    } else {
        let ra = rename_powers(a, old, new);
        assert forall|w: usize| #[trigger] exponent_of(a, w) == exponent_of(b, w) by {
            if w == old {
                assert(exponent_of(ra, new) == exponent_of(a, old));
            } else if w != new {
                assert(exponent_of(ra, w) == exponent_of(a, w));
            }
        }
        law_monomial_exponents_determine(a, b);
    }
}

/// After renaming the first `k` terms: the result is canonical, each
/// renamed monomial carries the coefficient of its source, and every
/// monomial is the renaming of one of them.
proof fn lemma_rename_prefix(p: Seq<TermView>, old: usize, new: usize, k: int)
    requires
        terms_canonical(p),
        lacks_one(p, old, new),
        old != new,
        0 <= k <= p.len(),
    ensures
        terms_canonical(rename_terms(p.take(k), old, new)),
        forall|j: int|
            0 <= j < k ==> coefficient_of(
                rename_terms(p.take(k), old, new),
                #[trigger] rename_powers(p[j].0, old, new),
            ) == p[j].1,
        forall|i: int|
            0 <= i < rename_terms(p.take(k), old, new).len() ==> exists|j: int|
                0 <= j < k && (#[trigger] rename_terms(p.take(k), old, new)[i]).0 == rename_powers(
                    p[j].0,
                    old,
                    new,
                ),
    decreases k,
{
    if k == 0 {
        assert(p.take(0) =~= Seq::<TermView>::empty());
    } else {
        lemma_rename_prefix(p, old, new, k - 1);
        let t = p.take(k);
        assert(t.drop_last() =~= p.take(k - 1));
        assert(t.last() == p[k - 1]);
        let r0 = rename_terms(p.take(k - 1), old, new);
        let m = rename_powers(p[k - 1].0, old, new);
        let c = p[k - 1].1;
        let r = rename_terms(t, old, new);
        assert(r == insert_term(r0, m, c));
        lemma_member_lacks(p, old, new, k - 1);
        lemma_rename_exponents(p[k - 1].0, old, new);
        assert(rat_reduced(c) && c.0 != 0);
        lemma_insert_canonical(r0, m, c);
        // every monomial of the result is a renamed source
        let prop = |x: Seq<(usize, usize)>| exists|j: int| 0 <= j < k && x == rename_powers(p[j].0, old, new);
        assert forall|i: int| 0 <= i < r0.len() implies prop((#[trigger] r0[i]).0) by {
            let j = choose|j: int| 0 <= j < k - 1 && r0[i].0 == rename_powers(p[j].0, old, new);
        }
        lemma_insert_keeps(r0, m, c, prop);
        assert forall|i: int| 0 <= i < r.len() implies exists|j: int|
            0 <= j < k && (#[trigger] r[i]).0 == rename_powers(p[j].0, old, new) by {
            assert(prop(r[i].0));
        }
        // coefficients
        assert forall|i: int| 0 <= i < r0.len() implies (#[trigger] r0[i]).1.1 > 0 by {
            assert(rat_reduced(r0[i].1));
        }
        assert forall|j: int| 0 <= j < k implies coefficient_of(r, #[trigger] rename_powers(p[j].0, old, new))
            == p[j].1 by {
            let mj = rename_powers(p[j].0, old, new);
            lemma_insert_coefficient(r0, m, c, mj);
            if j < k - 1 {
                if mj == m {
                    lemma_rename_injective(p, old, new, j, k - 1);
                    assert(crate::monomial::mono_lt(p[j].0, p[k - 1].0));
                    lemma_mono_lt_irreflexive(p[j].0);
                }
            } else {
                if exists|i: int| 0 <= i < r0.len() && r0[i].0 == m {
                    let i = choose|i: int| 0 <= i < r0.len() && r0[i].0 == m;
                    let j2 = choose|j2: int| 0 <= j2 < k - 1 && r0[i].0 == rename_powers(p[j2].0, old, new);
                    lemma_rename_injective(p, old, new, j2, k - 1);
                    assert(crate::monomial::mono_lt(p[j2].0, p[k - 1].0));
                    lemma_mono_lt_irreflexive(p[j2].0);
                }
                assert(coefficient_of(r0, m) == rat_zero());
                assert(0 * c.1 + c.0 * 1 == c.0 && 1 * c.1 == c.1) by (nonlinear_arith);
                crate::field::lemma_reduced_normalize(c);
                assert(rat_add(rat_zero(), c) == normalize(c.0, c.1 as int));
            }
        }
    }
}

/// Renaming `old` to `new` in a canonical polynomial that does not hold
/// both keeps every other variable.
pub proof fn lemma_rename_keeps_variable(p: Seq<TermView>, old: usize, new: usize, u: usize)
    requires
        terms_canonical(p),
        lacks_one(p, old, new),
        old != new,
        u != old,
        u != new,
        has_variable(p, u),
    ensures
        has_variable(rename_terms(p, old, new), u),
{
    let (j, k) = choose|j: int, k: int| 0 <= j < p.len() && 0 <= k < p[j].0.len() && (#[trigger] p[j].0[k]).0 == u;
    lemma_rename_prefix(p, old, new, p.len() as int);
    assert(p.take(p.len() as int) =~= p);
    let r = rename_terms(p, old, new);
    let m = rename_powers(p[j].0, old, new);
    assert(coefficient_of(r, m) == p[j].1);
    assert(p[j].1.0 != 0);
    assert(exists|i: int| 0 <= i < r.len() && r[i].0 == m);
    let i = choose|i: int| 0 <= i < r.len() && r[i].0 == m;
    lemma_member_lacks(p, old, new, j);
    lemma_rename_exponents(p[j].0, old, new);
    lemma_listed_exponent(p[j].0, k);
    assert(exponent_of(m, u) == exponent_of(p[j].0, u));
    let kk = lemma_exponent_listed(m, u);
    assert(r[i].0[kk].0 == u);
}


/// Every atom's polynomial is canonical.
pub open spec fn atoms_canonical(f: FormulaView) -> bool
    decreases f,
{
    match f {
        FormulaView::Atom(p, _) => terms_canonical(p),
        FormulaView::Not(b) => atoms_canonical(*b),
        FormulaView::And(fs) => all_atoms_canonical(fs),
        FormulaView::Or(fs) => all_atoms_canonical(fs),
        FormulaView::Quantified(_, _, b) => atoms_canonical(*b),
        _ => true,
    }
}

/// [`atoms_canonical`] for every formula of the list.
pub open spec fn all_atoms_canonical(fs: Seq<FormulaView>) -> bool
    decreases fs,
{
    if fs.len() == 0 {
        true
    } else {
        all_atoms_canonical(fs.drop_last()) && atoms_canonical(fs.last())
    }
}

/// A well-formed formula's polynomials are canonical.
pub proof fn lemma_atoms_canonical(f: Formula)
    requires
        formula_wf(f),
    ensures
        atoms_canonical(f@),
    decreases f,
{
    match f {
        Formula::Atom(a) => {
            a.polynomial.lemma_wf();
        },
        Formula::Not(b) => {
            lemma_atoms_canonical(*b);
        },
        Formula::And(fs) => {
            lemma_all_atoms_canonical(fs, fs@.len() as int);
            assert(fs@.take(fs@.len() as int) =~= fs@);
        },
        Formula::Or(fs) => {
            lemma_all_atoms_canonical(fs, fs@.len() as int);
            assert(fs@.take(fs@.len() as int) =~= fs@);
        },
        Formula::Quantified { body, .. } => {
            lemma_atoms_canonical(*body);
        },
        _ => {},
    }
}

/// [`lemma_atoms_canonical`] for the first `n` formulas of a list.
proof fn lemma_all_atoms_canonical(fs: Vec<Formula>, n: int)
    requires
        all_wf(fs@),
        0 <= n <= fs@.len(),
    ensures
        all_atoms_canonical(views_of(fs@.take(n))),
    decreases fs, n,
{
    if n > 0 {
        lemma_all_atoms_canonical(fs, n - 1);
        lemma_member_decreases(&fs, n - 1);
        lemma_all_wf_member(fs@, n - 1);
        lemma_atoms_canonical(fs@[n - 1]);
        let t = fs@.take(n);
        assert(t.drop_last() =~= fs@.take(n - 1));
        assert(views_of(t).drop_last() =~= views_of(fs@.take(n - 1)));
        lemma_views_of(t);
    }
}

/// A formula in which `old` is not free has no occurrence of it that a
/// binder of `new` would capture.
pub proof fn lemma_absent_not_captured(f: FormulaView, old: usize, new: usize)
    requires
        !free_in(f, old),
    ensures
        !captured(f, old, new),
    decreases f,
{
    match f {
        FormulaView::Not(b) => lemma_absent_not_captured(*b, old, new),
        FormulaView::And(fs) => lemma_all_absent_not_captured(fs, old, new),
        FormulaView::Or(fs) => lemma_all_absent_not_captured(fs, old, new),
        FormulaView::Quantified(_, x, b) => {
            if x != old && x != new {
                lemma_absent_not_captured(*b, old, new);
            }
        },
        _ => {},
    }
}

/// [`lemma_absent_not_captured`] for every formula of a list.
pub proof fn lemma_all_absent_not_captured(fs: Seq<FormulaView>, old: usize, new: usize)
    requires
        !free_in_any(fs, old),
    ensures
        !captured_any(fs, old, new),
    decreases fs,
{
    if fs.len() > 0 {
        lemma_all_absent_not_captured(fs.drop_last(), old, new);
        lemma_absent_not_captured(fs.last(), old, new);
    }
}

/// Renaming the free occurrences of `old` to `new`, when none is captured
/// and `old` and `new` are not both free, keeps free every other variable
/// that was free.
pub proof fn law_rename_keeps_free_variables(f: FormulaView, old: usize, new: usize, u: usize)
    requires
        atoms_canonical(f),
        old != new,
        !captured(f, old, new),
        !(free_in(f, old) && free_in(f, new)),
        u != old,
        u != new,
        free_in(f, u),
    ensures
        free_in(rename_bound_view(f, old, new), u),
    decreases f,
{
    match f {
        FormulaView::Atom(p, _) => {
            lemma_rename_keeps_variable(p, old, new, u);
        },
        FormulaView::Not(b) => {
            law_rename_keeps_free_variables(*b, old, new, u);
        },
        FormulaView::And(fs) => {
            lemma_rename_all_keeps(fs, old, new, u);
        },
        FormulaView::Or(fs) => {
            lemma_rename_all_keeps(fs, old, new, u);
        },
        FormulaView::Quantified(q, x, b) => {
            if x != old {
                if x == new {
                    assert(!free_in(*b, old));
                    lemma_absent_not_captured(*b, old, new);
                }
                law_rename_keeps_free_variables(*b, old, new, u);
            }
        },
        _ => {},
    }
}

/// [`law_rename_keeps_free_variables`] for a list.
pub proof fn lemma_rename_all_keeps(fs: Seq<FormulaView>, old: usize, new: usize, u: usize)
    requires
        all_atoms_canonical(fs),
        old != new,
        !captured_any(fs, old, new),
        !(free_in_any(fs, old) && free_in_any(fs, new)),
        u != old,
        u != new,
        free_in_any(fs, u),
    ensures
        free_in_any(rename_all(fs, old, new), u),
    decreases fs,
{
    let init = fs.drop_last();
    let r = rename_all(fs, old, new);
    assert(r.drop_last() == rename_all(init, old, new));
    assert(r.last() == rename_bound_view(fs.last(), old, new));
    if free_in_any(init, u) {
        lemma_rename_all_keeps(init, old, new, u);
    } else {
        law_rename_keeps_free_variables(fs.last(), old, new, u);
    }
}

} // verus!
