//! What projection does to variables: every polynomial of the projection
//! set in `v` mentions only variables of the projected polynomials, and
//! never `v` itself.
use crate::cad::projection::{
    coefficients_from, coefficients_in, det, det_sum, minor, pairs_from, project_single, project_terms,
    push_unique, remove_column, resultant_terms, singles_from, sylvester, sylvester_entry, MatrixView,
};
use crate::polynomial::{
    add_terms, coefficient_in_terms, degree_of, derivative_terms, has_variable, mul_terms,
    negate_terms, TermView,
};
use crate::variables::{
    lemma_add_terms_over, lemma_coefficient_in_over, lemma_derivative_over, lemma_mul_terms_over,
    lemma_negate_over, lemma_one_over, lemma_pow_terms_over, monomials_wf, powers_over, terms_over,
};
use vstd::prelude::*;

verus! {

/// Every polynomial of the list is over `vars`.
pub open spec fn all_over(list: Seq<Seq<TermView>>, vars: Set<usize>) -> bool {
    forall|i: int| 0 <= i < list.len() ==> terms_over(#[trigger] list[i], vars)
}

/// Every monomial of every polynomial of the list is well formed.
pub open spec fn all_monomials_wf(list: Seq<Seq<TermView>>) -> bool {
    forall|i: int| 0 <= i < list.len() ==> monomials_wf(#[trigger] list[i])
}

/// The variables that occur in some polynomial of the list.
pub open spec fn list_variables(list: Seq<Seq<TermView>>) -> Set<usize> {
    Set::new(|u: usize| exists|i: int| 0 <= i < list.len() && #[trigger] has_variable(list[i], u))
}

/// The variables that level `j` of a projection stack may mention: those of
/// the polynomials, less the last `j` variables of the order.
pub open spec fn level_variables(ps: Seq<Seq<TermView>>, order: Seq<usize>, j: int) -> Set<usize> {
    Set::new(
        |u: usize|
            list_variables(ps).contains(u) && forall|t: int|
                order.len() - j <= t < order.len() ==> #[trigger] order[t] != u,
    )
}

/// A square matrix whose entries are over `vars`.
pub open spec fn square_over(m: MatrixView, vars: Set<usize>) -> bool {
    forall|i: int|
        0 <= i < m.len() ==> {
            &&& (#[trigger] m[i]).len() == m.len()
            &&& forall|j: int| 0 <= j < m.len() ==> terms_over(#[trigger] m[i][j], vars)
        }
}

/// The empty term list is over every set.
proof fn lemma_empty_over(vars: Set<usize>)
    ensures
        terms_over(Seq::<TermView>::empty(), vars),
{
}

/// A minor of a square matrix is square, with entries of the matrix.
proof fn lemma_minor_over(m: MatrixView, c: int, vars: Set<usize>)
    requires
        square_over(m, vars),
        m.len() >= 2,
        0 <= c < m.len(),
    ensures
        square_over(minor(m, c), vars),
        minor(m, c).len() == m.len() - 1,
{
    let n = minor(m, c);
    assert forall|i: int| 0 <= i < n.len() implies {
        &&& (#[trigger] n[i]).len() == n.len()
        &&& forall|j: int| 0 <= j < n.len() ==> terms_over(#[trigger] n[i][j], vars)
    } by {
        let row = m[i + 1];
        assert(row.len() == m.len());
        assert(n[i] == remove_column(row, c));
        assert forall|j: int| 0 <= j < n.len() implies terms_over(#[trigger] n[i][j], vars) by {
            if j < c {
                assert(n[i][j] == row[j]);
            } else {
                assert(n[i][j] == row[j + 1]);
            }
        }
    }
}

/// A determinant mentions only variables of its entries.
pub proof fn lemma_det_over(m: MatrixView, vars: Set<usize>)
    requires
        square_over(m, vars),
    ensures
        terms_over(det(m), vars),
    decreases m.len(), m.len() + 1,
{
    if m.len() == 0 {
        lemma_empty_over(vars);
    } else if m.len() == 1 {
        assert(terms_over(m[0][0], vars));
    } else {
        lemma_det_sum_over(m, m.len() as int, vars);
    }
}

/// A partial expansion of a determinant mentions only variables of its
/// entries.
pub proof fn lemma_det_sum_over(m: MatrixView, k: int, vars: Set<usize>)
    requires
        square_over(m, vars),
    ensures
        terms_over(det_sum(m, k), vars),
    decreases m.len(), k,
{
    if k <= 0 || m.len() <= 1 || k > m.len() {
        lemma_empty_over(vars);
    } else {
        let c = k - 1;
        lemma_det_sum_over(m, c, vars);
        lemma_minor_over(m, c, vars);
        lemma_det_over(minor(m, c), vars);
        assert(terms_over(m[0][c], vars));
        let term = mul_terms(m[0][c], det(minor(m, c)));
        lemma_mul_terms_over(m[0][c], det(minor(m, c)), vars);
        lemma_negate_over(term, vars);
        lemma_add_terms_over(det_sum(m, c), term, vars);
        lemma_add_terms_over(det_sum(m, c), negate_terms(term), vars);
    }
}

/// A Sylvester matrix of coefficients over `vars` is square and over `vars`.
proof fn lemma_sylvester_over(
    lc: Seq<Seq<TermView>>,
    rc: Seq<Seq<TermView>>,
    dl: nat,
    dr: nat,
    vars: Set<usize>,
)
    requires
        lc.len() == dl + 1,
        rc.len() == dr + 1,
        all_over(lc, vars),
        all_over(rc, vars),
    ensures
        square_over(sylvester(lc, rc, dl, dr), vars),
{
    let m = sylvester(lc, rc, dl, dr);
    assert forall|i: int| 0 <= i < m.len() implies {
        &&& (#[trigger] m[i]).len() == m.len()
        &&& forall|j: int| 0 <= j < m.len() ==> terms_over(#[trigger] m[i][j], vars)
    } by {
        assert forall|j: int| 0 <= j < m.len() implies terms_over(#[trigger] m[i][j], vars) by {
            assert(m[i][j] == sylvester_entry(lc, rc, dl as int, dr as int, i, j));
            if i < dr {
                if 0 <= j - i <= dl {
                    assert(terms_over(lc[j - i], vars));
                } else {
                    lemma_empty_over(vars);
                }
            } else {
                if 0 <= j - (i - dr) <= dr {
                    assert(terms_over(rc[j - (i - dr)], vars));
                } else {
                    lemma_empty_over(vars);
                }
            }
        }
    }
}

/// The coefficients of `p` in `v` mention no `v`.
proof fn lemma_coefficients_in_over(p: Seq<TermView>, v: usize, d: nat, vars: Set<usize>)
    requires
        monomials_wf(p),
        terms_over(p, vars),
    ensures
        all_over(coefficients_in(p, v, d), vars.remove(v)),
{
    let cs = coefficients_in(p, v, d);
    assert forall|i: int| 0 <= i < cs.len() implies terms_over(#[trigger] cs[i], vars.remove(v)) by {
        lemma_coefficient_in_over(p, v, i as usize, vars);
    }
}

/// A resultant in `v` mentions only variables of its operands, and no `v`.
pub proof fn lemma_resultant_over(l: Seq<TermView>, r: Seq<TermView>, v: usize, vars: Set<usize>)
    requires
        monomials_wf(l),
        monomials_wf(r),
        terms_over(l, vars),
        terms_over(r, vars),
    ensures
        terms_over(resultant_terms(l, r, v), vars.remove(v)),
{
    let dl = degree_of(l, v);
    let dr = degree_of(r, v);
    let w = vars.remove(v);
    if dl == 0 && dr == 0 {
        lemma_one_over(w);
    } else if dl == 0 {
        lemma_coefficient_in_over(l, v, 0, vars);
        lemma_pow_terms_over(coefficient_in_terms(l, v, 0), dr, w);
    } else if dr == 0 {
        lemma_coefficient_in_over(r, v, 0, vars);
        lemma_pow_terms_over(coefficient_in_terms(r, v, 0), dl, w);
    } else {
        lemma_coefficients_in_over(l, v, dl, vars);
        lemma_coefficients_in_over(r, v, dr, vars);
        lemma_sylvester_over(coefficients_in(l, v, dl), coefficients_in(r, v, dr), dl, dr, w);
        lemma_det_over(sylvester(coefficients_in(l, v, dl), coefficients_in(r, v, dr), dl, dr), w);
    }
}

/// Appending a polynomial over `vars` keeps a list over `vars`.
proof fn lemma_push_unique_over(list: Seq<Seq<TermView>>, p: Seq<TermView>, vars: Set<usize>)
    requires
        all_over(list, vars),
        terms_over(p, vars),
    ensures
        all_over(push_unique(list, p), vars),
{
    let r = push_unique(list, p);
    assert forall|i: int| 0 <= i < r.len() implies terms_over(#[trigger] r[i], vars) by {
        if i < list.len() {
            assert(r[i] == list[i]);
        }
    }
}

/// Collecting coefficients in `v` keeps a list free of `v`.
proof fn lemma_coefficients_from_over(
    list: Seq<Seq<TermView>>,
    p: Seq<TermView>,
    v: usize,
    j: int,
    d: int,
    vars: Set<usize>,
)
    requires
        all_over(list, vars.remove(v)),
        monomials_wf(p),
        terms_over(p, vars),
    ensures
        all_over(coefficients_from(list, p, v, j, d), vars.remove(v)),
    decreases d + 1 - j,
{
    if !(j > d || j < 0) {
        lemma_coefficient_in_over(p, v, j as usize, vars);
        lemma_push_unique_over(list, coefficient_in_terms(p, v, j as usize), vars.remove(v));
        lemma_coefficients_from_over(
            push_unique(list, coefficient_in_terms(p, v, j as usize)),
            p,
            v,
            j + 1,
            d,
            vars,
        );
    }
}

/// Projecting one polynomial keeps a list free of `v`.
proof fn lemma_project_single_over(list: Seq<Seq<TermView>>, p: Seq<TermView>, v: usize, vars: Set<usize>)
    requires
        all_over(list, vars.remove(v)),
        monomials_wf(p),
        terms_over(p, vars),
    ensures
        all_over(project_single(list, p, v), vars.remove(v)),
{
    let d = degree_of(p, v) as int;
    lemma_coefficients_from_over(list, p, v, 0, d, vars);
    if d > 0 {
        lemma_derivative_over(p, v, vars);
        lemma_resultant_over(p, derivative_terms(p, v), v, vars);
        lemma_push_unique_over(
            coefficients_from(list, p, v, 0, d),
            resultant_terms(p, derivative_terms(p, v), v),
            vars.remove(v),
        );
    }
}

/// Projecting each polynomial from index `i` on keeps a list free of `v`.
proof fn lemma_singles_from_over(
    list: Seq<Seq<TermView>>,
    ps: Seq<Seq<TermView>>,
    v: usize,
    i: int,
    vars: Set<usize>,
)
    requires
        all_over(list, vars.remove(v)),
        all_monomials_wf(ps),
        all_over(ps, vars),
    ensures
        all_over(singles_from(list, ps, v, i), vars.remove(v)),
    decreases ps.len() - i,
{
    if !(i >= ps.len() || i < 0) {
        assert(monomials_wf(ps[i]) && terms_over(ps[i], vars));
        lemma_project_single_over(list, ps[i], v, vars);
        lemma_singles_from_over(project_single(list, ps[i], v), ps, v, i + 1, vars);
    }
}

/// The pairwise resultants keep a list free of `v`.
proof fn lemma_pairs_from_over(
    list: Seq<Seq<TermView>>,
    ps: Seq<Seq<TermView>>,
    v: usize,
    left: int,
    right: int,
    vars: Set<usize>,
)
    requires
        all_over(list, vars.remove(v)),
        all_monomials_wf(ps),
        all_over(ps, vars),
    ensures
        all_over(pairs_from(list, ps, v, left, right), vars.remove(v)),
    decreases ps.len() - left, ps.len() - right,
{
    if left >= ps.len() || left < 0 {
    } else if right >= ps.len() || right <= left {
        lemma_pairs_from_over(list, ps, v, left + 1, left + 2, vars);
    } else {
        assert(monomials_wf(ps[left]) && terms_over(ps[left], vars));
        assert(monomials_wf(ps[right]) && terms_over(ps[right], vars));
        lemma_resultant_over(ps[left], ps[right], v, vars);
        lemma_push_unique_over(list, resultant_terms(ps[left], ps[right], v), vars.remove(v));
        lemma_pairs_from_over(
            push_unique(list, resultant_terms(ps[left], ps[right], v)),
            ps,
            v,
            left,
            right + 1,
            vars,
        );
    }
}

/// A projection in `v` of polynomials over `vars` is over `vars` without `v`.
pub proof fn lemma_project_over(ps: Seq<Seq<TermView>>, v: usize, vars: Set<usize>)
    requires
        all_monomials_wf(ps),
        all_over(ps, vars),
    ensures
        all_over(project_terms(ps, v), vars.remove(v)),
{
    let w = vars.remove(v);
    assert(all_over(Seq::<Seq<TermView>>::empty(), w));
    lemma_singles_from_over(Seq::empty(), ps, v, 0, vars);
    lemma_pairs_from_over(singles_from(Seq::empty(), ps, v, 0), ps, v, 0, 1, vars);
}

/// A list is over its own variables.
pub proof fn lemma_list_over_own(ps: Seq<Seq<TermView>>)
    ensures
        all_over(ps, list_variables(ps)),
{
    let vars = list_variables(ps);
    assert forall|i: int| 0 <= i < ps.len() implies terms_over(#[trigger] ps[i], vars) by {
        let s = ps[i];
        assert forall|t: int| 0 <= t < s.len() implies powers_over((#[trigger] s[t]).0, vars) by {
            assert forall|k: int| 0 <= k < s[t].0.len() implies vars.contains((#[trigger] s[t].0[k]).0) by {
                assert(has_variable(ps[i], s[t].0[k].0));
            }
        }
    }
}

/// A polynomial over `vars` has no variable outside `vars`.
pub proof fn lemma_over_has_variable(s: Seq<TermView>, vars: Set<usize>, u: usize)
    requires
        terms_over(s, vars),
        has_variable(s, u),
    ensures
        vars.contains(u),
{
    let (i, k) = choose|i: int, k: int| 0 <= i < s.len() && 0 <= k < s[i].0.len() && (#[trigger] s[i].0[k]).0 == u;
    assert(powers_over(s[i].0, vars));
}

/// Projection eliminates its variable: every variable of a polynomial of the
/// projection set in `v` is a variable of one of the projected polynomials,
/// and is not `v`.
pub proof fn law_projection_eliminates(ps: Seq<Seq<TermView>>, v: usize, u: usize, i: int)
    requires
        all_monomials_wf(ps),
        0 <= i < project_terms(ps, v).len(),
        has_variable(project_terms(ps, v)[i], u),
    ensures
        u != v,
        exists|j: int| 0 <= j < ps.len() && #[trigger] has_variable(ps[j], u),
{
    lemma_list_over_own(ps);
    lemma_project_over(ps, v, list_variables(ps));
    lemma_over_has_variable(project_terms(ps, v)[i], list_variables(ps).remove(v), u);
}

/// No member is zero and no member is listed twice.
pub open spec fn clean_list(list: Seq<Seq<TermView>>) -> bool {
    &&& forall|i: int| 0 <= i < list.len() ==> (#[trigger] list[i]).len() > 0
    &&& forall|i: int, j: int| 0 <= i < j < list.len() ==> #[trigger] list[i] != #[trigger] list[j]
}

/// Everything in `a` is in `b`.
pub open spec fn kept_in(a: Seq<Seq<TermView>>, b: Seq<Seq<TermView>>) -> bool {
    forall|q: Seq<TermView>| #[trigger] a.contains(q) ==> b.contains(q)
}

/// Adding once keeps the list clean, keeps its members and holds the new
/// polynomial unless it is zero.
proof fn lemma_push_unique_facts(list: Seq<Seq<TermView>>, p: Seq<TermView>)
    ensures
        kept_in(list, push_unique(list, p)),
        p.len() > 0 ==> push_unique(list, p).contains(p),
        clean_list(list) ==> clean_list(push_unique(list, p)),
{
    let r = push_unique(list, p);
    if !(p.len() == 0 || list.contains(p)) {
        assert forall|q: Seq<TermView>| #[trigger] list.contains(q) implies r.contains(q) by {
            let k = choose|k: int| 0 <= k < list.len() && list[k] == q;
            assert(r[k] == q);
        }
        assert(r[r.len() - 1] == p);
        if clean_list(list) {
            assert forall|i: int, j: int| 0 <= i < j < r.len() implies #[trigger] r[i] != #[trigger] r[j] by {
                if j == r.len() - 1 {
                    assert(r[i] == list[i]);
                    if r[i] == p {
                        assert(list.contains(p));
                    }
                } else {
                    assert(r[i] == list[i] && r[j] == list[j]);
                }
            }
            assert forall|i: int| 0 <= i < r.len() implies (#[trigger] r[i]).len() > 0 by {
                if i < list.len() {
                    assert(r[i] == list[i]);
                }
            }
        }
    }
}

/// The coefficients of degrees `j` to `d` keep the list clean and are
/// all in it, unless zero.
proof fn lemma_coefficients_facts(list: Seq<Seq<TermView>>, p: Seq<TermView>, v: usize, j: int, d: int)
    ensures
        kept_in(list, coefficients_from(list, p, v, j, d)),
        clean_list(list) ==> clean_list(coefficients_from(list, p, v, j, d)),
        forall|e: int|
            0 <= j <= e <= d && (#[trigger] coefficient_in_terms(p, v, e as usize)).len() > 0
                ==> coefficients_from(list, p, v, j, d).contains(coefficient_in_terms(p, v, e as usize)),
    decreases d + 1 - j,
{
    if !(j > d || j < 0) {
        let next = push_unique(list, coefficient_in_terms(p, v, j as usize));
        lemma_push_unique_facts(list, coefficient_in_terms(p, v, j as usize));
        lemma_coefficients_facts(next, p, v, j + 1, d);
    }
}

/// One polynomial's part of the projection keeps the list clean and
/// brings in its nonzero coefficients and discriminant resultant.
proof fn lemma_single_facts(list: Seq<Seq<TermView>>, p: Seq<TermView>, v: usize)
    ensures
        kept_in(list, project_single(list, p, v)),
        clean_list(list) ==> clean_list(project_single(list, p, v)),
        forall|e: int|
            0 <= e <= degree_of(p, v) && (#[trigger] coefficient_in_terms(p, v, e as usize)).len() > 0
                ==> project_single(list, p, v).contains(coefficient_in_terms(p, v, e as usize)),
        degree_of(p, v) > 0 && resultant_terms(p, derivative_terms(p, v), v).len() > 0
            ==> project_single(list, p, v).contains(resultant_terms(p, derivative_terms(p, v), v)),
{
    let d = degree_of(p, v) as int;
    lemma_coefficients_facts(list, p, v, 0, d);
    let w = coefficients_from(list, p, v, 0, d);
    if d > 0 {
        lemma_push_unique_facts(w, resultant_terms(p, derivative_terms(p, v), v));
    }
}

/// The polynomials from index `i` on keep the list clean and bring in
/// their nonzero coefficients and discriminant resultants.
proof fn lemma_singles_facts(list: Seq<Seq<TermView>>, ps: Seq<Seq<TermView>>, v: usize, i: int)
    ensures
        kept_in(list, singles_from(list, ps, v, i)),
        clean_list(list) ==> clean_list(singles_from(list, ps, v, i)),
        forall|k: int, e: int|
            0 <= i <= k < ps.len() && 0 <= e <= degree_of(ps[k], v) && (#[trigger] coefficient_in_terms(
                ps[k],
                v,
                e as usize,
            )).len() > 0 ==> singles_from(list, ps, v, i).contains(coefficient_in_terms(ps[k], v, e as usize)),
        forall|k: int|
            0 <= i <= k < ps.len() && degree_of(ps[k], v) > 0 && (#[trigger] resultant_terms(
                ps[k],
                derivative_terms(ps[k], v),
                v,
            )).len() > 0 ==> singles_from(list, ps, v, i).contains(
                resultant_terms(ps[k], derivative_terms(ps[k], v), v),
            ),
    decreases ps.len() - i,
{
    if !(i >= ps.len() || i < 0) {
        let next = project_single(list, ps[i], v);
        lemma_single_facts(list, ps[i], v);
        lemma_singles_facts(next, ps, v, i + 1);
    }
}

/// The resultants of the pairs from `(left, right)` on keep the list clean
/// and are all in it, unless zero.
proof fn lemma_pairs_facts(list: Seq<Seq<TermView>>, ps: Seq<Seq<TermView>>, v: usize, left: int, right: int)
    requires
        left < right,
    ensures
        kept_in(list, pairs_from(list, ps, v, left, right)),
        clean_list(list) ==> clean_list(pairs_from(list, ps, v, left, right)),
        forall|a: int, b: int|
            0 <= left && ((a == left && right <= b) || left < a) && a < b < ps.len() && (#[trigger] resultant_terms(
                ps[a],
                ps[b],
                v,
            )).len() > 0 ==> pairs_from(list, ps, v, left, right).contains(resultant_terms(ps[a], ps[b], v)),
    decreases ps.len() - left, ps.len() - right,
{
    if left >= ps.len() || left < 0 {
    } else if right >= ps.len() || right <= left {
        lemma_pairs_facts(list, ps, v, left + 1, left + 2);
    } else {
        let next = push_unique(list, resultant_terms(ps[left], ps[right], v));
        lemma_push_unique_facts(list, resultant_terms(ps[left], ps[right], v));
        lemma_pairs_facts(next, ps, v, left, right + 1);
    }
}

/// The projection set lists no zero polynomial and none twice, and it
/// holds every nonzero coefficient of every input polynomial in `v`, the
/// nonzero resultant of each with its derivative, and the nonzero
/// resultant of every pair.
pub proof fn law_projection_complete(ps: Seq<Seq<TermView>>, v: usize)
    ensures
        clean_list(project_terms(ps, v)),
        forall|k: int, e: int|
            0 <= k < ps.len() && 0 <= e <= degree_of(ps[k], v) && (#[trigger] coefficient_in_terms(
                ps[k],
                v,
                e as usize,
            )).len() > 0 ==> project_terms(ps, v).contains(coefficient_in_terms(ps[k], v, e as usize)),
        forall|k: int|
            0 <= k < ps.len() && degree_of(ps[k], v) > 0 && (#[trigger] resultant_terms(
                ps[k],
                derivative_terms(ps[k], v),
                v,
            )).len() > 0 ==> project_terms(ps, v).contains(resultant_terms(ps[k], derivative_terms(ps[k], v), v)),
        forall|a: int, b: int|
            0 <= a < b < ps.len() && (#[trigger] resultant_terms(ps[a], ps[b], v)).len() > 0
                ==> project_terms(ps, v).contains(resultant_terms(ps[a], ps[b], v)),
{
    let empty = Seq::<Seq<TermView>>::empty();
    let singles = singles_from(empty, ps, v, 0);
    lemma_singles_facts(empty, ps, v, 0);
    lemma_pairs_facts(singles, ps, v, 0, 1);
    assert forall|q: Seq<TermView>| #[trigger] singles.contains(q) implies project_terms(ps, v).contains(q) by {}
}

} // verus!
