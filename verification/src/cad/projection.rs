//! Collins-style projection: resultants, discriminants and coefficients.
//!
//! The resultant of two polynomials in a variable is the determinant of
//! their Sylvester matrix ([`resultant_terms`]), expanded along the first row
//! ([`det`]).  A projection set collects, for every polynomial, its nonzero
//! coefficients and its resultant with its derivative, then the pairwise
//! resultants, each once.
use crate::formula::{
    formula_wf, lemma_all_wf_member, lemma_member_decreases, lemma_views_of, views_of, Formula,
    FormulaView,
};
use crate::cad::elimination::{
    all_monomials_wf, all_over, lemma_list_over_own, lemma_over_has_variable, lemma_project_over,
    level_variables, list_variables,
};
use crate::monomial::Variable;
use crate::variables::{monomials_wf, terms_over};
use crate::polynomial::{
    add_terms, coefficient_in_terms, degree_bounded, degree_of, derivative_terms,
    exponents_bounded, has_variable, lemma_add_terms_bounded, lemma_bounded_mul_fits,
    lemma_bounded_weaken, lemma_coefficient_in_bounded, lemma_degree_of, lemma_derivative_bounded,
    lemma_derivative_degree, lemma_max_exponent_bounds, lemma_max_exponent_le,
    lemma_mul_terms_bounded, lemma_negate_bounded, lemma_pow_terms_bounded, max_exponent,
    mul_terms, negate_terms, one_terms, pow_terms, Polynomial, TermView,
};
use vstd::prelude::*;

verus! {

/// A square matrix of polynomials, row by row.
pub type MatrixView = Seq<Seq<Seq<TermView>>>;

/// A row without column `c`.
pub open spec fn remove_column(row: Seq<Seq<TermView>>, c: int) -> Seq<Seq<TermView>> {
    row.take(c) + row.skip(c + 1)
}

/// The minor of the first row and column `c`.
pub open spec fn minor(m: MatrixView, c: int) -> MatrixView {
    Seq::new((m.len() - 1) as nat, |i: int| remove_column(m[i + 1], c))
}

/// The determinant, by expansion along the first row.
pub open spec fn det(m: MatrixView) -> Seq<TermView>
    decreases m.len(), m.len() + 1,
{
    if m.len() == 0 {
        Seq::<TermView>::empty()
    } else if m.len() == 1 {
        m[0][0]
    } else {
        det_sum(m, m.len() as int)
    }
}

/// The alternating sum of the first `k` terms of the expansion along the
/// first row.
pub open spec fn det_sum(m: MatrixView, k: int) -> Seq<TermView>
    decreases m.len(), k,
{
    if k <= 0 || m.len() <= 1 || k > m.len() {
        Seq::<TermView>::empty()
    } else {
        let c = k - 1;
        let prev = det_sum(m, c);
        let term = mul_terms(m[0][c], det(minor(m, c)));
        if c % 2 == 0 {
            add_terms(prev, term)
        } else {
            add_terms(prev, negate_terms(term))
        }
    }
}

/// The coefficients of `p` in `v`, from degree 0 to `d`.
pub open spec fn coefficients_in(p: Seq<TermView>, v: usize, d: nat) -> Seq<Seq<TermView>> {
    Seq::new(d + 1, |k: int| coefficient_in_terms(p, v, k as usize))
}

/// An entry of the Sylvester matrix: `dr` rows of shifted left
/// coefficients, then `dl` rows of shifted right coefficients.
pub open spec fn sylvester_entry(
    lc: Seq<Seq<TermView>>,
    rc: Seq<Seq<TermView>>,
    dl: int,
    dr: int,
    row: int,
    col: int,
) -> Seq<TermView> {
    if row < dr {
        if 0 <= col - row <= dl {
            lc[col - row]
        } else {
            Seq::<TermView>::empty()
        }
    } else {
        let r = row - dr;
        if 0 <= col - r <= dr {
            rc[col - r]
        } else {
            Seq::<TermView>::empty()
        }
    }
}

/// The Sylvester matrix of two coefficient lists.
pub open spec fn sylvester(lc: Seq<Seq<TermView>>, rc: Seq<Seq<TermView>>, dl: nat, dr: nat) -> MatrixView {
    Seq::new(
        dl + dr,
        |row: int| Seq::new(dl + dr, |col: int| sylvester_entry(lc, rc, dl as int, dr as int, row, col)),
    )
}

/// The resultant of `l` and `r` in `v`: one when both are constant in `v`,
/// a power of the constant one's coefficient when one of them is, else the
/// determinant of their Sylvester matrix.
pub open spec fn resultant_terms(l: Seq<TermView>, r: Seq<TermView>, v: usize) -> Seq<TermView> {
    let dl = degree_of(l, v);
    let dr = degree_of(r, v);
    if dl == 0 && dr == 0 {
        one_terms()
    } else if dl == 0 {
        pow_terms(coefficient_in_terms(l, v, 0), dr)
    } else if dr == 0 {
        pow_terms(coefficient_in_terms(r, v, 0), dl)
    } else {
        det(sylvester(coefficients_in(l, v, dl), coefficients_in(r, v, dr), dl, dr))
    }
}

/// The resultant of `l` and `r` in `v` can be computed without exponent
/// overflow.
pub open spec fn resultant_fits(l: Seq<TermView>, r: Seq<TermView>, v: usize) -> bool {
    (degree_of(l, v) + degree_of(r, v)) * (max_exponent(l) + max_exponent(r)) <= usize::MAX
}

/// The list with `p` appended, unless `p` is zero or already listed.
pub open spec fn push_unique(list: Seq<Seq<TermView>>, p: Seq<TermView>) -> Seq<Seq<TermView>> {
    if p.len() == 0 || list.contains(p) {
        list
    } else {
        list.push(p)
    }
}

/// The list after the coefficients of `p` in `v` of degrees `j` to `d`.
pub open spec fn coefficients_from(
    list: Seq<Seq<TermView>>,
    p: Seq<TermView>,
    v: usize,
    j: int,
    d: int,
) -> Seq<Seq<TermView>>
    decreases d + 1 - j,
{
    if j > d || j < 0 {
        list
    } else {
        coefficients_from(push_unique(list, coefficient_in_terms(p, v, j as usize)), p, v, j + 1, d)
    }
}

/// The list after one polynomial's coefficients and, when it depends on
/// `v`, its resultant with its derivative.
pub open spec fn project_single(list: Seq<Seq<TermView>>, p: Seq<TermView>, v: usize) -> Seq<
    Seq<TermView>,
> {
    let d = degree_of(p, v) as int;
    let with_coefficients = coefficients_from(list, p, v, 0, d);
    if d > 0 {
        push_unique(with_coefficients, resultant_terms(p, derivative_terms(p, v), v))
    } else {
        with_coefficients
    }
}

/// The list after the polynomials from index `i` on.
pub open spec fn singles_from(list: Seq<Seq<TermView>>, ps: Seq<Seq<TermView>>, v: usize, i: int) -> Seq<
    Seq<TermView>,
>
    decreases ps.len() - i,
{
    if i >= ps.len() || i < 0 {
        list
    } else {
        singles_from(project_single(list, ps[i], v), ps, v, i + 1)
    }
}

/// The list after the resultants of `ps[left]` with `ps[right..]`, then of
/// every later left polynomial with the ones after it.
pub open spec fn pairs_from(
    list: Seq<Seq<TermView>>,
    ps: Seq<Seq<TermView>>,
    v: usize,
    left: int,
    right: int,
) -> Seq<Seq<TermView>>
    decreases ps.len() - left, ps.len() - right,
{
    if left >= ps.len() || left < 0 {
        list
    } else if right >= ps.len() || right <= left {
        pairs_from(list, ps, v, left + 1, left + 2)
    } else {
        pairs_from(push_unique(list, resultant_terms(ps[left], ps[right], v)), ps, v, left, right + 1)
    }
}

/// The projection set of `ps` in `v`.
pub open spec fn project_terms(ps: Seq<Seq<TermView>>, v: usize) -> Seq<Seq<TermView>> {
    pairs_from(singles_from(Seq::empty(), ps, v, 0), ps, v, 0, 1)
}

/// Every resultant of the projection fits.
pub open spec fn projection_fits(ps: Seq<Seq<TermView>>, v: usize) -> bool {
    forall|i: int, j: int|
        0 <= i < ps.len() && 0 <= j < ps.len() ==> #[trigger] resultant_fits(ps[i], ps[j], v)
}

/// The views of a list of polynomials.
pub open spec fn polys_view(ps: Seq<Polynomial>) -> Seq<Seq<TermView>> {
    ps.map_values(|p: Polynomial| p@)
}

/// Every polynomial of the list is in canonical form.
pub open spec fn all_polys_wf(ps: Seq<Polynomial>) -> bool {
    forall|i: int| 0 <= i < ps.len() ==> (#[trigger] ps[i]).wf()
}

/// Why a projection stack could not be built.
#[derive(Clone, Debug, PartialEq, Eq, Structural)]
pub enum ProjectionError {
    DuplicateVariable(Variable),
    MissingVariable(Variable),
}

/// The projection levels of a formula: its polynomials, then each
/// projection in turn, eliminating the order's variables from last to first.
#[derive(Clone, Debug, PartialEq, Eq)]
pub struct ProjectionStack {
    pub variable_order: Vec<Variable>,
    pub levels: Vec<Vec<Polynomial>>,
}

/// The view of a matrix.
pub open spec fn matrix_view(m: Seq<Vec<Polynomial>>) -> MatrixView {
    m.map_values(|row: Vec<Polynomial>| polys_view(row@))
}

/// A square matrix of canonical polynomials whose exponents are at most `k`.
pub open spec fn matrix_ok(m: Seq<Vec<Polynomial>>, k: nat) -> bool {
    forall|i: int|
        0 <= i < m.len() ==> {
            &&& (#[trigger] m[i])@.len() == m.len()
            &&& all_polys_wf(m[i]@)
            &&& forall|j: int| 0 <= j < m.len() ==> exponents_bounded((#[trigger] m[i]@[j])@, k)
        }
}

/// The determinant of a square matrix, by expansion along the first row.
fn determinant(matrix: &Vec<Vec<Polynomial>>, Ghost(k): Ghost<nat>) -> (r: Polynomial)
    requires
        matrix_ok(matrix@, k),
        matrix@.len() * k <= usize::MAX,
    ensures
        r.wf(),
        r@ == det(matrix_view(matrix@)),
        exponents_bounded(r@, matrix@.len() * k),
    decreases matrix@.len(),
{
    let n = matrix.len();
    let ghost m = matrix_view(matrix@);
    let ghost nk: nat = matrix@.len() * k;
    let ghost mk: nat = (matrix@.len() - 1) as nat * k;
    if n == 0 {
        let z = Polynomial::zero();
        proof {
            assert(exponents_bounded(z@, 0));
        }
        return z;
    }
    if n == 1 {
        proof {
            assert(matrix@[0]@.len() == 1);
            assert(m[0][0] == matrix@[0]@[0]@);
            assert(nk == k) by (nonlinear_arith)
                requires
                    nk == matrix@.len() * k,
                    matrix@.len() == 1,
            ;
            lemma_bounded_weaken(matrix@[0]@[0]@, k, nk);
        }
        return matrix[0][0].duplicate();
    }
    let mut result = Polynomial::zero();
    let mut column: usize = 0;
    proof {
        assert(nk == mk + k) by (nonlinear_arith)
            requires
                n >= 1,
                n == matrix@.len(),
                nk == matrix@.len() * k,
                mk == (matrix@.len() - 1) as nat * k,
        ;
        assert(exponents_bounded(result@, nk));
    }
    while column < n
        invariant
            n == matrix@.len(),
            n >= 2,
            m == matrix_view(matrix@),
            matrix_ok(matrix@, k),
            nk == matrix@.len() * k,
            nk <= usize::MAX,
            nk == mk + k,
            mk == (matrix@.len() - 1) as nat * k,
            column <= n,
            result.wf(),
            result@ == det_sum(m, column as int),
            exponents_bounded(result@, nk),
        decreases n - column,
    {
        let mut minor_rows: Vec<Vec<Polynomial>> = Vec::new();
        let mut row: usize = 1;
        while row < n
            invariant
                n == matrix@.len(),
                n >= 2,
                column < n,
                matrix_ok(matrix@, k),
                1 <= row <= n,
                minor_rows@.len() == row - 1,
                forall|i: int|
                    0 <= i < row - 1 ==> {
                        &&& (#[trigger] minor_rows@[i])@.len() == n - 1
                        &&& all_polys_wf(minor_rows@[i]@)
                        &&& polys_view(minor_rows@[i]@) == remove_column(
                            polys_view(matrix@[i + 1]@),
                            column as int,
                        )
                        &&& forall|j: int|
                            0 <= j < n - 1 ==> exponents_bounded((#[trigger] minor_rows@[i]@[j])@, k)
                    },
            decreases n - row,
        {
            let source = &matrix[row];
            let mut minor_row: Vec<Polynomial> = Vec::new();
            let mut index: usize = 0;
            proof {
                assert(source@.len() == n);
            }
            while index < n
                invariant
                    n == matrix@.len(),
                    source@.len() == n,
                    all_polys_wf(source@),
                    forall|j: int| 0 <= j < n ==> exponents_bounded((#[trigger] source@[j])@, k),
                    column < n,
                    index <= n,
                    minor_row@.len() == if index <= column {
                        index as int
                    } else {
                        index - 1
                    },
                    all_polys_wf(minor_row@),
                    forall|j: int| 0 <= j < minor_row@.len() ==> exponents_bounded((#[trigger] minor_row@[j])@, k),
                    index <= column ==> polys_view(minor_row@) == polys_view(source@).take(
                        index as int,
                    ),
                    index > column ==> polys_view(minor_row@) == polys_view(source@).take(
                        column as int,
                    ) + polys_view(source@).subrange(column + 1, index as int),
                decreases n - index,
            {
                let ghost before = minor_row@;
                if index != column {
                    minor_row.push(source[index].duplicate());
                }
                proof {
                    let pv = polys_view(source@);
                    if index != column {
                        assert(minor_row@.len() == before.len() + 1);
                        assert(minor_row@.drop_last() =~= before);
                        assert(minor_row@.last()@ == pv[index as int]);
                        assert(polys_view(minor_row@) =~= polys_view(before).push(pv[index as int]));
                    } else {
                        assert(minor_row@ == before);
                    }
                    if index < column {
                        assert(polys_view(minor_row@) =~= pv.take(index + 1));
                    } else {
                        assert(polys_view(minor_row@) =~= pv.take(column as int) + pv.subrange(
                            column + 1,
                            index + 1,
                        ));
                    }
                }
                index = index + 1;
            }
            proof {
                let pv = polys_view(source@);
                assert(polys_view(minor_row@) =~= remove_column(pv, column as int));
            }
            let ghost rows_before = minor_rows@;
            let ghost new_row = minor_row@;
            minor_rows.push(minor_row);
            proof {
                assert(minor_rows@ == rows_before.push(minor_rows@[row - 1]));
                assert(minor_rows@[row - 1]@ == new_row);
                assert forall|i: int|
                    0 <= i < row implies {
                        &&& (#[trigger] minor_rows@[i])@.len() == n - 1
                        &&& all_polys_wf(minor_rows@[i]@)
                        &&& polys_view(minor_rows@[i]@) == remove_column(
                            polys_view(matrix@[i + 1]@),
                            column as int,
                        )
                        &&& forall|j: int|
                            0 <= j < n - 1 ==> exponents_bounded((#[trigger] minor_rows@[i]@[j])@, k)
                    } by {
                    if i < row - 1 {
                        assert(minor_rows@.drop_last() =~= rows_before);
                        assert(minor_rows@.drop_last()[i] == minor_rows@[i]);
                    }
                }
            }
            row = row + 1;
        }
        proof {
            assert(matrix_view(minor_rows@) =~= minor(m, column as int));
            assert(matrix_ok(minor_rows@, k));
            assert(minor_rows@.len() == n - 1);
            assert(mk <= nk) by (nonlinear_arith)
                requires
                    nk == mk + k,
            ;
            assert(minor_rows@.len() * k == mk) by (nonlinear_arith)
                requires
                    minor_rows@.len() == matrix@.len() - 1,
                    mk == (matrix@.len() - 1) as nat * k,
                    matrix@.len() >= 2,
            ;
        }
        let sub = determinant(&minor_rows, Ghost(k));
        proof {
            assert(m[0][column as int] == matrix@[0]@[column as int]@);
            lemma_bounded_mul_fits(matrix@[0]@[column as int]@, sub@, k, mk);
            lemma_mul_terms_bounded(matrix@[0]@[column as int]@, sub@, k, mk);
        }
        let term = matrix[0][column].times(&sub);
        proof {
            lemma_negate_bounded(term@, nk);
            lemma_add_terms_bounded(result@, term@, nk);
            lemma_add_terms_bounded(result@, crate::polynomial::negate_terms(term@), nk);
        }
        result = if column % 2 == 0 {
            result.plus(&term)
        } else {
            result.minus(&term)
        };
        column = column + 1;
    }
    proof {
        assert(det(m) == det_sum(m, n as int));
    }
    result
}


/// The degree in `v` is at most the largest exponent.
pub proof fn lemma_degree_le_max_exponent(s: Seq<TermView>, v: usize)
    ensures
        degree_of(s, v) <= max_exponent(s),
{
    let k = max_exponent(s);
    lemma_max_exponent_bounds(s);
    assert forall|i: int| 0 <= i < s.len() implies crate::monomial::exponent_of(
        (#[trigger] s[i]).0,
        v,
    ) <= k by {
        assert(crate::monomial::powers_bounded(s[i].0, k));
        crate::polynomial::lemma_exponent_bounded(s[i].0, v, k);
    }
    lemma_degree_of(s, v, k);
}

/// The coefficients of `p` in `v` up to degree `d`, as polynomials.
fn coefficient_list(p: &Polynomial, variable: Variable, d: usize) -> (cs: Vec<Polynomial>)
    requires
        p.wf(),
        d < usize::MAX,
    ensures
        cs@.len() == d + 1,
        all_polys_wf(cs@),
        polys_view(cs@) == coefficients_in(p@, variable, d as nat),
        forall|i: int|
            0 <= i < cs@.len() ==> exponents_bounded((#[trigger] cs@[i])@, max_exponent(p@)),
{
    let mut cs: Vec<Polynomial> = Vec::new();
    let mut i: usize = 0;
    proof {
        lemma_max_exponent_bounds(p@);
    }
    while i < d + 1
        invariant
            p.wf(),
            d < usize::MAX,
            i <= d + 1,
            cs@.len() == i,
            exponents_bounded(p@, max_exponent(p@)),
            all_polys_wf(cs@),
            forall|j: int|
                0 <= j < i ==> (#[trigger] cs@[j])@ == coefficient_in_terms(p@, variable, j as usize),
            forall|j: int|
                0 <= j < cs@.len() ==> exponents_bounded((#[trigger] cs@[j])@, max_exponent(p@)),
        decreases d + 1 - i,
    {
        let c = p.coefficient_in(variable, i);
        proof {
            lemma_coefficient_in_bounded(p@, variable, i, max_exponent(p@));
        }
        cs.push(c);
        i = i + 1;
    }
    assert(polys_view(cs@) =~= coefficients_in(p@, variable, d as nat));
    cs
}

/// One row of the Sylvester matrix of two coefficient lists.
fn sylvester_row(
    lc: &Vec<Polynomial>,
    rc: &Vec<Polynomial>,
    dl: usize,
    dr: usize,
    row: usize,
    Ghost(k): Ghost<nat>,
) -> (r: Vec<Polynomial>)
    requires
        lc@.len() == dl + 1,
        rc@.len() == dr + 1,
        all_polys_wf(lc@),
        all_polys_wf(rc@),
        forall|i: int| 0 <= i < lc@.len() ==> exponents_bounded((#[trigger] lc@[i])@, k),
        forall|i: int| 0 <= i < rc@.len() ==> exponents_bounded((#[trigger] rc@[i])@, k),
        row < dl + dr,
        dl + dr <= usize::MAX,
    ensures
        r@.len() == dl + dr,
        all_polys_wf(r@),
        forall|j: int| 0 <= j < r@.len() ==> exponents_bounded((#[trigger] r@[j])@, k),
        polys_view(r@) == sylvester(polys_view(lc@), polys_view(rc@), dl as nat, dr as nat)[row as int],
{
    let size = dl + dr;
    let ghost lcv = polys_view(lc@);
    let ghost rcv = polys_view(rc@);
    let mut out: Vec<Polynomial> = Vec::new();
    let mut col: usize = 0;
    while col < size
        invariant
            size == dl + dr,
            lc@.len() == dl + 1,
            rc@.len() == dr + 1,
            lcv == polys_view(lc@),
            rcv == polys_view(rc@),
            all_polys_wf(lc@),
            all_polys_wf(rc@),
            forall|i: int| 0 <= i < lc@.len() ==> exponents_bounded((#[trigger] lc@[i])@, k),
            forall|i: int| 0 <= i < rc@.len() ==> exponents_bounded((#[trigger] rc@[i])@, k),
            row < size,
            col <= size,
            out@.len() == col,
            all_polys_wf(out@),
            forall|j: int| 0 <= j < out@.len() ==> exponents_bounded((#[trigger] out@[j])@, k),
            forall|j: int|
                0 <= j < col ==> (#[trigger] out@[j])@ == sylvester_entry(
                    lcv,
                    rcv,
                    dl as int,
                    dr as int,
                    row as int,
                    j,
                ),
        decreases size - col,
    {
        let entry = if row < dr {
            if row <= col && col - row <= dl {
                lc[col - row].duplicate()
            } else {
                Polynomial::zero()
            }
        } else {
            let r = row - dr;
            if r <= col && col - r <= dr {
                rc[col - r].duplicate()
            } else {
                Polynomial::zero()
            }
        };
        proof {
            if entry@.len() == 0 {
                assert(exponents_bounded(entry@, k));
            }
        }
        out.push(entry);
        col = col + 1;
    }
    assert(polys_view(out@) =~= sylvester(lcv, rcv, dl as nat, dr as nat)[row as int]);
    out
}

/// The resultant of two polynomials in `variable`: the determinant of their
/// Sylvester matrix, with the cases where one of them does not depend on
/// `variable` answered directly.
pub fn resultant(left: &Polynomial, right: &Polynomial, variable: Variable) -> (r: Polynomial)
    requires
        left.wf(),
        right.wf(),
        resultant_fits(left@, right@, variable),
    ensures
        r.wf(),
        r@ == resultant_terms(left@, right@, variable),
{
    let dl = left.degree(variable);
    let dr = right.degree(variable);
    let ghost ml = max_exponent(left@);
    let ghost mr = max_exponent(right@);
    proof {
        lemma_degree_le_max_exponent(left@, variable);
        lemma_degree_le_max_exponent(right@, variable);
        lemma_max_exponent_bounds(left@);
        lemma_max_exponent_bounds(right@);
    }
    if dl == 0 && dr == 0 {
        return Polynomial::one();
    }
    if dl == 0 {
        let c = left.coefficient_in(variable, 0);
        proof {
            lemma_coefficient_in_bounded(left@, variable, 0, ml);
            lemma_max_exponent_le(c@, ml);
            assert(max_exponent(c@) * dr <= usize::MAX) by (nonlinear_arith)
                requires
                    max_exponent(c@) <= ml,
                    (dl + dr) * (ml + mr) <= usize::MAX,
                    dl == 0,
            ;
        }
        return c.pow(dr);
    }
    if dr == 0 {
        let c = right.coefficient_in(variable, 0);
        proof {
            lemma_coefficient_in_bounded(right@, variable, 0, mr);
            lemma_max_exponent_le(c@, mr);
            assert(max_exponent(c@) * dl <= usize::MAX) by (nonlinear_arith)
                requires
                    max_exponent(c@) <= mr,
                    (dl + dr) * (ml + mr) <= usize::MAX,
                    dr == 0,
            ;
        }
        return c.pow(dl);
    }
    let ghost k: nat = ml + mr;
    proof {
        assert(dl + dr <= usize::MAX && dl < usize::MAX && dr < usize::MAX) by (nonlinear_arith)
            requires
                (dl + dr) * (ml + mr) <= usize::MAX,
                1 <= dl <= ml,
                1 <= dr <= mr,
        ;
    }
    let lc = coefficient_list(left, variable, dl);
    let rc = coefficient_list(right, variable, dr);
    proof {
        assert forall|i: int| 0 <= i < lc@.len() implies exponents_bounded((#[trigger] lc@[i])@, k) by {
            lemma_bounded_weaken(lc@[i]@, ml, k);
        }
        assert forall|i: int| 0 <= i < rc@.len() implies exponents_bounded((#[trigger] rc@[i])@, k) by {
            lemma_bounded_weaken(rc@[i]@, mr, k);
        }
    }
    let size = dl + dr;
    let ghost target = sylvester(polys_view(lc@), polys_view(rc@), dl as nat, dr as nat);
    let mut matrix: Vec<Vec<Polynomial>> = Vec::new();
    let mut row: usize = 0;
    while row < size
        invariant
            size == dl + dr,
            lc@.len() == dl + 1,
            rc@.len() == dr + 1,
            all_polys_wf(lc@),
            all_polys_wf(rc@),
            forall|i: int| 0 <= i < lc@.len() ==> exponents_bounded((#[trigger] lc@[i])@, k),
            forall|i: int| 0 <= i < rc@.len() ==> exponents_bounded((#[trigger] rc@[i])@, k),
            target == sylvester(polys_view(lc@), polys_view(rc@), dl as nat, dr as nat),
            row <= size,
            matrix@.len() == row,
            forall|i: int|
                0 <= i < row ==> {
                    &&& (#[trigger] matrix@[i])@.len() == size
                    &&& all_polys_wf(matrix@[i]@)
                    &&& polys_view(matrix@[i]@) == target[i]
                    &&& forall|j: int|
                        0 <= j < size ==> exponents_bounded((#[trigger] matrix@[i]@[j])@, k)
                },
        decreases size - row,
    {
        let line = sylvester_row(&lc, &rc, dl, dr, row, Ghost(k));
        matrix.push(line);
        row = row + 1;
    }
    proof {
        assert(matrix_view(matrix@) =~= target);
        assert(matrix_ok(matrix@, k));
        assert(matrix@.len() * k <= usize::MAX);
    }
    determinant(&matrix, Ghost(k))
}


/// Appends `p` unless it is zero or already listed.
fn push_unique_poly(list: &mut Vec<Polynomial>, p: Polynomial)
    requires
        p.wf(),
        all_polys_wf(old(list)@),
    ensures
        all_polys_wf(final(list)@),
        polys_view(final(list)@) == push_unique(polys_view(old(list)@), p@),
{
    if p.is_zero() {
        return;
    }
    let mut i: usize = 0;
    while i < list.len()
        invariant
            p.wf(),
            all_polys_wf(list@),
            i <= list@.len(),
            forall|j: int| 0 <= j < i ==> (#[trigger] list@[j])@ != p@,
        decreases list@.len() - i,
    {
        if list[i].equals(&p) {
            proof {
                assert(polys_view(list@)[i as int] == p@);
                assert(polys_view(list@).contains(p@));
            }
            return;
        }
        i = i + 1;
    }
    proof {
        assert(!polys_view(list@).contains(p@)) by {
            if polys_view(list@).contains(p@) {
                let j = choose|j: int| 0 <= j < polys_view(list@).len() && polys_view(list@)[j] == p@;
                assert(list@[j]@ == p@);
            }
        }
    }
    let ghost before = list@;
    list.push(p);
    proof {
        assert(polys_view(list@) =~= polys_view(before).push(p@));
    }
}

/// A polynomial's resultant with its derivative fits when its resultant
/// with itself does, and its degree leaves room to count up to it.
proof fn lemma_self_fits(p: Seq<TermView>, v: usize)
    requires
        resultant_fits(p, p, v),
        forall|i: int| 0 <= i < p.len() ==> crate::monomial::powers_wf((#[trigger] p[i]).0),
    ensures
        degree_of(p, v) < usize::MAX,
        resultant_fits(p, derivative_terms(p, v), v),
{
    let d = degree_of(p, v);
    let m = max_exponent(p);
    lemma_degree_le_max_exponent(p, v);
    lemma_max_exponent_bounds(p);
    lemma_derivative_bounded(p, v, m);
    lemma_max_exponent_le(derivative_terms(p, v), m);
    lemma_degree_of(p, v, d);
    lemma_derivative_degree(p, v, d);
    lemma_degree_of(derivative_terms(p, v), v, d);
    let dd = degree_of(derivative_terms(p, v), v);
    let md = max_exponent(derivative_terms(p, v));
    assert((d + dd) * (m + md) <= usize::MAX) by (nonlinear_arith)
        requires
            (d + d) * (m + m) <= usize::MAX,
            dd <= d,
            md <= m,
    ;
    assert(d < usize::MAX) by (nonlinear_arith)
        requires
            (d + d) * (m + m) <= usize::MAX,
            d <= m,
    ;
}

/// The projection set of `polynomials` in `variable`: every nonzero
/// coefficient in `variable`, the resultant of each polynomial that depends
/// on `variable` with its derivative, and the resultant of every pair, each
/// listed once.
pub fn project(polynomials: &[Polynomial], variable: Variable) -> (r: Vec<Polynomial>)
    requires
        all_polys_wf(polynomials@),
        projection_fits(polys_view(polynomials@), variable),
    ensures
        all_polys_wf(r@),
        polys_view(r@) == project_terms(polys_view(polynomials@), variable),
{
    let ghost ps = polys_view(polynomials@);
    let ghost singles = singles_from(Seq::empty(), ps, variable, 0);
    let mut result: Vec<Polynomial> = Vec::new();
    let n = polynomials.len();
    let mut i: usize = 0;
    proof {
        assert(polys_view(result@) =~= Seq::<Seq<TermView>>::empty());
    }
    while i < n
        invariant
            n == polynomials@.len(),
            ps == polys_view(polynomials@),
            all_polys_wf(polynomials@),
            projection_fits(ps, variable),
            i <= n,
            all_polys_wf(result@),
            singles == singles_from(polys_view(result@), ps, variable, i as int),
        decreases n - i,
    {
        let p = &polynomials[i];
        let ghost pv = ps[i as int];
        let ghost start = polys_view(result@);
        let d = p.degree(variable);
        proof {
            assert(pv == p@);
            assert(resultant_fits(ps[i as int], ps[i as int], variable));
            p.lemma_wf();
            lemma_self_fits(p@, variable);
        }
        let mut j: usize = 0;
        while j < d + 1
            invariant
                p.wf(),
                d == degree_of(p@, variable),
                d < usize::MAX,
                j <= d + 1,
                all_polys_wf(result@),
                coefficients_from(start, p@, variable, 0, d as int) == coefficients_from(
                    polys_view(result@),
                    p@,
                    variable,
                    j as int,
                    d as int,
                ),
            decreases d + 1 - j,
        {
            let c = p.coefficient_in(variable, j);
            push_unique_poly(&mut result, c);
            j = j + 1;
        }
        if d > 0 {
            let derivative = p.derivative(variable);
            let res = resultant(p, &derivative, variable);
            push_unique_poly(&mut result, res);
        }
        proof {
            assert(polys_view(result@) == project_single(start, pv, variable));
        }
        i = i + 1;
    }
    let ghost target = project_terms(ps, variable);
    let mut left: usize = 0;
    while left < n
        invariant
            n == polynomials@.len(),
            ps == polys_view(polynomials@),
            all_polys_wf(polynomials@),
            projection_fits(ps, variable),
            left <= n,
            all_polys_wf(result@),
            target == pairs_from(polys_view(result@), ps, variable, left as int, left + 1),
        decreases n - left,
    {
        let mut right: usize = left + 1;
        while right < n
            invariant
                n == polynomials@.len(),
                ps == polys_view(polynomials@),
                all_polys_wf(polynomials@),
                projection_fits(ps, variable),
                left < n,
                left < right <= n,
                all_polys_wf(result@),
                target == pairs_from(polys_view(result@), ps, variable, left as int, right as int),
            decreases n - right,
        {
            proof {
                assert(resultant_fits(ps[left as int], ps[right as int], variable));
                assert(ps[left as int] == polynomials@[left as int]@);
                assert(ps[right as int] == polynomials@[right as int]@);
            }
            let res = resultant(&polynomials[left], &polynomials[right], variable);
            push_unique_poly(&mut result, res);
            right = right + 1;
        }
        left = left + 1;
    }
    result
}


/// The list after the polynomials of the atoms of `f`, each added when not
/// listed yet, left to right.
pub open spec fn collect_polys(f: FormulaView, list: Seq<Seq<TermView>>) -> Seq<Seq<TermView>>
    decreases f,
{
    match f {
        FormulaView::Atom(p, _) => if list.contains(p) {
            list
        } else {
            list.push(p)
        },
        FormulaView::Not(b) => collect_polys(*b, list),
        FormulaView::And(fs) => collect_all(fs, list),
        FormulaView::Or(fs) => collect_all(fs, list),
        FormulaView::Quantified(_, _, b) => collect_polys(*b, list),
        _ => list,
    }
}

/// The list after the atoms of every formula of `fs`, in order.
pub open spec fn collect_all(fs: Seq<FormulaView>, list: Seq<Seq<TermView>>) -> Seq<Seq<TermView>>
    decreases fs,
{
    if fs.len() == 0 {
        list
    } else {
        collect_polys(fs.last(), collect_all(fs.drop_last(), list))
    }
}

/// The polynomials of a formula's atoms, each once, in order of appearance.
pub open spec fn formula_polys(f: FormulaView) -> Seq<Seq<TermView>> {
    collect_polys(f, Seq::empty())
}

/// `order[i]` occurs at another position too.
pub open spec fn occurs_twice(order: Seq<usize>, i: int) -> bool {
    exists|j: int| 0 <= j < order.len() && j != i && order[j] == order[i]
}

/// Some variable occurs twice in the order.
pub open spec fn has_duplicate(order: Seq<usize>) -> bool {
    exists|i: int| 0 <= i < order.len() && #[trigger] occurs_twice(order, i)
}

/// `v` occurs in one of the polynomials but not in the order.
pub open spec fn is_missing(ps: Seq<Seq<TermView>>, order: Seq<usize>, v: usize) -> bool {
    &&& exists|i: int| 0 <= i < ps.len() && #[trigger] has_variable(ps[i], v)
    &&& !order.contains(v)
}

/// Some variable of the polynomials is not in the order.
pub open spec fn has_missing(ps: Seq<Seq<TermView>>, order: Seq<usize>) -> bool {
    exists|v: usize| #[trigger] is_missing(ps, order, v)
}

/// Level `j` of the projection stack: the polynomials after eliminating the
/// last `j` variables of the order, last first.
pub open spec fn level(ps: Seq<Seq<TermView>>, order: Seq<usize>, j: nat) -> Seq<Seq<TermView>>
    decreases j,
{
    if j == 0 {
        ps
    } else {
        project_terms(level(ps, order, (j - 1) as nat), order[order.len() - j])
    }
}

/// Every projection of the stack fits.
pub open spec fn stack_fits(ps: Seq<Seq<TermView>>, order: Seq<usize>) -> bool {
    forall|j: nat| j < order.len() ==> projection_fits(#[trigger] level(ps, order, j), order[order.len() - 1 - j])
}

/// Appends `p` unless it is already listed (zero included).
fn push_new(list: &mut Vec<Polynomial>, p: &Polynomial)
    requires
        p.wf(),
        all_polys_wf(old(list)@),
    ensures
        all_polys_wf(final(list)@),
        polys_view(final(list)@) == if polys_view(old(list)@).contains(p@) {
            polys_view(old(list)@)
        } else {
            polys_view(old(list)@).push(p@)
        },
{
    let mut i: usize = 0;
    while i < list.len()
        invariant
            p.wf(),
            all_polys_wf(list@),
            i <= list@.len(),
            forall|j: int| 0 <= j < i ==> (#[trigger] list@[j])@ != p@,
        decreases list@.len() - i,
    {
        if list[i].equals(p) {
            proof {
                assert(polys_view(list@)[i as int] == p@);
            }
            return;
        }
        i = i + 1;
    }
    proof {
        assert(!polys_view(list@).contains(p@)) by {
            if polys_view(list@).contains(p@) {
                let j = choose|j: int| 0 <= j < polys_view(list@).len() && polys_view(list@)[j] == p@;
                assert(list@[j]@ == p@);
            }
        }
    }
    let ghost before = list@;
    list.push(p.duplicate());
    proof {
        assert(polys_view(list@) =~= polys_view(before).push(p@));
    }
}

/// Adds the polynomials of the atoms of `formula`.
fn collect_formula_polynomials(formula: &Formula, polys: &mut Vec<Polynomial>)
    requires
        formula_wf(*formula),
        all_polys_wf(old(polys)@),
    ensures
        all_polys_wf(final(polys)@),
        polys_view(final(polys)@) == collect_polys(formula@, polys_view(old(polys)@)),
    decreases formula,
{
    match formula {
        Formula::True | Formula::False => {},
        Formula::Atom(atom) => {
            push_new(polys, &atom.polynomial);
        },
        Formula::Not(body) => {
            collect_formula_polynomials(body, polys);
        },
        Formula::And(formulas) => {
            collect_list_polynomials(formulas, polys);
        },
        Formula::Or(formulas) => {
            collect_list_polynomials(formulas, polys);
        },
        Formula::Quantified { body, .. } => {
            collect_formula_polynomials(body, polys);
        },
    }
}

/// Adds the polynomials of the atoms of every formula of the list.
fn collect_list_polynomials(formulas: &Vec<Formula>, polys: &mut Vec<Polynomial>)
    requires
        crate::formula::all_wf(formulas@),
        all_polys_wf(old(polys)@),
    ensures
        all_polys_wf(final(polys)@),
        polys_view(final(polys)@) == collect_all(views_of(formulas@), polys_view(old(polys)@)),
    decreases formulas,
{
    let ghost start = polys_view(polys@);
    let mut i: usize = 0;
    proof {
        assert(formulas@.take(0) =~= Seq::<Formula>::empty());
    }
    while i < formulas.len()
        invariant
            crate::formula::all_wf(formulas@),
            i <= formulas@.len(),
            all_polys_wf(polys@),
            polys_view(polys@) == collect_all(views_of(formulas@.take(i as int)), start),
        decreases formulas@.len() - i,
    {
        proof {
            lemma_member_decreases(formulas, i as int);
            lemma_all_wf_member(formulas@, i as int);
            let t1 = formulas@.take(i + 1);
            assert(t1.drop_last() =~= formulas@.take(i as int));
            assert(views_of(t1).drop_last() =~= views_of(formulas@.take(i as int)));
            assert(t1.last() == formulas@[i as int]);
        }
        collect_formula_polynomials(&formulas[i], polys);
        i = i + 1;
    }
    proof {
        assert(formulas@.take(i as int) =~= formulas@);
    }
}

/// The first variable of the order that occurs in it twice, if any.
pub(crate) fn find_duplicate(order: &[Variable]) -> (d: Option<Variable>)
    ensures
        d is None <==> !has_duplicate(order@),
        d matches Some(x) ==> exists|i: int|
            0 <= i < order@.len() && occurs_twice(order@, i) && order@[i] == x && forall|j: int|
                0 <= j < i ==> !#[trigger] occurs_twice(order@, j),
{
    let n = order.len();
    let mut i: usize = 0;
    while i < n
        invariant
            n == order@.len(),
            i <= n,
            forall|j: int| 0 <= j < i ==> !#[trigger] occurs_twice(order@, j),
        decreases n - i,
    {
        let mut j: usize = 0;
        while j < n
            invariant
                n == order@.len(),
                i < n,
                j <= n,
                forall|t: int| 0 <= t < i ==> !#[trigger] occurs_twice(order@, t),
                forall|t: int| 0 <= t < j ==> t == i || order@[t] != order@[i as int],
            decreases n - j,
        {
            if j != i && order[j] == order[i] {
                proof {
                    assert(occurs_twice(order@, i as int));
                }
                return Some(order[i]);
            }
            j = j + 1;
        }
        i = i + 1;
    }
    proof {
        assert(!has_duplicate(order@));
    }
    None
}

/// Whether `v` is one of the order's variables.
fn contains_variable(order: &[Variable], v: Variable) -> (b: bool)
    ensures
        b == order@.contains(v),
{
    let mut i: usize = 0;
    while i < order.len()
        invariant
            i <= order@.len(),
            forall|j: int| 0 <= j < i ==> order@[j] != v,
        decreases order@.len() - i,
    {
        if order[i] == v {
            proof {
                assert(order@[i as int] == v);
            }
            return true;
        }
        i = i + 1;
    }
    false
}

/// The least variable of the polynomials that is not in the order, if any.
fn find_missing(polys: &Vec<Polynomial>, order: &[Variable]) -> (m: Option<Variable>)
    ensures
        m is None <==> !has_missing(polys_view(polys@), order@),
        m matches Some(x) ==> is_missing(polys_view(polys@), order@, x) && forall|w: usize|
            w < x ==> !#[trigger] is_missing(polys_view(polys@), order@, w),
{
    let ghost ps = polys_view(polys@);
    let mut best: Option<Variable> = None;
    let mut i: usize = 0;
    while i < polys.len()
        invariant
            ps == polys_view(polys@),
            i <= polys@.len(),
            best is None ==> forall|v: usize, t: int|
                0 <= t < i && #[trigger] has_variable(ps[t], v) ==> order@.contains(v),
            best matches Some(b) ==> {
                &&& is_missing(ps, order@, b)
                &&& forall|v: usize, t: int|
                    0 <= t < i && #[trigger] has_variable(ps[t], v) && !order@.contains(v) ==> b <= v
            },
        decreases polys@.len() - i,
    {
        let vs = polys[i].variables();
        let mut j: usize = 0;
        let ghost before = best;
        while j < vs.len()
            invariant
                ps == polys_view(polys@),
                i < polys@.len(),
                j <= vs@.len(),
                forall|v: usize| vs@.contains(v) <==> has_variable(ps[i as int], v),
                best is None ==> forall|v: usize, t: int|
                    0 <= t < i && #[trigger] has_variable(ps[t], v) ==> order@.contains(v),
                best is None ==> forall|k: int| 0 <= k < j ==> order@.contains(#[trigger] vs@[k]),
                best matches Some(b) ==> {
                    &&& is_missing(ps, order@, b)
                    &&& forall|v: usize, t: int|
                        0 <= t < i && #[trigger] has_variable(ps[t], v) && !order@.contains(v) ==> b <= v
                    &&& forall|k: int| 0 <= k < j && !order@.contains(#[trigger] vs@[k]) ==> b <= vs@[k]
                },
            decreases vs@.len() - j,
        {
            let v = vs[j];
            proof {
                assert(ps[i as int] == polys@[i as int]@);
                assert(vs@.contains(v));
            }
            if !contains_variable(order, v) {
                let better = match best {
                    None => true,
                    Some(b) => v < b,
                };
                if better {
                    best = Some(v);
                }
            }
            j = j + 1;
        }
        proof {
            assert forall|v: usize, t: int|
                0 <= t < i + 1 && #[trigger] has_variable(ps[t], v) && !order@.contains(v) implies (
                best matches Some(b) && b <= v) by {
                if t == i {
                    assert(vs@.contains(v));
                    let k = choose|k: int| 0 <= k < vs@.len() && vs@[k] == v;
                }
            }
        }
        i = i + 1;
    }
    proof {
        if best is None {
            assert forall|v: usize| !#[trigger] is_missing(ps, order@, v) by {
                if is_missing(ps, order@, v) {
                    let t = choose|t: int| 0 <= t < ps.len() && #[trigger] has_variable(ps[t], v);
                }
            }
        } else {
            let b = best->0;
            assert forall|w: usize| w < b implies !#[trigger] is_missing(ps, order@, w) by {
                if is_missing(ps, order@, w) {
                    let t = choose|t: int| 0 <= t < ps.len() && #[trigger] has_variable(ps[t], w);
                }
            }
        }
    }
    best
}


/// The projection stack of a formula: the polynomials of its atoms, then
/// their projections, eliminating the order's variables from the last to the
/// first.  Fails on a variable listed twice (the first such one in the
/// order), then on a variable of the polynomials that the order lacks (the
/// least one).
pub fn build_projection_stack(formula: &Formula, variable_order: &[Variable]) -> (r: Result<
    ProjectionStack,
    ProjectionError,
>)
    requires
        formula_wf(*formula),
        !has_duplicate(variable_order@) && !has_missing(formula_polys(formula@), variable_order@)
            ==> stack_fits(formula_polys(formula@), variable_order@),
    ensures
        match r {
            Err(ProjectionError::DuplicateVariable(x)) => exists|i: int|
                0 <= i < variable_order@.len() && occurs_twice(variable_order@, i)
                    && variable_order@[i] == x && forall|j: int|
                    0 <= j < i ==> !#[trigger] occurs_twice(variable_order@, j),
            Err(ProjectionError::MissingVariable(x)) => {
                &&& !has_duplicate(variable_order@)
                &&& is_missing(formula_polys(formula@), variable_order@, x)
                &&& forall|w: usize|
                    w < x ==> !#[trigger] is_missing(formula_polys(formula@), variable_order@, w)
            },
            Ok(stack) => {
                &&& stack.variable_order@ == variable_order@
                &&& stack.levels@.len() == variable_order@.len() + 1
                &&& forall|j: int|
                    0 <= j < stack.levels@.len() ==> {
                        &&& all_polys_wf((#[trigger] stack.levels@[j])@)
                        &&& polys_view(stack.levels@[j]@) == level(
                            formula_polys(formula@),
                            variable_order@,
                            j as nat,
                        )
                    }
                &&& forall|j: int, i: int, u: usize|
                    0 <= j < stack.levels@.len() && 0 <= i < stack.levels@[j]@.len()
                        && #[trigger] has_variable(stack.levels@[j]@[i]@, u) ==> level_variables(
                        formula_polys(formula@),
                        variable_order@,
                        j,
                    ).contains(u)
                &&& forall|i: int, u: usize|
                    0 <= i < stack.levels@.last()@.len() ==> !#[trigger] has_variable(
                        stack.levels@.last()@[i]@,
                        u,
                    )
            },
        },
        r is Err <==> (has_duplicate(variable_order@) || has_missing(
            formula_polys(formula@),
            variable_order@,
        )),
{
    let mut polys: Vec<Polynomial> = Vec::new();
    proof {
        assert(polys_view(polys@) =~= Seq::<Seq<TermView>>::empty());
    }
    collect_formula_polynomials(formula, &mut polys);
    let ghost ps = formula_polys(formula@);
    if let Some(d) = find_duplicate(variable_order) {
        return Err(ProjectionError::DuplicateVariable(d));
    }
    if let Some(m) = find_missing(&polys, variable_order) {
        return Err(ProjectionError::MissingVariable(m));
    }
    let n = variable_order.len();
    proof {
        lemma_list_over_own(ps);
        assert(level_variables(ps, variable_order@, 0) =~= list_variables(ps));
    }
    let mut levels: Vec<Vec<Polynomial>> = Vec::new();
    levels.push(polys);
    let mut k: usize = n;
    while k > 0
        invariant
            n == variable_order@.len(),
            k <= n,
            stack_fits(ps, variable_order@),
            levels@.len() == n - k + 1,
            forall|j: int|
                0 <= j < levels@.len() ==> {
                    &&& all_polys_wf((#[trigger] levels@[j])@)
                    &&& polys_view(levels@[j]@) == level(ps, variable_order@, j as nat)
                    &&& all_over(polys_view(levels@[j]@), level_variables(ps, variable_order@, j))
                },
        decreases k,
    {
        k = k - 1;
        let last = levels.len() - 1;
        proof {
            let j: nat = (n - k - 1) as nat;
            let cur = polys_view(levels@[last as int]@);
            assert(all_monomials_wf(cur)) by {
                assert forall|i: int| 0 <= i < cur.len() implies monomials_wf(#[trigger] cur[i]) by {
                    assert(cur[i] == levels@[last as int]@[i]@);
                    levels@[last as int]@[i].lemma_wf();
                }
            }
            let lv = level_variables(ps, variable_order@, j as int);
            lemma_project_over(cur, variable_order@[k as int], lv);
            assert(lv.remove(variable_order@[k as int]) =~= level_variables(
                ps,
                variable_order@,
                j + 1 as int,
            ));
            assert(j < variable_order@.len());
            assert(projection_fits(level(ps, variable_order@, j), variable_order@[n - 1 - j]));
            assert(polys_view(levels@[last as int]@) == level(ps, variable_order@, j));
            assert(level(ps, variable_order@, j + 1) == project_terms(
                level(ps, variable_order@, j),
                variable_order@[k as int],
            ));
        }
        let next = project(levels[last].as_slice(), variable_order[k]);
        let ghost before = levels@;
        levels.push(next);
        proof {
            assert forall|j: int|
                0 <= j < levels@.len() implies {
                    &&& all_polys_wf((#[trigger] levels@[j])@)
                    &&& polys_view(levels@[j]@) == level(ps, variable_order@, j as nat)
                    &&& all_over(polys_view(levels@[j]@), level_variables(ps, variable_order@, j))
                } by {
                if j < before.len() {
                    assert(levels@[j] == before[j]);
                }
            }
        }
    }
    let mut order: Vec<Variable> = Vec::new();
    let mut i: usize = 0;
    while i < n
        invariant
            n == variable_order@.len(),
            i <= n,
            order@ == variable_order@.take(i as int),
        decreases n - i,
    {
        order.push(variable_order[i]);
        i = i + 1;
        proof {
            assert(order@ =~= variable_order@.take(i as int));
        }
    }
    proof {
        assert(variable_order@.take(n as int) =~= variable_order@);
        assert forall|j: int, i: int, u: usize|
            0 <= j < levels@.len() && 0 <= i < levels@[j]@.len() && #[trigger] has_variable(
                levels@[j]@[i]@,
                u,
            ) implies level_variables(ps, variable_order@, j).contains(u) by {
            let pv = polys_view(levels@[j]@);
            assert(pv[i] == levels@[j]@[i]@);
            assert(terms_over(pv[i], level_variables(ps, variable_order@, j)));
            lemma_over_has_variable(pv[i], level_variables(ps, variable_order@, j), u);
        }
        assert forall|i: int, u: usize|
            0 <= i < levels@.last()@.len() implies !#[trigger] has_variable(levels@.last()@[i]@, u) by {
            if has_variable(levels@.last()@[i]@, u) {
                assert(has_variable(levels@[n as int]@[i]@, u));
                let lv = level_variables(ps, variable_order@, n as int);
                assert(lv.contains(u));
                assert(list_variables(ps).contains(u));
                let w = choose|w: int| 0 <= w < ps.len() && #[trigger] has_variable(ps[w], u);
                assert(!is_missing(ps, variable_order@, u));
                let t = choose|t: int| 0 <= t < variable_order@.len() && variable_order@[t] == u;
                assert(variable_order@[t] != u);
            }
        }
    }
    Ok(ProjectionStack { variable_order: order, levels })
}


/// A canonical polynomial free of `v` is its own coefficient of `x_v ^ 0`.
pub proof fn lemma_constant_coefficient_is_self(s: Seq<TermView>, v: usize)
    requires
        crate::polynomial::terms_canonical(s),
        degree_of(s, v) == 0,
    ensures
        coefficient_in_terms(s, v, 0) == s,
    decreases s.len(),
{
    if s.len() > 0 {
        let s0 = s.drop_last();
        let t = s.last();
        assert(s[s.len() - 1] == t);
        crate::evaluation::lemma_canonical_drop_last(s);
        crate::polynomial::lemma_degree_of(s, v, 0);
        crate::polynomial::lemma_degree_of(s0, v, 0);
        assert(crate::monomial::exponent_of(t.0, v) <= 0);
        assert(crate::polynomial::degree_bounded(s0, v, 0)) by {
            assert forall|i: int| 0 <= i < s0.len() implies crate::monomial::exponent_of((#[trigger] s0[i]).0, v) <= 0 by {
                assert(s0[i] == s[i]);
            }
        }
        lemma_constant_coefficient_is_self(s0, v);
        // the monomial keeps its exponents when that of `v` is set to zero
        crate::monomial::lemma_set_exponent(t.0, v, 0);
        let m = crate::monomial::set_exponent(t.0, v, 0);
        crate::monomial::law_monomial_exponents_determine(m, t.0);
        assert(coefficient_in_terms(s, v, 0) == crate::polynomial::insert_term(s0, t.0, t.1));
        let r = crate::polynomial::insert_term(s0, t.0, t.1);
        crate::polynomial::lemma_insert_canonical(s0, t.0, t.1);
        assert(s0.push(t) =~= s);
        assert forall|k: int| 0 <= k < s0.len() implies (#[trigger] s0[k]).1.1 > 0 by {
            assert(crate::polynomial::rat_reduced(s0[k].1));
        }
        assert forall|mm: Seq<(usize, usize)>| #[trigger] crate::polynomial::coefficient_of(r, mm)
            == crate::polynomial::coefficient_of(s, mm) by {
            crate::polynomial::lemma_insert_coefficient(s0, t.0, t.1, mm);
            if mm == t.0 {
                assert forall|k: int| 0 <= k < s0.len() implies s0[k].0 != mm by {
                    assert(crate::monomial::mono_lt(s[k].0, s[s.len() - 1].0));
                    crate::monomial::lemma_mono_lt_irreflexive(s[k].0);
                }
                crate::polynomial::lemma_coefficient_absent(s0, mm);
                crate::polynomial::lemma_add_zero_left(t.1);
                crate::polynomial::lemma_coefficient_at(s, s.len() - 1);
            } else {
                crate::polynomial::lemma_coefficient_push(s0, t, mm);
            }
        }
        crate::polynomial::lemma_canonical_unique(r, s);
    }
}

/// When one of two canonical polynomials does not depend on `v`, their
/// resultant in `v`, in either order, is that polynomial raised to the
/// other's degree in `v` (one when both are free of `v`).
pub proof fn law_resultant_with_constant(l: Seq<TermView>, r: Seq<TermView>, v: usize)
    requires
        crate::polynomial::terms_canonical(l),
        crate::polynomial::terms_canonical(r),
        degree_of(r, v) == 0,
    ensures
        resultant_terms(l, r, v) == pow_terms(r, degree_of(l, v)),
        resultant_terms(r, l, v) == pow_terms(r, degree_of(l, v)),
{
    lemma_constant_coefficient_is_self(r, v);
}

} // verus!
