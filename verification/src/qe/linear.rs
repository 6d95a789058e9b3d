//! Bounds on one variable read off linear atoms, and the pruning of a
//! conjunction to its tightest bounds.
//!
//! An atom `c1 * x + c0 rel 0` in the single variable `x` with `c1 != 0`
//! bounds `x` by the root `-c0 / c1`: from above, from below, or to a
//! point, with the relation turned around when `c1` is negative.
use crate::formula::{all_wf, formula_wf, lemma_all_wf_member, lemma_views_of, views_of, Formula, FormulaView, Relation};
use crate::evaluation::values_positive;
use crate::formula::eval_view;
use crate::monomial::{exponent_of, mono_lt, powers_wf, Monomial};
use crate::polynomial::{
    coefficient_of, degree_of, evaluate_terms, has_variable, monomial_value, rat_reduced, strictly_increasing,
    terms_canonical, value_of, TermView,
};
use crate::qe::evaluate::{reverse_inequality, reversed};
use crate::qe::simplify::lemma_all_wf_iff;
use crate::rational::{rat_add, rat_div, rat_le, rat_lt, rat_mul, rat_neg, rat_pow, Rational};
use vstd::prelude::*;

verus! {

/// A bound on one variable: from below or above (strict or not), or a point.
pub enum LinearBoundView {
    Lower((int, nat), bool),
    Upper((int, nat), bool),
    Point((int, nat)),
}

/// A bound on one variable by an exact value.
#[derive(Clone, Debug)]
pub enum LinearBound {
    Lower { value: Rational, strict: bool },
    Upper { value: Rational, strict: bool },
    Point(Rational),
}

impl View for LinearBound {
    type V = LinearBoundView;

    open spec fn view(&self) -> LinearBoundView {
        match self {
            LinearBound::Lower { value, strict } => LinearBoundView::Lower(value@, *strict),
            LinearBound::Upper { value, strict } => LinearBoundView::Upper(value@, *strict),
            LinearBound::Point(value) => LinearBoundView::Point(value@),
        }
    }
}

impl LinearBound {
    /// The value is in lowest terms.
    pub open spec fn wf(&self) -> bool {
        match self {
            LinearBound::Lower { value, .. } => value.wf(),
            LinearBound::Upper { value, .. } => value.wf(),
            LinearBound::Point(value) => value.wf(),
        }
    }

    /// An exact copy.
    pub fn duplicate(&self) -> (b: Self)
        requires
            self.wf(),
        ensures
            b@ == self@,
            b.wf(),
    {
        match self {
            LinearBound::Lower { value, strict } => LinearBound::Lower { value: value.duplicate(), strict: *strict },
            LinearBound::Upper { value, strict } => LinearBound::Upper { value: value.duplicate(), strict: *strict },
            LinearBound::Point(value) => LinearBound::Point(value.duplicate()),
        }
    }
}

/// `v` is the one variable of `p`.
pub open spec fn is_sole_variable(p: Seq<TermView>, v: usize) -> bool {
    forall|u: usize| #[trigger] has_variable(p, u) <==> u == v
}

/// The one variable of `p`, when it has exactly one.
pub open spec fn sole_variable(p: Seq<TermView>) -> Option<usize> {
    if exists|v: usize| #[trigger] is_sole_variable(p, v) {
        Some(choose|v: usize| #[trigger] is_sole_variable(p, v))
    } else {
        None
    }
}

/// The bound a relation of `c1 * x + c0` with zero puts on `x`, with the
/// relation turned around for a negative `c1`.
pub open spec fn bound_for(relation: Relation, c1: (int, nat), c0: (int, nat)) -> Option<LinearBoundView> {
    let root = rat_div(rat_neg(c0), c1);
    match if c1.0 < 0 {
        reversed(relation)
    } else {
        relation
    } {
        Relation::Less => Some(LinearBoundView::Upper(root, true)),
        Relation::LessOrEqual => Some(LinearBoundView::Upper(root, false)),
        Relation::Greater => Some(LinearBoundView::Lower(root, true)),
        Relation::GreaterOrEqual => Some(LinearBoundView::Lower(root, false)),
        Relation::Equal => Some(LinearBoundView::Point(root)),
        Relation::NotEqual => None,
    }
}

/// The variable and bound of an atom `c1 * x + c0 rel 0` in one variable,
/// linear in it, other than a disequation.
pub open spec fn linear_bound_view(f: FormulaView) -> Option<(usize, LinearBoundView)> {
    match f {
        FormulaView::Atom(p, relation) => match sole_variable(p) {
            Some(v) => {
                let c1 = coefficient_of(p, seq![(v, 1usize)]);
                let c0 = coefficient_of(p, Seq::<(usize, usize)>::empty());
                if degree_of(p, v) != 1 || c1.0 == 0 {
                    None
                } else {
                    match bound_for(relation, c1, c0) {
                        Some(b) => Some((v, b)),
                        None => None,
                    }
                }
            },
            None => None,
        },
        _ => None,
    }
}

/// The variable and bound of an atom that bounds one variable linearly:
/// `c1 * x + c0 rel 0` with `c1` and `c0` the coefficients of `x` and of
/// the constant term.
pub fn formula_linear_bound(formula: &Formula) -> (r: Option<(usize, LinearBound)>)
    requires
        formula_wf(*formula),
    ensures
        match r {
            Some((v, b)) => b.wf() && linear_bound_view(formula@) == Some((v, b@)),
            None => linear_bound_view(formula@) is None,
        },
{
    let atom = match formula {
        Formula::Atom(atom) => atom,
        _ => return None,
    };
    let p = &atom.polynomial;
    let vs = p.variables();
    if vs.len() != 1 {
        proof {
            if exists|v: usize| #[trigger] is_sole_variable(p@, v) {
                let v = choose|v: usize| #[trigger] is_sole_variable(p@, v);
                assert(has_variable(p@, v));
                assert(vs@.contains(v));
                if vs@.len() >= 2 {
                    assert(has_variable(p@, vs@[0]) && has_variable(p@, vs@[1]));
                    assert(vs@.contains(vs@[0]) && vs@.contains(vs@[1]));
                }
            }
        }
        return None;
    }
    let v = vs[0];
    proof {
        assert forall|u: usize| #[trigger] has_variable(p@, u) <==> u == v by {
            if has_variable(p@, u) {
                assert(vs@.contains(u));
            }
            if u == v {
                assert(vs@.contains(u));
            }
        }
        assert(is_sole_variable(p@, v));
        let c = choose|w: usize| #[trigger] is_sole_variable(p@, w);
        assert(is_sole_variable(p@, c));
        assert(has_variable(p@, c) <==> c == c);
        assert(c == v);
    }
    if p.degree(v) != 1 {
        return None;
    }
    let c1 = p.coefficient(&Monomial::variable(v));
    let c0 = p.coefficient(&Monomial::one());
    if c1.is_zero() {
        return None;
    }
    let root = c0.negated().div(&c1);
    let relation = if c1.is_negative() {
        reverse_inequality(atom.relation)
    } else {
        atom.relation
    };
    match relation {
        Relation::Less => Some((v, LinearBound::Upper { value: root, strict: true })),
        Relation::LessOrEqual => Some((v, LinearBound::Upper { value: root, strict: false })),
        Relation::Greater => Some((v, LinearBound::Lower { value: root, strict: true })),
        Relation::GreaterOrEqual => Some((v, LinearBound::Lower { value: root, strict: false })),
        Relation::Equal => Some((v, LinearBound::Point(root))),
        Relation::NotEqual => None,
    }
}

/// The bound of a member on `var`, when it has one.
pub open spec fn bound_on(f: FormulaView, var: usize) -> Option<LinearBoundView> {
    match linear_bound_view(f) {
        Some((u, b)) => if u == var {
            Some(b)
        } else {
            None
        },
        None => None,
    }
}

/// The variables bounded by the first `n` members, in order of first
/// appearance.
pub open spec fn bound_variables(fs: Seq<FormulaView>, n: int) -> Seq<usize>
    decreases n,
{
    if n <= 0 {
        Seq::<usize>::empty()
    } else {
        let prev = bound_variables(fs, n - 1);
        match linear_bound_view(fs[n - 1]) {
            Some((v, _)) => if prev.contains(v) {
                prev
            } else {
                prev.push(v)
            },
            None => prev,
        }
    }
}

/// The indices and bounds of the first `n` members that bound `var`.
pub open spec fn entries(fs: Seq<FormulaView>, var: usize, n: int) -> Seq<(int, LinearBoundView)>
    decreases n,
{
    if n <= 0 {
        Seq::<(int, LinearBoundView)>::empty()
    } else {
        let prev = entries(fs, var, n - 1);
        match bound_on(fs[n - 1], var) {
            Some(b) => prev.push((n - 1, b)),
            None => prev,
        }
    }
}

/// The first point among the first `n` entries.
pub open spec fn first_point(es: Seq<(int, LinearBoundView)>, n: int) -> Option<(int, (int, nat))>
    decreases n,
{
    if n <= 0 {
        None
    } else {
        let prev = first_point(es, n - 1);
        if prev is Some {
            prev
        } else {
            match es[n - 1].1 {
                LinearBoundView::Point(value) => Some((es[n - 1].0, value)),
                _ => None,
            }
        }
    }
}

/// Some point among the first `n` entries differs from the first one.
pub open spec fn points_conflict(es: Seq<(int, LinearBoundView)>, n: int) -> bool {
    exists|k: int| 0 <= k < n && #[trigger] differs_from_first(es, n, es[k].1)
}

/// A point other than the first point among the first `n` entries.
pub open spec fn differs_from_first(es: Seq<(int, LinearBoundView)>, n: int, b: LinearBoundView) -> bool {
    match (b, first_point(es, n)) {
        (LinearBoundView::Point(value), Some((_, first))) => value != first,
        _ => false,
    }
}

/// The tightest lower bound among the first `n` entries, the first of the
/// tightest: a greater value, or the same value made strict.
pub open spec fn lower_bound(es: Seq<(int, LinearBoundView)>, n: int) -> Option<(int, (int, nat), bool)>
    decreases n,
{
    if n <= 0 {
        None
    } else {
        let prev = lower_bound(es, n - 1);
        match es[n - 1].1 {
            LinearBoundView::Lower(value, strict) => match prev {
                Some((_, current, current_strict)) => if rat_lt(current, value) || (value == current
                    && strict && !current_strict) {
                    Some((es[n - 1].0, value, strict))
                } else {
                    prev
                },
                None => Some((es[n - 1].0, value, strict)),
            },
            _ => prev,
        }
    }
}

/// The tightest upper bound among the first `n` entries, the first of the
/// tightest: a smaller value, or the same value made strict.
pub open spec fn upper_bound(es: Seq<(int, LinearBoundView)>, n: int) -> Option<(int, (int, nat), bool)>
    decreases n,
{
    if n <= 0 {
        None
    } else {
        let prev = upper_bound(es, n - 1);
        match es[n - 1].1 {
            LinearBoundView::Upper(value, strict) => match prev {
                Some((_, current, current_strict)) => if rat_lt(value, current) || (value == current
                    && strict && !current_strict) {
                    Some((es[n - 1].0, value, strict))
                } else {
                    prev
                },
                None => Some((es[n - 1].0, value, strict)),
            },
            _ => prev,
        }
    }
}

/// Index `i` is the index of one of the entries.
pub open spec fn is_entry(es: Seq<(int, LinearBoundView)>, i: int) -> bool {
    exists|k: int| 0 <= k < es.len() && #[trigger] es[k].0 == i
}

/// The members of the first `n` that `drop` does not pick, in order.
pub open spec fn keep(fs: Seq<FormulaView>, drop: spec_fn(int) -> bool, n: int) -> Seq<FormulaView>
    decreases n,
{
    if n <= 0 {
        Seq::<FormulaView>::empty()
    } else if drop(n - 1) {
        keep(fs, drop, n - 1)
    } else {
        keep(fs, drop, n - 1).push(fs[n - 1])
    }
}

/// The index of an optional bound.
pub open spec fn bound_index(b: Option<(int, (int, nat), bool)>) -> Option<int> {
    match b {
        Some((i, _, _)) => Some(i),
        None => None,
    }
}

/// A point outside a lower or upper bound.
pub open spec fn point_outside(
    point: (int, nat),
    lower: Option<(int, (int, nat), bool)>,
    upper: Option<(int, (int, nat), bool)>,
) -> bool {
    ||| (lower matches Some((_, lv, ls)) && (rat_lt(point, lv) || (point == lv && ls)))
    ||| (upper matches Some((_, uv, us)) && (rat_lt(uv, point) || (point == uv && us)))
}

/// Bounds that leave no room.
pub open spec fn bounds_cross(lower: Option<(int, (int, nat), bool)>, upper: Option<(int, (int, nat), bool)>) -> bool {
    match (lower, upper) {
        (Some((_, lv, ls)), Some((_, uv, us))) => rat_lt(uv, lv) || (lv == uv && (ls || us)),
        _ => false,
    }
}

/// Processing the bounds on `var`: whether they contradict each other and
/// the members kept: with a point, the point alone; else the tightest lower
/// and upper bounds.
pub open spec fn bounds_step(fs: Seq<FormulaView>, var: usize) -> (bool, Seq<FormulaView>) {
    let es = entries(fs, var, fs.len() as int);
    let n = es.len() as int;
    if es.len() < 2 {
        (false, fs)
    } else if points_conflict(es, n) {
        (true, fs)
    } else {
        let lower = lower_bound(es, n);
        let upper = upper_bound(es, n);
        match first_point(es, n) {
            Some((pi, pv)) => if point_outside(pv, lower, upper) {
                (true, fs)
            } else {
                (false, keep(fs, |i: int| is_entry(es, i) && i != pi, fs.len() as int))
            },
            None => if bounds_cross(lower, upper) {
                (true, fs)
            } else {
                (
                    false,
                    keep(
                        fs,
                        |i: int| is_entry(es, i) && bound_index(lower) != Some(i) && bound_index(upper) != Some(i),
                        fs.len() as int,
                    ),
                )
            },
        }
    }
}

/// Processing the variables `vars[k..]` in turn, stopping at the first
/// contradiction.
pub open spec fn bounds_run(fs: Seq<FormulaView>, vars: Seq<usize>, k: int) -> (bool, Seq<FormulaView>)
    decreases vars.len() - k,
{
    if k >= vars.len() || k < 0 {
        (false, fs)
    } else {
        let (conflict, next) = bounds_step(fs, vars[k]);
        if conflict {
            (true, next)
        } else {
            bounds_run(next, vars, k + 1)
        }
    }
}

/// What pruning a conjunction to its tightest linear bounds gives.
pub open spec fn univariate_bounds_result(fs: Seq<FormulaView>) -> (bool, Seq<FormulaView>) {
    bounds_run(fs, bound_variables(fs, fs.len() as int), 0)
}

/// The variables bounded by the members, in order of first appearance.
fn collect_bound_variables(formulas: &Vec<Formula>) -> (vs: Vec<usize>)
    requires
        all_wf(formulas@),
    ensures
        vs@ == bound_variables(views_of(formulas@), formulas@.len() as int),
{
    let ghost fs = views_of(formulas@);
    proof {
        lemma_views_of(formulas@);
    }
    let mut vs: Vec<usize> = Vec::new();
    let mut i: usize = 0;
    while i < formulas.len()
        invariant
            all_wf(formulas@),
            fs == views_of(formulas@),
            fs.len() == formulas@.len(),
            forall|j: int| 0 <= j < fs.len() ==> #[trigger] fs[j] == formulas@[j]@,
            i <= formulas@.len(),
            vs@ == bound_variables(fs, i as int),
        decreases formulas@.len() - i,
    {
        proof {
            lemma_all_wf_member(formulas@, i as int);
        }
        if let Some((v, _)) = formula_linear_bound(&formulas[i]) {
            let mut seen = false;
            let mut k: usize = 0;
            while k < vs.len()
                invariant
                    k <= vs@.len(),
                    seen == exists|j: int| 0 <= j < k && vs@[j] == v,
                decreases vs@.len() - k,
            {
                if vs[k] == v {
                    seen = true;
                }
                k = k + 1;
            }
            proof {
                assert(seen == vs@.contains(v));
            }
            if !seen {
                vs.push(v);
            }
        }
        i = i + 1;
    }
    vs
}

/// The indices and bounds of the members that bound `var`, in order.
fn collect_entries(formulas: &Vec<Formula>, var: usize) -> (es: Vec<(usize, LinearBound)>)
    requires
        all_wf(formulas@),
    ensures
        es@.len() == entries(views_of(formulas@), var, formulas@.len() as int).len(),
        forall|k: int|
            0 <= k < es@.len() ==> {
                &&& (#[trigger] es@[k]).0 == entries(views_of(formulas@), var, formulas@.len() as int)[k].0
                &&& es@[k].1@ == entries(views_of(formulas@), var, formulas@.len() as int)[k].1
                &&& es@[k].1.wf()
            },
{
    let ghost fs = views_of(formulas@);
    proof {
        lemma_views_of(formulas@);
    }
    let mut es: Vec<(usize, LinearBound)> = Vec::new();
    let mut i: usize = 0;
    while i < formulas.len()
        invariant
            all_wf(formulas@),
            fs == views_of(formulas@),
            fs.len() == formulas@.len(),
            forall|j: int| 0 <= j < fs.len() ==> #[trigger] fs[j] == formulas@[j]@,
            i <= formulas@.len(),
            es@.len() == entries(fs, var, i as int).len(),
            forall|k: int|
                0 <= k < es@.len() ==> {
                    &&& (#[trigger] es@[k]).0 == entries(fs, var, i as int)[k].0
                    &&& es@[k].1@ == entries(fs, var, i as int)[k].1
                    &&& es@[k].1.wf()
                },
        decreases formulas@.len() - i,
    {
        proof {
            lemma_all_wf_member(formulas@, i as int);
        }
        let ghost before = es@;
        if let Some((v, b)) = formula_linear_bound(&formulas[i]) {
            if v == var {
                es.push((i, b));
            }
        }
        proof {
            assert forall|k: int|
                0 <= k < es@.len() implies {
                    &&& (#[trigger] es@[k]).0 == entries(fs, var, i + 1)[k].0
                    &&& es@[k].1@ == entries(fs, var, i + 1)[k].1
                    &&& es@[k].1.wf()
                } by {
                if k < before.len() {
                    assert(es@[k] == before[k]);
                }
            }
        }
        i = i + 1;
    }
    es
}

/// Keeping the members that a predicate does not pick depends only on the
/// predicate's values at their indices.
proof fn lemma_keep_congruent(fs: Seq<FormulaView>, a: spec_fn(int) -> bool, b: spec_fn(int) -> bool, n: int)
    requires
        forall|i: int| 0 <= i < n ==> #[trigger] a(i) == b(i),
    ensures
        keep(fs, a, n) == keep(fs, b, n),
    decreases n,
{
    if n > 0 {
        lemma_keep_congruent(fs, a, b, n - 1);
    }
}

/// The members not marked, in order.
fn keep_unmarked(formulas: &Vec<Formula>, marks: &Vec<bool>) -> (out: Vec<Formula>)
    requires
        all_wf(formulas@),
        marks@.len() == formulas@.len(),
    ensures
        all_wf(out@),
        views_of(out@) == keep(views_of(formulas@), |i: int| marks@[i], formulas@.len() as int),
{
    let ghost fs = views_of(formulas@);
    let ghost drop = |i: int| marks@[i];
    proof {
        lemma_views_of(formulas@);
    }
    let mut out: Vec<Formula> = Vec::new();
    let mut i: usize = 0;
    proof {
        lemma_views_of(out@);
        assert(views_of(out@) =~= keep(fs, drop, 0));
    }
    while i < formulas.len()
        invariant
            all_wf(formulas@),
            marks@.len() == formulas@.len(),
            fs == views_of(formulas@),
            fs.len() == formulas@.len(),
            forall|j: int| 0 <= j < fs.len() ==> #[trigger] fs[j] == formulas@[j]@,
            drop == (|i: int| marks@[i]),
            i <= formulas@.len(),
            all_wf(out@),
            views_of(out@) == keep(fs, drop, i as int),
        decreases formulas@.len() - i,
    {
        proof {
            lemma_all_wf_member(formulas@, i as int);
        }
        if !marks[i] {
            let g = formulas[i].duplicate();
            let ghost before = out@;
            out.push(g);
            proof {
                assert(out@.drop_last() =~= before);
                lemma_all_wf_iff(out@);
                lemma_all_wf_iff(before);
                assert forall|k: int| 0 <= k < out@.len() implies formula_wf(#[trigger] out@[k]) by {
                    if k < before.len() {
                        assert(out@[k] == before[k]);
                    }
                }
            }
        }
        i = i + 1;
    }
    out
}

/// The view of a found point.
pub open spec fn point_view(p: Option<(usize, Rational)>) -> Option<(int, (int, nat))> {
    match p {
        Some((i, r)) => Some((i as int, r@)),
        None => None,
    }
}

/// The view of a found lower or upper bound.
pub open spec fn side_view(p: Option<(usize, Rational, bool)>) -> Option<(int, (int, nat), bool)> {
    match p {
        Some((i, r, strict)) => Some((i as int, r@, strict)),
        None => None,
    }
}

/// Once a first point is found, later entries keep it.
proof fn lemma_first_point_stays(es: Seq<(int, LinearBoundView)>, k: int, n: int)
    requires
        0 <= k <= n,
        first_point(es, k) is Some,
    ensures
        first_point(es, n) == first_point(es, k),
    decreases n - k,
{
    if n > k {
        lemma_first_point_stays(es, k, n - 1);
    }
}

/// Whether `i` is the index of an entry other than `a` and `b`, for every
/// index of the members.
fn mark_entries(es: &Vec<(usize, LinearBound)>, n: usize, a: Option<usize>, b: Option<usize>) -> (marks: Vec<bool>)
    ensures
        marks@.len() == n,
        forall|i: int|
            0 <= i < n ==> #[trigger] marks@[i] == ((exists|k: int| 0 <= k < es@.len() && es@[k].0 == i)
                && a != Some(i as usize) && b != Some(i as usize)),
{
    let mut marks: Vec<bool> = Vec::new();
    let mut i: usize = 0;
    while i < n
        invariant
            i <= n,
            marks@.len() == i,
            forall|j: int|
                0 <= j < i ==> #[trigger] marks@[j] == ((exists|k: int| 0 <= k < es@.len() && es@[k].0 == j)
                    && a != Some(j as usize) && b != Some(j as usize)),
        decreases n - i,
    {
        let mut listed = false;
        let mut k: usize = 0;
        while k < es.len()
            invariant
                k <= es@.len(),
                listed == exists|t: int| 0 <= t < k && es@[t].0 == i,
            decreases es@.len() - k,
        {
            if es[k].0 == i {
                listed = true;
            }
            k = k + 1;
        }
        let other_a = match a {
            Some(x) => x != i,
            None => true,
        };
        let other_b = match b {
            Some(x) => x != i,
            None => true,
        };
        marks.push(listed && other_a && other_b);
        i = i + 1;
    }
    marks
}

/// Prunes the bounds on `var`: reports a contradiction, or keeps the point
/// alone, or the tightest lower and upper bounds.
fn prune_variable(formulas: &mut Vec<Formula>, var: usize) -> (conflict: bool)
    requires
        all_wf(old(formulas)@),
    ensures
        all_wf(final(formulas)@),
        (conflict, views_of(final(formulas)@)) == bounds_step(views_of(old(formulas)@), var),
{
    let ghost fs = views_of(formulas@);
    proof {
        lemma_views_of(formulas@);
    }
    let es = collect_entries(formulas, var);
    let ghost ses = entries(fs, var, formulas@.len() as int);
    let ghost n = ses.len() as int;
    if es.len() < 2 {
        return false;
    }
    let mut point: Option<(usize, Rational)> = None;
    let mut lower: Option<(usize, Rational, bool)> = None;
    let mut upper: Option<(usize, Rational, bool)> = None;
    let mut k: usize = 0;
    while k < es.len()
        invariant
            all_wf(formulas@),
            fs == views_of(formulas@),
            fs.len() == formulas@.len(),
            ses == entries(fs, var, fs.len() as int),
            n >= 2,
            es@.len() == n,
            n == ses.len(),
            forall|j: int|
                0 <= j < es@.len() ==> {
                    &&& (#[trigger] es@[j]).0 == ses[j].0
                    &&& es@[j].1@ == ses[j].1
                    &&& es@[j].1.wf()
                },
            k <= es@.len(),
            point_view(point) == first_point(ses, k as int),
            side_view(lower) == lower_bound(ses, k as int),
            side_view(upper) == upper_bound(ses, k as int),
            point matches Some((_, r)) ==> r.wf(),
            lower matches Some((_, r, _)) ==> r.wf(),
            upper matches Some((_, r, _)) ==> r.wf(),
            forall|j: int|
                0 <= j < k ==> (#[trigger] ses[j].1 matches LinearBoundView::Point(value) ==> (point matches Some((_, r)) && r@ == value)),
        decreases es@.len() - k,
    {
        let index = es[k].0;
        match &es[k].1 {
            LinearBound::Point(value) => {
                match &point {
                    Some((_, other)) => {
                        if !other.equals(value) {
                            proof {
                                lemma_first_point_stays(ses, k as int, k + 1);
                                lemma_first_point_stays(ses, k as int, n);
                                assert(differs_from_first(ses, n, ses[k as int].1));
                            }
                            return true;
                        }
                    },
                    None => {
                        point = Some((index, value.duplicate()));
                    },
                }
            },
            LinearBound::Lower { value, strict } => {
                let replace = match &lower {
                    Some((_, current, current_strict)) => current.less_than(value) || (value.equals(current)
                        && *strict && !*current_strict),
                    None => true,
                };
                if replace {
                    lower = Some((index, value.duplicate(), *strict));
                }
            },
            LinearBound::Upper { value, strict } => {
                let replace = match &upper {
                    Some((_, current, current_strict)) => value.less_than(current) || (value.equals(current)
                        && *strict && !*current_strict),
                    None => true,
                };
                if replace {
                    upper = Some((index, value.duplicate(), *strict));
                }
            },
        }
        k = k + 1;
    }
    proof {
        assert(!points_conflict(ses, n)) by {
            if points_conflict(ses, n) {
                let j = choose|j: int| 0 <= j < n && #[trigger] differs_from_first(ses, n, ses[j].1);
                assert(ses[j].1 is Point);
            }
        }
    }
    let len = formulas.len();
    match point {
        Some((pi, pv)) => {
            let outside = (match &lower {
                Some((_, lv, ls)) => pv.less_than(lv) || (pv.equals(lv) && *ls),
                None => false,
            }) || (match &upper {
                Some((_, uv, us)) => uv.less_than(&pv) || (pv.equals(uv) && *us),
                None => false,
            });
            if outside {
                return true;
            }
            let marks = mark_entries(&es, len, Some(pi), None);
            let kept = keep_unmarked(formulas, &marks);
            proof {
                assert forall|i: int| 0 <= i < len implies #[trigger] marks@[i] == (is_entry(ses, i) && i
                    != pi as int) by {
                    if is_entry(ses, i) {
                        let t = choose|t: int| 0 <= t < ses.len() && #[trigger] ses[t].0 == i;
                        assert(es@[t].0 == i);
                    }
                    if exists|t: int| 0 <= t < es@.len() && es@[t].0 == i {
                        let t = choose|t: int| 0 <= t < es@.len() && es@[t].0 == i;
                        assert(ses[t].0 == i);
                    }
                }
                lemma_keep_congruent(
                    fs,
                    |i: int| marks@[i],
                    |i: int| is_entry(ses, i) && i != pi as int,
                    len as int,
                );
            }
            *formulas = kept;
            false
        },
        None => {
            let cross = match (&lower, &upper) {
                (Some((_, lv, ls)), Some((_, uv, us))) => uv.less_than(lv) || (lv.equals(uv) && (*ls || *us)),
                _ => false,
            };
            if cross {
                return true;
            }
            let li = match &lower {
                Some((i, _, _)) => Some(*i),
                None => None,
            };
            let ui = match &upper {
                Some((i, _, _)) => Some(*i),
                None => None,
            };
            let marks = mark_entries(&es, len, li, ui);
            let kept = keep_unmarked(formulas, &marks);
            proof {
                let lower_view = lower_bound(ses, n);
                let upper_view = upper_bound(ses, n);
                assert forall|i: int| 0 <= i < len implies #[trigger] marks@[i] == (is_entry(ses, i)
                    && bound_index(lower_view) != Some(i) && bound_index(upper_view) != Some(i)) by {
                    if is_entry(ses, i) {
                        let t = choose|t: int| 0 <= t < ses.len() && #[trigger] ses[t].0 == i;
                        assert(es@[t].0 == i);
                    }
                    if exists|t: int| 0 <= t < es@.len() && es@[t].0 == i {
                        let t = choose|t: int| 0 <= t < es@.len() && es@[t].0 == i;
                        assert(ses[t].0 == i);
                    }
                }
                lemma_keep_congruent(
                    fs,
                    |i: int| marks@[i],
                    |i: int| is_entry(ses, i) && bound_index(lower_view) != Some(i) && bound_index(upper_view) != Some(i),
                    len as int,
                );
            }
            *formulas = kept;
            false
        },
    }
}

/// Prunes a conjunction to its tightest bounds on each variable bounded by
/// a linear atom in it alone: a point keeps no other bound on its
/// variable, else the tightest lower and upper bounds stay.  Returns `true`
/// when the bounds on some variable leave no value; the members are then
/// those left after the variables before it.
pub fn simplify_univariate_linear_bounds(formulas: &mut Vec<Formula>) -> (conflict: bool)
    requires
        all_wf(old(formulas)@),
    ensures
        all_wf(final(formulas)@),
        (conflict, views_of(final(formulas)@)) == univariate_bounds_result(views_of(old(formulas)@)),
{
    let ghost orig = views_of(formulas@);
    proof {
        lemma_views_of(formulas@);
    }
    let vars = collect_bound_variables(formulas);
    let mut k: usize = 0;
    while k < vars.len()
        invariant
            all_wf(formulas@),
            k <= vars@.len(),
            orig == views_of(old(formulas)@),
            vars@ == bound_variables(orig, orig.len() as int),
            univariate_bounds_result(orig) == bounds_run(views_of(formulas@), vars@, k as int),
        decreases vars@.len() - k,
    {
        let ghost before = views_of(formulas@);
        let conflict = prune_variable(formulas, vars[k]);
        proof {
            assert(bounds_run(before, vars@, k as int) == if bounds_step(before, vars@[k as int]).0 {
                (true, bounds_step(before, vars@[k as int]).1)
            } else {
                bounds_run(bounds_step(before, vars@[k as int]).1, vars@, k + 1)
            });
        }
        if conflict {
            return true;
        }
        k = k + 1;
    }
    false
}

/// `x` satisfies the bound.
pub open spec fn bound_holds(b: LinearBoundView, x: (int, nat)) -> bool {
    match b {
        LinearBoundView::Lower(r, strict) => if strict {
            rat_lt(r, x)
        } else {
            rat_le(r, x)
        },
        LinearBoundView::Upper(r, strict) => if strict {
            rat_lt(x, r)
        } else {
            rat_le(x, r)
        },
        LinearBoundView::Point(r) => x.0 * r.1 == r.0 * x.1,
    }
}

/// Multiplying by a positive factor keeps the sign.
proof fn lemma_sign_scaled(e: int, k: int, f: int)
    requires
        k > 0,
        e * k == f,
    ensures
        (e > 0) == (f > 0),
        (e < 0) == (f < 0),
        (e == 0) == (f == 0),
{
    assert((e > 0) == (f > 0) && (e < 0) == (f < 0) && (e == 0) == (f == 0)) by (nonlinear_arith)
        requires
            k > 0,
            e * k == f,
    ;
}

/// The sign of `c1 * x + c0` against the root `-c0 / c1`: zero exactly at
/// the root; for a positive `c1` negative below it and positive above it,
/// the other way round for a negative `c1`.
proof fn lemma_linear_sign(c0: (int, nat), c1: (int, nat), x: (int, nat), xn: (int, nat))
    requires
        c0.1 > 0,
        c1.1 > 0,
        c1.0 != 0,
        x.1 > 0,
        xn.1 > 0,
        xn.0 * x.1 == x.0 * xn.1,
    ensures
        (rat_add(c0, rat_mul(c1, xn)).0 == 0) == (x.0 * rat_div(rat_neg(c0), c1).1 == rat_div(
            rat_neg(c0),
            c1,
        ).0 * x.1),
        c1.0 > 0 ==> ((rat_add(c0, rat_mul(c1, xn)).0 < 0) == rat_lt(x, rat_div(rat_neg(c0), c1)) && (
        rat_add(c0, rat_mul(c1, xn)).0 > 0) == rat_lt(rat_div(rat_neg(c0), c1), x)),
        c1.0 < 0 ==> ((rat_add(c0, rat_mul(c1, xn)).0 < 0) == rat_lt(rat_div(rat_neg(c0), c1), x) && (
        rat_add(c0, rat_mul(c1, xn)).0 > 0) == rat_lt(x, rat_div(rat_neg(c0), c1))),
{
    let (a, b) = (x.0, x.1 as int);
    let (p, q) = (c0.0, c0.1 as int);
    let (s, t) = (c1.0, c1.1 as int);
    let (xa, xb) = (xn.0, xn.1 as int);
    let m = rat_mul(c1, xn);
    crate::field::lemma_mul_value(c1, xn);
    let (m0, m1) = (m.0, m.1 as int);
    let e = rat_add(c0, m);
    let big_e = p * m1 + m0 * q;
    assert(q * m1 > 0) by (nonlinear_arith)
        requires
            q > 0,
            m1 > 0,
    ;
    crate::rational::lemma_normalize_sign(big_e, q * m1);
    let root = rat_div(rat_neg(c0), c1);
    let rn = (-p) * t;
    let rd = q * s;
    assert(rd != 0) by (nonlinear_arith)
        requires
            q > 0,
            s != 0,
            rd == q * s,
    ;
    crate::rational::lemma_normalize_value(rn, rd);
    let (r0, r1) = (root.0, root.1 as int);
    // E * (t * xb) == m1 * F
    let f = p * t * xb + s * q * xa;
    assert(m0 * (t * xb) == (s * xa) * m1);
    let k = t * xb;
    assert(big_e * k == (p * m1) * k + (m0 * q) * k) by (nonlinear_arith)
        requires
            big_e == p * m1 + m0 * q,
    ;
    assert((p * m1) * k == m1 * (p * t * xb)) by (nonlinear_arith)
        requires
            k == t * xb,
    ;
    assert((m0 * q) * k == (m0 * k) * q) by (nonlinear_arith);
    assert((m0 * k) * q == ((s * xa) * m1) * q);
    assert(((s * xa) * m1) * q == m1 * (s * q * xa)) by (nonlinear_arith);
    assert(m1 * (p * t * xb) + m1 * (s * q * xa) == m1 * f) by (nonlinear_arith)
        requires
            f == p * t * xb + s * q * xa,
    ;
    assert(big_e * (t * xb) == m1 * f);
    // F * b == xb * G
    let g = p * t * b + s * q * a;
    assert(f * b == xb * g) by (nonlinear_arith)
        requires
            f == p * t * xb + s * q * xa,
            xa * b == a * xb,
            g == p * t * b + s * q * a,
    ;
    // D * (q * s) == r1 * G
    let d = a * r1 - r0 * b;
    assert(d * rd == (a * rd) * r1 - (r0 * rd) * b) by (nonlinear_arith)
        requires
            d == a * r1 - r0 * b,
    ;
    assert((r0 * rd) * b == (rn * r1) * b);
    assert((a * rd) * r1 - (rn * r1) * b == r1 * (a * rd - rn * b)) by (nonlinear_arith);
    assert(a * rd - rn * b == g) by (nonlinear_arith)
        requires
            rn == (-p) * t,
            rd == q * s,
            g == p * t * b + s * q * a,
    ;
    assert(d * rd == r1 * g);
    assert(t * xb > 0) by (nonlinear_arith)
        requires
            t > 0,
            xb > 0,
    ;
    lemma_sign_scaled(big_e, t * xb, m1 * f);
    assert(f * m1 == m1 * f) by (nonlinear_arith);
    lemma_sign_scaled(f, m1, m1 * f);
    lemma_sign_scaled(f, b, xb * g);
    assert(g * xb == xb * g) by (nonlinear_arith);
    lemma_sign_scaled(g, xb, xb * g);
    assert(g * r1 == r1 * g) by (nonlinear_arith);
    lemma_sign_scaled(g, r1, r1 * g);
    if s > 0 {
        assert(rd > 0) by (nonlinear_arith)
            requires
                q > 0,
                s > 0,
                rd == q * s,
        ;
        lemma_sign_scaled(d, rd, r1 * g);
    } else {
        assert(-rd > 0) by (nonlinear_arith)
            requires
                q > 0,
                s < 0,
                rd == q * s,
        ;
        assert((-d) * (-rd) == r1 * g) by (nonlinear_arith)
            requires
                d * rd == r1 * g,
        ;
        lemma_sign_scaled(-d, -rd, r1 * g);
    }
}

/// In a canonical polynomial whose one variable `v` has degree one, every
/// monomial is `1` or `x_v`, the constant one first.
proof fn lemma_linear_shape(p: Seq<TermView>, v: usize)
    requires
        terms_canonical(p),
        is_sole_variable(p, v),
        degree_of(p, v) == 1,
    ensures
        forall|i: int| 0 <= i < p.len() ==> (#[trigger] p[i]).0 == Seq::<(usize, usize)>::empty() || p[i].0 == seq![(v, 1usize)],
        p.len() <= 2,
        p.len() == 2 ==> p[0].0 == Seq::<(usize, usize)>::empty() && p[1].0 == seq![(v, 1usize)],
{
    crate::polynomial::lemma_degree_of(p, v, 1);
    assert forall|i: int| 0 <= i < p.len() implies (#[trigger] p[i]).0 == Seq::<(usize, usize)>::empty() || p[i].0 == seq![(v, 1usize)] by {
        let m = p[i].0;
        assert(powers_wf(m));
        assert forall|k: int| 0 <= k < m.len() implies (#[trigger] m[k]).0 == v by {
            assert(has_variable(p, m[k].0));
        }
        if m.len() >= 2 {
            assert(m[0].0 < m[1].0);
        }
        if m.len() == 1 {
            crate::monomial::lemma_exponent_at(m, 0);
            assert(exponent_of(p[i].0, v) <= 1);
            assert(m =~= seq![(v, 1usize)]);
        }
    }
    if p.len() >= 3 {
        assert(mono_lt(p[0].0, p[1].0) && mono_lt(p[1].0, p[2].0) && mono_lt(p[0].0, p[2].0));
        crate::monomial::lemma_mono_lt_irreflexive(p[0].0);
        crate::monomial::lemma_mono_lt_irreflexive(p[1].0);
        assert(mono_lt(seq![(v, 1usize)], Seq::<(usize, usize)>::empty()) == false);
    }
    if p.len() == 2 {
        assert(mono_lt(p[0].0, p[1].0));
        crate::monomial::lemma_mono_lt_irreflexive(p[0].0);
        assert(mono_lt(seq![(v, 1usize)], Seq::<(usize, usize)>::empty()) == false);
    }
}

/// The value of a linear polynomial in `v` at a point: its constant plus
/// its coefficient of `x_v` times the value of `v`.
proof fn lemma_linear_value(p: Seq<TermView>, v: usize, values: Map<usize, (int, nat)>)
    requires
        terms_canonical(p),
        is_sole_variable(p, v),
        degree_of(p, v) == 1,
        values_positive(values),
    ensures
        evaluate_terms(p, values) == rat_add(
            coefficient_of(p, Seq::<(usize, usize)>::empty()),
            rat_mul(coefficient_of(p, seq![(v, 1usize)]), rat_mul((1, 1), value_of(values, v))),
        ),
{
    lemma_linear_shape(p, v);
    let x = value_of(values, v);
    assert(x.1 > 0);
    let xn = rat_mul((1, 1), x);
    crate::field::lemma_mul_value((1, 1), x);
    let c1 = coefficient_of(p, seq![(v, 1usize)]);
    let c0 = coefficient_of(p, Seq::<(usize, usize)>::empty());
    let lin = seq![(v, 1usize)];
    assert(has_variable(p, v));
    let (wi, wk) = choose|i: int, k: int| 0 <= i < p.len() && 0 <= k < p[i].0.len() && (#[trigger] p[i].0[k]).0 == v;
    assert(p[wi].0 == lin);
    crate::field::lemma_zero_reduced(crate::rational::rat_zero());
    if p.len() == 1 {
        crate::polynomial::lemma_coefficient_at(p, 0);
        assert forall|k: int| 0 <= k < p.len() implies p[k].0 != Seq::<(usize, usize)>::empty() by {}
        crate::polynomial::lemma_coefficient_absent(p, Seq::<(usize, usize)>::empty());
        assert(p.drop_last().len() == 0);
        assert(evaluate_terms(p.drop_last(), values) == crate::rational::rat_zero());
        assert(p[0].0 == lin);
        assert(p[0].1 == c1);
        assert(p.last() == p[0]);
        assert(rat_reduced(p[0].1));
        let mv = monomial_value(c1, lin, values);
        assert(evaluate_terms(p, values) == rat_add(crate::rational::rat_zero(), mv));
        assert(lin.drop_last().len() == 0);
        assert(monomial_value(c1, lin.drop_last(), values) == c1);
        assert(mv == rat_mul(c1, rat_pow(x, 1)));
        assert(rat_pow(x, 0) == (1int, 1nat));
        assert(rat_pow(x, 1) == xn);
        crate::field::lemma_mul_value(c1, xn);
        crate::polynomial::lemma_add_zero_left(mv);
    } else {
        assert(p.len() == 2);
        crate::polynomial::lemma_coefficient_at(p, 0);
        crate::polynomial::lemma_coefficient_at(p, 1);
        assert(rat_reduced(p[0].1) && rat_reduced(p[1].1));
        let d = p.drop_last();
        assert(d.len() == 1);
        assert(d.drop_last().len() == 0);
        assert(evaluate_terms(d.drop_last(), values) == crate::rational::rat_zero());
        assert(d.last() == p[0]);
        assert(d.last().1 == c0);
        assert(d.last().0 == Seq::<(usize, usize)>::empty());
        assert(monomial_value(c0, Seq::<(usize, usize)>::empty(), values) == c0);
        crate::polynomial::lemma_add_zero_left(c0);
        assert(evaluate_terms(d, values) == rat_add(crate::rational::rat_zero(), c0));
        assert(evaluate_terms(d, values) == c0);
        assert(lin.drop_last().len() == 0);
        assert(monomial_value(c1, lin.drop_last(), values) == c1);
        assert(rat_pow(x, 0) == (1int, 1nat));
        assert(rat_pow(x, 1) == xn);
        assert(p.last() == p[1]);
        assert(p[1].1 == c1);
        assert(monomial_value(c1, lin, values) == rat_mul(c1, xn));
        assert(evaluate_terms(p, values) == rat_add(evaluate_terms(d, values), monomial_value(c1, lin, values)));
    }
}

/// An atom that bounds its one variable holds at a point exactly when the
/// value of that variable satisfies the bound.
pub proof fn law_linear_bound(
    p: Seq<TermView>,
    relation: Relation,
    values: Map<usize, (int, nat)>,
    v: usize,
    b: LinearBoundView,
)
    requires
        terms_canonical(p),
        values_positive(values),
        linear_bound_view(FormulaView::Atom(p, relation)) == Some((v, b)),
        values.contains_key(v),
    ensures
        eval_view(FormulaView::Atom(p, relation), values) == Some(bound_holds(b, values[v])),
{
    let c = choose|w: usize| #[trigger] is_sole_variable(p, w);
    assert(is_sole_variable(p, c));
    assert(c == v);
    lemma_linear_value(p, v, values);
    let x = values[v];
    assert(value_of(values, v) == x);
    assert(x.1 > 0);
    let xn = rat_mul((1, 1), x);
    crate::field::lemma_mul_value((1, 1), x);
    let c1 = coefficient_of(p, seq![(v, 1usize)]);
    let c0 = coefficient_of(p, Seq::<(usize, usize)>::empty());
    crate::polynomial::lemma_coefficient_reduced(p, seq![(v, 1usize)]);
    crate::polynomial::lemma_coefficient_reduced(p, Seq::<(usize, usize)>::empty());
    lemma_linear_sign(c0, c1, x, xn);
    assert forall|u: usize| has_variable(p, u) implies values.contains_key(u) by {}
}

} // verus!
