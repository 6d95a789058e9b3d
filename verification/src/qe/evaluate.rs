//! Quantifier elimination: its errors, statistics and options, and the
//! rules that eliminate a variable occurring linearly.
use crate::cad::lifting::{CellKind, FormulaEvaluationError, LiftingError};
use crate::cad::projection::{polys_view, ProjectionError, ProjectionStack};
use crate::formula::{all_wf, formula_wf, views_of, Atom, Formula, FormulaView, Quantifier, Relation};
use crate::polynomial::{
    add_terms, coefficient_in_terms, degree_of, evaluate_terms, exponents_bounded, has_variable,
    mul_fits, mul_terms, negate_terms, Polynomial, TermView,
};
use crate::qe::normalize::{negate_relation, negated_relation};
use crate::qe::special::SpecialHandlingConfig;
use crate::algebra::univariate::{all_univariate_wf, rationals_view, trim, univariate_views, UnivariatePolynomial};
use crate::monomial::Monomial;
use crate::polynomial::coefficient_of;
use crate::rational::Rational;
pub use crate::qe::dispatch::{
    eliminate, eliminate_recursive, eliminate_supported_boolean_branches, eliminate_with_options,
    eliminate_with_stats,
};
use std::collections::BTreeMap;
use vstd::prelude::*;

verus! {

/// Why a quantifier could not be eliminated.
#[derive(Clone, Debug, PartialEq, Eq, Structural)]
pub enum QuantifierEvaluationError {
    Formula(FormulaEvaluationError),
    Projection(ProjectionError),
    Lifting(LiftingError),
    NestedQuantifier,
    NonUnivariatePolynomial,
    WrongVariable,
    /// No rule of this library takes the quantifier: it needs a cylindrical
    /// algebraic decomposition lifted over its free variables.
    Unsupported,
}

impl From<ProjectionError> for QuantifierEvaluationError {
    fn from(error: ProjectionError) -> (r: Self) {
        QuantifierEvaluationError::Projection(error)
    }
}

impl vstd::std_specs::convert::FromSpecImpl<ProjectionError> for QuantifierEvaluationError {
    open spec fn obeys_from_spec() -> bool {
        true
    }

    open spec fn from_spec(v: ProjectionError) -> Self {
        QuantifierEvaluationError::Projection(v)
    }
}

impl From<LiftingError> for QuantifierEvaluationError {
    fn from(error: LiftingError) -> (r: Self) {
        QuantifierEvaluationError::Lifting(error)
    }
}

impl vstd::std_specs::convert::FromSpecImpl<LiftingError> for QuantifierEvaluationError {
    open spec fn obeys_from_spec() -> bool {
        true
    }

    open spec fn from_spec(v: LiftingError) -> Self {
        QuantifierEvaluationError::Lifting(v)
    }
}

impl From<FormulaEvaluationError> for QuantifierEvaluationError {
    fn from(error: FormulaEvaluationError) -> (r: Self) {
        QuantifierEvaluationError::Formula(error)
    }
}

impl vstd::std_specs::convert::FromSpecImpl<FormulaEvaluationError> for QuantifierEvaluationError {
    open spec fn obeys_from_spec() -> bool {
        true
    }

    open spec fn from_spec(v: FormulaEvaluationError) -> Self {
        QuantifierEvaluationError::Formula(v)
    }
}

/// Counters of the work done by an elimination.
#[derive(Clone, Debug, PartialEq, Eq)]
pub struct EliminationStats {
    pub quantifier_calls: usize,
    pub cells_constructed: usize,
    pub leaf_cells: usize,
    pub sector_cells: usize,
    pub section_cells: usize,
    pub projection_levels: usize,
    pub projection_polynomials: usize,
    pub lifting_orders: Vec<Vec<usize>>,
}

impl Default for EliminationStats {
    fn default() -> (s: Self)
        ensures
            s.quantifier_calls == 0,
            s.cells_constructed == 0,
            s.leaf_cells == 0,
            s.sector_cells == 0,
            s.section_cells == 0,
            s.projection_levels == 0,
            s.projection_polynomials == 0,
            s.lifting_orders@.len() == 0,
    {
        EliminationStats {
            quantifier_calls: 0,
            cells_constructed: 0,
            leaf_cells: 0,
            sector_cells: 0,
            section_cells: 0,
            projection_levels: 0,
            projection_polynomials: 0,
            lifting_orders: Vec::new(),
        }
    }
}

/// The total number of polynomials over the levels.
pub open spec fn total_len(levels: Seq<Vec<Polynomial>>) -> nat
    decreases levels.len(),
{
    if levels.len() == 0 {
        0
    } else {
        total_len(levels.drop_last()) + levels.last()@.len()
    }
}

impl EliminationStats {
    /// Counts one cell of the given kind.
    pub fn record_kind(&mut self, kind: &CellKind)
        requires
            *kind == CellKind::Sector ==> old(self).sector_cells < usize::MAX,
            *kind == CellKind::Section ==> old(self).section_cells < usize::MAX,
        ensures
            final(self).sector_cells == old(self).sector_cells + if *kind == CellKind::Sector {
                1int
            } else {
                0
            },
            final(self).section_cells == old(self).section_cells + if *kind == CellKind::Section {
                1int
            } else {
                0
            },
            final(self).quantifier_calls == old(self).quantifier_calls,
            final(self).cells_constructed == old(self).cells_constructed,
            final(self).leaf_cells == old(self).leaf_cells,
            final(self).projection_levels == old(self).projection_levels,
            final(self).projection_polynomials == old(self).projection_polynomials,
            final(self).lifting_orders == old(self).lifting_orders,
    {
        match kind {
            CellKind::Sector => self.sector_cells = self.sector_cells + 1,
            CellKind::Section => self.section_cells = self.section_cells + 1,
        }
    }

    /// Counts the levels past the first and all polynomials of a projection
    /// stack.
    pub fn record_projection_stack(&mut self, stack: &ProjectionStack)
        requires
            old(self).projection_levels + stack.levels@.len() <= usize::MAX + 1,
            old(self).projection_polynomials + total_len(stack.levels@) <= usize::MAX,
        ensures
            final(self).projection_levels == old(self).projection_levels + if stack.levels@.len()
                == 0 {
                0int
            } else {
                stack.levels@.len() - 1
            },
            final(self).projection_polynomials == old(self).projection_polynomials + total_len(
                stack.levels@,
            ),
            final(self).quantifier_calls == old(self).quantifier_calls,
            final(self).cells_constructed == old(self).cells_constructed,
            final(self).leaf_cells == old(self).leaf_cells,
            final(self).sector_cells == old(self).sector_cells,
            final(self).section_cells == old(self).section_cells,
            final(self).lifting_orders == old(self).lifting_orders,
    {
        let n = stack.levels.len();
        if n > 0 {
            self.projection_levels = self.projection_levels + (n - 1);
        }
        let mut total: usize = 0;
        let mut i: usize = 0;
        proof {
            assert(stack.levels@.take(0) =~= Seq::<Vec<Polynomial>>::empty());
        }
        while i < n
            invariant
                n == stack.levels@.len(),
                i <= n,
                total == total_len(stack.levels@.take(i as int)),
                old(self).projection_polynomials + total_len(stack.levels@) <= usize::MAX,
            decreases n - i,
        {
            proof {
                let t1 = stack.levels@.take(i + 1);
                assert(t1.drop_last() =~= stack.levels@.take(i as int));
                lemma_total_len_prefix(stack.levels@, i + 1);
            }
            total = total + stack.levels[i].len();
            i = i + 1;
        }
        proof {
            assert(stack.levels@.take(n as int) =~= stack.levels@);
        }
        self.projection_polynomials = self.projection_polynomials + total;
    }
}

/// A prefix holds no more polynomials than the whole.
proof fn lemma_total_len_prefix(levels: Seq<Vec<Polynomial>>, k: int)
    requires
        0 <= k <= levels.len(),
    ensures
        total_len(levels.take(k)) <= total_len(levels),
    decreases levels.len(),
{
    if k < levels.len() {
        assert(levels.drop_last().take(k) =~= levels.take(k));
        lemma_total_len_prefix(levels.drop_last(), k);
    } else {
        assert(levels.take(k) =~= levels);
    }
}

/// How an elimination runs: whether special rules apply, which of them,
/// and an optional order of the free variables for lifting.
#[derive(Clone, Debug, PartialEq, Eq)]
pub struct EliminationOptions {
    pub special_handling: bool,
    pub special_rules: SpecialHandlingConfig,
    pub variable_order: Option<Vec<usize>>,
}

impl Default for EliminationOptions {
    fn default() -> (o: Self)
        ensures
            o.special_handling,
            o.special_rules.enabled_rules@ == seq![crate::qe::special::SpecialRule::SymmetricSumProduct],
            o.variable_order is None,
    {
        EliminationOptions {
            special_handling: true,
            special_rules: SpecialHandlingConfig::default(),
            variable_order: None,
        }
    }
}


/// The atom a formula states, read through one negation.
pub open spec fn literal_view(f: FormulaView) -> Option<(Seq<TermView>, Relation)> {
    match f {
        FormulaView::Atom(p, r) => Some((p, r)),
        FormulaView::Not(b) => match *b {
            FormulaView::Atom(p, r) => Some((p, negated_relation(r))),
            _ => None,
        },
        _ => None,
    }
}

/// No variable occurs.
pub open spec fn is_constant(c: Seq<TermView>) -> bool {
    forall|w: usize| !#[trigger] has_variable(c, w)
}

/// The value of a constant.
pub open spec fn constant_value(c: Seq<TermView>) -> (int, nat) {
    evaluate_terms(c, Map::empty())
}

/// The coefficient of `x_v`.
pub open spec fn leading_in(p: Seq<TermView>, v: usize) -> Seq<TermView> {
    coefficient_in_terms(p, v, 1)
}

/// The part free of `x_v`.
pub open spec fn constant_in(p: Seq<TermView>, v: usize) -> Seq<TermView> {
    coefficient_in_terms(p, v, 0)
}

/// `p` is `a * x_v + b` with a nonzero constant `a`.
pub open spec fn constant_leading(p: Seq<TermView>, v: usize) -> bool {
    &&& degree_of(p, v) == 1
    &&& is_constant(leading_in(p, v))
    &&& leading_in(p, v).len() > 0
}

/// The relation with its sides swapped.
pub open spec fn reversed(relation: Relation) -> Relation {
    match relation {
        Relation::Less => Relation::Greater,
        Relation::LessOrEqual => Relation::GreaterOrEqual,
        Relation::Greater => Relation::Less,
        Relation::GreaterOrEqual => Relation::LessOrEqual,
        r => r,
    }
}

/// The relation with its sides swapped: `a < b` is `b > a`.
pub fn reverse_inequality(relation: Relation) -> (r: Relation)
    ensures
        r == reversed(relation),
{
    match relation {
        Relation::Less => Relation::Greater,
        Relation::LessOrEqual => Relation::GreaterOrEqual,
        Relation::Greater => Relation::Less,
        Relation::GreaterOrEqual => Relation::LessOrEqual,
        r => r,
    }
}

/// The atom of a literal: the atom itself, or under a negation the atom
/// with the negated relation.
pub fn atom_with_negated_relation(formula: &Formula) -> (r: Option<Atom>)
    requires
        formula_wf(*formula),
    ensures
        match r {
            Some(a) => {
                &&& a.polynomial.wf()
                &&& literal_view(formula@) == Some((a.polynomial@, a.relation))
            },
            None => literal_view(formula@) is None,
        },
{
    match formula {
        Formula::Atom(atom) => {
            proof {
                assert(formula@ == FormulaView::Atom(atom.polynomial@, atom.relation));
            }
            Some(Atom::new(atom.polynomial.duplicate(), atom.relation))
        },
        Formula::Not(body) => match &**body {
            Formula::Atom(atom) => {
                proof {
                    assert(formula_wf(**body));
                    assert(atom.polynomial.wf());
                    assert(body@ == FormulaView::Atom(atom.polynomial@, atom.relation));
                    assert(formula@ == FormulaView::Not(Box::new(body@)));
                }
                Some(Atom::new(atom.polynomial.duplicate(), negate_relation(atom.relation)))
            },
            _ => {
                proof {
                    assert(formula@ == FormulaView::Not(Box::new(body@)));
                }
                None
            },
        },
        _ => None,
    }
}

/// A formula list of two members.
fn pair(a: Formula, b: Formula) -> (v: Vec<Formula>)
    ensures
        views_of(v@) == seq![a@, b@],
        all_wf(v@) == (formula_wf(a) && formula_wf(b)),
{
    let ghost ga = a;
    let ghost gb = b;
    let mut v: Vec<Formula> = Vec::new();
    v.push(a);
    v.push(b);
    proof {
        let s1 = seq![ga];
        assert(s1.drop_last() =~= Seq::<Formula>::empty());
        assert(views_of(Seq::<Formula>::empty()) == Seq::<FormulaView>::empty());
        assert(all_wf(Seq::<Formula>::empty()));
        assert(views_of(s1) =~= seq![ga@]);
        assert(all_wf(s1) == formula_wf(ga));
        assert(v@.drop_last() =~= s1);
        assert(v@.last() == gb);
        assert(views_of(v@) =~= seq![ga@, gb@]);
    }
    v
}

/// A variable-free polynomial has only the empty monomial.
pub proof fn lemma_constant_monomials(c: Seq<TermView>)
    requires
        is_constant(c),
    ensures
        forall|i: int| 0 <= i < c.len() ==> (#[trigger] c[i]).0.len() == 0,
        exponents_bounded(c, 0),
        forall|b: Seq<TermView>| #[trigger] mul_fits(c, b),
{
    assert forall|i: int| 0 <= i < c.len() implies (#[trigger] c[i]).0.len() == 0 by {
        if c[i].0.len() > 0 {
            assert(has_variable(c, c[i].0[0].0));
        }
    }
    assert forall|i: int| 0 <= i < c.len() implies crate::monomial::powers_bounded(
        (#[trigger] c[i]).0,
        0,
    ) by {
        assert(c[i].0.len() == 0);
    }
    assert forall|b: Seq<TermView>| #[trigger] mul_fits(c, b) by {
        assert forall|i: int, j: int| 0 <= i < c.len() && 0 <= j < b.len() implies
            crate::monomial::mono_mul_fits((#[trigger] c[i]).0, (#[trigger] b[j]).0) by {
            assert(c[i].0.len() == 0);
        }
    }
}

/// Whether the polynomial has no variable.
fn is_constant_poly(p: &Polynomial) -> (b: bool)
    ensures
        b == is_constant(p@),
{
    let vs = p.variables();
    if vs.len() == 0 {
        proof {
            assert forall|w: usize| !#[trigger] has_variable(p@, w) by {
                if has_variable(p@, w) {
                    assert(vs@.contains(w));
                }
            }
        }
        true
    } else {
        proof {
            assert(vs@.contains(vs@[0]));
            assert(has_variable(p@, vs@[0]));
        }
        false
    }
}

/// Whether a constant polynomial is positive.
fn is_positive_constant(p: &Polynomial) -> (b: bool)
    requires
        p.wf(),
        is_constant(p@),
    ensures
        b == (constant_value(p@).0 > 0),
{
    proof {
        lemma_constant_monomials(p@);
        crate::polynomial::lemma_bounded_weaken(p@, 0, i32::MAX as nat);
    }
    let empty: BTreeMap<usize, Rational> = BTreeMap::new();
    let value = p.evaluate(&empty);
    proof {
        assert(empty@.map_values(|q: Rational| q@) =~= Map::<usize, (int, nat)>::empty());
    }
    value.is_positive()
}

/// What the linear rule gives for `quantifier x_v. p relation 0`, where
/// `p = a * x_v + b`: for `exists`, `a != 0` or `b relation 0` (with
/// `a == 0 && b == 0` in place of `b == 0`); for `forall`,
/// `a == 0 && b relation 0`.
pub open spec fn linear_atom_view(q: Quantifier, p: Seq<TermView>, r: Relation, v: usize) -> FormulaView {
    let a = leading_in(p, v);
    let b = constant_in(p, v);
    let zero = FormulaView::Atom(a, Relation::Equal);
    let nonzero = FormulaView::Atom(a, Relation::NotEqual);
    match q {
        Quantifier::Exists => if r == Relation::Equal {
            FormulaView::Or(
                seq![FormulaView::And(seq![zero, FormulaView::Atom(b, Relation::Equal)]), nonzero],
            )
        } else {
            FormulaView::Or(seq![nonzero, FormulaView::Atom(b, r)])
        },
        Quantifier::Forall => FormulaView::And(seq![zero, FormulaView::Atom(b, r)]),
    }
}

/// The linear rule applies to a quantified literal of degree one in `x_v`.
pub open spec fn linear_atom_result(f: FormulaView, v: usize) -> Option<FormulaView> {
    match f {
        FormulaView::Quantified(q, _, b) => match literal_view(*b) {
            Some((p, r)) => if degree_of(p, v) == 1 {
                Some(linear_atom_view(q, p, r, v))
            } else {
                None
            },
            None => None,
        },
        _ => None,
    }
}

/// The result `g` of the linear rule on `f = q w. literal` is true at every
/// point that assigns the other variables of the literal exactly when some
/// (for `exists`) or every (for `forall`) rational value of `x_v` makes the
/// literal true.
pub open spec fn linear_atom_exact(f: FormulaView, v: usize, g: FormulaView) -> bool {
    match f {
        FormulaView::Quantified(q, _, b) => match literal_view(*b) {
            Some((p, relation)) => forall|values: Map<usize, (int, nat)>|
                crate::evaluation::values_positive(values) && (forall|u: usize|
                    has_variable(p, u) && u != v ==> values.contains_key(u)) ==> #[trigger] crate::formula::eval_view(
                    g,
                    values,
                ) == Some(
                    match q {
                        Quantifier::Exists => exists|x: (int, nat)|
                            crate::polynomial::rat_reduced(x) && #[trigger] holds_with(p, relation, values, v, x),
                        Quantifier::Forall => forall|x: (int, nat)|
                            crate::polynomial::rat_reduced(x) ==> #[trigger] holds_with(p, relation, values, v, x),
                    },
                ),
            None => true,
        },
        _ => true,
    }
}

/// Eliminates `x_variable` from a quantified literal `a * x + b relation 0`
/// whose coefficients do not depend on it; `None` when the formula has
/// another shape.
pub fn eliminate_linear_atom(formula: &Formula, variable: usize) -> (r: Option<Formula>)
    requires
        formula_wf(*formula),
    ensures
        r is Some <==> linear_atom_result(formula@, variable) is Some,
        r matches Some(g) ==> formula_wf(g) && Some(g@) == linear_atom_result(formula@, variable),
        r matches Some(g) ==> linear_atom_exact(formula@, variable, g@),
{
    let (quantifier, body) = match formula {
        Formula::Quantified { quantifier, body, .. } => (*quantifier, body),
        _ => return None,
    };
    let atom = match atom_with_negated_relation(body) {
        Some(a) => a,
        None => return None,
    };
    let polynomial = &atom.polynomial;
    if polynomial.degree(variable) != 1 {
        return None;
    }
    let leading = polynomial.coefficient_in(variable, 1);
    let constant = polynomial.coefficient_in(variable, 0);
    let leading_zero = Formula::atom(leading.duplicate(), Relation::Equal);
    let leading_nonzero = Formula::atom(leading, Relation::NotEqual);
    let result = match quantifier {
        Quantifier::Exists => match atom.relation {
            Relation::Equal => Formula::Or(
                pair(
                    Formula::And(pair(leading_zero, Formula::atom(constant, Relation::Equal))),
                    leading_nonzero,
                ),
            ),
            relation => Formula::Or(pair(leading_nonzero, Formula::atom(constant, relation))),
        },
        Quantifier::Forall => Formula::And(
            pair(leading_zero, Formula::atom(constant, atom.relation)),
        ),
    };
    proof {
        let p = atom.polynomial@;
        atom.polynomial.lemma_wf();
        assert forall|values: Map<usize, (int, nat)>|
            crate::evaluation::values_positive(values) && (forall|u: usize|
                has_variable(p, u) && u != variable ==> values.contains_key(u)) implies #[trigger] crate::formula::eval_view(
            linear_atom_view(quantifier, p, atom.relation, variable),
            values,
        ) == Some(
            match quantifier {
                Quantifier::Exists => exists|x: (int, nat)|
                    crate::polynomial::rat_reduced(x) && #[trigger] holds_with(p, atom.relation, values, variable, x),
                Quantifier::Forall => forall|x: (int, nat)|
                    crate::polynomial::rat_reduced(x) ==> #[trigger] holds_with(p, atom.relation, values, variable, x),
            },
        ) by {
            law_linear_atom_truth(quantifier, p, atom.relation, variable, values);
        }
    }
    Some(result)
}

/// The members of `q v. (f1 && ... && fn)`.
pub open spec fn quantified_conjuncts(f: FormulaView, q: Quantifier) -> Option<Seq<FormulaView>> {
    match f {
        FormulaView::Quantified(q2, _, b) => if q2 == q {
            match *b {
                FormulaView::And(bs) => Some(bs),
                _ => None,
            }
        } else {
            None
        },
        _ => None,
    }
}

/// The members of the conjunction under `q v.`, if the formula has that
/// shape.
fn conjuncts_of(formula: &Formula, q: Quantifier) -> (r: Option<&Vec<Formula>>)
    requires
        formula_wf(*formula),
    ensures
        r is None ==> quantified_conjuncts(formula@, q) is None,
        r matches Some(fs) ==> all_wf(fs@) && quantified_conjuncts(formula@, q) == Some(
            views_of(fs@),
        ),
{
    match formula {
        Formula::Quantified { quantifier, variable, body } => {
            proof {
                assert(formula@ == FormulaView::Quantified(*quantifier, *variable, Box::new(body@)));
                assert(formula_wf(**body));
            }
            if *quantifier != q {
                return None;
            }
            match &**body {
                Formula::And(branches) => {
                    proof {
                        assert(body@ == FormulaView::And(views_of(branches@)));
                    }
                    Some(branches)
                },
                _ => None,
            }
        },
        _ => None,
    }
}

/// A branch that makes `forall x_v` of a conjunction false: an equality
/// `a * x_v + b == 0` with a nonzero constant `a`.
pub open spec fn forall_equality_branch(b: FormulaView, v: usize) -> bool {
    b matches FormulaView::Atom(p, r) && r == Relation::Equal && constant_leading(p, v)
}

/// `forall x_v` of a conjunction with a branch as above.
pub open spec fn forall_equality_applies(f: FormulaView, v: usize) -> bool {
    match quantified_conjuncts(f, Quantifier::Forall) {
        Some(bs) => exists|i: int| 0 <= i < bs.len() && #[trigger] forall_equality_branch(bs[i], v),
        None => false,
    }
}

/// A witness branch makes the rule apply.
proof fn lemma_applies_witness(f: FormulaView, v: usize, bs: Seq<FormulaView>, i: int)
    requires
        quantified_conjuncts(f, Quantifier::Forall) == Some(bs),
        0 <= i < bs.len(),
        forall_equality_branch(bs[i], v),
    ensures
        forall_equality_applies(f, v),
{
    assert(exists|k: int| 0 <= k < bs.len() && #[trigger] forall_equality_branch(bs[k], v));
    let qc = quantified_conjuncts(f, Quantifier::Forall);
    assert(qc->0 == bs);
    let b2 = qc->0;
    assert(exists|k: int| 0 <= k < b2.len() && #[trigger] forall_equality_branch(b2[k], v));
}

/// `forall x. (... && a * x + b == 0 && ...)` with a nonzero constant `a`
/// is false: no equation of degree one holds for every `x`.
pub fn eliminate_forall_linear_equality(formula: &Formula, variable: usize) -> (r: Option<Formula>)
    requires
        formula_wf(*formula),
    ensures
        r is Some <==> forall_equality_applies(formula@, variable),
        r matches Some(g) ==> g@ == FormulaView::False && formula_wf(g),
        r is Some ==> conjunction_fails(formula@, variable),
{
    let branches = conjuncts_of(formula, Quantifier::Forall);
    let branches = match branches {
        Some(b) => b,
        None => return None,
    };
    let ghost bs = views_of(branches@);
    proof {
        crate::formula::lemma_views_of(branches@);
    }
    let mut i: usize = 0;
    while i < branches.len()
        invariant
            formula_wf(*formula),
            all_wf(branches@),
            bs == views_of(branches@),
            quantified_conjuncts(formula@, Quantifier::Forall) == Some(bs),
            bs.len() == branches@.len(),
            forall|k: int| 0 <= k < bs.len() ==> #[trigger] bs[k] == branches@[k]@,
            i <= branches@.len(),
            forall|k: int| 0 <= k < i ==> !#[trigger] forall_equality_branch(bs[k], variable),
        decreases branches@.len() - i,
    {
        proof {
            crate::formula::lemma_all_wf_member(branches@, i as int);
        }
        if let Formula::Atom(atom) = &branches[i] {
            if atom.relation == Relation::Equal && atom.polynomial.degree(variable) == 1 {
                let leading = atom.polynomial.coefficient_in(variable, 1);
                if is_constant_poly(&leading) && !leading.is_zero() {
                    proof {
                        assert(forall_equality_branch(bs[i as int], variable));
                        lemma_applies_witness(formula@, variable, bs, i as int);
                        atom.polynomial.lemma_wf();
                        assert(literal_view(bs[i as int]) == Some((atom.polynomial@, atom.relation)));
                        lemma_branch_fails(formula@, variable, bs, i as int);


                    }
                    return Some(Formula::False);
                }
            }
        }
        i = i + 1;
    }
    None
}

/// A literal of degree one in `x_v` with a nonzero constant coefficient.
pub open spec fn linear_literal_branch(b: FormulaView, v: usize) -> bool {
    literal_view(b) matches Some((p, _)) && constant_leading(p, v)
}

/// `forall x_v` of a conjunction with such a literal.
pub open spec fn forall_conjunction_applies(f: FormulaView, v: usize) -> bool {
    match quantified_conjuncts(f, Quantifier::Forall) {
        Some(bs) => exists|i: int| 0 <= i < bs.len() && #[trigger] linear_literal_branch(bs[i], v),
        None => false,
    }
}

/// A witness branch makes the rule apply.
proof fn lemma_conjunction_witness(f: FormulaView, v: usize, bs: Seq<FormulaView>, i: int)
    requires
        quantified_conjuncts(f, Quantifier::Forall) == Some(bs),
        0 <= i < bs.len(),
        linear_literal_branch(bs[i], v),
    ensures
        forall_conjunction_applies(f, v),
{
    assert(exists|k: int| 0 <= k < bs.len() && #[trigger] linear_literal_branch(bs[k], v));
    let qc = quantified_conjuncts(f, Quantifier::Forall);
    assert(qc->0 == bs);
    let b2 = qc->0;
    assert(exists|k: int| 0 <= k < b2.len() && #[trigger] linear_literal_branch(b2[k], v));
}

/// `forall x. (... && a * x + b relation 0 && ...)` with a nonzero constant
/// `a` is false: such a literal fails for some `x`.
pub fn eliminate_forall_linear_conjunction(formula: &Formula, variable: usize) -> (r: Option<
    Formula,
>)
    requires
        formula_wf(*formula),
    ensures
        r is Some <==> forall_conjunction_applies(formula@, variable),
        r matches Some(g) ==> g@ == FormulaView::False && formula_wf(g),
        r is Some ==> conjunction_fails(formula@, variable),
{
    let branches = conjuncts_of(formula, Quantifier::Forall);
    let branches = match branches {
        Some(b) => b,
        None => return None,
    };
    let ghost bs = views_of(branches@);
    proof {
        crate::formula::lemma_views_of(branches@);
    }
    let mut i: usize = 0;
    while i < branches.len()
        invariant
            formula_wf(*formula),
            all_wf(branches@),
            bs == views_of(branches@),
            quantified_conjuncts(formula@, Quantifier::Forall) == Some(bs),
            bs.len() == branches@.len(),
            forall|k: int| 0 <= k < bs.len() ==> #[trigger] bs[k] == branches@[k]@,
            i <= branches@.len(),
            forall|k: int| 0 <= k < i ==> !#[trigger] linear_literal_branch(bs[k], variable),
        decreases branches@.len() - i,
    {
        proof {
            crate::formula::lemma_all_wf_member(branches@, i as int);
        }
        if let Some(atom) = atom_with_negated_relation(&branches[i]) {
            let coefficient = atom.polynomial.coefficient_in(variable, 1);
            if atom.polynomial.degree(variable) == 1 && is_constant_poly(&coefficient)
                && !coefficient.is_zero() {
                proof {
                    assert(linear_literal_branch(bs[i as int], variable));
                    lemma_conjunction_witness(formula@, variable, bs, i as int);
                    atom.polynomial.lemma_wf();
                    lemma_branch_fails(formula@, variable, bs, i as int);
                }
                return Some(Formula::False);
            }
        }
        i = i + 1;
    }
    None
}


/// An equality literal of degree one in `x_v` with a nonzero constant
/// coefficient: it fixes `x_v`.
pub open spec fn is_pivot(b: FormulaView, v: usize) -> bool {
    literal_view(b) matches Some((p, r)) && r == Relation::Equal && constant_leading(p, v)
}

/// The first pivot at index `i` or later.
pub open spec fn pivot_from(bs: Seq<FormulaView>, v: usize, i: int) -> Option<int>
    decreases bs.len() - i,
{
    if i < 0 || i >= bs.len() {
        None
    } else if is_pivot(bs[i], v) {
        Some(i)
    } else {
        pivot_from(bs, v, i + 1)
    }
}

/// Every branch is a literal of degree at most one in `x_v`.
pub open spec fn all_linear(bs: Seq<FormulaView>, v: usize) -> bool {
    forall|i: int|
        0 <= i < bs.len() ==> ((#[trigger] literal_view(bs[i])) matches Some((p, _)) && degree_of(
            p,
            v,
        ) <= 1)
}

/// A branch after substituting the pivot `a * x_v + c == 0`: a literal free
/// of `x_v` stays; `k * x_v + b relation 0` becomes
/// `a * b - k * c relation 0`, with the relation reversed when `a < 0`.
pub open spec fn substituted(b: FormulaView, a: Seq<TermView>, c: Seq<TermView>, v: usize) -> FormulaView {
    let (p, r) = literal_view(b)->0;
    if degree_of(p, v) == 0 {
        FormulaView::Atom(p, r)
    } else {
        FormulaView::Atom(
            add_terms(
                mul_terms(a, constant_in(p, v)),
                negate_terms(mul_terms(leading_in(p, v), c)),
            ),
            if constant_value(a).0 > 0 {
                r
            } else {
                reversed(r)
            },
        )
    }
}

/// What the substitution rule gives for `exists x_v. (b1 && ... && bn)`.
pub open spec fn exists_conjunction_result(f: FormulaView, v: usize) -> Option<FormulaView> {
    match quantified_conjuncts(f, Quantifier::Exists) {
        Some(bs) => match pivot_from(bs, v, 0) {
            Some(e) => if all_linear(bs, v) {
                let p = (literal_view(bs[e])->0).0;
                Some(
                    FormulaView::And(
                        bs.map_values(
                            |b: FormulaView| substituted(b, leading_in(p, v), constant_in(p, v), v),
                        ),
                    ),
                )
            } else {
                None
            },
            None => None,
        },
        None => None,
    }
}

/// Every product of two branch polynomials fits.
pub open spec fn literal_products_fit(bs: Seq<FormulaView>) -> bool {
    forall|i: int, j: int|
        0 <= i < bs.len() && 0 <= j < bs.len() && (#[trigger] literal_view(bs[i])) is Some && (
        #[trigger] literal_view(bs[j])) is Some ==> crate::polynomial::max_exponent(
            (literal_view(bs[i])->0).0,
        ) + crate::polynomial::max_exponent((literal_view(bs[j])->0).0) <= usize::MAX
}

/// The views of a list grown by one formula.
proof fn lemma_views_push(fs: Seq<Formula>, g: Formula)
    ensures
        views_of(fs.push(g)) == views_of(fs).push(g@),
        all_wf(fs.push(g)) == (all_wf(fs) && formula_wf(g)),
{
    assert(fs.push(g).drop_last() =~= fs);
}

/// The result `g` of an elimination rule on `exists x_v. (b1 && ... &&
/// bn)` is true at every point that assigns the other free variables
/// exactly when some rational `x_v` satisfies every branch there.
pub open spec fn exists_conjunction_exact(f: FormulaView, v: usize, g: FormulaView) -> bool {
    match quantified_conjuncts(f, Quantifier::Exists) {
        Some(bs) => forall|values: Map<usize, (int, nat)>| #[trigger] exists_exact_at(bs, v, g, values),
        None => true,
    }
}

/// The literals among well-formed formulas have canonical polynomials.
pub proof fn lemma_literals_canonical(fs: Seq<Formula>)
    requires
        all_wf(fs),
        forall|k: int| 0 <= k < fs.len() ==> (#[trigger] literal_view(views_of(fs)[k])) is Some,
    ensures
        literals_canonical(views_of(fs)),
{
    let bs = views_of(fs);
    crate::formula::lemma_views_of(fs);
    assert forall|k: int| 0 <= k < bs.len() implies ((#[trigger] literal_view(bs[k])) matches Some((p, _))
        && crate::polynomial::terms_canonical(p)) by {
        crate::formula::lemma_all_wf_member(fs, k);
        let f = fs[k];
        assert(formula_wf(f));
        assert(bs[k] == f@);
        assert(literal_view(bs[k]) is Some);
        match f {
            Formula::Atom(at) => {
                assert(at.polynomial.wf());
                at.polynomial.lemma_wf();
                assert(f@ == FormulaView::Atom(at.polynomial@, at.relation));
            },
            Formula::Not(inner) => {
                assert(formula_wf(*inner));
                match *inner {
                    Formula::Atom(at) => {
                        assert(at.polynomial.wf());
                        at.polynomial.lemma_wf();
                        assert(inner@ == FormulaView::Atom(at.polynomial@, at.relation));
                        assert(f@ == FormulaView::Not(Box::new(inner@)));
                    },
                    _ => {},
                }
            },
            _ => {},
        }
    }
}

/// Eliminates `x_v` from `exists x_v. (b1 && ... && bn)` when a branch is
/// an equation `a * x_v + c == 0` with a nonzero constant `a` and every
/// branch has degree at most one in `x_v`: the first such equation is
/// substituted into every branch.  `None` when the formula has another
/// shape.
pub fn eliminate_exists_linear_conjunction(formula: &Formula, variable: usize) -> (r: Option<
    Formula,
>)
    requires
        formula_wf(*formula),
        quantified_conjuncts(formula@, Quantifier::Exists) matches Some(bs) ==> literal_products_fit(
            bs,
        ),
    ensures
        r is Some <==> exists_conjunction_result(formula@, variable) is Some,
        r matches Some(g) ==> formula_wf(g) && Some(g@) == exists_conjunction_result(
            formula@,
            variable,
        ),
        r matches Some(g) ==> exists_conjunction_exact(formula@, variable, g@),
{
    let branches = match conjuncts_of(formula, Quantifier::Exists) {
        Some(b) => b,
        None => return None,
    };
    let ghost bs = views_of(branches@);
    proof {
        crate::formula::lemma_views_of(branches@);
    }
    let n = branches.len();
    let mut e: usize = 0;
    let mut found = false;
    while e < n && !found
        invariant
            n == branches@.len(),
            all_wf(branches@),
            bs == views_of(branches@),
            bs.len() == n,
            forall|k: int| 0 <= k < n ==> #[trigger] bs[k] == branches@[k]@,
            e <= n,
            found ==> e < n && pivot_from(bs, variable, 0) == Some(e as int) && is_pivot(
                bs[e as int],
                variable,
            ),
            !found ==> pivot_from(bs, variable, 0) == pivot_from(bs, variable, e as int),
        decreases n - e, if found { 0int } else { 1int },
    {
        proof {
            crate::formula::lemma_all_wf_member(branches@, e as int);
        }
        let mut pivot_here = false;
        if let Some(atom) = atom_with_negated_relation(&branches[e]) {
            if atom.relation == Relation::Equal && atom.polynomial.degree(variable) == 1 {
                let leading = atom.polynomial.coefficient_in(variable, 1);
                if is_constant_poly(&leading) && !leading.is_zero() {
                    pivot_here = true;
                }
            }
        }
        proof {
            assert(pivot_here == is_pivot(bs[e as int], variable));
        }
        if pivot_here {
            found = true;
        } else {
            e = e + 1;
        }
    }
    if !found {
        return None;
    }
    proof {
        crate::formula::lemma_all_wf_member(branches@, e as int);
        assert(is_pivot(bs[e as int], variable));
    }
    let pivot = match atom_with_negated_relation(&branches[e]) {
        Some(a) => a,
        None => return None,
    };
    let leading = pivot.polynomial.coefficient_in(variable, 1);
    let equality_constant = pivot.polynomial.coefficient_in(variable, 0);
    proof {
        lemma_constant_monomials(leading@);
    }
    let positive = is_positive_constant(&leading);
    let ghost pe = (literal_view(bs[e as int])->0).0;
    let mut conditions: Vec<Formula> = Vec::new();
    let mut i: usize = 0;
    proof {
        assert(bs.take(0).map_values(
            |b: FormulaView| substituted(b, leading_in(pe, variable), constant_in(pe, variable), variable),
        ) =~= Seq::<FormulaView>::empty());
        assert(conditions@ =~= Seq::<Formula>::empty());
    }
    while i < n
        invariant
            n == branches@.len(),
            all_wf(branches@),
            bs == views_of(branches@),
            bs.len() == n,
            forall|k: int| 0 <= k < n ==> #[trigger] bs[k] == branches@[k]@,
            literal_products_fit(bs),
            quantified_conjuncts(formula@, Quantifier::Exists) == Some(bs),
            pivot_from(bs, variable, 0) == Some(e as int),
            e < n,
            pe == (literal_view(bs[e as int])->0).0,
            literal_view(bs[e as int]) is Some,
            leading.wf(),
            equality_constant.wf(),
            leading@ == leading_in(pe, variable),
            equality_constant@ == constant_in(pe, variable),
            is_constant(leading@),
            positive == (constant_value(leading@).0 > 0),
            i <= n,
            forall|k: int| 0 <= k < i ==> ((#[trigger] literal_view(bs[k])) matches Some((p, _))
                && degree_of(p, variable) <= 1),
            all_wf(conditions@),
            views_of(conditions@) == bs.take(i as int).map_values(
                |b: FormulaView| substituted(b, leading_in(pe, variable), constant_in(pe, variable), variable),
            ),
        decreases n - i,
    {
        proof {
            crate::formula::lemma_all_wf_member(branches@, i as int);
        }
        let atom = match atom_with_negated_relation(&branches[i]) {
            Some(a) => a,
            None => {
                proof {
                    assert(!(literal_view(bs[i as int]) is Some));
                    assert(!all_linear(bs, variable));
                }
                return None;
            },
        };
        let degree = atom.polynomial.degree(variable);
        let ghost before = conditions@;
        if degree == 0 {
            conditions.push(Formula::Atom(atom));
        } else if degree != 1 {
            proof {
                assert(!all_linear(bs, variable));
            }
            return None;
        } else {
            let coefficient = atom.polynomial.coefficient_in(variable, 1);
            let constant = atom.polynomial.coefficient_in(variable, 0);
            proof {
                let pi = atom.polynomial@;
                assert(literal_view(bs[i as int]) is Some);
                assert(crate::polynomial::max_exponent(pi) + crate::polynomial::max_exponent(pe)
                    <= usize::MAX);
                crate::polynomial::lemma_max_exponent_bounds(pi);
                crate::polynomial::lemma_max_exponent_bounds(pe);
                crate::polynomial::lemma_coefficient_in_bounded(
                    pi,
                    variable,
                    1,
                    crate::polynomial::max_exponent(pi),
                );
                crate::polynomial::lemma_coefficient_in_bounded(
                    pe,
                    variable,
                    0,
                    crate::polynomial::max_exponent(pe),
                );
                crate::polynomial::lemma_bounded_mul_fits(
                    coefficient@,
                    equality_constant@,
                    crate::polynomial::max_exponent(pi),
                    crate::polynomial::max_exponent(pe),
                );
            }
            proof {
                lemma_constant_monomials(leading@);
                assert(mul_fits(leading@, constant@));
            }
            let left = leading.times(&constant);
            let right = coefficient.times(&equality_constant);
            let substituted_polynomial = left.minus(&right);
            let relation = if positive {
                atom.relation
            } else {
                reverse_inequality(atom.relation)
            };
            conditions.push(Formula::atom(substituted_polynomial, relation));
        }
        proof {
            lemma_views_push(before, conditions@.last());
            assert(conditions@ == before.push(conditions@.last()));
            let f = |b: FormulaView| substituted(b, leading_in(pe, variable), constant_in(pe, variable), variable);
            assert(bs.take(i + 1).map_values(f) =~= bs.take(i as int).map_values(f).push(f(bs[i as int])));
        }
        i = i + 1;
    }
    proof {
        assert(bs.take(n as int) =~= bs);
        assert(all_linear(bs, variable));
        lemma_literals_canonical(branches@);
        assert forall|values: Map<usize, (int, nat)>| #[trigger] exists_exact_at(
            bs,
            variable,
            FormulaView::And(views_of(conditions@)),
            values,
        ) by {
            law_exists_conjunction_truth(bs, variable, values);
        }
    }
    Some(Formula::And(conditions))
}


/// A bound on `x_v`, `coefficient * x_v + constant` compared with zero with
/// a positive coefficient: whether it is a lower bound, the coefficient,
/// the constant, and whether it is strict.
pub type BoundView = (bool, Seq<TermView>, Seq<TermView>, bool);

/// The bound a literal `c * x_v + k relation 0` puts on `x_v`, with both
/// sides negated when `c < 0`.
pub open spec fn bound_of(p: Seq<TermView>, r: Relation, v: usize) -> BoundView {
    let c = leading_in(p, v);
    let k = constant_in(p, v);
    let positive = constant_value(c).0 > 0;
    let (is_lower, strict) = match r {
        Relation::Greater => (positive, true),
        Relation::GreaterOrEqual => (positive, false),
        Relation::Less => (!positive, true),
        _ => (!positive, false),
    };
    if positive {
        (is_lower, c, k, strict)
    } else {
        (is_lower, negate_terms(c), negate_terms(k), strict)
    }
}

/// A strict or weak inequality.
pub open spec fn is_inequality(r: Relation) -> bool {
    r == Relation::Less || r == Relation::LessOrEqual || r == Relation::Greater || r
        == Relation::GreaterOrEqual
}

/// A branch that the inequality rule accepts: a literal free of `x_v`, or
/// an inequality of degree one in `x_v` with a nonzero constant
/// coefficient.
pub open spec fn inequality_branch(b: FormulaView, v: usize) -> bool {
    literal_view(b) matches Some((p, r)) && (degree_of(p, v) == 0 || (constant_leading(p, v)
        && is_inequality(r)))
}

/// The literals of the branches free of `x_v`, in order.
pub open spec fn free_literals(bs: Seq<FormulaView>, v: usize) -> Seq<FormulaView>
    decreases bs.len(),
{
    if bs.len() == 0 {
        Seq::empty()
    } else {
        let prev = free_literals(bs.drop_last(), v);
        let (p, r) = literal_view(bs.last())->0;
        if degree_of(p, v) == 0 {
            prev.push(FormulaView::Atom(p, r))
        } else {
            prev
        }
    }
}

/// The bounds of the branches of one side (`lower` or upper), in order.
pub open spec fn side_bounds(bs: Seq<FormulaView>, v: usize, lower: bool) -> Seq<BoundView>
    decreases bs.len(),
{
    if bs.len() == 0 {
        Seq::empty()
    } else {
        let prev = side_bounds(bs.drop_last(), v, lower);
        let (p, r) = literal_view(bs.last())->0;
        if degree_of(p, v) == 1 && bound_of(p, r, v).0 == lower {
            prev.push(bound_of(p, r, v))
        } else {
            prev
        }
    }
}

/// A lower bound `lc * x + lk > 0` and an upper bound `uc * x + uk < 0`
/// leave room for `x` when `uc * lk - lc * uk > 0` (or `>= 0` when both are
/// weak).
pub open spec fn pair_condition(l: BoundView, u: BoundView) -> FormulaView {
    FormulaView::Atom(
        add_terms(mul_terms(u.1, l.2), negate_terms(mul_terms(l.1, u.2))),
        if l.3 || u.3 {
            Relation::Greater
        } else {
            Relation::GreaterOrEqual
        },
    )
}

/// The conditions of every lower bound with every upper bound, lower bound
/// by lower bound.
pub open spec fn pair_conditions(ls: Seq<BoundView>, us: Seq<BoundView>) -> Seq<FormulaView>
    decreases ls.len(),
{
    if ls.len() == 0 {
        Seq::empty()
    } else {
        pair_conditions(ls.drop_last(), us) + us.map_values(|u: BoundView| pair_condition(ls.last(), u))
    }
}

/// What the inequality rule gives for `exists x_v. (b1 && ... && bn)`.
pub open spec fn exists_inequalities_result(f: FormulaView, v: usize) -> Option<FormulaView> {
    match quantified_conjuncts(f, Quantifier::Exists) {
        Some(bs) => if forall|i: int| 0 <= i < bs.len() ==> #[trigger] inequality_branch(bs[i], v) {
            Some(
                FormulaView::And(
                    free_literals(bs, v) + pair_conditions(
                        side_bounds(bs, v, true),
                        side_bounds(bs, v, false),
                    ),
                ),
            )
        } else {
            None
        },
        None => None,
    }
}

/// The views of bounds held as polynomials.
pub open spec fn bounds_view(bs: Seq<(bool, Polynomial, Polynomial, bool)>) -> Seq<BoundView> {
    bs.map_values(|t: (bool, Polynomial, Polynomial, bool)| (t.0, t.1@, t.2@, t.3))
}

/// Bounds with canonical polynomials and constant coefficients.
pub open spec fn bounds_wf(bs: Seq<(bool, Polynomial, Polynomial, bool)>) -> bool {
    forall|i: int|
        0 <= i < bs.len() ==> (#[trigger] bs[i]).1.wf() && bs[i].2.wf() && is_constant(bs[i].1@)
}

/// Negating keeps a polynomial constant.
proof fn lemma_negate_constant(c: Seq<TermView>)
    requires
        is_constant(c),
    ensures
        is_constant(negate_terms(c)),
{
    let n = negate_terms(c);
    assert forall|w: usize| !#[trigger] has_variable(n, w) by {
        if has_variable(n, w) {
            let (i, k) = choose|i: int, k: int|
                0 <= i < n.len() && 0 <= k < n[i].0.len() && (#[trigger] n[i].0[k]).0 == w;
            assert(n[i].0 == c[i].0);
            assert(has_variable(c, w));
        }
    }
}

/// Eliminates `x_v` from `exists x_v. (b1 && ... && bn)` whose branches
/// are literals free of `x_v` or inequalities of degree one in `x_v` with
/// constant coefficients, by pairing every lower bound with every upper
/// bound.  `None` when the formula has another shape.
pub fn eliminate_exists_linear_inequalities(formula: &Formula, variable: usize) -> (r: Option<
    Formula,
>)
    requires
        formula_wf(*formula),
    ensures
        r is Some <==> exists_inequalities_result(formula@, variable) is Some,
        r matches Some(g) ==> formula_wf(g) && Some(g@) == exists_inequalities_result(
            formula@,
            variable,
        ),
        r matches Some(g) ==> exists_conjunction_exact(formula@, variable, g@),
{
    let branches = match conjuncts_of(formula, Quantifier::Exists) {
        Some(b) => b,
        None => return None,
    };
    let ghost bs = views_of(branches@);
    proof {
        crate::formula::lemma_views_of(branches@);
    }
    let n = branches.len();
    let mut lower_bounds: Vec<(bool, Polynomial, Polynomial, bool)> = Vec::new();
    let mut upper_bounds: Vec<(bool, Polynomial, Polynomial, bool)> = Vec::new();
    let mut conditions: Vec<Formula> = Vec::new();
    let mut i: usize = 0;
    proof {
        assert(bs.take(0) =~= Seq::<FormulaView>::empty());
        assert(bounds_view(lower_bounds@) =~= Seq::<BoundView>::empty());
        assert(bounds_view(upper_bounds@) =~= Seq::<BoundView>::empty());
        assert(views_of(conditions@) =~= Seq::<FormulaView>::empty());
    }
    while i < n
        invariant
            n == branches@.len(),
            all_wf(branches@),
            bs == views_of(branches@),
            bs.len() == n,
            forall|k: int| 0 <= k < n ==> #[trigger] bs[k] == branches@[k]@,
            quantified_conjuncts(formula@, Quantifier::Exists) == Some(bs),
            i <= n,
            forall|k: int| 0 <= k < i ==> #[trigger] inequality_branch(bs[k], variable),
            all_wf(conditions@),
            views_of(conditions@) == free_literals(bs.take(i as int), variable),
            bounds_wf(lower_bounds@),
            bounds_wf(upper_bounds@),
            bounds_view(lower_bounds@) == side_bounds(bs.take(i as int), variable, true),
            bounds_view(upper_bounds@) == side_bounds(bs.take(i as int), variable, false),
        decreases n - i,
    {
        proof {
            crate::formula::lemma_all_wf_member(branches@, i as int);
            let t1 = bs.take(i + 1);
            assert(t1.drop_last() =~= bs.take(i as int));
            assert(t1.last() == bs[i as int]);
        }
        let atom = match atom_with_negated_relation(&branches[i]) {
            Some(a) => a,
            None => {
                proof {
                    assert(!inequality_branch(bs[i as int], variable));
                }
                return None;
            },
        };
        let degree = atom.polynomial.degree(variable);
        if degree == 0 {
            let ghost before = conditions@;
            conditions.push(Formula::Atom(atom));
            proof {
                lemma_views_push(before, conditions@.last());
                assert(conditions@ == before.push(conditions@.last()));
            }
        } else if degree == 1 {
            let coefficient = atom.polynomial.coefficient_in(variable, 1);
            if !is_constant_poly(&coefficient) || coefficient.is_zero() {
                proof {
                    assert(!inequality_branch(bs[i as int], variable));
                }
                return None;
            }
            let constant = atom.polynomial.coefficient_in(variable, 0);
            let positive = is_positive_constant(&coefficient);
            let (is_lower, strict) = match (positive, atom.relation) {
                (true, Relation::Greater) => (true, true),
                (true, Relation::GreaterOrEqual) => (true, false),
                (true, Relation::Less) => (false, true),
                (true, Relation::LessOrEqual) => (false, false),
                (false, Relation::Greater) => (false, true),
                (false, Relation::GreaterOrEqual) => (false, false),
                (false, Relation::Less) => (true, true),
                (false, Relation::LessOrEqual) => (true, false),
                _ => {
                    proof {
                        assert(!inequality_branch(bs[i as int], variable));
                    }
                    return None;
                },
            };
            let bound = if positive {
                (is_lower, coefficient, constant, strict)
            } else {
                proof {
                    lemma_negate_constant(coefficient@);
                }
                (is_lower, coefficient.negated(), constant.negated(), strict)
            };
            proof {
                assert((bound.0, bound.1@, bound.2@, bound.3) == bound_of(
                    atom.polynomial@,
                    atom.relation,
                    variable,
                ));
            }
            if is_lower {
                let ghost before = lower_bounds@;
                lower_bounds.push(bound);
                proof {
                    assert(bounds_view(lower_bounds@) =~= bounds_view(before).push(
                        (bound.0, bound.1@, bound.2@, bound.3),
                    ));
                }
            } else {
                let ghost before = upper_bounds@;
                upper_bounds.push(bound);
                proof {
                    assert(bounds_view(upper_bounds@) =~= bounds_view(before).push(
                        (bound.0, bound.1@, bound.2@, bound.3),
                    ));
                }
            }
        } else {
            proof {
                assert(!inequality_branch(bs[i as int], variable));
            }
            return None;
        }
        i = i + 1;
    }
    proof {
        assert(bs.take(n as int) =~= bs);
    }
    let ghost ls = bounds_view(lower_bounds@);
    let ghost us = bounds_view(upper_bounds@);
    let ghost base = views_of(conditions@);
    let mut li: usize = 0;
    proof {
        assert(ls.take(0) =~= Seq::<BoundView>::empty());
        assert(base + pair_conditions(ls.take(0), us) =~= base);
    }
    while li < lower_bounds.len()
        invariant
            ls == bounds_view(lower_bounds@),
            us == bounds_view(upper_bounds@),
            bounds_wf(lower_bounds@),
            bounds_wf(upper_bounds@),
            li <= lower_bounds@.len(),
            all_wf(conditions@),
            views_of(conditions@) == base + pair_conditions(ls.take(li as int), us),
        decreases lower_bounds@.len() - li,
    {
        let ghost start = views_of(conditions@);
        let mut ui: usize = 0;
        proof {
            assert(us.take(0).map_values(|u: BoundView| pair_condition(ls[li as int], u))
                =~= Seq::<FormulaView>::empty());
            assert(start + Seq::<FormulaView>::empty() =~= start);
        }
        while ui < upper_bounds.len()
            invariant
                ls == bounds_view(lower_bounds@),
                us == bounds_view(upper_bounds@),
                bounds_wf(lower_bounds@),
                bounds_wf(upper_bounds@),
                li < lower_bounds@.len(),
                ui <= upper_bounds@.len(),
                all_wf(conditions@),
                views_of(conditions@) == start + us.take(ui as int).map_values(
                    |u: BoundView| pair_condition(ls[li as int], u),
                ),
            decreases upper_bounds@.len() - ui,
        {
            let lower = &lower_bounds[li];
            let upper = &upper_bounds[ui];
            proof {
                assert(lower_bounds@[li as int].1.wf());
                assert(upper_bounds@[ui as int].1.wf());
                lemma_constant_monomials(upper.1@);
                lemma_constant_monomials(lower.1@);
                assert(mul_fits(upper.1@, lower.2@));
                assert(mul_fits(lower.1@, upper.2@));
            }
            let left = upper.1.times(&lower.2);
            let right = lower.1.times(&upper.2);
            let difference = left.minus(&right);
            let relation = if lower.3 || upper.3 {
                Relation::Greater
            } else {
                Relation::GreaterOrEqual
            };
            let ghost before = conditions@;
            conditions.push(Formula::atom(difference, relation));
            proof {
                lemma_views_push(before, conditions@.last());
                assert(conditions@ == before.push(conditions@.last()));
                assert(ls[li as int] == (lower.0, lower.1@, lower.2@, lower.3));
                assert(us[ui as int] == (upper.0, upper.1@, upper.2@, upper.3));
                let f = |u: BoundView| pair_condition(ls[li as int], u);
                assert(us.take(ui + 1).map_values(f) =~= us.take(ui as int).map_values(f).push(
                    f(us[ui as int]),
                ));
                assert(views_of(conditions@) =~= start + us.take(ui + 1).map_values(f));
            }
            ui = ui + 1;
        }
        proof {
            assert(us.take(ui as int) =~= us);
            let l1 = ls.take(li + 1);
            assert(l1.drop_last() =~= ls.take(li as int));
            assert(l1.last() == ls[li as int]);
            assert(views_of(conditions@) =~= base + pair_conditions(ls.take(li + 1), us));
        }
        li = li + 1;
    }
    proof {
        assert(ls.take(li as int) =~= ls);
        assert(forall|k: int| 0 <= k < bs.len() ==> #[trigger] inequality_branch(bs[k], variable));
        assert forall|k: int| 0 <= k < branches@.len() implies (#[trigger] literal_view(
            views_of(branches@)[k],
        )) is Some by {
            assert(inequality_branch(bs[k], variable));
        }
        lemma_literals_canonical(branches@);
        assert forall|values: Map<usize, (int, nat)>| #[trigger] exists_exact_at(
            bs,
            variable,
            FormulaView::And(views_of(conditions@)),
            values,
        ) by {
            crate::qe::inequalities::law_exists_inequalities_exact(formula@, variable, values);
        }
    }
    Some(Formula::And(conditions))
}


/// The constant coefficients of `p` in `x_0`, from degree zero up to its
/// degree, when `p` has no other variable.
pub open spec fn univariate_view(p: Seq<TermView>) -> Option<Seq<(int, nat)>> {
    if exists|v: usize| v != 0 && #[trigger] has_variable(p, v) {
        None
    } else {
        Some(
            trim(
                Seq::new(
                    degree_of(p, 0) + 1,
                    |d: int| coefficient_of(coefficient_in_terms(p, 0, d as usize), Seq::empty()),
                ),
            ),
        )
    }
}

/// The polynomial of an atom as a univariate polynomial in `x_0`; an error
/// when another variable occurs.
pub fn to_univariate(atom: &Atom) -> (r: Result<UnivariatePolynomial, QuantifierEvaluationError>)
    requires
        atom.polynomial.wf(),
    ensures
        match r {
            Ok(u) => u.wf() && univariate_view(atom.polynomial@) == Some(u@),
            Err(e) => e == QuantifierEvaluationError::NonUnivariatePolynomial && univariate_view(
                atom.polynomial@,
            ) is None,
        },
{
    let variables = atom.polynomial.variables();
    let mut i: usize = 0;
    while i < variables.len()
        invariant
            i <= variables@.len(),
            forall|v: usize| variables@.contains(v) <==> has_variable(atom.polynomial@, v),
            forall|k: int| 0 <= k < i ==> variables@[k] == 0,
        decreases variables@.len() - i,
    {
        if variables[i] != 0 {
            proof {
                assert(variables@.contains(variables@[i as int]));
                assert(has_variable(atom.polynomial@, variables@[i as int]));
            }
            return Err(QuantifierEvaluationError::NonUnivariatePolynomial);
        }
        i = i + 1;
    }
    proof {
        assert forall|v: usize| v != 0 implies !#[trigger] has_variable(atom.polynomial@, v) by {
            if has_variable(atom.polynomial@, v) {
                assert(variables@.contains(v));
                let k = choose|k: int| 0 <= k < variables@.len() && variables@[k] == v;
            }
        }
    }
    let degree = atom.polynomial.degree(0);
    let ghost p = atom.polynomial@;
    let one = Monomial::one();
    let mut coefficients: Vec<Rational> = Vec::new();
    let mut d: usize = 0;
    loop
        invariant_except_break
            rationals_view(coefficients@) == Seq::new(
                d as nat,
                |k: int| coefficient_of(coefficient_in_terms(p, 0, k as usize), Seq::empty()),
            ),
        invariant
            atom.polynomial.wf(),
            p == atom.polynomial@,
            degree == degree_of(p, 0),
            one@ == Seq::<(usize, usize)>::empty(),
            d <= degree,
            crate::algebra::univariate::all_rationals_wf(coefficients@),
        ensures
            crate::algebra::univariate::all_rationals_wf(coefficients@),
            rationals_view(coefficients@) == Seq::new(
                degree_of(p, 0) + 1,
                |k: int| coefficient_of(coefficient_in_terms(p, 0, k as usize), Seq::empty()),
            ),
        decreases degree - d,
    {
        let c = atom.polynomial.coefficient_in(0, d).coefficient(&one);
        let ghost before = coefficients@;
        let ghost gc = c;
        coefficients.push(c);
        proof {
            crate::algebra::univariate::lemma_push_view(before, gc);
            assert(rationals_view(coefficients@) =~= Seq::new(
                (d + 1) as nat,
                |k: int| coefficient_of(coefficient_in_terms(p, 0, k as usize), Seq::empty()),
            ));
        }
        if d == degree {
            break;
        }
        d = d + 1;
    }
    Ok(UnivariatePolynomial::new(coefficients))
}


/// The univariate polynomials of the atoms of `f`, after `list`; an error
/// for a polynomial in another variable or a quantifier, whichever comes
/// first.
pub open spec fn collect_univariate(f: FormulaView, list: Seq<Seq<(int, nat)>>) -> Result<
    Seq<Seq<(int, nat)>>,
    QuantifierEvaluationError,
>
    decreases f,
{
    match f {
        FormulaView::Atom(p, _) => match univariate_view(p) {
            Some(u) => Ok(list.push(u)),
            None => Err(QuantifierEvaluationError::NonUnivariatePolynomial),
        },
        FormulaView::Not(b) => collect_univariate(*b, list),
        FormulaView::And(fs) => collect_all_univariate(fs, list),
        FormulaView::Or(fs) => collect_all_univariate(fs, list),
        FormulaView::Quantified(..) => Err(QuantifierEvaluationError::NestedQuantifier),
        _ => Ok(list),
    }
}

/// [`collect_univariate`] over the formulas of a list, in order.
pub open spec fn collect_all_univariate(fs: Seq<FormulaView>, list: Seq<Seq<(int, nat)>>) -> Result<
    Seq<Seq<(int, nat)>>,
    QuantifierEvaluationError,
>
    decreases fs,
{
    if fs.len() == 0 {
        Ok(list)
    } else {
        match collect_all_univariate(fs.drop_last(), list) {
            Err(e) => Err(e),
            Ok(l) => collect_univariate(fs.last(), l),
        }
    }
}

/// Adds the univariate polynomials of the atoms of `formula`.
pub fn collect_polynomials(formula: &Formula, polynomials: &mut Vec<UnivariatePolynomial>) -> (r:
    Result<(), QuantifierEvaluationError>)
    requires
        formula_wf(*formula),
        all_univariate_wf(old(polynomials)@),
    ensures
        all_univariate_wf(final(polynomials)@),
        match collect_univariate(formula@, univariate_views(old(polynomials)@)) {
            Ok(l) => r is Ok && univariate_views(final(polynomials)@) == l,
            Err(e) => r == Err::<(), QuantifierEvaluationError>(e),
        },
    decreases formula,
{
    match formula {
        Formula::True | Formula::False => Ok(()),
        Formula::Atom(atom) => {
            let u = match to_univariate(atom) {
                Ok(u) => u,
                Err(e) => return Err(e),
            };
            let ghost before = polynomials@;
            let ghost gu = u;
            polynomials.push(u);
            proof {
                assert(univariate_views(polynomials@) =~= univariate_views(before).push(gu@));
                assert forall|k: int| 0 <= k < polynomials@.len() implies (#[trigger] polynomials@[k]).wf() by {
                    if k < before.len() {
                        assert(polynomials@[k] == before[k]);
                    }
                }
            }
            Ok(())
        },
        Formula::Not(body) => collect_polynomials(body, polynomials),
        Formula::And(formulas) => collect_list_polynomials(formulas, polynomials),
        Formula::Or(formulas) => collect_list_polynomials(formulas, polynomials),
        Formula::Quantified { .. } => Err(QuantifierEvaluationError::NestedQuantifier),
    }
}

/// [`collect_polynomials`] over every formula of the list.
fn collect_list_polynomials(formulas: &Vec<Formula>, polynomials: &mut Vec<UnivariatePolynomial>) -> (r:
    Result<(), QuantifierEvaluationError>)
    requires
        all_wf(formulas@),
        all_univariate_wf(old(polynomials)@),
    ensures
        all_univariate_wf(final(polynomials)@),
        match collect_all_univariate(views_of(formulas@), univariate_views(old(polynomials)@)) {
            Ok(l) => r is Ok && univariate_views(final(polynomials)@) == l,
            Err(e) => r == Err::<(), QuantifierEvaluationError>(e),
        },
    decreases formulas,
{
    let ghost start = univariate_views(polynomials@);
    let mut i: usize = 0;
    proof {
        assert(formulas@.take(0) =~= Seq::<Formula>::empty());
    }
    while i < formulas.len()
        invariant
            start == univariate_views(old(polynomials)@),
            all_wf(formulas@),
            i <= formulas@.len(),
            all_univariate_wf(polynomials@),
            collect_all_univariate(views_of(formulas@.take(i as int)), start) == Ok::<
                Seq<Seq<(int, nat)>>,
                QuantifierEvaluationError,
            >(univariate_views(polynomials@)),
        decreases formulas@.len() - i,
    {
        proof {
            crate::formula::lemma_member_decreases(formulas, i as int);
            crate::formula::lemma_all_wf_member(formulas@, i as int);
            let t1 = formulas@.take(i + 1);
            assert(t1.drop_last() =~= formulas@.take(i as int));
            assert(views_of(t1).drop_last() =~= views_of(formulas@.take(i as int)));
            crate::formula::lemma_views_of(t1);
        }
        let ghost before = univariate_views(polynomials@);
        let result = collect_polynomials(&formulas[i], polynomials);
        if let Err(e) = result {
            proof {
                let t1 = formulas@.take(i + 1);
                assert(views_of(t1).last() == formulas@[i as int]@);
                assert(collect_all_univariate(views_of(t1), start) == Err::<
                    Seq<Seq<(int, nat)>>,
                    QuantifierEvaluationError,
                >(e));
                crate::formula::lemma_views_of(formulas@);
                assert(views_of(formulas@).take(i + 1) =~= views_of(t1));
                lemma_collect_error_sticks(views_of(formulas@), i + 1, start);
            }
            return Err(e);
        }
        proof {
            let t1 = formulas@.take(i + 1);
            assert(views_of(t1).last() == formulas@[i as int]@);
        }
        i = i + 1;
    }
    proof {
        assert(formulas@.take(i as int) =~= formulas@);
    }
    Ok(())
}

/// An error in a prefix of the list is the error of the whole list.
proof fn lemma_collect_error_sticks(fs: Seq<FormulaView>, k: int, list: Seq<Seq<(int, nat)>>)
    requires
        0 <= k <= fs.len(),
        collect_all_univariate(fs.take(k), list) is Err,
    ensures
        collect_all_univariate(fs, list) == collect_all_univariate(fs.take(k), list),
    decreases fs.len(),
{
    if k < fs.len() {
        assert(fs.drop_last().take(k) =~= fs.take(k));
        lemma_collect_error_sticks(fs.drop_last(), k, list);
    } else {
        assert(fs.take(k) =~= fs);
    }
}


/// How strongly `v` is coupled with the quantified variable `q`: the number
/// of atoms holding both, and the sum of the degrees of `v` in them.
pub open spec fn order_score(f: FormulaView, v: usize, q: usize) -> (nat, nat)
    decreases f,
{
    match f {
        FormulaView::Atom(p, _) => if has_variable(p, q) && has_variable(p, v) {
            (1nat, degree_of(p, v))
        } else {
            (0nat, 0nat)
        },
        FormulaView::Not(b) => order_score(*b, v, q),
        FormulaView::And(fs) => order_score_all(fs, v, q),
        FormulaView::Or(fs) => order_score_all(fs, v, q),
        FormulaView::Quantified(_, _, b) => order_score(*b, v, q),
        _ => (0nat, 0nat),
    }
}

/// [`order_score`] summed over a list of formulas.
pub open spec fn order_score_all(fs: Seq<FormulaView>, v: usize, q: usize) -> (nat, nat)
    decreases fs,
{
    if fs.len() == 0 {
        (0nat, 0nat)
    } else {
        let a = order_score_all(fs.drop_last(), v, q);
        let b = order_score(fs.last(), v, q);
        (a.0 + b.0, a.1 + b.1)
    }
}

/// `a` comes before `b` in the lifting order: more atoms shared with the
/// quantified variable first, then a higher total degree, then the smaller
/// index.
pub open spec fn order_before(f: FormulaView, q: usize, a: usize, b: usize) -> bool {
    let sa = order_score(f, a, q);
    let sb = order_score(f, b, q);
    sa.0 > sb.0 || (sa.0 == sb.0 && (sa.1 > sb.1 || (sa.1 == sb.1 && a < b)))
}

/// The scores of the variables fit in `usize`.
pub open spec fn scores_fit(f: FormulaView, vs: Seq<usize>, q: usize) -> bool {
    forall|i: int|
        0 <= i < vs.len() ==> #[trigger] order_score(f, vs[i], q).0 <= usize::MAX && order_score(
            f,
            vs[i],
            q,
        ).1 <= usize::MAX
}

/// The scores of a prefix of a list are at most those of the list.
proof fn lemma_score_prefix(fs: Seq<FormulaView>, k: int, v: usize, q: usize)
    requires
        0 <= k <= fs.len(),
    ensures
        order_score_all(fs.take(k), v, q).0 <= order_score_all(fs, v, q).0,
        order_score_all(fs.take(k), v, q).1 <= order_score_all(fs, v, q).1,
    decreases fs.len(),
{
    if k < fs.len() {
        assert(fs.drop_last().take(k) =~= fs.take(k));
        lemma_score_prefix(fs.drop_last(), k, v, q);
    } else {
        assert(fs.take(k) =~= fs);
    }
}

/// Adds the scores of `formula` for every free variable to `scores`.
fn collect_variable_order_scores(
    formula: &Formula,
    free: &Vec<usize>,
    quantified: usize,
    scores: &mut Vec<(usize, usize)>,
)
    requires
        formula_wf(*formula),
        old(scores)@.len() == free@.len(),
        forall|i: int|
            0 <= i < free@.len() ==> old(scores)@[i].0 + (#[trigger] order_score(
                formula@,
                free@[i],
                quantified,
            )).0 <= usize::MAX && old(scores)@[i].1 + order_score(formula@, free@[i], quantified).1
                <= usize::MAX,
    ensures
        final(scores)@.len() == free@.len(),
        forall|i: int|
            0 <= i < free@.len() ==> #[trigger] final(scores)@[i] == (
                (old(scores)@[i].0 + order_score(formula@, free@[i], quantified).0) as usize,
                (old(scores)@[i].1 + order_score(formula@, free@[i], quantified).1) as usize,
            ),
    decreases formula,
{
    match formula {
        Formula::True | Formula::False => {},
        Formula::Atom(atom) => {
            let variables = atom.polynomial.variables();
            let mut has_quantified = false;
            let mut k: usize = 0;
            while k < variables.len()
                invariant
                    k <= variables@.len(),
                    has_quantified == exists|j: int| 0 <= j < k && variables@[j] == quantified,
                decreases variables@.len() - k,
            {
                if variables[k] == quantified {
                    has_quantified = true;
                }
                k = k + 1;
            }
            proof {
                assert(has_quantified == variables@.contains(quantified));
            }
            if has_quantified {
                let ghost start = scores@;
                let mut i: usize = 0;
                while i < free.len()
                    invariant
                        formula_wf(*formula),
                        formula@ == FormulaView::Atom(atom.polynomial@, atom.relation),
                        atom.polynomial.wf(),
                        has_variable(atom.polynomial@, quantified),
                        forall|v: usize| variables@.contains(v) <==> has_variable(atom.polynomial@, v),
                        start.len() == free@.len(),
                        scores@.len() == free@.len(),
                        i <= free@.len(),
                        forall|j: int|
                            0 <= j < free@.len() ==> start[j].0 + (#[trigger] order_score(
                                formula@,
                                free@[j],
                                quantified,
                            )).0 <= usize::MAX && start[j].1 + order_score(
                                formula@,
                                free@[j],
                                quantified,
                            ).1 <= usize::MAX,
                        forall|j: int|
                            0 <= j < i ==> #[trigger] scores@[j] == (
                                (start[j].0 + order_score(formula@, free@[j], quantified).0) as usize,
                                (start[j].1 + order_score(formula@, free@[j], quantified).1) as usize,
                            ),
                        forall|j: int| i <= j < free@.len() ==> #[trigger] scores@[j] == start[j],
                    decreases free@.len() - i,
                {
                    let v = free[i];
                    let mut present = false;
                    let mut k: usize = 0;
                    while k < variables.len()
                        invariant
                            k <= variables@.len(),
                            present == exists|j: int| 0 <= j < k && variables@[j] == v,
                        decreases variables@.len() - k,
                    {
                        if variables[k] == v {
                            present = true;
                        }
                        k = k + 1;
                    }
                    proof {
                        assert(present == variables@.contains(v));
                        assert(order_score(formula@, free@[i as int], quantified) == if present {
                            (1nat, degree_of(atom.polynomial@, v))
                        } else {
                            (0nat, 0nat)
                        });
                    }
                    if present {
                        let degree = atom.polynomial.degree(v);
                        let (count, total) = scores[i];
                        scores.set(i, (count + 1, total + degree));
                    }
                    i = i + 1;
                }
            } else {
                proof {
                    assert forall|i: int| 0 <= i < free@.len() implies #[trigger] order_score(
                        formula@,
                        free@[i],
                        quantified,
                    ) == (0nat, 0nat) by {}
                    assert forall|i: int| 0 <= i < free@.len() implies #[trigger] scores@[i] == (
                        (old(scores)@[i].0 + order_score(formula@, free@[i], quantified).0) as usize,
                        (old(scores)@[i].1 + order_score(formula@, free@[i], quantified).1) as usize,
                    ) by {
                        assert(order_score(formula@, free@[i], quantified) == (0nat, 0nat));
                    }
                }
            }
        },
        Formula::Not(body) => {
            proof {
                assert forall|i: int| 0 <= i < free@.len() implies scores@[i].0 + (
                #[trigger] order_score(body@, free@[i], quantified)).0 <= usize::MAX && scores@[i].1
                    + order_score(body@, free@[i], quantified).1 <= usize::MAX by {
                    assert(order_score(formula@, free@[i], quantified) == order_score(
                        body@,
                        free@[i],
                        quantified,
                    ));
                }
            }
            collect_variable_order_scores(body, free, quantified, scores);
        },
        Formula::And(formulas) => {
            proof {
                assert forall|i: int| 0 <= i < free@.len() implies scores@[i].0 + (
                #[trigger] order_score_all(views_of(formulas@), free@[i], quantified)).0 <= usize::MAX
                    && scores@[i].1 + order_score_all(views_of(formulas@), free@[i], quantified).1
                    <= usize::MAX by {
                    assert(order_score(formula@, free@[i], quantified) == order_score_all(
                        views_of(formulas@),
                        free@[i],
                        quantified,
                    ));
                }
            }
            collect_list_order_scores(formulas, free, quantified, scores);
        },
        Formula::Or(formulas) => {
            proof {
                assert forall|i: int| 0 <= i < free@.len() implies scores@[i].0 + (
                #[trigger] order_score_all(views_of(formulas@), free@[i], quantified)).0 <= usize::MAX
                    && scores@[i].1 + order_score_all(views_of(formulas@), free@[i], quantified).1
                    <= usize::MAX by {
                    assert(order_score(formula@, free@[i], quantified) == order_score_all(
                        views_of(formulas@),
                        free@[i],
                        quantified,
                    ));
                }
            }
            collect_list_order_scores(formulas, free, quantified, scores);
        },
        Formula::Quantified { body, .. } => {
            proof {
                assert forall|i: int| 0 <= i < free@.len() implies scores@[i].0 + (
                #[trigger] order_score(body@, free@[i], quantified)).0 <= usize::MAX && scores@[i].1
                    + order_score(body@, free@[i], quantified).1 <= usize::MAX by {
                    assert(order_score(formula@, free@[i], quantified) == order_score(
                        body@,
                        free@[i],
                        quantified,
                    ));
                }
            }
            collect_variable_order_scores(body, free, quantified, scores);
        },
    }
}

/// [`collect_variable_order_scores`] over every formula of the list.
fn collect_list_order_scores(
    formulas: &Vec<Formula>,
    free: &Vec<usize>,
    quantified: usize,
    scores: &mut Vec<(usize, usize)>,
)
    requires
        all_wf(formulas@),
        old(scores)@.len() == free@.len(),
        forall|i: int|
            0 <= i < free@.len() ==> old(scores)@[i].0 + (#[trigger] order_score_all(
                views_of(formulas@),
                free@[i],
                quantified,
            )).0 <= usize::MAX && old(scores)@[i].1 + order_score_all(
                views_of(formulas@),
                free@[i],
                quantified,
            ).1 <= usize::MAX,
    ensures
        final(scores)@.len() == free@.len(),
        forall|i: int|
            0 <= i < free@.len() ==> #[trigger] final(scores)@[i] == (
                (old(scores)@[i].0 + order_score_all(views_of(formulas@), free@[i], quantified).0) as usize,
                (old(scores)@[i].1 + order_score_all(views_of(formulas@), free@[i], quantified).1) as usize,
            ),
    decreases formulas,
{
    let ghost start = scores@;
    let ghost fs = views_of(formulas@);
    let mut k: usize = 0;
    proof {
        crate::formula::lemma_views_of(formulas@);
        assert(formulas@.take(0) =~= Seq::<Formula>::empty());
    }
    while k < formulas.len()
        invariant
            all_wf(formulas@),
            fs == views_of(formulas@),
            start == old(scores)@,
            start.len() == free@.len(),
            scores@.len() == free@.len(),
            k <= formulas@.len(),
            forall|i: int|
                0 <= i < free@.len() ==> start[i].0 + (#[trigger] order_score_all(
                    fs,
                    free@[i],
                    quantified,
                )).0 <= usize::MAX && start[i].1 + order_score_all(fs, free@[i], quantified).1
                    <= usize::MAX,
            forall|i: int|
                0 <= i < free@.len() ==> #[trigger] scores@[i] == (
                    (start[i].0 + order_score_all(views_of(formulas@.take(k as int)), free@[i], quantified).0) as usize,
                    (start[i].1 + order_score_all(views_of(formulas@.take(k as int)), free@[i], quantified).1) as usize,
                ),
        decreases formulas@.len() - k,
    {
        let ghost t1 = formulas@.take(k + 1);
        proof {
            crate::formula::lemma_member_decreases(formulas, k as int);
            crate::formula::lemma_all_wf_member(formulas@, k as int);
            assert(t1.drop_last() =~= formulas@.take(k as int));
            assert(views_of(t1).drop_last() =~= views_of(formulas@.take(k as int)));
            crate::formula::lemma_views_of(t1);
            crate::formula::lemma_views_of(formulas@);
            assert(views_of(t1).last() == formulas@[k as int]@);
            assert(views_of(t1) =~= fs.take(k + 1));
            assert forall|i: int| 0 <= i < free@.len() implies scores@[i].0 + (#[trigger] order_score(
                formulas@[k as int]@,
                free@[i],
                quantified,
            )).0 <= usize::MAX && scores@[i].1 + order_score(formulas@[k as int]@, free@[i], quantified).1
                <= usize::MAX by {
                lemma_score_prefix(fs, k + 1, free@[i], quantified);
                assert(start[i].0 + order_score_all(fs, free@[i], quantified).0 <= usize::MAX);
            }
        }
        let ghost mid = scores@;
        collect_variable_order_scores(&formulas[k], free, quantified, scores);
        proof {
            assert forall|i: int| 0 <= i < free@.len() implies #[trigger] scores@[i] == (
                (start[i].0 + order_score_all(views_of(t1), free@[i], quantified).0) as usize,
                (start[i].1 + order_score_all(views_of(t1), free@[i], quantified).1) as usize,
            ) by {
                lemma_score_prefix(fs, k as int, free@[i], quantified);
                lemma_score_prefix(fs, k + 1, free@[i], quantified);
                assert(fs.take(k as int) =~= views_of(formulas@.take(k as int)));
                assert(mid[i] == (
                    (start[i].0 + order_score_all(views_of(formulas@.take(k as int)), free@[i], quantified).0) as usize,
                    (start[i].1 + order_score_all(views_of(formulas@.take(k as int)), free@[i], quantified).1) as usize,
                ));
            }
        }
        k = k + 1;
    }
    proof {
        assert(formulas@.take(k as int) =~= formulas@);
    }
}


/// `v` is one of the first `k` members.
pub open spec fn among_first(s: Seq<usize>, k: int, v: usize) -> bool {
    exists|j: int| 0 <= j < k && #[trigger] s[j] == v
}

/// `v` is the variable of one of the scored entries.
pub open spec fn scored_has(out: Seq<(usize, usize, usize)>, v: usize) -> bool {
    exists|j: int| 0 <= j < out.len() && #[trigger] out[j].0 == v
}

/// The order of scored variables `(variable, atoms, degree)`.
pub open spec fn scored_before(a: (usize, usize, usize), b: (usize, usize, usize)) -> bool {
    a.1 > b.1 || (a.1 == b.1 && (a.2 > b.2 || (a.2 == b.2 && a.0 < b.0)))
}

/// The free variables in the order in which the lifting eliminates them:
/// those sharing more atoms with the quantified variable first, then those
/// of higher total degree in them, then by index.
pub fn select_variable_order(formula: &Formula, free_variables: &Vec<usize>, quantified_variable: usize) -> (r:
    Vec<usize>)
    requires
        formula_wf(*formula),
        crate::polynomial::strictly_increasing(free_variables@),
        scores_fit(formula@, free_variables@, quantified_variable),
    ensures
        r@.len() == free_variables@.len(),
        forall|v: usize| r@.contains(v) <==> free_variables@.contains(v),
        forall|i: int, j: int|
            0 <= i < j < r@.len() ==> order_before(formula@, quantified_variable, r@[i], r@[j]),
{
    let n = free_variables.len();
    let mut scores: Vec<(usize, usize)> = Vec::new();
    let mut i: usize = 0;
    while i < n
        invariant
            n == free_variables@.len(),
            i <= n,
            scores@.len() == i,
            forall|j: int| 0 <= j < i ==> #[trigger] scores@[j] == (0usize, 0usize),
        decreases n - i,
    {
        scores.push((0, 0));
        i = i + 1;
    }
    proof {
        assert forall|j: int| 0 <= j < n implies scores@[j].0 + (#[trigger] order_score(
            formula@,
            free_variables@[j],
            quantified_variable,
        )).0 <= usize::MAX && scores@[j].1 + order_score(
            formula@,
            free_variables@[j],
            quantified_variable,
        ).1 <= usize::MAX by {
            assert(scores@[j] == (0usize, 0usize));
        }
    }
    let ghost zeros = scores@;
    collect_variable_order_scores(formula, free_variables, quantified_variable, &mut scores);
    let ghost f = formula@;
    let ghost q = quantified_variable;
    proof {
        assert forall|j: int| 0 <= j < n implies (#[trigger] scores@[j]).0 == order_score(
            f,
            free_variables@[j],
            q,
        ).0 && scores@[j].1 == order_score(f, free_variables@[j], q).1 by {
            assert(zeros[j] == (0usize, 0usize));
        }
    }
    let mut out: Vec<(usize, usize, usize)> = Vec::new();
    let mut k: usize = 0;
    while k < n
        invariant
            n == free_variables@.len(),
            scores@.len() == n,
            crate::polynomial::strictly_increasing(free_variables@),
            forall|j: int|
                0 <= j < n ==> (#[trigger] scores@[j]).0 == order_score(f, free_variables@[j], q).0
                    && scores@[j].1 == order_score(f, free_variables@[j], q).1,
            k <= n,
            out@.len() == k,
            forall|j: int|
                0 <= j < out@.len() ==> (#[trigger] out@[j]).1 == order_score(f, out@[j].0, q).0
                    && out@[j].2 == order_score(f, out@[j].0, q).1,
            forall|a: int, b: int| 0 <= a < b < out@.len() ==> scored_before(out@[a], out@[b]),
            forall|v: usize| #[trigger] scored_has(out@, v) <==> among_first(free_variables@, k as int, v),
        decreases n - k,
    {
        let item = (free_variables[k], scores[k].0, scores[k].1);
        proof {
            assert forall|j: int| 0 <= j < out@.len() implies out@[j].0 != item.0 by {
                assert(scored_has(out@, out@[j].0));
                let w = choose|w: int| 0 <= w < k && #[trigger] free_variables@[w] == out@[j].0;
                assert(free_variables@[w] < free_variables@[k as int]);
            }
        }
        let mut p: usize = 0;
        while p < out.len() && (out[p].1 > item.1 || (out[p].1 == item.1 && (out[p].2 > item.2 || (
        out[p].2 == item.2 && out[p].0 < item.0))))
            invariant
                p <= out@.len(),
                forall|j: int| 0 <= j < p ==> scored_before(#[trigger] out@[j], item),
            decreases out@.len() - p,
        {
            p = p + 1;
        }
        let ghost before = out@;
        out.insert(p, item);
        proof {
            assert(out@ =~= before.insert(p as int, item));
            if p < before.len() {
                assert(!scored_before(before[p as int], item));
                assert(before[p as int].0 != item.0);
                assert(scored_before(item, before[p as int]));
            }
            assert forall|a: int, b: int| 0 <= a < b < out@.len() implies scored_before(
                out@[a],
                out@[b],
            ) by {
                if b < p {
                } else if a < p && b == p {
                } else if a < p && b > p {
                    assert(out@[b] == before[b - 1]);
                    assert(scored_before(before[a], before[b - 1]));
                } else if a == p {
                    assert(out@[b] == before[b - 1]);
                    if b - 1 > p {
                        assert(scored_before(before[p as int], before[b - 1]));
                    }
                } else {
                    assert(out@[a] == before[a - 1]);
                    assert(out@[b] == before[b - 1]);
                }
            }
            assert forall|v: usize| #[trigger] scored_has(out@, v) <==> among_first(
                free_variables@,
                k + 1,
                v,
            ) by {
                if scored_has(out@, v) {
                    let j = choose|j: int| 0 <= j < out@.len() && #[trigger] out@[j].0 == v;
                    if j < p {
                        assert(out@[j] == before[j]);
                    } else if j > p {
                        assert(out@[j] == before[j - 1]);
                    } else {
                        assert(free_variables@[k as int] == v);
                    }
                    if j < p || j > p {
                        assert(scored_has(before, v));
                        assert(among_first(free_variables@, k as int, v));
                    }
                }
                if among_first(free_variables@, k + 1, v) {
                    let j = choose|j: int| 0 <= j < k + 1 && #[trigger] free_variables@[j] == v;
                    if j < k {
                        assert(among_first(free_variables@, k as int, v));
                        assert(scored_has(before, v));
                        let w = choose|w: int| 0 <= w < before.len() && #[trigger] before[w].0 == v;
                        if w < p {
                            assert(out@[w] == before[w]);
                        } else {
                            assert(out@[w + 1] == before[w]);
                        }
                    } else {
                        assert(out@[p as int].0 == v);
                    }
                }
            }
            assert forall|j: int| 0 <= j < out@.len() implies (#[trigger] out@[j]).1 == order_score(
                f,
                out@[j].0,
                q,
            ).0 && out@[j].2 == order_score(f, out@[j].0, q).1 by {
                if j < p {
                    assert(out@[j] == before[j]);
                } else if j > p {
                    assert(out@[j] == before[j - 1]);
                }
            }
        }
        k = k + 1;
    }
    let mut result: Vec<usize> = Vec::new();
    let mut t: usize = 0;
    while t < out.len()
        invariant
            t <= out@.len(),
            result@ == out@.take(t as int).map_values(|e: (usize, usize, usize)| e.0),
        decreases out@.len() - t,
    {
        result.push(out[t].0);
        t = t + 1;
        proof {
            assert(result@ =~= out@.take(t as int).map_values(|e: (usize, usize, usize)| e.0));
        }
    }
    proof {
        assert(out@.take(t as int) =~= out@);
        assert forall|v: usize| result@.contains(v) <==> free_variables@.contains(v) by {
            if result@.contains(v) {
                let j = choose|j: int| 0 <= j < result@.len() && result@[j] == v;
                assert(out@[j].0 == v);
                assert(scored_has(out@, v));
                assert(among_first(free_variables@, n as int, v));
                let w = choose|w: int| 0 <= w < n && #[trigger] free_variables@[w] == v;
                assert(free_variables@.contains(v));
            }
            if free_variables@.contains(v) {
                let j = choose|j: int| 0 <= j < free_variables@.len() && free_variables@[j] == v;
                assert(free_variables@[j] == v);
                assert(among_first(free_variables@, free_variables@.len() as int, v));
                assert(scored_has(out@, v));
                let w = choose|w: int| 0 <= w < out@.len() && #[trigger] out@[w].0 == v;
                assert(result@[w] == v);
            }
        }
        assert forall|i: int, j: int| 0 <= i < j < result@.len() implies order_before(
            f,
            q,
            result@[i],
            result@[j],
        ) by {
            assert(scored_before(out@[i], out@[j]));
        }
    }
    result
}

/// The atom `p relation 0` holds at the point with `x` assigned to `v`.
pub open spec fn holds_with(p: Seq<TermView>, relation: Relation, values: Map<usize, (int, nat)>, v: usize, x: (int, nat)) -> bool {
    crate::formula::eval_view(FormulaView::Atom(p, relation), values.insert(v, x)) == Some(true)
}

/// A value at which `relation` holds.
pub open spec fn satisfying_value(relation: Relation) -> (int, nat) {
    match relation {
        Relation::Less => (-1, 1),
        Relation::Greater => (1, 1),
        Relation::NotEqual => (1, 1),
        _ => (0, 1),
    }
}

/// A value at which `relation` fails.
pub open spec fn violating_value(relation: Relation) -> (int, nat) {
    match relation {
        Relation::Equal => (1, 1),
        Relation::LessOrEqual => (1, 1),
        Relation::GreaterOrEqual => (-1, 1),
        _ => (0, 1),
    }
}

/// `x = (t - b) / a` solves `b + a * x == t` for a nonzero `a`.
pub proof fn lemma_solve_linear(a: (int, nat), b: (int, nat), t: (int, nat))
    requires
        crate::polynomial::rat_reduced(a),
        crate::polynomial::rat_reduced(b),
        crate::polynomial::rat_reduced(t),
        a.0 != 0,
    ensures
        crate::polynomial::rat_reduced(crate::rational::rat_div(crate::rational::rat_sub(t, b), a)),
        crate::rational::rat_add(
            b,
            crate::rational::rat_mul(a, crate::rational::rat_div(crate::rational::rat_sub(t, b), a)),
        ) == t,
        crate::rational::rat_mul(a, crate::rational::rat_div(crate::rational::rat_sub(t, b), a))
            == crate::rational::rat_sub(t, b),
{
    let y = crate::rational::rat_sub(t, b);
    assert(t.1 * b.1 > 0) by (nonlinear_arith)
        requires
            t.1 > 0,
            b.1 > 0,
    ;
    crate::rational::lemma_normalize_reduced(t.0 * b.1 - b.0 * t.1, (t.1 * b.1) as int);
    assert(y.1 * a.0 != 0) by (nonlinear_arith)
        requires
            y.1 > 0,
            a.0 != 0,
    ;
    crate::rational::lemma_normalize_reduced(y.0 * a.1, y.1 * a.0);
    let x = crate::rational::rat_div(y, a);
    let ax = crate::rational::rat_mul(a, x);
    crate::rational::lemma_cancel_leading(y, a);
    crate::field::lemma_mul_value(a, x);
    // y - a x == 0 makes a x == y
    crate::rational::lemma_sub_sign(y, ax);
    assert(y.0 * ax.1 == ax.0 * y.1);
    crate::field::lemma_normalize_to(y, ax.0, ax.1 as int);
    crate::field::lemma_reduced_normalize(ax);
    // b + (t - b) == t
    crate::field::lemma_sub_as_add(t, b);
    crate::polynomial::lemma_rat_add_commutes(b, crate::rational::rat_add(t, crate::rational::rat_neg(b)));
    crate::field::lemma_add_associative(t, crate::rational::rat_neg(b), b);
    crate::field::lemma_add_neg_cancel(b);
    crate::polynomial::lemma_rat_add_commutes(crate::rational::rat_neg(b), b);
    crate::polynomial::lemma_add_zero_right(t);
}

/// With a zero slope the value does not depend on `x`.
proof fn lemma_zero_slope(b: (int, nat), x: (int, nat))
    requires
        crate::polynomial::rat_reduced(b),
        x.1 > 0,
    ensures
        crate::rational::rat_add(b, crate::rational::rat_mul(crate::rational::rat_zero(), x)) == b,
{
    crate::field::lemma_zero_reduced(crate::rational::rat_zero());
    crate::field::lemma_mul_zero(x, crate::rational::rat_zero());
    crate::polynomial::lemma_add_zero_right(b);
}

/// The linear rule is exact: where `p = a * x_v + b` has degree one in
/// `x_v` and every other variable of `p` is assigned, `exists x_v.
/// p relation 0` rewritten by the rule is true exactly when some rational
/// value of `x_v` makes the atom true, and `forall x_v. p relation 0`
/// exactly when every rational value does.
pub proof fn law_linear_atom_truth(
    q: Quantifier,
    p: Seq<TermView>,
    relation: Relation,
    v: usize,
    values: Map<usize, (int, nat)>,
)
    requires
        crate::polynomial::terms_canonical(p),
        degree_of(p, v) == 1,
        crate::evaluation::values_positive(values),
        forall|u: usize| has_variable(p, u) && u != v ==> values.contains_key(u),
    ensures
        crate::formula::eval_view(linear_atom_view(q, p, relation, v), values) == Some(
            match q {
                Quantifier::Exists => exists|x: (int, nat)|
                    crate::polynomial::rat_reduced(x) && #[trigger] holds_with(p, relation, values, v, x),
                Quantifier::Forall => forall|x: (int, nat)|
                    crate::polynomial::rat_reduced(x) ==> #[trigger] holds_with(p, relation, values, v, x),
            },
        ),
{
    let a = leading_in(p, v);
    let b = constant_in(p, v);
    crate::evaluation::lemma_coefficient_in_canonical(p, v, 0);
    crate::evaluation::lemma_coefficient_in_canonical(p, v, 1);
    let av = evaluate_terms(a, values);
    let bv = evaluate_terms(b, values);
    crate::evaluation::lemma_eval_reduced(a, values);
    crate::evaluation::lemma_eval_reduced(b, values);
    crate::field::lemma_zero_reduced(av);
    // the coefficients read only assigned variables
    crate::variables::lemma_over_own_variables(p);
    crate::variables::lemma_coefficient_in_over(p, v, 0, crate::variables::variables_of(p));
    crate::variables::lemma_coefficient_in_over(p, v, 1, crate::variables::variables_of(p));
    assert forall|u: usize| has_variable(a, u) implies values.contains_key(u) by {
        let (i, k) = choose|i: int, k: int| 0 <= i < a.len() && 0 <= k < a[i].0.len() && (#[trigger] a[i].0[k]).0 == u;
        assert(crate::variables::powers_over(a[i].0, crate::variables::variables_of(p).remove(v)));
        assert(crate::variables::variables_of(p).remove(v).contains(a[i].0[k].0));
        assert(u != v);
        assert(crate::variables::variables_of(p).contains(u));
        assert(has_variable(p, u));
    }
    assert forall|u: usize| has_variable(b, u) implies values.contains_key(u) by {
        let (i, k) = choose|i: int, k: int| 0 <= i < b.len() && 0 <= k < b[i].0.len() && (#[trigger] b[i].0[k]).0 == u;
        assert(crate::variables::powers_over(b[i].0, crate::variables::variables_of(p).remove(v)));
        assert(crate::variables::variables_of(p).remove(v).contains(b[i].0[k].0));
        assert(u != v);
        assert(crate::variables::variables_of(p).contains(u));
        assert(has_variable(p, u));
    }
    // the value of p at x
    assert forall|x: (int, nat)| crate::polynomial::rat_reduced(x) implies #[trigger] holds_with(p, relation, values, v, x)
        == crate::formula::relation_holds(relation, crate::rational::rat_add(bv, crate::rational::rat_mul(av, x))) by {
        crate::evaluation::lemma_linear_in_variable(p, v, values, x);
        assert forall|u: usize| has_variable(p, u) implies values.insert(v, x).contains_key(u) by {}
    }
    let zero = FormulaView::Atom(a, Relation::Equal);
    let nonzero = FormulaView::Atom(a, Relation::NotEqual);
    let batom = FormulaView::Atom(b, relation);
    assert(crate::formula::eval_view(zero, values) == Some(av.0 == 0));
    assert(crate::formula::eval_view(nonzero, values) == Some(av.0 != 0));
    assert(crate::formula::eval_view(batom, values) == Some(crate::formula::relation_holds(relation, bv)));
    let result = linear_atom_view(q, p, relation, v);
    if av.0 != 0 {
        let s = satisfying_value(relation);
        let f = violating_value(relation);
        assert(crate::polynomial::rat_reduced(s)) by {
            assert(crate::rational::gcd(1, 1) == 1);
            assert(crate::rational::gcd(0, 1) == crate::rational::gcd(1, 0));
        }
        assert(crate::polynomial::rat_reduced(f)) by {
            assert(crate::rational::gcd(1, 1) == 1);
            assert(crate::rational::gcd(0, 1) == crate::rational::gcd(1, 0));
        }
        lemma_solve_linear(av, bv, s);
        lemma_solve_linear(av, bv, f);
        let xs = crate::rational::rat_div(crate::rational::rat_sub(s, bv), av);
        let xf = crate::rational::rat_div(crate::rational::rat_sub(f, bv), av);
        assert(holds_with(p, relation, values, v, xs));
        assert(!holds_with(p, relation, values, v, xf));
        match q {
            Quantifier::Exists => {
                if relation == Relation::Equal {
                    let c = FormulaView::And(seq![zero, FormulaView::Atom(b, Relation::Equal)]);
                    assert(crate::formula::eval_and(seq![zero, FormulaView::Atom(b, Relation::Equal)], values) == Some(false)) by {
                        assert(seq![zero, FormulaView::Atom(b, Relation::Equal)].drop_last() =~= seq![zero]);
                        assert(seq![zero].drop_last() =~= Seq::<FormulaView>::empty());
                        assert(crate::formula::eval_and(Seq::<FormulaView>::empty(), values) == Some(true));
                        assert(crate::formula::eval_and(seq![zero], values) == Some(av.0 == 0));
                    }
                    assert(crate::formula::eval_view(c, values) == Some(false));
                    assert(result == FormulaView::Or(seq![c, nonzero]));
                    assert(crate::formula::eval_or(seq![c, nonzero], values) == Some(true)) by {
                        assert(seq![c, nonzero].drop_last() =~= seq![c]);
                        assert(seq![c].drop_last() =~= Seq::<FormulaView>::empty());
                        assert(crate::formula::eval_or(Seq::<FormulaView>::empty(), values) == Some(false));
                        assert(crate::formula::eval_view(c, values) == crate::formula::eval_and(
                            seq![zero, FormulaView::Atom(b, Relation::Equal)],
                            values,
                        ));
                        assert(crate::formula::eval_or(seq![c], values) == crate::formula::eval_view(c, values));
                    }
                } else {
                    assert(result == FormulaView::Or(seq![nonzero, batom]));
                    assert(crate::formula::eval_or(seq![nonzero, batom], values) == Some(true)) by {
                        assert(seq![nonzero, batom].drop_last() =~= seq![nonzero]);
                        assert(seq![nonzero].drop_last() =~= Seq::<FormulaView>::empty());
                        assert(crate::formula::eval_or(Seq::<FormulaView>::empty(), values) == Some(false));
                        assert(crate::formula::eval_or(seq![nonzero], values) == Some(av.0 != 0));
                    }
                }
            },
            Quantifier::Forall => {
                assert(result == FormulaView::And(seq![zero, batom]));
                assert(crate::formula::eval_and(seq![zero, batom], values) == Some(false)) by {
                    assert(seq![zero, batom].drop_last() =~= seq![zero]);
                    assert(seq![zero].drop_last() =~= Seq::<FormulaView>::empty());
                    assert(crate::formula::eval_and(Seq::<FormulaView>::empty(), values) == Some(true));
                    assert(crate::formula::eval_and(seq![zero], values) == Some(av.0 == 0));
                }
            },
        }
    } else {
        assert(av == crate::rational::rat_zero());
        assert forall|x: (int, nat)| crate::polynomial::rat_reduced(x) implies #[trigger] holds_with(p, relation, values, v, x)
            == crate::formula::relation_holds(relation, bv) by {
            lemma_zero_slope(bv, x);
        }
        let z = crate::rational::rat_zero();
        assert(crate::polynomial::rat_reduced(z)) by {
            crate::field::lemma_zero_reduced(z);
        }
        assert(holds_with(p, relation, values, v, z) == crate::formula::relation_holds(relation, bv));
        match q {
            Quantifier::Exists => {
                if relation == Relation::Equal {
                    let c = FormulaView::And(seq![zero, FormulaView::Atom(b, Relation::Equal)]);
                    assert(crate::formula::eval_and(seq![zero, FormulaView::Atom(b, Relation::Equal)], values) == Some(bv.0 == 0)) by {
                        assert(seq![zero, FormulaView::Atom(b, Relation::Equal)].drop_last() =~= seq![zero]);
                        assert(seq![zero].drop_last() =~= Seq::<FormulaView>::empty());
                    }
                    assert(result == FormulaView::Or(seq![c, nonzero]));
                    assert(crate::formula::eval_or(seq![c, nonzero], values) == Some(bv.0 == 0)) by {
                        assert(seq![c, nonzero].drop_last() =~= seq![c]);
                        assert(seq![c].drop_last() =~= Seq::<FormulaView>::empty());
                        assert(crate::formula::eval_or(Seq::<FormulaView>::empty(), values) == Some(false));
                        assert(crate::formula::eval_view(c, values) == crate::formula::eval_and(
                            seq![zero, FormulaView::Atom(b, Relation::Equal)],
                            values,
                        ));
                        assert(crate::formula::eval_or(seq![c], values) == crate::formula::eval_view(c, values));
                    }
                } else {
                    assert(result == FormulaView::Or(seq![nonzero, batom]));
                    assert(crate::formula::eval_or(seq![nonzero, batom], values) == Some(
                        crate::formula::relation_holds(relation, bv),
                    )) by {
                        assert(seq![nonzero, batom].drop_last() =~= seq![nonzero]);
                        assert(seq![nonzero].drop_last() =~= Seq::<FormulaView>::empty());
                        assert(crate::formula::eval_or(Seq::<FormulaView>::empty(), values) == Some(false));
                        assert(crate::formula::eval_or(seq![nonzero], values) == Some(av.0 != 0));
                    }
                }
            },
            Quantifier::Forall => {
                assert(result == FormulaView::And(seq![zero, batom]));
                assert(crate::formula::eval_and(seq![zero, batom], values) == Some(
                    crate::formula::relation_holds(relation, bv),
                )) by {
                    assert(seq![zero, batom].drop_last() =~= seq![zero]);
                    assert(seq![zero].drop_last() =~= Seq::<FormulaView>::empty());
                    assert(crate::formula::eval_and(Seq::<FormulaView>::empty(), values) == Some(true));
                    assert(crate::formula::eval_and(seq![zero], values) == Some(av.0 == 0));
                }
            },
        }
    }
}

/// A member's free variables are free in the list.
pub proof fn lemma_free_in_member(fs: Seq<FormulaView>, i: int, u: usize)
    requires
        0 <= i < fs.len(),
        crate::formula::free_in(fs[i], u),
    ensures
        crate::formula::free_in_any(fs, u),
    decreases fs.len(),
{
    if i < fs.len() - 1 {
        assert(fs.drop_last()[i] == fs[i]);
        lemma_free_in_member(fs.drop_last(), i, u);
    }
}

/// A nonempty canonical polynomial without variables has a nonzero value.
pub proof fn lemma_constant_value_nonzero(a: Seq<TermView>, values: Map<usize, (int, nat)>)
    requires
        crate::polynomial::terms_canonical(a),
        is_constant(a),
        a.len() > 0,
    ensures
        evaluate_terms(a, values).0 != 0,
        evaluate_terms(a, values) == a[0].1,
{
    lemma_constant_monomials(a);
    if a.len() > 1 {
        assert(crate::monomial::mono_lt(a[0].0, a[1].0));
        assert(a[0].0 =~= a[1].0);
        crate::monomial::lemma_mono_lt_irreflexive(a[0].0);
    }
    assert(a.len() == 1);
    assert(a.drop_last().len() == 0);
    assert(evaluate_terms(a.drop_last(), values) == crate::rational::rat_zero());
    assert(a.last() == a[0]);
    assert(a[0].0.len() == 0);
    assert(crate::polynomial::rat_reduced(a[0].1) && a[0].1.0 != 0);
    assert(crate::polynomial::monomial_value(a[0].1, a[0].0, values) == a[0].1);
    crate::polynomial::lemma_add_zero_left(a[0].1);
    assert(evaluate_terms(a, values) == crate::rational::rat_add(
        evaluate_terms(a.drop_last(), values),
        crate::polynomial::monomial_value(a.last().1, a.last().0, values),
    ));
}

/// A literal of degree one in `x_v` with a nonzero constant coefficient
/// fails for some rational value of `x_v`, whatever the other variables.
pub proof fn law_linear_literal_fails(b: FormulaView, v: usize, values: Map<usize, (int, nat)>)
    requires
        linear_literal_branch(b, v),
        literal_view(b) matches Some((p, _)) && crate::polynomial::terms_canonical(p),
        crate::evaluation::values_positive(values),
        forall|u: usize| u != v && crate::formula::free_in(b, u) ==> values.contains_key(u),
    ensures
        exists|x: (int, nat)|
            crate::polynomial::rat_reduced(x) && #[trigger] crate::formula::eval_view(b, values.insert(v, x))
                == Some(false),
{
    let (p, relation) = literal_view(b)->0;
    let a = leading_in(p, v);
    let c = constant_in(p, v);
    crate::evaluation::lemma_coefficient_in_canonical(p, v, 0);
    crate::evaluation::lemma_coefficient_in_canonical(p, v, 1);
    crate::evaluation::lemma_eval_reduced(a, values);
    crate::evaluation::lemma_eval_reduced(c, values);
    lemma_constant_value_nonzero(a, values);
    let av = evaluate_terms(a, values);
    let cv = evaluate_terms(c, values);
    let t = violating_value(relation);
    assert(crate::polynomial::rat_reduced(t)) by {
        crate::evaluation::lemma_one_reduced();
        crate::field::lemma_zero_reduced(crate::rational::rat_zero());
        assert(crate::rational::abs(-1) == 1);
    }
    lemma_solve_linear(av, cv, t);
    let x = crate::rational::rat_div(crate::rational::rat_sub(t, cv), av);
    let w = values.insert(v, x);
    crate::evaluation::lemma_linear_in_variable(p, v, values, x);
    assert(!crate::formula::relation_holds(relation, evaluate_terms(p, w)));
    assert forall|u: usize| has_variable(p, u) implies w.contains_key(u) by {
        if u != v {
            match b {
                FormulaView::Atom(p2, _) => {
                    assert(p2 == p);
                    assert(crate::formula::free_in(b, u));
                },
                FormulaView::Not(inner) => {
                    match *inner {
                        FormulaView::Atom(p2, _) => {
                            assert(p2 == p);
                            assert(crate::formula::free_in(*inner, u));
                            assert(crate::formula::free_in(b, u));
                        },
                        _ => {},
                    }
                },
                _ => {},
            }
        }
    }
    let val = evaluate_terms(p, w);
    match b {
        FormulaView::Atom(p2, r2) => {
            assert(p2 == p && r2 == relation);
            assert(crate::formula::atom_value(p, relation, w) == Some(crate::formula::relation_holds(relation, val)));
            assert(crate::formula::eval_view(b, w) == crate::formula::atom_value(p, relation, w));
        },
        FormulaView::Not(inner) => {
            match *inner {
                FormulaView::Atom(p2, r2) => {
                    assert(p2 == p && relation == negated_relation(r2));
                    assert(crate::formula::atom_value(p, r2, w) == Some(crate::formula::relation_holds(r2, val)));
                    assert(crate::formula::relation_holds(r2, val) == !crate::formula::relation_holds(relation, val));
                    assert(crate::formula::eval_view(*inner, w) == crate::formula::atom_value(p, r2, w));
                    assert(crate::formula::eval_view(b, w) == Some(false));
                },
                _ => {},
            }
        },
        _ => {},
    }
    assert(crate::formula::eval_view(b, w) == Some(false));
}

/// At a point assigning the other free variables, some rational value of
/// `x_v` fails some member of the conjunction.
pub open spec fn fails_at(bs: Seq<FormulaView>, v: usize, values: Map<usize, (int, nat)>) -> bool {
    crate::evaluation::values_positive(values) && (forall|u: usize|
        u != v && crate::formula::free_in_any(bs, u) ==> values.contains_key(u)) ==> exists|x: (int, nat)|
        crate::polynomial::rat_reduced(x) && #[trigger] crate::formula::eval_and(bs, values.insert(v, x)) != Some(
            true,
        )
}

/// No rational value of `x_v` satisfies every member of a conjunction
/// that holds a literal as in [`law_linear_literal_fails`]: `forall x_v`
/// of it is false.
pub open spec fn conjunction_fails(f: FormulaView, v: usize) -> bool {
    match quantified_conjuncts(f, Quantifier::Forall) {
        Some(bs) => forall|values: Map<usize, (int, nat)>| #[trigger] fails_at(bs, v, values),
        None => true,
    }
}

/// A branch as in [`law_linear_literal_fails`] makes the conjunction fail.
proof fn lemma_branch_fails(f: FormulaView, v: usize, bs: Seq<FormulaView>, i: int)
    requires
        quantified_conjuncts(f, Quantifier::Forall) == Some(bs),
        0 <= i < bs.len(),
        linear_literal_branch(bs[i], v),
        literal_view(bs[i]) matches Some((p, _)) && crate::polynomial::terms_canonical(p),
    ensures
        conjunction_fails(f, v),
{
    assert forall|values: Map<usize, (int, nat)>| #[trigger] fails_at(bs, v, values) by {
        if crate::evaluation::values_positive(values) && (forall|u: usize|
                u != v && crate::formula::free_in_any(bs, u) ==> values.contains_key(u)) {
            assert forall|u: usize| u != v && crate::formula::free_in(bs[i], u) implies values.contains_key(u) by {
                lemma_free_in_member(bs, i, u);
            }
            law_linear_literal_fails(bs[i], v, values);
            let x = choose|x: (int, nat)|
                crate::polynomial::rat_reduced(x) && #[trigger] crate::formula::eval_view(bs[i], values.insert(v, x))
                    == Some(false);
            crate::qe::simplify::lemma_eval_and(bs, values.insert(v, x));
            assert(crate::formula::eval_and(bs, values.insert(v, x)) != Some(true));
        }
    }
}

/// Scaling by `a` keeps the relation when `a > 0` and reverses it when
/// `a < 0`.
pub proof fn lemma_scaled_relation(relation: Relation, a: (int, nat), y: (int, nat))
    requires
        a.1 > 0,
        a.0 != 0,
        y.1 > 0,
    ensures
        crate::formula::relation_holds(
            if a.0 > 0 {
                relation
            } else {
                reversed(relation)
            },
            crate::rational::rat_mul(a, y),
        ) == crate::formula::relation_holds(relation, y),
{
    assert(a.1 * y.1 > 0) by (nonlinear_arith)
        requires
            a.1 > 0,
            y.1 > 0,
    ;
    crate::rational::lemma_normalize_sign(a.0 * y.0, (a.1 * y.1) as int);
    if a.0 > 0 {
        assert(a.0 * y.0 > 0 <==> y.0 > 0) by (nonlinear_arith)
            requires
                a.0 > 0,
        ;
        assert(a.0 * y.0 < 0 <==> y.0 < 0) by (nonlinear_arith)
            requires
                a.0 > 0,
        ;
    } else {
        assert(a.0 * y.0 > 0 <==> y.0 < 0) by (nonlinear_arith)
            requires
                a.0 < 0,
        ;
        assert(a.0 * y.0 < 0 <==> y.0 > 0) by (nonlinear_arith)
            requires
                a.0 < 0,
        ;
    }
}

/// A reduced fraction subtracted from zero is its negation.
proof fn lemma_zero_minus(c: (int, nat))
    requires
        crate::polynomial::rat_reduced(c),
    ensures
        crate::rational::rat_sub(crate::rational::rat_zero(), c) == crate::rational::rat_neg(c),
{
    assert(crate::rational::abs(-c.0) == crate::rational::abs(c.0));
    crate::field::lemma_normalize_to(crate::rational::rat_neg(c), 0 * c.1 - c.0 * 1, (1 * c.1) as int);
}

/// Two reduced solutions of `c + a * x == 0` with `a != 0` are equal.
proof fn lemma_unique_root(a: (int, nat), c: (int, nat), x: (int, nat), y: (int, nat))
    requires
        crate::polynomial::rat_reduced(a),
        a.0 != 0,
        crate::polynomial::rat_reduced(c),
        crate::polynomial::rat_reduced(x),
        crate::polynomial::rat_reduced(y),
        crate::rational::rat_add(c, crate::rational::rat_mul(a, x)).0 == 0,
        crate::rational::rat_add(c, crate::rational::rat_mul(a, y)).0 == 0,
    ensures
        x == y,
{
    let mx = crate::rational::rat_mul(a, x);
    let my = crate::rational::rat_mul(a, y);
    crate::field::lemma_mul_value(a, x);
    crate::field::lemma_mul_value(a, y);
    crate::field::lemma_add_value(c, mx);
    crate::field::lemma_add_value(c, my);
    let sx = crate::rational::rat_add(c, mx);
    let sy = crate::rational::rat_add(c, my);
    assert(sx.1 > 0 && sy.1 > 0);
    assert(c.0 * mx.1 + mx.0 * c.1 == 0) by (nonlinear_arith)
        requires
            sx.0 * (c.1 * mx.1) == (c.0 * mx.1 + mx.0 * c.1) * sx.1,
            sx.0 == 0,
            sx.1 > 0,
    ;
    assert(c.0 * my.1 + my.0 * c.1 == 0) by (nonlinear_arith)
        requires
            sy.0 * (c.1 * my.1) == (c.0 * my.1 + my.0 * c.1) * sy.1,
            sy.0 == 0,
            sy.1 > 0,
    ;
    // mx and my both equal -c as fractions
    assert(mx.0 * my.1 == my.0 * mx.1) by (nonlinear_arith)
        requires
            c.0 * mx.1 + mx.0 * c.1 == 0,
            c.0 * my.1 + my.0 * c.1 == 0,
            c.1 > 0,
    {
        assert(mx.0 * c.1 * my.1 == -(c.0 * mx.1 * my.1));
        assert(my.0 * c.1 * mx.1 == -(c.0 * my.1 * mx.1));
    }
    // a * x and a * y have the same value, so x and y do
    let k = a.0 * mx.1 * my.1;
    assert(k != 0) by (nonlinear_arith)
        requires
            k == a.0 * mx.1 * my.1,
            a.0 != 0,
            mx.1 > 0,
            my.1 > 0,
    ;
    assert(mx.0 * my.1 * (a.1 * x.1 * y.1) == k * (x.0 * y.1)) by (nonlinear_arith)
        requires
            mx.0 * (a.1 * x.1) == (a.0 * x.0) * mx.1,
            k == a.0 * mx.1 * my.1,
    ;
    assert(my.0 * mx.1 * (a.1 * x.1 * y.1) == k * (y.0 * x.1)) by (nonlinear_arith)
        requires
            my.0 * (a.1 * y.1) == (a.0 * y.0) * my.1,
            k == a.0 * mx.1 * my.1,
    ;
    assert(k * (x.0 * y.1) == k * (y.0 * x.1));
    assert(x.0 * y.1 == y.0 * x.1) by (nonlinear_arith)
        requires
            k != 0,
            k * (x.0 * y.1) == k * (y.0 * x.1),
    ;
    crate::field::lemma_normalize_to(x, y.0, y.1 as int);
    crate::field::lemma_reduced_normalize(y);
}

/// Members with equal truth values give equal conjunctions.
proof fn lemma_eval_and_pointwise(
    xs: Seq<FormulaView>,
    w1: Map<usize, (int, nat)>,
    ys: Seq<FormulaView>,
    w2: Map<usize, (int, nat)>,
)
    requires
        xs.len() == ys.len(),
        forall|i: int| 0 <= i < xs.len() ==> #[trigger] crate::formula::eval_view(xs[i], w1) == crate::formula::eval_view(ys[i], w2),
    ensures
        crate::formula::eval_and(xs, w1) == crate::formula::eval_and(ys, w2),
    decreases xs.len(),
{
    if xs.len() > 0 {
        assert forall|i: int| 0 <= i < xs.drop_last().len() implies #[trigger] crate::formula::eval_view(xs.drop_last()[i], w1)
            == crate::formula::eval_view(ys.drop_last()[i], w2) by {
            assert(crate::formula::eval_view(xs[i], w1) == crate::formula::eval_view(ys[i], w2));
        }
        lemma_eval_and_pointwise(xs.drop_last(), w1, ys.drop_last(), w2);
        assert(crate::formula::eval_view(xs[xs.len() - 1], w1) == crate::formula::eval_view(ys[ys.len() - 1], w2));
    }
}

/// The truth of a literal at a point that assigns its variables.
pub proof fn lemma_literal_eval(b: FormulaView, w: Map<usize, (int, nat)>)
    requires
        literal_view(b) is Some,
        forall|u: usize| has_variable((literal_view(b)->0).0, u) ==> w.contains_key(u),
    ensures
        crate::formula::eval_view(b, w) == Some(
            crate::formula::relation_holds((literal_view(b)->0).1, evaluate_terms((literal_view(b)->0).0, w)),
        ),
{
    let (p, relation) = literal_view(b)->0;
    let val = evaluate_terms(p, w);
    match b {
        FormulaView::Atom(p2, r2) => {
            assert(crate::formula::eval_view(b, w) == crate::formula::atom_value(p, relation, w));
        },
        FormulaView::Not(inner) => {
            match *inner {
                FormulaView::Atom(p2, r2) => {
                    assert(relation == negated_relation(r2));
                    assert(crate::formula::eval_view(*inner, w) == crate::formula::atom_value(p, r2, w));
                    assert(crate::formula::relation_holds(r2, val) == !crate::formula::relation_holds(relation, val));
                },
                _ => {},
            }
        },
        _ => {},
    }
}

/// Assigning `v` leaves the value of terms without `v` unchanged.
pub proof fn lemma_terms_local(s: Seq<TermView>, values: Map<usize, (int, nat)>, v: usize, x: (int, nat))
    requires
        forall|i: int, k: int| 0 <= i < s.len() && 0 <= k < s[i].0.len() ==> (#[trigger] s[i].0[k]).0 != v,
    ensures
        evaluate_terms(s, values.insert(v, x)) == evaluate_terms(s, values),
    decreases s.len(),
{
    if s.len() > 0 {
        let s0 = s.drop_last();
        assert forall|i: int, k: int| 0 <= i < s0.len() && 0 <= k < s0[i].0.len() implies (#[trigger] s0[i].0[k]).0 != v by {
            assert(s0[i] == s[i]);
        }
        lemma_terms_local(s0, values, v, x);
        let t = s.last();
        assert(s[s.len() - 1] == t);
        assert forall|k: int| 0 <= k < t.0.len() implies (#[trigger] t.0[k]).0 != v by {
            assert(s[s.len() - 1].0[k] == t.0[k]);
        }
        crate::evaluation::lemma_monomial_local(t.1, t.0, values, v, x);
    }
}

/// The value of the substituted form of a branch of degree one:
/// `a * b - k * c` is `a` times the value of `k * x + b` at the root `x0`
/// of the pivot `a * x + c`.
proof fn lemma_substituted_value(
    p: Seq<TermView>,
    a: Seq<TermView>,
    c: Seq<TermView>,
    v: usize,
    values: Map<usize, (int, nat)>,
    x0: (int, nat),
)
    requires
        crate::polynomial::terms_canonical(p),
        degree_of(p, v) <= 1,
        crate::polynomial::terms_canonical(a),
        is_constant(a),
        crate::polynomial::terms_canonical(c),
        crate::polynomial::mul_fits(leading_in(p, v), c),
        crate::evaluation::values_positive(values),
        crate::polynomial::rat_reduced(x0),
        crate::rational::rat_mul(evaluate_terms(a, values), x0) == crate::rational::rat_neg(evaluate_terms(c, values)),
    ensures
        evaluate_terms(
            add_terms(mul_terms(a, constant_in(p, v)), negate_terms(mul_terms(leading_in(p, v), c))),
            values,
        ) == crate::rational::rat_mul(evaluate_terms(a, values), evaluate_terms(p, values.insert(v, x0))),
{
    let cp = constant_in(p, v);
    let lp = leading_in(p, v);
    crate::evaluation::lemma_coefficient_in_canonical(p, v, 0);
    crate::evaluation::lemma_coefficient_in_canonical(p, v, 1);
    lemma_constant_monomials(a);
    crate::evaluation::lemma_eval_mul(a, cp, values);
    crate::evaluation::lemma_eval_mul(lp, c, values);
    let lc = mul_terms(lp, c);
    let n = negate_terms(lc);
    assert(crate::polynomial::terms_canonical(n)) by {
        assert forall|i: int| 0 <= i < n.len() implies {
            &&& crate::monomial::powers_wf((#[trigger] n[i]).0)
            &&& crate::polynomial::rat_reduced(n[i].1)
            &&& n[i].1.0 != 0
        } by {
            assert(crate::rational::abs(-lc[i].1.0) == crate::rational::abs(lc[i].1.0));
        }
    }
    crate::evaluation::law_evaluate_add(mul_terms(a, cp), n, values);
    crate::evaluation::law_evaluate_negate(lc, values);
    crate::evaluation::lemma_linear_in_variable(p, v, values, x0);
    let av = evaluate_terms(a, values);
    let bv = evaluate_terms(cp, values);
    let lv = evaluate_terms(lp, values);
    let cv = evaluate_terms(c, values);
    crate::evaluation::lemma_eval_reduced(a, values);
    crate::evaluation::lemma_eval_reduced(cp, values);
    crate::evaluation::lemma_eval_reduced(lp, values);
    crate::evaluation::lemma_eval_reduced(c, values);
    let m = crate::rational::rat_mul(av, x0);
    crate::field::lemma_mul_value(av, x0);
    // -(l * c) == l * (a * x0) == a * (l * x0)
    assert(cv == crate::rational::rat_neg(m));
    crate::field::lemma_neg_mul(m, lv);
    crate::field::lemma_mul_commutative(m, lv);
    crate::field::lemma_mul_commutative(crate::rational::rat_neg(m), lv);
    crate::field::lemma_mul_associative(av, x0, lv);
    crate::field::lemma_mul_commutative(x0, lv);
    // a * b + a * (l * x0) == a * (b + l * x0)
    crate::field::lemma_mul_value(lv, x0);
    crate::field::lemma_distributive(bv, crate::rational::rat_mul(lv, x0), av);
    crate::field::lemma_mul_commutative(bv, av);
    crate::field::lemma_mul_commutative(crate::rational::rat_mul(lv, x0), av);
    crate::field::lemma_mul_commutative(crate::rational::rat_add(bv, crate::rational::rat_mul(lv, x0)), av);
}

/// The variables assigned at a point.
pub open spec fn assigned(values: Map<usize, (int, nat)>) -> Set<usize> {
    Set::new(|u: usize| values.contains_key(u))
}

/// Substituting the root `x0` of the pivot into a branch keeps its truth:
/// the substituted branch holds where the branch holds at `x0`.
proof fn lemma_branch_truth(
    b: FormulaView,
    a: Seq<TermView>,
    c: Seq<TermView>,
    v: usize,
    values: Map<usize, (int, nat)>,
    x0: (int, nat),
)
    requires
        literal_view(b) matches Some((p, _)) && crate::polynomial::terms_canonical(p) && degree_of(p, v) <= 1
            && crate::polynomial::mul_fits(leading_in(p, v), c),
        forall|u: usize| has_variable((literal_view(b)->0).0, u) && u != v ==> values.contains_key(u),
        crate::polynomial::terms_canonical(a),
        is_constant(a),
        a.len() > 0,
        crate::polynomial::terms_canonical(c),
        forall|u: usize| has_variable(c, u) ==> values.contains_key(u),
        crate::evaluation::values_positive(values),
        crate::polynomial::rat_reduced(x0),
        crate::rational::rat_mul(evaluate_terms(a, values), x0) == crate::rational::rat_neg(evaluate_terms(c, values)),
    ensures
        crate::formula::eval_view(substituted(b, a, c, v), values) == crate::formula::eval_view(b, values.insert(v, x0)),
{
    let (p, relation) = literal_view(b)->0;
    let w = values.insert(v, x0);
    lemma_literal_eval(b, w);
    let vars = assigned(values);
    crate::polynomial::lemma_degree_of(p, v, 0);
    if degree_of(p, v) == 0 {
        assert forall|i: int, k: int| 0 <= i < p.len() && 0 <= k < p[i].0.len() implies (#[trigger] p[i].0[k]).0 != v by {
            if p[i].0[k].0 == v {
                assert(crate::monomial::powers_wf(p[i].0));
                crate::monomial::lemma_exponent_at(p[i].0, k);
                assert(crate::monomial::exponent_of(p[i].0, v) <= 0);
            }
        }
        lemma_terms_local(p, values, v, x0);
        assert forall|u: usize| has_variable(p, u) implies values.contains_key(u) by {
            let (i, k) = choose|i: int, k: int| 0 <= i < p.len() && 0 <= k < p[i].0.len() && (#[trigger] p[i].0[k]).0 == u;
        }
        assert(crate::formula::eval_view(substituted(b, a, c, v), values) == crate::formula::atom_value(p, relation, values));
    } else {
        let cp = constant_in(p, v);
        let lp = leading_in(p, v);
        let sp = add_terms(mul_terms(a, cp), negate_terms(mul_terms(lp, c)));
        lemma_substituted_value(p, a, c, v, values, x0);
        lemma_constant_value_nonzero(a, values);
        lemma_constant_value_nonzero(a, Map::empty());
        let av = evaluate_terms(a, values);
        crate::evaluation::lemma_eval_reduced(a, values);
        crate::evaluation::lemma_eval_reduced(p, w);
        lemma_scaled_relation(relation, av, evaluate_terms(p, w));
        // the substituted polynomial reads only assigned variables
        lemma_constant_monomials(a);
        assert(crate::variables::terms_over(a, vars)) by {
            assert forall|i: int| 0 <= i < a.len() implies crate::variables::powers_over((#[trigger] a[i]).0, vars) by {
                assert(a[i].0.len() == 0);
            }
        }
        crate::variables::lemma_over_own_variables(p);
        crate::variables::lemma_coefficient_in_over(p, v, 0, crate::variables::variables_of(p));
        crate::variables::lemma_coefficient_in_over(p, v, 1, crate::variables::variables_of(p));
        assert(crate::variables::variables_of(p).remove(v).subset_of(vars)) by {
            assert forall|u: usize| crate::variables::variables_of(p).remove(v).contains(u) implies vars.contains(u) by {
                assert(has_variable(p, u));
            }
        }
        crate::variables::lemma_over_subset(cp, crate::variables::variables_of(p).remove(v), vars);
        crate::variables::lemma_over_subset(lp, crate::variables::variables_of(p).remove(v), vars);
        crate::variables::lemma_over_own_variables(c);
        assert(crate::variables::variables_of(c).subset_of(vars)) by {
            assert forall|u: usize| crate::variables::variables_of(c).contains(u) implies vars.contains(u) by {
                assert(has_variable(c, u));
            }
        }
        crate::variables::lemma_over_subset(c, crate::variables::variables_of(c), vars);
        crate::variables::lemma_mul_terms_over(a, cp, vars);
        crate::variables::lemma_mul_terms_over(lp, c, vars);
        crate::variables::lemma_negate_over(mul_terms(lp, c), vars);
        crate::variables::lemma_add_terms_over(mul_terms(a, cp), negate_terms(mul_terms(lp, c)), vars);
        assert forall|u: usize| has_variable(sp, u) implies values.contains_key(u) by {
            let (i, k) = choose|i: int, k: int| 0 <= i < sp.len() && 0 <= k < sp[i].0.len() && (#[trigger] sp[i].0[k]).0 == u;
            assert(crate::variables::powers_over(sp[i].0, vars));
            assert(vars.contains(u));
        }
        let r2 = if constant_value(a).0 > 0 {
            relation
        } else {
            reversed(relation)
        };
        assert(substituted(b, a, c, v) == FormulaView::Atom(sp, r2));
        assert(crate::formula::eval_view(substituted(b, a, c, v), values) == crate::formula::atom_value(sp, r2, values));
    }
}

/// At a point assigning the other free variables, `g` is true exactly when
/// some rational value of `x_v` satisfies every member of the conjunction.
pub open spec fn exists_exact_at(bs: Seq<FormulaView>, v: usize, g: FormulaView, values: Map<usize, (int, nat)>) -> bool {
    crate::evaluation::values_positive(values) && (forall|u: usize|
        u != v && crate::formula::free_in_any(bs, u) ==> values.contains_key(u)) ==> crate::formula::eval_view(
        g,
        values,
    ) == Some(
        exists|x: (int, nat)|
            crate::polynomial::rat_reduced(x) && #[trigger] crate::formula::eval_and(bs, values.insert(v, x))
                == Some(true),
    )
}

/// Every branch is a literal whose polynomial is canonical.
pub open spec fn literals_canonical(bs: Seq<FormulaView>) -> bool {
    forall|i: int|
        0 <= i < bs.len() ==> ((#[trigger] literal_view(bs[i])) matches Some((p, _))
            && crate::polynomial::terms_canonical(p))
}

/// The substitution rule is exact: where `exists x_v. (b1 && ... && bn)`
/// has a pivot equation `a * x_v + c == 0` (constant `a != 0`) and every
/// branch has degree at most one in `x_v`, the substituted conjunction is
/// true at a point exactly when some rational `x_v` satisfies every
/// branch there.
pub proof fn law_exists_conjunction_truth(bs: Seq<FormulaView>, v: usize, values: Map<usize, (int, nat)>)
    requires
        pivot_from(bs, v, 0) is Some,
        all_linear(bs, v),
        literals_canonical(bs),
        literal_products_fit(bs),
    ensures
        exists_exact_at(
            bs,
            v,
            FormulaView::And(
                bs.map_values(
                    |b: FormulaView|
                        substituted(
                            b,
                            leading_in((literal_view(bs[pivot_from(bs, v, 0)->0])->0).0, v),
                            constant_in((literal_view(bs[pivot_from(bs, v, 0)->0])->0).0, v),
                            v,
                        ),
                ),
            ),
            values,
        ),
{
    let e = pivot_from(bs, v, 0)->0;
    lemma_pivot_from(bs, v, 0);
    let ps = (literal_view(bs[e])->0).0;
    let a = leading_in(ps, v);
    let c = constant_in(ps, v);
    let mapped = bs.map_values(|b: FormulaView| substituted(b, a, c, v));
    if crate::evaluation::values_positive(values) && (forall|u: usize|
        u != v && crate::formula::free_in_any(bs, u) ==> values.contains_key(u)) {
        assert(literal_view(bs[e]) matches Some((p, _)) && crate::polynomial::terms_canonical(p));
        crate::evaluation::lemma_coefficient_in_canonical(ps, v, 0);
        crate::evaluation::lemma_coefficient_in_canonical(ps, v, 1);
        lemma_constant_value_nonzero(a, values);
        let av = evaluate_terms(a, values);
        let cv = evaluate_terms(c, values);
        crate::evaluation::lemma_eval_reduced(a, values);
        crate::evaluation::lemma_eval_reduced(c, values);
        let zero = crate::rational::rat_zero();
        crate::field::lemma_zero_reduced(zero);
        lemma_solve_linear(av, cv, zero);
        lemma_zero_minus(cv);
        let x0 = crate::rational::rat_div(crate::rational::rat_sub(zero, cv), av);
        // the variables the pivot's constant reads are assigned
        crate::variables::lemma_over_own_variables(ps);
        crate::variables::lemma_coefficient_in_over(ps, v, 0, crate::variables::variables_of(ps));
        assert forall|u: usize| has_variable(c, u) implies values.contains_key(u) by {
            let (i, k) = choose|i: int, k: int| 0 <= i < c.len() && 0 <= k < c[i].0.len() && (#[trigger] c[i].0[k]).0 == u;
            assert(crate::variables::powers_over(c[i].0, crate::variables::variables_of(ps).remove(v)));
            assert(crate::variables::variables_of(ps).remove(v).contains(c[i].0[k].0));
            assert(has_variable(ps, u));
            assert(crate::formula::free_in(bs[e], u)) by {
                match bs[e] {
                    FormulaView::Not(inner) => {
                        assert(crate::formula::free_in(*inner, u));
                    },
                    _ => {},
                }
            }
            lemma_free_in_member(bs, e, u);
        }
        // each branch keeps its truth at x0
        assert forall|i: int| 0 <= i < bs.len() implies #[trigger] crate::formula::eval_view(mapped[i], values)
            == crate::formula::eval_view(bs[i], values.insert(v, x0)) && crate::formula::eval_view(
            mapped[i],
            values,
        ) is Some by {
            let p = (literal_view(bs[i])->0).0;
            assert(literal_view(bs[i]) matches Some((q, _)) && crate::polynomial::terms_canonical(q) && degree_of(q, v) <= 1);
            crate::polynomial::lemma_max_exponent_bounds(p);
            crate::polynomial::lemma_max_exponent_bounds(ps);
            crate::polynomial::lemma_coefficient_in_bounded(p, v, 1, crate::polynomial::max_exponent(p));
            crate::polynomial::lemma_coefficient_in_bounded(ps, v, 0, crate::polynomial::max_exponent(ps));
            crate::polynomial::lemma_bounded_mul_fits(
                leading_in(p, v),
                c,
                crate::polynomial::max_exponent(p),
                crate::polynomial::max_exponent(ps),
            );
            assert forall|u: usize| has_variable(p, u) && u != v implies values.contains_key(u) by {
                assert(crate::formula::free_in(bs[i], u)) by {
                    match bs[i] {
                        FormulaView::Not(inner) => {
                            assert(crate::formula::free_in(*inner, u));
                        },
                        _ => {},
                    }
                }
                lemma_free_in_member(bs, i, u);
            }
            lemma_branch_truth(bs[i], a, c, v, values, x0);
            assert forall|u: usize| has_variable(p, u) implies values.insert(v, x0).contains_key(u) by {}
            lemma_literal_eval(bs[i], values.insert(v, x0));
        }
        lemma_eval_and_pointwise(mapped, values, bs, values.insert(v, x0));
        lemma_eval_and_some(mapped, values);
        // a satisfying value of x_v is x0
        assert forall|x: (int, nat)| crate::polynomial::rat_reduced(x) && #[trigger] crate::formula::eval_and(
            bs,
            values.insert(v, x),
        ) == Some(true) implies x == x0 by {
            crate::qe::simplify::lemma_eval_and(bs, values.insert(v, x));
            assert(crate::formula::eval_view(bs[e], values.insert(v, x)) == Some(true));
            assert forall|u: usize| has_variable(ps, u) implies values.insert(v, x).contains_key(u) by {
                if u != v {
                    assert(crate::formula::free_in(bs[e], u)) by {
                        match bs[e] {
                            FormulaView::Not(inner) => {
                                assert(crate::formula::free_in(*inner, u));
                            },
                            _ => {},
                        }
                    }
                    lemma_free_in_member(bs, e, u);
                }
            }
            lemma_literal_eval(bs[e], values.insert(v, x));
            crate::evaluation::lemma_linear_in_variable(ps, v, values, x);
            lemma_unique_root(av, cv, x, x0);
        }
        if crate::formula::eval_and(mapped, values) == Some(true) {
            assert(crate::formula::eval_and(bs, values.insert(v, x0)) == Some(true));
        } else {
            assert(crate::formula::eval_and(bs, values.insert(v, x0)) == Some(false));
            assert(!(exists|x: (int, nat)|
                crate::polynomial::rat_reduced(x) && #[trigger] crate::formula::eval_and(bs, values.insert(v, x))
                    == Some(true)));
        }
        assert(crate::formula::eval_view(FormulaView::And(mapped), values) == crate::formula::eval_and(mapped, values));
    }
}

/// The pivot found is a pivot.
pub proof fn lemma_pivot_from(bs: Seq<FormulaView>, v: usize, i: int)
    requires
        pivot_from(bs, v, i) is Some,
    ensures
        0 <= pivot_from(bs, v, i)->0 < bs.len(),
        is_pivot(bs[pivot_from(bs, v, i)->0], v),
    decreases bs.len() - i,
{
    if !(i < 0 || i >= bs.len()) && !is_pivot(bs[i], v) {
        lemma_pivot_from(bs, v, i + 1);
    }
}

/// A conjunction of members that all have a truth value has one.
pub proof fn lemma_eval_and_some(fs: Seq<FormulaView>, w: Map<usize, (int, nat)>)
    requires
        forall|i: int| 0 <= i < fs.len() ==> (#[trigger] crate::formula::eval_view(fs[i], w)) is Some,
    ensures
        crate::formula::eval_and(fs, w) is Some,
    decreases fs.len(),
{
    if fs.len() > 0 {
        assert forall|i: int| 0 <= i < fs.drop_last().len() implies (#[trigger] crate::formula::eval_view(
            fs.drop_last()[i],
            w,
        )) is Some by {
            assert(fs.drop_last()[i] == fs[i]);
        }
        lemma_eval_and_some(fs.drop_last(), w);
        assert(crate::formula::eval_view(fs[fs.len() - 1], w) is Some);
    }
}

} // verus!
