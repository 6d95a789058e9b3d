//! Linear constraints and their feasibility by Fourier–Motzkin elimination,
//! and the simplifications built on it: dropping a linear atom that the
//! others imply, recognising an infeasible linear conjunction, and dropping
//! a disjunct that another one implies.
//!
//! A constraint `a . x + c > 0` (strict) or `a . x + c >= 0` keeps its
//! linear part `a . x` as a polynomial whose terms are all of degree one.
use crate::formula::{all_wf, formula_wf, views_of, Atom, Formula, FormulaView, Relation};
use crate::monomial::{total_degree_of, Monomial};
use crate::polynomial::{
    add_terms, coefficient_of, negate_terms, scale_terms, without_term, Polynomial, TermView,
};
use crate::qe::evaluate::{reverse_inequality, reversed};
use crate::rational::{rat_add, rat_mul, rat_neg, Rational};
use vstd::prelude::*;

verus! {

/// The view of a constraint: its linear part, its constant and whether it
/// is strict.
pub type ConstraintView = (Seq<TermView>, (int, nat), bool);

/// A linear constraint `coefficients . x + constant > 0` when `strict`,
/// `>= 0` otherwise.
pub struct LinearConstraint {
    pub coefficients: Polynomial,
    pub constant: Rational,
    pub strict: bool,
}

impl View for LinearConstraint {
    type V = ConstraintView;

    open spec fn view(&self) -> ConstraintView {
        (self.coefficients@, self.constant@, self.strict)
    }
}

/// The monomial `x_v`.
pub open spec fn variable_monomial(v: usize) -> Seq<(usize, usize)> {
    seq![(v, 1usize)]
}

/// The constant monomial.
pub open spec fn unit_monomial() -> Seq<(usize, usize)> {
    Seq::empty()
}

/// Every term has total degree at most one.
pub open spec fn linear_terms(s: Seq<TermView>) -> bool {
    forall|i: int| 0 <= i < s.len() ==> total_degree_of(#[trigger] s[i].0) <= 1
}

/// Every term is a coefficient times a single variable.
pub open spec fn degree_one_terms(s: Seq<TermView>) -> bool {
    forall|i: int| 0 <= i < s.len() ==> (#[trigger] s[i].0).len() == 1 && s[i].0[0].1 == 1
}

impl LinearConstraint {
    /// A canonical linear part of degree-one terms and a well-formed
    /// constant.
    pub open spec fn wf(&self) -> bool {
        &&& self.coefficients.wf()
        &&& degree_one_terms(self.coefficients@)
        &&& self.constant.wf()
    }

    /// An exact copy.
    pub fn duplicate(&self) -> (r: Self)
        requires
            self.wf(),
        ensures
            r.wf(),
            r@ == self@,
    {
        LinearConstraint {
            coefficients: self.coefficients.duplicate(),
            constant: self.constant.duplicate(),
            strict: self.strict,
        }
    }
}

/// Every constraint is well formed.
pub open spec fn all_constraints_wf(cs: Seq<LinearConstraint>) -> bool {
    forall|i: int| 0 <= i < cs.len() ==> (#[trigger] cs[i]).wf()
}

/// The views of a list of constraints.
pub open spec fn constraint_views(cs: Seq<LinearConstraint>) -> Seq<ConstraintView> {
    cs.map_values(|c: LinearConstraint| c@)
}

/// The linear part of a linear polynomial: its terms of degree one.
pub open spec fn linear_part(s: Seq<TermView>) -> Seq<TermView> {
    without_term(s, unit_monomial())
}

/// The constant of a polynomial.
pub open spec fn constant_part(s: Seq<TermView>) -> (int, nat) {
    coefficient_of(s, unit_monomial())
}

/// The constraint `-(a . x + c) > 0` (or `>= 0`).
pub open spec fn negated_view(coefficients: Seq<TermView>, constant: (int, nat), strict: bool) -> ConstraintView {
    (negate_terms(coefficients), rat_neg(constant), strict)
}

/// The constraints that say `p relation 0` for a linear `p`: one for a
/// strict or weak inequality, two for an equation, none for `!=`.
pub open spec fn relation_constraints(p: Seq<TermView>, relation: Relation) -> Seq<ConstraintView> {
    let a = linear_part(p);
    let c = constant_part(p);
    match relation {
        Relation::Greater => seq![(a, c, true)],
        Relation::GreaterOrEqual => seq![(a, c, false)],
        Relation::Less => seq![negated_view(a, c, true)],
        Relation::LessOrEqual => seq![negated_view(a, c, false)],
        Relation::Equal => seq![(a, c, false), negated_view(a, c, false)],
        Relation::NotEqual => Seq::empty(),
    }
}

/// A linear atom that constraints can express: linear and not `!=`.
pub open spec fn expressible(p: Seq<TermView>, relation: Relation) -> bool {
    linear_terms(p) && relation != Relation::NotEqual
}

/// The constraints of an atom, with its relation reversed when `negate`;
/// `None` for an atom that constraints cannot express.
pub open spec fn atom_constraint_views(p: Seq<TermView>, relation: Relation, negate: bool) -> Option<
    Seq<ConstraintView>,
> {
    if !expressible(p, relation) {
        None
    } else {
        Some(relation_constraints(p, if negate { reversed(relation) } else { relation }))
    }
}

/// A term of total degree at most one is the constant or a single variable.
proof fn lemma_degree_at_most_one(m: Seq<(usize, usize)>)
    requires
        crate::monomial::powers_wf(m),
    ensures
        total_degree_of(m) <= 1 <==> (m.len() == 0 || (m.len() == 1 && m[0].1 == 1)),
{
    crate::qe::simplify::lemma_total_degree_small(m);
}

/// Whether every term of the polynomial has total degree at most one.
pub fn is_linear_polynomial(polynomial: &Polynomial) -> (b: bool)
    requires
        polynomial.wf(),
    ensures
        b == linear_terms(polynomial@),
{
    let terms = polynomial.terms();
    let mut i: usize = 0;
    proof {
        polynomial.lemma_wf();
    }
    while i < terms.len()
        invariant
            polynomial.wf(),
            crate::polynomial::terms_canonical(polynomial@),
            terms@.len() == polynomial@.len(),
            forall|k: int| 0 <= k < terms@.len() ==> (#[trigger] terms@[k]).0@ == polynomial@[k].0,
            i <= terms@.len(),
            forall|k: int| 0 <= k < i ==> total_degree_of(#[trigger] polynomial@[k].0) <= 1,
        decreases terms@.len() - i,
    {
        let powers = terms[i].0.powers();
        proof {
            lemma_degree_at_most_one(polynomial@[i as int].0);
        }
        if !(powers.len() == 0 || (powers.len() == 1 && powers[0].1 == 1)) {
            return false;
        }
        i = i + 1;
    }
    true
}

/// Degree-one terms are the terms of a linear polynomial other than its
/// constant.
proof fn lemma_linear_part(s: Seq<TermView>)
    requires
        crate::polynomial::terms_canonical(s),
        linear_terms(s),
    ensures
        degree_one_terms(linear_part(s)),
{
    let f = linear_part(s);
    assert forall|i: int| 0 <= i < f.len() implies (#[trigger] f[i].0).len() == 1 && f[i].0[0].1 == 1 by {
        crate::polynomial::lemma_without_term_member(s, unit_monomial(), i);
        let k = choose|k: int| 0 <= k < s.len() && s[k] == f[i];
        assert(crate::monomial::powers_wf(s[k].0));
        lemma_degree_at_most_one(s[k].0);
        assert(total_degree_of(s[k].0) <= 1);
        if s[k].0.len() == 0 {
            assert(s[k].0 =~= unit_monomial());
        }
    }
}

/// The linear part and the constant of a linear polynomial; `None` when
/// some term has degree above one.
pub fn linear_coefficients(polynomial: &Polynomial) -> (r: Option<(Polynomial, Rational)>)
    requires
        polynomial.wf(),
    ensures
        r is None <==> !linear_terms(polynomial@),
        r matches Some((a, c)) ==> {
            &&& a.wf()
            &&& a@ == linear_part(polynomial@)
            &&& degree_one_terms(a@)
            &&& c.wf()
            &&& c@ == constant_part(polynomial@)
        },
{
    if !is_linear_polynomial(polynomial) {
        return None;
    }
    let unit = Monomial::one();
    let coefficients = polynomial.without(&unit);
    let constant = polynomial.coefficient(&unit);
    proof {
        polynomial.lemma_wf();
        lemma_linear_part(polynomial@);
    }
    Some((coefficients, constant))
}

/// The constraint with every coefficient and the constant negated.
pub fn negated_constraint(coefficients: Polynomial, constant: Rational, strict: bool) -> (r: LinearConstraint)
    requires
        coefficients.wf(),
        degree_one_terms(coefficients@),
        constant.wf(),
    ensures
        r.wf(),
        r@ == negated_view(coefficients@, constant@, strict),
{
    let negated = coefficients.negated();
    proof {
        assert forall|i: int| 0 <= i < negated@.len() implies (#[trigger] negated@[i].0).len() == 1
            && negated@[i].0[0].1 == 1 by {
            assert(negated@[i].0 == coefficients@[i].0);
        }
    }
    LinearConstraint { coefficients: negated, constant: constant.negated(), strict }
}

/// The constraints that say `polynomial relation 0`.
pub fn atom_constraints_for_relation(polynomial: &Polynomial, relation: Relation) -> (r: Vec<LinearConstraint>)
    requires
        polynomial.wf(),
        linear_terms(polynomial@),
    ensures
        all_constraints_wf(r@),
        constraint_views(r@) == relation_constraints(polynomial@, relation),
{
    let (coefficients, constant) = match linear_coefficients(polynomial) {
        Some(parts) => parts,
        None => {
            return Vec::new();
        },
    };
    let mut constraints: Vec<LinearConstraint> = Vec::new();
    match relation {
        Relation::Greater => {
            constraints.push(LinearConstraint { coefficients, constant, strict: true });
        },
        Relation::GreaterOrEqual => {
            constraints.push(LinearConstraint { coefficients, constant, strict: false });
        },
        Relation::Less => {
            constraints.push(negated_constraint(coefficients, constant, true));
        },
        Relation::LessOrEqual => {
            constraints.push(negated_constraint(coefficients, constant, false));
        },
        Relation::Equal => {
            let first = LinearConstraint {
                coefficients: coefficients.duplicate(),
                constant: constant.duplicate(),
                strict: false,
            };
            constraints.push(first);
            constraints.push(negated_constraint(coefficients, constant, false));
        },
        Relation::NotEqual => {
            return Vec::new();
        },
    }
    proof {
        assert(constraint_views(constraints@) =~= relation_constraints(polynomial@, relation));
    }
    constraints
}

/// The constraints of an atom, its relation reversed when `negate`;
/// `None` when the atom is not linear or is an `!=`.
pub fn atom_constraints(atom: &Atom, negate: bool) -> (r: Option<Vec<LinearConstraint>>)
    requires
        atom.polynomial.wf(),
    ensures
        r is None <==> atom_constraint_views(atom.polynomial@, atom.relation, negate) is None,
        r matches Some(cs) ==> {
            &&& all_constraints_wf(cs@)
            &&& Some(constraint_views(cs@)) == atom_constraint_views(atom.polynomial@, atom.relation, negate)
        },
{
    if !is_linear_polynomial(&atom.polynomial) || atom.relation == Relation::NotEqual {
        return None;
    }
    let relation = if negate {
        reverse_inequality(atom.relation)
    } else {
        atom.relation
    };
    Some(atom_constraints_for_relation(&atom.polynomial, relation))
}

} // verus!
