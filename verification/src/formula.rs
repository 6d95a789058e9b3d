//! Quantified formulas over polynomial sign conditions.
//!
//! A [`Formula`] is viewed as a [`FormulaView`], the same tree with every
//! polynomial replaced by its canonical term list.  Its meaning at a point is
//! [`eval_view`]: `Some(truth)` when every variable it reads is assigned and
//! no quantifier is met on the way, `None` otherwise.
use crate::polynomial::{
    evaluate_terms, exponents_bounded, has_variable, insert_sorted_unique, rename_fits,
    rename_terms, strictly_increasing, Polynomial, TermView,
};
use crate::rational::Rational;
use std::collections::BTreeMap;
use std::collections::BTreeSet;
use vstd::prelude::*;

verus! {

broadcast use {vstd::laws_cmp::group_laws_cmp, vstd::std_specs::btree::group_btree_axioms};

/// A comparison of a polynomial with zero.
#[derive(Clone, Copy, Debug, PartialEq, Eq, Structural)]
pub enum Relation {
    Equal,
    NotEqual,
    Less,
    LessOrEqual,
    Greater,
    GreaterOrEqual,
}

/// A quantifier.
#[derive(Clone, Copy, Debug, PartialEq, Eq, Structural)]
pub enum Quantifier {
    Forall,
    Exists,
}

/// Why a binder could not be renamed.
#[derive(Clone, Copy, Debug, PartialEq, Eq, Structural)]
pub enum RenameError {
    /// The formula does not start with a binder of the variable.
    NotBound,
    /// The new name occurs free in the body.
    WouldCapture,
}

/// `polynomial relation 0`.
#[derive(Clone, Debug, PartialEq, Eq)]
pub struct Atom {
    pub polynomial: Polynomial,
    pub relation: Relation,
}

/// A formula of the first-order theory of the reals.
#[derive(Debug, PartialEq, Eq)]
pub enum Formula {
    True,
    False,
    Atom(Atom),
    Not(Box<Formula>),
    And(Vec<Formula>),
    Or(Vec<Formula>),
    Quantified { quantifier: Quantifier, variable: usize, body: Box<Formula> },
}

/// The mathematical content of a formula.
pub enum FormulaView {
    True,
    False,
    Atom(Seq<TermView>, Relation),
    Not(Box<FormulaView>),
    And(Seq<FormulaView>),
    Or(Seq<FormulaView>),
    Quantified(Quantifier, usize, Box<FormulaView>),
}

/// The view of a formula.
pub open spec fn formula_view(f: Formula) -> FormulaView
    decreases f,
{
    match f {
        Formula::True => FormulaView::True,
        Formula::False => FormulaView::False,
        Formula::Atom(a) => FormulaView::Atom(a.polynomial@, a.relation),
        Formula::Not(b) => FormulaView::Not(Box::new(formula_view(*b))),
        Formula::And(fs) => FormulaView::And(views_of(fs@)),
        Formula::Or(fs) => FormulaView::Or(views_of(fs@)),
        Formula::Quantified { quantifier, variable, body } => FormulaView::Quantified(
            quantifier,
            variable,
            Box::new(formula_view(*body)),
        ),
    }
}

/// The views of a list of formulas.
pub open spec fn views_of(fs: Seq<Formula>) -> Seq<FormulaView>
    decreases fs,
{
    if fs.len() == 0 {
        Seq::<FormulaView>::empty()
    } else {
        views_of(fs.drop_last()).push(formula_view(fs.last()))
    }
}

impl View for Formula {
    type V = FormulaView;

    open spec fn view(&self) -> FormulaView {
        formula_view(*self)
    }
}

/// Every polynomial of the formula is in canonical form.
pub open spec fn formula_wf(f: Formula) -> bool
    decreases f,
{
    match f {
        Formula::Atom(a) => a.polynomial.wf(),
        Formula::Not(b) => formula_wf(*b),
        Formula::And(fs) => all_wf(fs@),
        Formula::Or(fs) => all_wf(fs@),
        Formula::Quantified { body, .. } => formula_wf(*body),
        _ => true,
    }
}

/// Every formula of the list is well formed.
pub open spec fn all_wf(fs: Seq<Formula>) -> bool
    decreases fs,
{
    if fs.len() == 0 {
        true
    } else {
        all_wf(fs.drop_last()) && formula_wf(fs.last())
    }
}

/// Whether `polynomial relation 0` holds of a value.
pub open spec fn relation_holds(relation: Relation, value: (int, nat)) -> bool {
    match relation {
        Relation::Equal => value.0 == 0,
        Relation::NotEqual => value.0 != 0,
        Relation::Less => value.0 < 0,
        Relation::LessOrEqual => value.0 <= 0,
        Relation::Greater => value.0 > 0,
        Relation::GreaterOrEqual => value.0 >= 0,
    }
}

/// The truth of an atom, when every variable of its polynomial is assigned.
pub open spec fn atom_value(p: Seq<TermView>, relation: Relation, values: Map<usize, (int, nat)>) -> Option<
    bool,
> {
    if forall|v: usize| has_variable(p, v) ==> values.contains_key(v) {
        Some(relation_holds(relation, evaluate_terms(p, values)))
    } else {
        None
    }
}

/// The truth of a formula at a point: `None` when a variable it reads is
/// unassigned or a quantifier is met.  A conjunction reads its members in
/// order and stops at the first false one; a disjunction stops at the first
/// true one.
pub open spec fn eval_view(f: FormulaView, values: Map<usize, (int, nat)>) -> Option<bool>
    decreases f,
{
    match f {
        FormulaView::True => Some(true),
        FormulaView::False => Some(false),
        FormulaView::Atom(p, r) => atom_value(p, r, values),
        FormulaView::Not(b) => match eval_view(*b, values) {
            Some(x) => Some(!x),
            None => None,
        },
        FormulaView::And(fs) => eval_and(fs, values),
        FormulaView::Or(fs) => eval_or(fs, values),
        FormulaView::Quantified(..) => None,
    }
}

/// The truth of a conjunction, member by member.
pub open spec fn eval_and(fs: Seq<FormulaView>, values: Map<usize, (int, nat)>) -> Option<bool>
    decreases fs,
{
    if fs.len() == 0 {
        Some(true)
    } else {
        match eval_and(fs.drop_last(), values) {
            None => None,
            Some(false) => Some(false),
            Some(true) => eval_view(fs.last(), values),
        }
    }
}

/// The truth of a disjunction, member by member.
pub open spec fn eval_or(fs: Seq<FormulaView>, values: Map<usize, (int, nat)>) -> Option<bool>
    decreases fs,
{
    if fs.len() == 0 {
        Some(false)
    } else {
        match eval_or(fs.drop_last(), values) {
            None => None,
            Some(true) => Some(true),
            Some(false) => eval_view(fs.last(), values),
        }
    }
}

/// Whether `v` occurs free.
pub open spec fn free_in(f: FormulaView, v: usize) -> bool
    decreases f,
{
    match f {
        FormulaView::True => false,
        FormulaView::False => false,
        FormulaView::Atom(p, _) => has_variable(p, v),
        FormulaView::Not(b) => free_in(*b, v),
        FormulaView::And(fs) => free_in_any(fs, v),
        FormulaView::Or(fs) => free_in_any(fs, v),
        FormulaView::Quantified(_, x, b) => x != v && free_in(*b, v),
    }
}

/// Whether `v` occurs free in some formula of the list.
pub open spec fn free_in_any(fs: Seq<FormulaView>, v: usize) -> bool
    decreases fs,
{
    if fs.len() == 0 {
        false
    } else {
        free_in_any(fs.drop_last(), v) || free_in(fs.last(), v)
    }
}

/// Whether no quantifier occurs.
pub open spec fn quantifier_free(f: FormulaView) -> bool
    decreases f,
{
    match f {
        FormulaView::Not(b) => quantifier_free(*b),
        FormulaView::And(fs) => all_quantifier_free(fs),
        FormulaView::Or(fs) => all_quantifier_free(fs),
        FormulaView::Quantified(..) => false,
        _ => true,
    }
}

/// Whether no formula of the list holds a quantifier.
pub open spec fn all_quantifier_free(fs: Seq<FormulaView>) -> bool
    decreases fs,
{
    if fs.len() == 0 {
        true
    } else {
        all_quantifier_free(fs.drop_last()) && quantifier_free(fs.last())
    }
}

/// Every exponent of every polynomial is small enough to evaluate.
pub open spec fn exponents_evaluable(f: FormulaView) -> bool
    decreases f,
{
    match f {
        FormulaView::Atom(p, _) => exponents_bounded(p, 0x7fff_ffff),
        FormulaView::Not(b) => exponents_evaluable(*b),
        FormulaView::And(fs) => all_exponents_evaluable(fs),
        FormulaView::Or(fs) => all_exponents_evaluable(fs),
        FormulaView::Quantified(_, _, b) => exponents_evaluable(*b),
        _ => true,
    }
}

/// [`exponents_evaluable`] for every formula of the list.
pub open spec fn all_exponents_evaluable(fs: Seq<FormulaView>) -> bool
    decreases fs,
{
    if fs.len() == 0 {
        true
    } else {
        all_exponents_evaluable(fs.drop_last()) && exponents_evaluable(fs.last())
    }
}

/// The formula with the free occurrences of `old` renamed to `new`: the
/// renaming stops at every binder of `old`.
pub open spec fn rename_bound_view(f: FormulaView, old: usize, new: usize) -> FormulaView
    decreases f,
{
    match f {
        FormulaView::Atom(p, r) => FormulaView::Atom(rename_terms(p, old, new), r),
        FormulaView::Not(b) => FormulaView::Not(Box::new(rename_bound_view(*b, old, new))),
        FormulaView::And(fs) => FormulaView::And(rename_all(fs, old, new)),
        FormulaView::Or(fs) => FormulaView::Or(rename_all(fs, old, new)),
        FormulaView::Quantified(q, x, b) => if x == old {
            FormulaView::Quantified(q, x, b)
        } else {
            FormulaView::Quantified(q, x, Box::new(rename_bound_view(*b, old, new)))
        },
        _ => f,
    }
}

/// [`rename_bound_view`] of every formula of the list.
pub open spec fn rename_all(fs: Seq<FormulaView>, old: usize, new: usize) -> Seq<FormulaView>
    decreases fs,
{
    if fs.len() == 0 {
        Seq::<FormulaView>::empty()
    } else {
        rename_all(fs.drop_last(), old, new).push(rename_bound_view(fs.last(), old, new))
    }
}

/// Whether renaming the free occurrences of `old` to `new` would put one of
/// them under a binder of `new`.
pub open spec fn captured(f: FormulaView, old: usize, new: usize) -> bool
    decreases f,
{
    match f {
        FormulaView::Not(b) => captured(*b, old, new),
        FormulaView::And(fs) => captured_any(fs, old, new),
        FormulaView::Or(fs) => captured_any(fs, old, new),
        FormulaView::Quantified(_, x, b) => if x == old {
            false
        } else if x == new {
            free_in(*b, old)
        } else {
            captured(*b, old, new)
        },
        _ => false,
    }
}

/// [`captured`] for some formula of the list.
pub open spec fn captured_any(fs: Seq<FormulaView>, old: usize, new: usize) -> bool
    decreases fs,
{
    if fs.len() == 0 {
        false
    } else {
        captured_any(fs.drop_last(), old, new) || captured(fs.last(), old, new)
    }
}

/// Renaming `old` to `new` overflows no exponent of a polynomial it reaches.
pub open spec fn rename_ok(f: FormulaView, old: usize, new: usize) -> bool
    decreases f,
{
    match f {
        FormulaView::Atom(p, _) => rename_fits(p, old, new),
        FormulaView::Not(b) => rename_ok(*b, old, new),
        FormulaView::And(fs) => all_rename_ok(fs, old, new),
        FormulaView::Or(fs) => all_rename_ok(fs, old, new),
        FormulaView::Quantified(_, x, b) => x == old || rename_ok(*b, old, new),
        _ => true,
    }
}

/// [`rename_ok`] for every formula of the list.
pub open spec fn all_rename_ok(fs: Seq<FormulaView>, old: usize, new: usize) -> bool
    decreases fs,
{
    if fs.len() == 0 {
        true
    } else {
        all_rename_ok(fs.drop_last(), old, new) && rename_ok(fs.last(), old, new)
    }
}

impl Atom {
    /// `polynomial relation 0`.
    pub fn new(polynomial: Polynomial, relation: Relation) -> (a: Self)
        ensures
            a.polynomial == polynomial,
            a.relation == relation,
    {
        Atom { polynomial, relation }
    }
}

impl Formula {
    /// The atom `polynomial relation 0`.
    pub fn atom(polynomial: Polynomial, relation: Relation) -> (f: Self)
        ensures
            f@ == FormulaView::Atom(polynomial@, relation),
            formula_wf(f) == polynomial.wf(),
    {
        Formula::Atom(Atom::new(polynomial, relation))
    }

    /// `exists variable. body`.
    pub fn existential(variable: usize, body: Self) -> (f: Self)
        ensures
            f@ == FormulaView::Quantified(Quantifier::Exists, variable, Box::new(body@)),
            formula_wf(f) == formula_wf(body),
    {
        Formula::Quantified { quantifier: Quantifier::Exists, variable, body: Box::new(body) }
    }

    /// `forall variable. body`.
    pub fn universal(variable: usize, body: Self) -> (f: Self)
        ensures
            f@ == FormulaView::Quantified(Quantifier::Forall, variable, Box::new(body@)),
            formula_wf(f) == formula_wf(body),
    {
        Formula::Quantified { quantifier: Quantifier::Forall, variable, body: Box::new(body) }
    }

    /// An exact copy.
    pub fn duplicate(&self) -> (g: Self)
        requires
            formula_wf(*self),
        ensures
            g@ == self@,
            formula_wf(g),
        decreases self,
    {
        match self {
            Formula::True => Formula::True,
            Formula::False => Formula::False,
            Formula::Atom(atom) => Formula::Atom(
                Atom::new(atom.polynomial.duplicate(), atom.relation),
            ),
            Formula::Not(body) => Formula::Not(Box::new(body.duplicate())),
            Formula::And(formulas) => Formula::And(duplicate_list(formulas)),
            Formula::Or(formulas) => Formula::Or(duplicate_list(formulas)),
            Formula::Quantified { quantifier, variable, body } => Formula::Quantified {
                quantifier: *quantifier,
                variable: *variable,
                body: Box::new(body.duplicate()),
            },
        }
    }

    /// Whether the two formulas are the same, member by member.
    pub fn equals(&self, other: &Self) -> (b: bool)
        requires
            formula_wf(*self),
            formula_wf(*other),
        ensures
            b == (self@ == other@),
        decreases self,
    {
        match (self, other) {
            (Formula::True, Formula::True) => true,
            (Formula::False, Formula::False) => true,
            (Formula::Atom(a), Formula::Atom(c)) => a.relation == c.relation && a.polynomial.equals(&c.polynomial),
            (Formula::Not(a), Formula::Not(c)) => a.equals(c),
            (Formula::And(a), Formula::And(c)) => lists_equal(a, c),
            (Formula::Or(a), Formula::Or(c)) => lists_equal(a, c),
            (
                Formula::Quantified { quantifier: q1, variable: v1, body: b1 },
                Formula::Quantified { quantifier: q2, variable: v2, body: b2 },
            ) => *q1 == *q2 && *v1 == *v2 && b1.equals(b2),
            _ => false,
        }
    }

    /// The free variables, in increasing order.
    pub(crate) fn free_list(&self) -> (vs: Vec<usize>)
        ensures
            strictly_increasing(vs@),
            forall|v: usize| vs@.contains(v) <==> free_in(self@, v),
        decreases self,
    {
        match self {
            Formula::True | Formula::False => Vec::new(),
            Formula::Atom(atom) => atom.polynomial.variables(),
            Formula::Not(body) => body.free_list(),
            Formula::And(formulas) => free_list_of(formulas),
            Formula::Or(formulas) => free_list_of(formulas),
            Formula::Quantified { variable, body, .. } => {
                let inner = body.free_list();
                let mut out: Vec<usize> = Vec::new();
                let mut i: usize = 0;
                while i < inner.len()
                    invariant
                        i <= inner@.len(),
                        strictly_increasing(inner@),
                        strictly_increasing(out@),
                        forall|v: usize|
                            out@.contains(v) <==> (v != *variable && exists|k: int|
                                0 <= k < i && inner@[k] == v),
                    decreases inner@.len() - i,
                {
                    if inner[i] != *variable {
                        insert_sorted_unique(&mut out, inner[i]);
                    }
                    proof {
                        assert forall|v: usize|
                            out@.contains(v) <==> (v != *variable && exists|k: int|
                                0 <= k < i + 1 && inner@[k] == v) by {
                            if v == inner@[i as int] && v != *variable {
                                assert(exists|k: int| 0 <= k < i + 1 && inner@[k] == v);
                            }
                        }
                    }
                    i = i + 1;
                }
                proof {
                    assert forall|v: usize| out@.contains(v) <==> free_in(self@, v) by {
                        if inner@.contains(v) {
                            let k = choose|k: int| 0 <= k < inner@.len() && inner@[k] == v;
                        }
                    }
                }
                out
            },
        }
    }

    /// The variables that occur free.
    pub fn free_variables(&self) -> (set: BTreeSet<usize>)
        ensures
            forall|v: usize| set@.contains(v) <==> free_in(self@, v),
    {
        let vs = self.free_list();
        let mut set: BTreeSet<usize> = BTreeSet::new();
        let mut i: usize = 0;
        while i < vs.len()
            invariant
                i <= vs@.len(),
                forall|v: usize| set@.contains(v) <==> exists|k: int| 0 <= k < i && vs@[k] == v,
            decreases vs@.len() - i,
        {
            set.insert(vs[i]);
            proof {
                assert forall|v: usize|
                    set@.contains(v) <==> exists|k: int| 0 <= k < i + 1 && vs@[k] == v by {
                    if v == vs@[i as int] {
                        assert(exists|k: int| 0 <= k < i + 1 && vs@[k] == v);
                    }
                }
            }
            i = i + 1;
        }
        proof {
            assert forall|v: usize| set@.contains(v) <==> free_in(self@, v) by {
                if vs@.contains(v) {
                    let k = choose|k: int| 0 <= k < vs@.len() && vs@[k] == v;
                }
            }
        }
        set
    }

    /// The truth at `values` (see [`eval_view`]).
    pub fn evaluate(&self, values: &BTreeMap<usize, Rational>) -> (r: Option<bool>)
        requires
            formula_wf(*self),
            exponents_evaluable(self@),
            forall|k: usize| values@.contains_key(k) ==> (#[trigger] values@[k]).wf(),
        ensures
            r == eval_view(self@, values@.map_values(|q: Rational| q@)),
        decreases self,
    {
        match self {
            Formula::True => Some(true),
            Formula::False => Some(false),
            Formula::Atom(atom) => {
                match atom.polynomial.try_evaluate(values) {
                    None => None,
                    Some(value) => {
                        let sign = value.signum();
                        Some(
                            match atom.relation {
                                Relation::Equal => sign == 0,
                                Relation::NotEqual => sign != 0,
                                Relation::Less => sign < 0,
                                Relation::LessOrEqual => sign <= 0,
                                Relation::Greater => sign > 0,
                                Relation::GreaterOrEqual => sign >= 0,
                            },
                        )
                    },
                }
            },
            Formula::Not(body) => match body.evaluate(values) {
                Some(x) => Some(!x),
                None => None,
            },
            Formula::And(formulas) => evaluate_all(formulas, values),
            Formula::Or(formulas) => evaluate_any(formulas, values),
            Formula::Quantified { .. } => None,
        }
    }

    /// Renames the outermost binder, which must bind `variable`, to
    /// `replacement`, rejecting capture: `replacement` must not occur free
    /// in the body, and no renamed occurrence may fall under a binder of
    /// `replacement`.
    pub fn alpha_rename(&self, variable: usize, replacement: usize) -> (r: Result<Self, RenameError>)
        requires
            formula_wf(*self),
            match self@ {
                FormulaView::Quantified(_, _, body) => rename_ok(*body, variable, replacement),
                _ => true,
            },
        ensures
            match self@ {
                FormulaView::Quantified(q, bound, body) => if bound != variable {
                    r == Err::<Self, RenameError>(RenameError::NotBound)
                } else if free_in(*body, replacement) || captured(*body, variable, replacement) {
                    r == Err::<Self, RenameError>(RenameError::WouldCapture)
                } else {
                    r matches Ok(g) && formula_wf(g) && g@ == FormulaView::Quantified(
                        q,
                        replacement,
                        Box::new(rename_bound_view(*body, variable, replacement)),
                    )
                },
                _ => r == Err::<Self, RenameError>(RenameError::NotBound),
            },
            variable != replacement ==> (r matches Ok(g) ==> forall|u: usize|
                #[trigger] free_in(g@, u) ==> free_in(self@, u)),
            variable != replacement ==> (r matches Ok(g) ==> forall|u: usize|
                #[trigger] free_in(self@, u) ==> free_in(g@, u)),
    {
        match self {
            Formula::Quantified { quantifier, variable: bound, body } => {
                proof {
                    lemma_atoms_wf(**body);
                }
                if *bound != variable {
                    return Err(RenameError::NotBound);
                }
                let free = body.free_list();
                let mut i: usize = 0;
                while i < free.len()
                    invariant
                        i <= free@.len(),
                        *bound == variable,
                        self@ == FormulaView::Quantified(
                            *quantifier,
                            *bound,
                            Box::new(formula_view(**body)),
                        ),
                        forall|v: usize| free@.contains(v) <==> free_in(formula_view(**body), v),
                        forall|k: int| 0 <= k < i ==> free@[k] != replacement,
                    decreases free@.len() - i,
                {
                    if free[i] == replacement {
                        proof {
                            assert(free@.contains(replacement));
                            assert(free_in(formula_view(**body), replacement));
                        }
                        return Err(RenameError::WouldCapture);
                    }
                    i = i + 1;
                }
                proof {
                    assert(!free@.contains(replacement));
                }
                if capture_check(body, variable, replacement) {
                    return Err(RenameError::WouldCapture);
                }
                let renamed = rename_bound_occurrences(body, variable, replacement);
                let g = Formula::Quantified { quantifier: *quantifier, variable: replacement, body: Box::new(renamed) };
                proof {
                    let b = formula_view(**body);
                    assert(g@ == FormulaView::Quantified(*quantifier, replacement, Box::new(rename_bound_view(b, variable, replacement))));
                    assert(self@ == FormulaView::Quantified(*quantifier, variable, Box::new(b)));
                    if variable != replacement {
                        assert forall|u: usize| #[trigger] free_in(g@, u) implies free_in(self@, u) by {
                            law_rename_free_variables(b, variable, replacement, u);
                        }
                        crate::renaming::lemma_atoms_canonical(**body);
                        assert forall|u: usize| #[trigger] free_in(self@, u) implies free_in(g@, u) by {
                            assert(free_in(b, u));
                            assert(u != replacement);
                            crate::renaming::law_rename_keeps_free_variables(b, variable, replacement, u);
                        }
                    }
                }
                Ok(g)
            },
            _ => Err(RenameError::NotBound),
        }
    }

    /// Whether no quantifier occurs.
    pub fn is_quantifier_free(&self) -> (b: bool)
        ensures
            b == quantifier_free(self@),
        decreases self,
    {
        match self {
            Formula::True | Formula::False | Formula::Atom(_) => true,
            Formula::Not(body) => body.is_quantifier_free(),
            Formula::And(formulas) => list_quantifier_free(formulas),
            Formula::Or(formulas) => list_quantifier_free(formulas),
            Formula::Quantified { .. } => false,
        }
    }
}

/// Copies of every formula of the list.
/// Whether two lists hold the same formulas, in order.
fn lists_equal(a: &Vec<Formula>, c: &Vec<Formula>) -> (b: bool)
    requires
        all_wf(a@),
        all_wf(c@),
    ensures
        b == (views_of(a@) == views_of(c@)),
    decreases a,
{
    proof {
        lemma_views_of(a@);
        lemma_views_of(c@);
    }
    if a.len() != c.len() {
        return false;
    }
    let mut i: usize = 0;
    while i < a.len()
        invariant
            all_wf(a@),
            all_wf(c@),
            a@.len() == c@.len(),
            views_of(a@).len() == a@.len(),
            views_of(c@).len() == c@.len(),
            forall|k: int| 0 <= k < a@.len() ==> #[trigger] views_of(a@)[k] == formula_view(a@[k]),
            forall|k: int| 0 <= k < c@.len() ==> #[trigger] views_of(c@)[k] == formula_view(c@[k]),
            i <= a@.len(),
            forall|k: int| 0 <= k < i ==> views_of(a@)[k] == views_of(c@)[k],
        decreases a@.len() - i,
    {
        proof {
            lemma_member_decreases(a, i as int);
            lemma_all_wf_member(a@, i as int);
            lemma_all_wf_member(c@, i as int);
        }
        if !a[i].equals(&c[i]) {
            proof {
                assert(views_of(a@)[i as int] != views_of(c@)[i as int]);
            }
            return false;
        }
        i = i + 1;
    }
    proof {
        assert(views_of(a@) =~= views_of(c@));
    }
    true
}

pub(crate) fn duplicate_list(formulas: &Vec<Formula>) -> (out: Vec<Formula>)
    requires
        all_wf(formulas@),
    ensures
        views_of(out@) == views_of(formulas@),
        all_wf(out@),
    decreases formulas,
{
    let mut out: Vec<Formula> = Vec::new();
    let mut i: usize = 0;
    proof {
        assert(formulas@.take(0) =~= Seq::<Formula>::empty());
        assert(out@ =~= Seq::<Formula>::empty());
    }
    while i < formulas.len()
        invariant
            i <= formulas@.len(),
            all_wf(formulas@),
            views_of(out@) == views_of(formulas@.take(i as int)),
            all_wf(out@),
        decreases formulas@.len() - i,
    {
        proof {
            lemma_member_decreases(formulas, i as int);
            lemma_all_wf_member(formulas@, i as int);
        }
        let g = formulas[i].duplicate();
        let ghost before = out@;
        out.push(g);
        proof {
            assert(out@.drop_last() =~= before);
            assert(formulas@.take(i + 1).drop_last() =~= formulas@.take(i as int));
        }
        i = i + 1;
    }
    proof {
        assert(formulas@.take(i as int) =~= formulas@);
    }
    out
}

/// The free variables of the formulas of the list, in increasing order.
fn free_list_of(formulas: &Vec<Formula>) -> (vs: Vec<usize>)
    ensures
        strictly_increasing(vs@),
        forall|v: usize| vs@.contains(v) <==> free_in_any(views_of(formulas@), v),
    decreases formulas,
{
    let mut vs: Vec<usize> = Vec::new();
    let mut i: usize = 0;
    proof {
        assert(formulas@.take(0) =~= Seq::<Formula>::empty());
    }
    while i < formulas.len()
        invariant
            i <= formulas@.len(),
            strictly_increasing(vs@),
            forall|v: usize| vs@.contains(v) <==> free_in_any(views_of(formulas@.take(i as int)), v),
        decreases formulas@.len() - i,
    {
        proof {
            lemma_member_decreases(formulas, i as int);
        }
        let inner = formulas[i].free_list();
        let ghost start = vs@;
        let mut j: usize = 0;
        while j < inner.len()
            invariant
                j <= inner@.len(),
                strictly_increasing(vs@),
                forall|v: usize|
                    #![trigger vs@.contains(v)]
                    vs@.contains(v) <==> (start.contains(v) || exists|k: int|
                        0 <= k < j && inner@[k] == v),
            decreases inner@.len() - j,
        {
            let ghost prev = vs@;
            insert_sorted_unique(&mut vs, inner[j]);
            proof {
                assert forall|v: usize|
                    vs@.contains(v) <==> (start.contains(v) || exists|k: int|
                        0 <= k < j + 1 && inner@[k] == v) by {
                    if v == inner@[j as int] {
                        assert(exists|k: int| 0 <= k < j + 1 && inner@[k] == v);
                    }
                    if exists|k: int| 0 <= k < j + 1 && inner@[k] == v {
                        let k = choose|k: int| 0 <= k < j + 1 && inner@[k] == v;
                        if k < j {
                            assert(exists|k2: int| 0 <= k2 < j && inner@[k2] == v);
                            assert(prev.contains(v));
                        }
                    }
                    if prev.contains(v) && !start.contains(v) {
                        let k = choose|k: int| 0 <= k < j && inner@[k] == v;
                        assert(exists|k2: int| 0 <= k2 < j + 1 && inner@[k2] == v);
                    }
                }
            }
            j = j + 1;
        }
        proof {
            let t1 = formulas@.take(i + 1);
            assert(t1.drop_last() =~= formulas@.take(i as int));
            assert(t1.last() == formulas@[i as int]);
            assert(views_of(t1).drop_last() =~= views_of(formulas@.take(i as int)));
            assert forall|v: usize| vs@.contains(v) <==> free_in_any(views_of(t1), v) by {
                if inner@.contains(v) {
                    let k = choose|k: int| 0 <= k < inner@.len() && inner@[k] == v;
                }
                if exists|k: int| 0 <= k < j && inner@[k] == v {
                    let k = choose|k: int| 0 <= k < j && inner@[k] == v;
                    assert(inner@.contains(v));
                }
            }
        }
        i = i + 1;
    }
    proof {
        assert(formulas@.take(i as int) =~= formulas@);
    }
    vs
}

/// The truth of a conjunction at `values`.
fn evaluate_all(formulas: &Vec<Formula>, values: &BTreeMap<usize, Rational>) -> (r: Option<bool>)
    requires
        all_wf(formulas@),
        all_exponents_evaluable(views_of(formulas@)),
        forall|k: usize| values@.contains_key(k) ==> (#[trigger] values@[k]).wf(),
    ensures
        r == eval_and(views_of(formulas@), values@.map_values(|q: Rational| q@)),
    decreases formulas,
{
    let ghost vals = values@.map_values(|q: Rational| q@);
    let mut result = true;
    let mut i: usize = 0;
    proof {
        assert(formulas@.take(0) =~= Seq::<Formula>::empty());
    }
    while i < formulas.len()
        invariant
            i <= formulas@.len(),
            all_wf(formulas@),
            all_exponents_evaluable(views_of(formulas@)),
            forall|k: usize| values@.contains_key(k) ==> (#[trigger] values@[k]).wf(),
            vals == values@.map_values(|q: Rational| q@),
            eval_and(views_of(formulas@.take(i as int)), vals) == Some(result),
            !result ==> eval_and(views_of(formulas@), vals) == Some(false),
        decreases formulas@.len() - i,
    {
        proof {
            lemma_member_decreases(formulas, i as int);
            lemma_all_wf_member(formulas@, i as int);
            lemma_views_of(formulas@);
            lemma_all_evaluable_member(views_of(formulas@), i as int);
            let t1 = formulas@.take(i + 1);
            assert(t1.drop_last() =~= formulas@.take(i as int));
            assert(views_of(t1).drop_last() =~= views_of(formulas@.take(i as int)));
        }
        if result {
            match formulas[i].evaluate(values) {
                None => {
                    proof {
                        lemma_and_none_sticks(formulas@, i + 1, vals);
                    }
                    return None;
                },
                Some(value) => {
                    result = value;
                    proof {
                        if !result {
                            lemma_and_false_sticks(formulas@, i + 1, vals);
                        }
                    }
                },
            }
        }
        i = i + 1;
    }
    proof {
        assert(formulas@.take(i as int) =~= formulas@);
    }
    Some(result)
}

/// The truth of a disjunction at `values`.
fn evaluate_any(formulas: &Vec<Formula>, values: &BTreeMap<usize, Rational>) -> (r: Option<bool>)
    requires
        all_wf(formulas@),
        all_exponents_evaluable(views_of(formulas@)),
        forall|k: usize| values@.contains_key(k) ==> (#[trigger] values@[k]).wf(),
    ensures
        r == eval_or(views_of(formulas@), values@.map_values(|q: Rational| q@)),
    decreases formulas,
{
    let ghost vals = values@.map_values(|q: Rational| q@);
    let mut result = false;
    let mut i: usize = 0;
    proof {
        assert(formulas@.take(0) =~= Seq::<Formula>::empty());
    }
    while i < formulas.len()
        invariant
            i <= formulas@.len(),
            all_wf(formulas@),
            all_exponents_evaluable(views_of(formulas@)),
            forall|k: usize| values@.contains_key(k) ==> (#[trigger] values@[k]).wf(),
            vals == values@.map_values(|q: Rational| q@),
            eval_or(views_of(formulas@.take(i as int)), vals) == Some(result),
            result ==> eval_or(views_of(formulas@), vals) == Some(true),
        decreases formulas@.len() - i,
    {
        proof {
            lemma_member_decreases(formulas, i as int);
            lemma_all_wf_member(formulas@, i as int);
            lemma_views_of(formulas@);
            lemma_all_evaluable_member(views_of(formulas@), i as int);
            let t1 = formulas@.take(i + 1);
            assert(t1.drop_last() =~= formulas@.take(i as int));
            assert(views_of(t1).drop_last() =~= views_of(formulas@.take(i as int)));
        }
        if !result {
            match formulas[i].evaluate(values) {
                None => {
                    proof {
                        lemma_or_none_sticks(formulas@, i + 1, vals);
                    }
                    return None;
                },
                Some(value) => {
                    result = value;
                    proof {
                        if result {
                            lemma_or_true_sticks(formulas@, i + 1, vals);
                        }
                    }
                },
            }
        }
        i = i + 1;
    }
    proof {
        assert(formulas@.take(i as int) =~= formulas@);
    }
    Some(result)
}

/// The formula with the free occurrences of `old` renamed to `new`.
fn rename_bound_occurrences(formula: &Formula, old: usize, new: usize) -> (r: Formula)
    requires
        formula_wf(*formula),
        rename_ok(formula@, old, new),
    ensures
        formula_wf(r),
        r@ == rename_bound_view(formula@, old, new),
    decreases formula,
{
    match formula {
        Formula::True => Formula::True,
        Formula::False => Formula::False,
        Formula::Atom(atom) => Formula::Atom(
            Atom::new(atom.polynomial.rename_variable(old, new), atom.relation),
        ),
        Formula::Not(body) => Formula::Not(Box::new(rename_bound_occurrences(body, old, new))),
        Formula::And(formulas) => Formula::And(rename_list(formulas, old, new)),
        Formula::Or(formulas) => Formula::Or(rename_list(formulas, old, new)),
        Formula::Quantified { quantifier, variable, body } => {
            if *variable == old {
                Formula::Quantified {
                    quantifier: *quantifier,
                    variable: *variable,
                    body: Box::new(body.duplicate()),
                }
            } else {
                Formula::Quantified {
                    quantifier: *quantifier,
                    variable: *variable,
                    body: Box::new(rename_bound_occurrences(body, old, new)),
                }
            }
        },
    }
}

/// Whether `v` occurs free in `formula`.
fn occurs_free(formula: &Formula, v: usize) -> (b: bool)
    ensures
        b == free_in(formula@, v),
{
    let free = formula.free_list();
    let mut i: usize = 0;
    while i < free.len()
        invariant
            i <= free@.len(),
            forall|w: usize| free@.contains(w) <==> free_in(formula@, w),
            forall|k: int| 0 <= k < i ==> free@[k] != v,
        decreases free@.len() - i,
    {
        if free[i] == v {
            proof {
                assert(free@.contains(v));
            }
            return true;
        }
        i = i + 1;
    }
    proof {
        assert(!free@.contains(v));
    }
    false
}

/// Whether renaming `old` to `new` in `formula` would be captured (see
/// [`captured`]).
fn capture_check(formula: &Formula, old: usize, new: usize) -> (b: bool)
    ensures
        b == captured(formula@, old, new),
    decreases formula,
{
    match formula {
        Formula::Not(body) => capture_check(body, old, new),
        Formula::And(formulas) => capture_check_list(formulas, old, new),
        Formula::Or(formulas) => capture_check_list(formulas, old, new),
        Formula::Quantified { variable, body, .. } => {
            if *variable == old {
                false
            } else if *variable == new {
                occurs_free(body, old)
            } else {
                capture_check(body, old, new)
            }
        },
        _ => false,
    }
}

/// [`capture_check`] for some formula of the list.
fn capture_check_list(formulas: &Vec<Formula>, old: usize, new: usize) -> (b: bool)
    ensures
        b == captured_any(views_of(formulas@), old, new),
    decreases formulas,
{
    let mut i: usize = 0;
    let mut found = false;
    proof {
        assert(formulas@.take(0) =~= Seq::<Formula>::empty());
        assert(views_of(formulas@.take(0)) =~= Seq::<FormulaView>::empty());
    }
    while i < formulas.len()
        invariant
            i <= formulas@.len(),
            found == captured_any(views_of(formulas@.take(i as int)), old, new),
        decreases formulas@.len() - i,
    {
        proof {
            lemma_member_decreases(formulas, i as int);
            lemma_views_of(formulas@);
        }
        let here = capture_check(&formulas[i], old, new);
        proof {
            let t1 = formulas@.take(i + 1);
            assert(t1.drop_last() =~= formulas@.take(i as int));
            assert(views_of(t1).drop_last() =~= views_of(formulas@.take(i as int)));
            assert(views_of(t1).last() == formulas@[i as int]@);
        }
        found = found || here;
        i = i + 1;
    }
    proof {
        assert(formulas@.take(i as int) =~= formulas@);
    }
    found
}

/// [`rename_bound_occurrences`] of every formula of the list.
fn rename_list(formulas: &Vec<Formula>, old: usize, new: usize) -> (out: Vec<Formula>)
    requires
        all_wf(formulas@),
        all_rename_ok(views_of(formulas@), old, new),
    ensures
        views_of(out@) == rename_all(views_of(formulas@), old, new),
        all_wf(out@),
    decreases formulas,
{
    let mut out: Vec<Formula> = Vec::new();
    let mut i: usize = 0;
    proof {
        assert(formulas@.take(0) =~= Seq::<Formula>::empty());
        assert(out@ =~= Seq::<Formula>::empty());
    }
    while i < formulas.len()
        invariant
            i <= formulas@.len(),
            all_wf(formulas@),
            all_rename_ok(views_of(formulas@), old, new),
            views_of(out@) == rename_all(views_of(formulas@.take(i as int)), old, new),
            all_wf(out@),
        decreases formulas@.len() - i,
    {
        proof {
            lemma_member_decreases(formulas, i as int);
            lemma_all_wf_member(formulas@, i as int);
            lemma_views_of(formulas@);
            lemma_all_rename_ok_member(views_of(formulas@), old, new, i as int);
        }
        let g = rename_bound_occurrences(&formulas[i], old, new);
        let ghost before = out@;
        out.push(g);
        proof {
            assert(out@.drop_last() =~= before);
            let t1 = formulas@.take(i + 1);
            assert(t1.drop_last() =~= formulas@.take(i as int));
            assert(views_of(t1).drop_last() =~= views_of(formulas@.take(i as int)));
        }
        i = i + 1;
    }
    proof {
        assert(formulas@.take(i as int) =~= formulas@);
    }
    out
}

/// Members of a well-formed list are well formed.
pub proof fn lemma_all_wf_member(fs: Seq<Formula>, i: int)
    requires
        0 <= i < fs.len(),
        all_wf(fs),
    ensures
        formula_wf(fs[i]),
    decreases fs.len(),
{
    if i < fs.len() - 1 {
        assert(fs.drop_last()[i] == fs[i]);
        lemma_all_wf_member(fs.drop_last(), i);
    }
}

/// Members of an evaluable list are evaluable.
pub proof fn lemma_all_evaluable_member(fs: Seq<FormulaView>, i: int)
    requires
        0 <= i < fs.len(),
        all_exponents_evaluable(fs),
    ensures
        exponents_evaluable(fs[i]),
    decreases fs.len(),
{
    if i < fs.len() - 1 {
        assert(fs.drop_last()[i] == fs[i]);
        lemma_all_evaluable_member(fs.drop_last(), i);
    }
}

/// Members of a renamable list are renamable.
pub proof fn lemma_all_rename_ok_member(fs: Seq<FormulaView>, old: usize, new: usize, i: int)
    requires
        0 <= i < fs.len(),
        all_rename_ok(fs, old, new),
    ensures
        rename_ok(fs[i], old, new),
    decreases fs.len(),
{
    if i < fs.len() - 1 {
        assert(fs.drop_last()[i] == fs[i]);
        lemma_all_rename_ok_member(fs.drop_last(), old, new, i);
    }
}

/// Once a prefix of a conjunction has no truth, the conjunction has none.
proof fn lemma_and_none_sticks(fs: Seq<Formula>, n: int, values: Map<usize, (int, nat)>)
    requires
        0 <= n <= fs.len(),
        eval_and(views_of(fs.take(n)), values) == None::<bool>,
    ensures
        eval_and(views_of(fs), values) == None::<bool>,
    decreases fs.len() - n,
{
    if n < fs.len() {
        let t1 = fs.take(n + 1);
        assert(t1.drop_last() =~= fs.take(n));
        assert(views_of(t1).drop_last() =~= views_of(fs.take(n)));
        lemma_and_none_sticks(fs, n + 1, values);
    } else {
        assert(fs.take(n) =~= fs);
    }
}

/// Once a prefix of a conjunction is false, the conjunction is false.
proof fn lemma_and_false_sticks(fs: Seq<Formula>, n: int, values: Map<usize, (int, nat)>)
    requires
        0 <= n <= fs.len(),
        eval_and(views_of(fs.take(n)), values) == Some(false),
    ensures
        eval_and(views_of(fs), values) == Some(false),
    decreases fs.len() - n,
{
    if n < fs.len() {
        let t1 = fs.take(n + 1);
        assert(t1.drop_last() =~= fs.take(n));
        assert(views_of(t1).drop_last() =~= views_of(fs.take(n)));
        lemma_and_false_sticks(fs, n + 1, values);
    } else {
        assert(fs.take(n) =~= fs);
    }
}

/// Once a prefix of a disjunction has no truth, the disjunction has none.
proof fn lemma_or_none_sticks(fs: Seq<Formula>, n: int, values: Map<usize, (int, nat)>)
    requires
        0 <= n <= fs.len(),
        eval_or(views_of(fs.take(n)), values) == None::<bool>,
    ensures
        eval_or(views_of(fs), values) == None::<bool>,
    decreases fs.len() - n,
{
    if n < fs.len() {
        let t1 = fs.take(n + 1);
        assert(t1.drop_last() =~= fs.take(n));
        assert(views_of(t1).drop_last() =~= views_of(fs.take(n)));
        lemma_or_none_sticks(fs, n + 1, values);
    } else {
        assert(fs.take(n) =~= fs);
    }
}

/// Once a prefix of a disjunction is true, the disjunction is true.
proof fn lemma_or_true_sticks(fs: Seq<Formula>, n: int, values: Map<usize, (int, nat)>)
    requires
        0 <= n <= fs.len(),
        eval_or(views_of(fs.take(n)), values) == Some(true),
    ensures
        eval_or(views_of(fs), values) == Some(true),
    decreases fs.len() - n,
{
    if n < fs.len() {
        let t1 = fs.take(n + 1);
        assert(t1.drop_last() =~= fs.take(n));
        assert(views_of(t1).drop_last() =~= views_of(fs.take(n)));
        lemma_or_true_sticks(fs, n + 1, values);
    } else {
        assert(fs.take(n) =~= fs);
    }
}

/// Whether no formula of the list holds a quantifier.
fn list_quantifier_free(formulas: &Vec<Formula>) -> (b: bool)
    ensures
        b == all_quantifier_free(views_of(formulas@)),
    decreases formulas,
{
    let mut i: usize = 0;
    while i < formulas.len()
        invariant
            i <= formulas@.len(),
            all_quantifier_free(views_of(formulas@.take(i as int))),
        decreases formulas@.len() - i,
    {
        assert(formulas@.take(i + 1).drop_last() =~= formulas@.take(i as int));
        proof {
            lemma_member_decreases(formulas, i as int);
        }
        if !formulas[i].is_quantifier_free() {
            proof {
                lemma_views_prefix_all_qf(formulas@, i as int);
            }
            return false;
        }
        proof {
            let v1 = views_of(formulas@.take(i + 1));
            assert(v1.drop_last() =~= views_of(formulas@.take(i as int)));
        }
        i = i + 1;
    }
    proof {
        assert(formulas@.take(i as int) =~= formulas@);
    }
    true
}

/// A list decreases to each of its members.
pub proof fn lemma_member_decreases(fs: &Vec<Formula>, i: int)
    requires
        0 <= i < fs@.len(),
    ensures
        decreases_to!(*fs => fs@[i]),
{
    assert(decreases_to!(*fs => fs@));
    assert(decreases_to!(fs@ => fs@[i]));
}

/// A list's views have the list's length and its members' views.
pub proof fn lemma_views_of(fs: Seq<Formula>)
    ensures
        views_of(fs).len() == fs.len(),
        forall|i: int| 0 <= i < fs.len() ==> #[trigger] views_of(fs)[i] == formula_view(fs[i]),
    decreases fs.len(),
{
    if fs.len() > 0 {
        lemma_views_of(fs.drop_last());
        assert forall|i: int| 0 <= i < fs.len() implies #[trigger] views_of(fs)[i] == formula_view(
            fs[i],
        ) by {
            if i < fs.len() - 1 {
                assert(fs.drop_last()[i] == fs[i]);
            }
        }
    }
}

/// When a member is not quantifier free, neither is any list holding it.
proof fn lemma_views_prefix_all_qf(fs: Seq<Formula>, i: int)
    requires
        0 <= i < fs.len(),
        !quantifier_free(formula_view(fs[i])),
    ensures
        !all_quantifier_free(views_of(fs)),
    decreases fs.len(),
{
    if all_quantifier_free(views_of(fs)) {
        lemma_views_of(fs);
        lemma_all_qf_member(views_of(fs), i);
    }
}

/// Every member of an all-quantifier-free list is quantifier free.
pub proof fn lemma_all_qf_member(fs: Seq<FormulaView>, i: int)
    requires
        0 <= i < fs.len(),
        all_quantifier_free(fs),
    ensures
        quantifier_free(fs[i]),
    decreases fs.len(),
{
    if i < fs.len() - 1 {
        assert(fs.drop_last()[i] == fs[i]);
        lemma_all_qf_member(fs.drop_last(), i);
    }
}

/// Every atom's monomials are well formed.
pub open spec fn atoms_wf(f: FormulaView) -> bool
    decreases f,
{
    match f {
        FormulaView::Atom(p, _) => crate::variables::monomials_wf(p),
        FormulaView::Not(b) => atoms_wf(*b),
        FormulaView::And(fs) => all_atoms_wf(fs),
        FormulaView::Or(fs) => all_atoms_wf(fs),
        FormulaView::Quantified(_, _, b) => atoms_wf(*b),
        _ => true,
    }
}

/// [`atoms_wf`] for every formula of the list.
pub open spec fn all_atoms_wf(fs: Seq<FormulaView>) -> bool
    decreases fs,
{
    if fs.len() == 0 {
        true
    } else {
        all_atoms_wf(fs.drop_last()) && atoms_wf(fs.last())
    }
}

/// A well-formed formula's atoms have well-formed monomials.
pub proof fn lemma_atoms_wf(f: Formula)
    requires
        formula_wf(f),
    ensures
        atoms_wf(f@),
    decreases f,
{
    match f {
        Formula::Atom(a) => {
            a.polynomial.lemma_wf();
        },
        Formula::Not(b) => {
            lemma_atoms_wf(*b);
        },
        Formula::And(fs) => {
            lemma_all_atoms_wf(fs);
        },
        Formula::Or(fs) => {
            lemma_all_atoms_wf(fs);
        },
        Formula::Quantified { body, .. } => {
            lemma_atoms_wf(*body);
        },
        _ => {},
    }
}

/// [`lemma_atoms_wf`] for every formula of a list.
pub proof fn lemma_all_atoms_wf(fs: Vec<Formula>)
    requires
        all_wf(fs@),
    ensures
        all_atoms_wf(views_of(fs@)),
    decreases fs,
{
    lemma_all_atoms_wf_prefix(fs, fs@.len() as int);
    assert(fs@.take(fs@.len() as int) =~= fs@);
}

/// [`lemma_atoms_wf`] for the first `n` formulas of a list.
proof fn lemma_all_atoms_wf_prefix(fs: Vec<Formula>, n: int)
    requires
        all_wf(fs@),
        0 <= n <= fs@.len(),
    ensures
        all_atoms_wf(views_of(fs@.take(n))),
    decreases fs, n,
{
    if n > 0 {
        lemma_all_atoms_wf_prefix(fs, n - 1);
        lemma_member_decreases(&fs, n - 1);
        lemma_all_wf_member(fs@, n - 1);
        lemma_atoms_wf(fs@[n - 1]);
        let t = fs@.take(n);
        assert(t.drop_last() =~= fs@.take(n - 1));
        assert(views_of(t).drop_last() =~= views_of(fs@.take(n - 1)));
        lemma_views_of(t);
    }
}

/// Renaming the free occurrences of `old` to `new` brings in no free
/// variable but `new` and leaves no free `old`.
pub proof fn law_rename_free_variables(f: FormulaView, old: usize, new: usize, u: usize)
    requires
        atoms_wf(f),
        old != new,
    ensures
        free_in(rename_bound_view(f, old, new), u) ==> u == new || (u != old && free_in(f, u)),
    decreases f,
{
    match f {
        FormulaView::Atom(p, _) => {
            crate::variables::lemma_over_own_variables(p);
            crate::variables::lemma_rename_terms_over(p, old, new, crate::variables::variables_of(p));
            let r = crate::polynomial::rename_terms(p, old, new);
            if has_variable(r, u) {
                let (i, k) = choose|i: int, k: int| 0 <= i < r.len() && 0 <= k < r[i].0.len() && (#[trigger] r[i].0[k]).0 == u;
                assert(crate::variables::powers_over(r[i].0, crate::variables::variables_of(p).remove(old).insert(new)));
                assert(crate::variables::variables_of(p).remove(old).insert(new).contains(u));
                if u != new {
                    assert(crate::variables::variables_of(p).contains(u));
                }
            }
        },
        FormulaView::Not(b) => {
            law_rename_free_variables(*b, old, new, u);
        },
        FormulaView::And(fs) => {
            lemma_rename_all_free(fs, old, new, u);
        },
        FormulaView::Or(fs) => {
            lemma_rename_all_free(fs, old, new, u);
        },
        FormulaView::Quantified(q, x, b) => {
            if x != old {
                law_rename_free_variables(*b, old, new, u);
            }
        },
        _ => {},
    }
}

/// [`law_rename_free_variables`] for every formula of a list.
pub proof fn lemma_rename_all_free(fs: Seq<FormulaView>, old: usize, new: usize, u: usize)
    requires
        all_atoms_wf(fs),
        old != new,
    ensures
        free_in_any(rename_all(fs, old, new), u) ==> u == new || (u != old && free_in_any(fs, u)),
    decreases fs,
{
    if fs.len() > 0 {
        lemma_rename_all_free(fs.drop_last(), old, new, u);
        law_rename_free_variables(fs.last(), old, new, u);
        let r = rename_all(fs, old, new);
        assert(r.drop_last() == rename_all(fs.drop_last(), old, new));
        assert(r.last() == rename_bound_view(fs.last(), old, new));
    }
}

} // verus!
