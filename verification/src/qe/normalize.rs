//! Negation normal form.
//!
//! [`to_nnf`] pushes every negation down to the atoms, flipping their
//! relations, and dualizes the connectives and quantifiers it passes.  The
//! laws below show that the result has no negation left, has the same truth
//! at every point and the same free variables.
use crate::formula::{
    eval_and, eval_or, eval_view, formula_view, formula_wf, free_in, free_in_any,
    lemma_all_wf_member, lemma_member_decreases, lemma_views_of, quantifier_free,
    all_quantifier_free, relation_holds, views_of, all_wf, Atom, Formula, FormulaView,
    Quantifier, Relation,
};
use vstd::prelude::*;

verus! {

/// The relation that holds exactly where `relation` does not.
pub open spec fn negated_relation(relation: Relation) -> Relation {
    match relation {
        Relation::Equal => Relation::NotEqual,
        Relation::NotEqual => Relation::Equal,
        Relation::Less => Relation::GreaterOrEqual,
        Relation::LessOrEqual => Relation::Greater,
        Relation::Greater => Relation::LessOrEqual,
        Relation::GreaterOrEqual => Relation::Less,
    }
}

/// The dual quantifier.
pub open spec fn dual(quantifier: Quantifier) -> Quantifier {
    match quantifier {
        Quantifier::Forall => Quantifier::Exists,
        Quantifier::Exists => Quantifier::Forall,
    }
}

/// The constant formula `value`.
pub open spec fn constant_view(value: bool) -> FormulaView {
    if value {
        FormulaView::True
    } else {
        FormulaView::False
    }
}

/// The negation normal form of `f`, or of `!f` when `negated`.
pub open spec fn nnf_view(f: FormulaView, negated: bool) -> FormulaView
    decreases f,
{
    match f {
        FormulaView::True => constant_view(!negated),
        FormulaView::False => constant_view(negated),
        FormulaView::Atom(p, r) => FormulaView::Atom(
            p,
            if negated {
                negated_relation(r)
            } else {
                r
            },
        ),
        FormulaView::Not(b) => nnf_view(*b, !negated),
        FormulaView::And(fs) => if negated {
            FormulaView::Or(nnf_all(fs, true))
        } else {
            FormulaView::And(nnf_all(fs, false))
        },
        FormulaView::Or(fs) => if negated {
            FormulaView::And(nnf_all(fs, true))
        } else {
            FormulaView::Or(nnf_all(fs, false))
        },
        FormulaView::Quantified(q, x, b) => FormulaView::Quantified(
            if negated {
                dual(q)
            } else {
                q
            },
            x,
            Box::new(nnf_view(*b, negated)),
        ),
    }
}

/// [`nnf_view`] of every formula of the list.
pub open spec fn nnf_all(fs: Seq<FormulaView>, negated: bool) -> Seq<FormulaView>
    decreases fs,
{
    if fs.len() == 0 {
        Seq::<FormulaView>::empty()
    } else {
        nnf_all(fs.drop_last(), negated).push(nnf_view(fs.last(), negated))
    }
}

/// No negation occurs.
pub open spec fn is_nnf(f: FormulaView) -> bool
    decreases f,
{
    match f {
        FormulaView::Not(_) => false,
        FormulaView::And(fs) => all_nnf(fs),
        FormulaView::Or(fs) => all_nnf(fs),
        FormulaView::Quantified(_, _, b) => is_nnf(*b),
        _ => true,
    }
}

/// No negation occurs in any formula of the list.
pub open spec fn all_nnf(fs: Seq<FormulaView>) -> bool
    decreases fs,
{
    if fs.len() == 0 {
        true
    } else {
        all_nnf(fs.drop_last()) && is_nnf(fs.last())
    }
}

/// The negation of an optional truth value.
pub open spec fn negate_truth(t: Option<bool>) -> Option<bool> {
    match t {
        Some(x) => Some(!x),
        None => None,
    }
}

/// The relation that holds exactly where `relation` does not.
pub fn negate_relation(relation: Relation) -> (r: Relation)
    ensures
        r == negated_relation(relation),
{
    match relation {
        Relation::Equal => Relation::NotEqual,
        Relation::NotEqual => Relation::Equal,
        Relation::Less => Relation::GreaterOrEqual,
        Relation::LessOrEqual => Relation::Greater,
        Relation::Greater => Relation::LessOrEqual,
        Relation::GreaterOrEqual => Relation::Less,
    }
}

/// The constant formula `value`.
fn constant(value: bool) -> (f: Formula)
    ensures
        f@ == constant_view(value),
        formula_wf(f),
{
    if value {
        Formula::True
    } else {
        Formula::False
    }
}

/// Converts a formula to negation normal form, pushing negations to atoms and
/// dualizing quantifiers along the way.
pub fn to_nnf(formula: &Formula) -> (r: Formula)
    requires
        formula_wf(*formula),
    ensures
        formula_wf(r),
        r@ == nnf_view(formula@, false),
{
    normalize(formula, false)
}

/// The negation normal form of `formula`, or of its negation when `negated`.
fn normalize(formula: &Formula, negated: bool) -> (r: Formula)
    requires
        formula_wf(*formula),
    ensures
        formula_wf(r),
        r@ == nnf_view(formula@, negated),
    decreases formula,
{
    match formula {
        Formula::True => constant(!negated),
        Formula::False => constant(negated),
        Formula::Atom(atom) => Formula::Atom(
            Atom::new(
                atom.polynomial.duplicate(),
                if negated {
                    negate_relation(atom.relation)
                } else {
                    atom.relation
                },
            ),
        ),
        Formula::Not(body) => normalize(body, !negated),
        Formula::And(formulas) => {
            let children = normalize_list(formulas, negated);
            if negated {
                Formula::Or(children)
            } else {
                Formula::And(children)
            }
        },
        Formula::Or(formulas) => {
            let children = normalize_list(formulas, negated);
            if negated {
                Formula::And(children)
            } else {
                Formula::Or(children)
            }
        },
        Formula::Quantified { quantifier, variable, body } => Formula::Quantified {
            quantifier: if negated {
                match quantifier {
                    Quantifier::Forall => Quantifier::Exists,
                    Quantifier::Exists => Quantifier::Forall,
                }
            } else {
                *quantifier
            },
            variable: *variable,
            body: Box::new(normalize(body, negated)),
        },
    }
}

/// [`normalize`] of every formula of the list.
fn normalize_list(formulas: &Vec<Formula>, negated: bool) -> (out: Vec<Formula>)
    requires
        all_wf(formulas@),
    ensures
        all_wf(out@),
        views_of(out@) == nnf_all(views_of(formulas@), negated),
    decreases formulas,
{
    let mut out: Vec<Formula> = Vec::new();
    let mut i: usize = 0;
    proof {
        assert(formulas@.take(0) =~= Seq::<Formula>::empty());
        assert(out@ =~= Seq::<Formula>::empty());
    }
    while i < formulas.len()
        invariant
            i <= formulas@.len(),
            all_wf(formulas@),
            all_wf(out@),
            views_of(out@) == nnf_all(views_of(formulas@.take(i as int)), negated),
        decreases formulas@.len() - i,
    {
        proof {
            lemma_member_decreases(formulas, i as int);
            lemma_all_wf_member(formulas@, i as int);
        }
        let g = normalize(&formulas[i], negated);
        let ghost before = out@;
        out.push(g);
        proof {
            assert(out@.drop_last() =~= before);
            let t1 = formulas@.take(i + 1);
            assert(t1.drop_last() =~= formulas@.take(i as int));
            assert(views_of(t1).drop_last() =~= views_of(formulas@.take(i as int)));
        }
        i = i + 1;
    }
    proof {
        assert(formulas@.take(i as int) =~= formulas@);
    }
    out
}

/// A negated relation holds exactly where the relation does not.
pub proof fn lemma_negated_relation(relation: Relation, value: (int, nat))
    ensures
        relation_holds(negated_relation(relation), value) == !relation_holds(relation, value),
{
}

/// Negation normal form keeps the truth at every point: the form of `f` has
/// the truth of `f`, the form of `!f` the negated truth, and both have no
/// truth exactly where `f` has none.
pub proof fn law_nnf_preserves_truth(f: FormulaView, negated: bool, values: Map<usize, (int, nat)>)
    ensures
        eval_view(nnf_view(f, negated), values) == if negated {
            negate_truth(eval_view(f, values))
        } else {
            eval_view(f, values)
        },
    decreases f,
{
    match f {
        FormulaView::Atom(p, r) => {
            lemma_negated_relation(r, crate::polynomial::evaluate_terms(p, values));
        },
        FormulaView::Not(b) => {
            law_nnf_preserves_truth(*b, !negated, values);
        },
        FormulaView::And(fs) => {
            lemma_nnf_all_truth(fs, negated, values);
        },
        FormulaView::Or(fs) => {
            lemma_nnf_all_truth(fs, negated, values);
        },
        _ => {},
    }
}

/// [`law_nnf_preserves_truth`] for conjunctions and disjunctions, whose
/// negation swaps the two.
pub proof fn lemma_nnf_all_truth(fs: Seq<FormulaView>, negated: bool, values: Map<usize, (int, nat)>)
    ensures
        negated ==> eval_or(nnf_all(fs, true), values) == negate_truth(eval_and(fs, values)),
        negated ==> eval_and(nnf_all(fs, true), values) == negate_truth(eval_or(fs, values)),
        !negated ==> eval_and(nnf_all(fs, false), values) == eval_and(fs, values),
        !negated ==> eval_or(nnf_all(fs, false), values) == eval_or(fs, values),
    decreases fs,
{
    if fs.len() > 0 {
        let rest = fs.drop_last();
        lemma_nnf_all_truth(rest, negated, values);
        law_nnf_preserves_truth(fs.last(), negated, values);
        let n = nnf_all(fs, negated);
        assert(n.drop_last() == nnf_all(rest, negated));
        assert(n.last() == nnf_view(fs.last(), negated));
    }
}

/// Negation normal form has no negation left.
pub proof fn law_nnf_has_no_negation(f: FormulaView, negated: bool)
    ensures
        is_nnf(nnf_view(f, negated)),
    decreases f,
{
    match f {
        FormulaView::Not(b) => {
            law_nnf_has_no_negation(*b, !negated);
        },
        FormulaView::And(fs) => {
            lemma_nnf_all_no_negation(fs, negated);
        },
        FormulaView::Or(fs) => {
            lemma_nnf_all_no_negation(fs, negated);
        },
        FormulaView::Quantified(_, _, b) => {
            law_nnf_has_no_negation(*b, negated);
        },
        _ => {},
    }
}

/// [`law_nnf_has_no_negation`] for every formula of a list.
pub proof fn lemma_nnf_all_no_negation(fs: Seq<FormulaView>, negated: bool)
    ensures
        all_nnf(nnf_all(fs, negated)),
    decreases fs,
{
    if fs.len() > 0 {
        lemma_nnf_all_no_negation(fs.drop_last(), negated);
        law_nnf_has_no_negation(fs.last(), negated);
        let n = nnf_all(fs, negated);
        assert(n.drop_last() == nnf_all(fs.drop_last(), negated));
    }
}

/// Negation normal form keeps the free variables.
pub proof fn law_nnf_free_variables(f: FormulaView, negated: bool, v: usize)
    ensures
        free_in(nnf_view(f, negated), v) == free_in(f, v),
    decreases f,
{
    match f {
        FormulaView::Not(b) => {
            law_nnf_free_variables(*b, !negated, v);
        },
        FormulaView::And(fs) => {
            lemma_nnf_all_free(fs, negated, v);
        },
        FormulaView::Or(fs) => {
            lemma_nnf_all_free(fs, negated, v);
        },
        FormulaView::Quantified(_, _, b) => {
            law_nnf_free_variables(*b, negated, v);
        },
        _ => {},
    }
}

/// [`law_nnf_free_variables`] for every formula of a list.
pub proof fn lemma_nnf_all_free(fs: Seq<FormulaView>, negated: bool, v: usize)
    ensures
        free_in_any(nnf_all(fs, negated), v) == free_in_any(fs, v),
    decreases fs,
{
    if fs.len() > 0 {
        lemma_nnf_all_free(fs.drop_last(), negated, v);
        law_nnf_free_variables(fs.last(), negated, v);
        let n = nnf_all(fs, negated);
        assert(n.drop_last() == nnf_all(fs.drop_last(), negated));
    }
}

/// Negation normal form keeps a formula quantifier free.
pub proof fn law_nnf_quantifier_free(f: FormulaView, negated: bool)
    ensures
        quantifier_free(nnf_view(f, negated)) == quantifier_free(f),
    decreases f,
{
    match f {
        FormulaView::Not(b) => {
            law_nnf_quantifier_free(*b, !negated);
        },
        FormulaView::And(fs) => {
            lemma_nnf_all_quantifier_free(fs, negated);
        },
        FormulaView::Or(fs) => {
            lemma_nnf_all_quantifier_free(fs, negated);
        },
        _ => {},
    }
}

/// [`law_nnf_quantifier_free`] for every formula of a list.
pub proof fn lemma_nnf_all_quantifier_free(fs: Seq<FormulaView>, negated: bool)
    ensures
        all_quantifier_free(nnf_all(fs, negated)) == all_quantifier_free(fs),
    decreases fs,
{
    if fs.len() > 0 {
        lemma_nnf_all_quantifier_free(fs.drop_last(), negated);
        law_nnf_quantifier_free(fs.last(), negated);
        let n = nnf_all(fs, negated);
        assert(n.drop_last() == nnf_all(fs.drop_last(), negated));
    }
}

/// A formula without negation is its own negation normal form.
pub proof fn lemma_nnf_fixes(g: FormulaView)
    requires
        is_nnf(g),
    ensures
        nnf_view(g, false) == g,
    decreases g,
{
    match g {
        FormulaView::And(fs) => {
            lemma_nnf_all_fixes(fs);
        },
        FormulaView::Or(fs) => {
            lemma_nnf_all_fixes(fs);
        },
        FormulaView::Quantified(_, _, b) => {
            lemma_nnf_fixes(*b);
        },
        _ => {},
    }
}

/// [`lemma_nnf_fixes`] for every formula of a list.
pub proof fn lemma_nnf_all_fixes(fs: Seq<FormulaView>)
    requires
        all_nnf(fs),
    ensures
        nnf_all(fs, false) == fs,
    decreases fs,
{
    if fs.len() > 0 {
        lemma_nnf_all_fixes(fs.drop_last());
        lemma_nnf_fixes(fs.last());
        assert(nnf_all(fs, false) =~= fs);
    }
}

/// Negation normal form is idempotent: `to_nnf(to_nnf(f)) == to_nnf(f)`.
pub proof fn law_nnf_idempotent(f: FormulaView)
    ensures
        nnf_view(nnf_view(f, false), false) == nnf_view(f, false),
{
    law_nnf_has_no_negation(f, false);
    lemma_nnf_fixes(nnf_view(f, false));
}

} // verus!
