//! Quantifier elimination by dispatch: nested quantifiers are eliminated
//! innermost first, then each quantifier goes to the first rule that takes
//! it: the linear rules, the distribution over Boolean branches, and the
//! rule for a single linear atom.
use crate::formula::{
    all_quantifier_free, all_wf, formula_wf, free_in, free_in_any, lemma_all_qf_member,
    lemma_all_wf_member, lemma_atoms_wf, lemma_views_of, quantifier_free, views_of, Formula,
    FormulaView, Quantifier,
};
use crate::qe::scope::{
    free_within, lemma_exists_conjunction_within, lemma_exists_inequalities_within, lemma_free_any,
    lemma_linear_atom_within, lemma_pair_free,
};
use crate::qe::evaluate::{
    bound_of, eliminate_exists_linear_conjunction, eliminate_exists_linear_inequalities,
    eliminate_forall_linear_conjunction, eliminate_forall_linear_equality, eliminate_linear_atom,
    exists_conjunction_result, exists_inequalities_result, free_literals, linear_atom_result,
    linear_atom_view, literal_products_fit, literal_view, pair_condition, pair_conditions,
    quantified_conjuncts, side_bounds, substituted, BoundView, EliminationOptions, EliminationStats,
    QuantifierEvaluationError,
};
use vstd::prelude::*;

verus! {

/// The number of quantifiers.
pub open spec fn quantifier_count(f: FormulaView) -> nat
    decreases f,
{
    match f {
        FormulaView::Not(b) => quantifier_count(*b),
        FormulaView::And(fs) => quantifier_count_all(fs),
        FormulaView::Or(fs) => quantifier_count_all(fs),
        FormulaView::Quantified(_, _, b) => 1 + quantifier_count(*b),
        _ => 0,
    }
}

/// The number of quantifiers over a list.
pub open spec fn quantifier_count_all(fs: Seq<FormulaView>) -> nat
    decreases fs,
{
    if fs.len() == 0 {
        0
    } else {
        quantifier_count_all(fs.drop_last()) + quantifier_count(fs.last())
    }
}

/// A size in which a negation weighs nothing and a disjunction weighs one
/// more than a conjunction.
pub open spec fn branch_weight(f: FormulaView) -> nat
    decreases f,
{
    match f {
        FormulaView::Not(b) => branch_weight(*b),
        FormulaView::And(fs) => 1 + branch_weight_all(fs),
        FormulaView::Or(fs) => 2 + branch_weight_all(fs),
        FormulaView::Quantified(_, _, b) => 1 + branch_weight(*b),
        _ => 1,
    }
}

/// The branch weight of a list.
pub open spec fn branch_weight_all(fs: Seq<FormulaView>) -> nat
    decreases fs,
{
    if fs.len() == 0 {
        0
    } else {
        branch_weight_all(fs.drop_last()) + branch_weight(fs.last())
    }
}

/// The number of negations.
pub open spec fn negation_count(f: FormulaView) -> nat
    decreases f,
{
    match f {
        FormulaView::Not(b) => 1 + negation_count(*b),
        FormulaView::And(fs) => negation_count_all(fs),
        FormulaView::Or(fs) => negation_count_all(fs),
        FormulaView::Quantified(_, _, b) => negation_count(*b),
        _ => 0,
    }
}

/// The number of negations over a list.
pub open spec fn negation_count_all(fs: Seq<FormulaView>) -> nat
    decreases fs,
{
    if fs.len() == 0 {
        0
    } else {
        negation_count_all(fs.drop_last()) + negation_count(fs.last())
    }
}

/// Every formula weighs at least one.
proof fn lemma_weight_positive(f: FormulaView)
    ensures
        branch_weight(f) >= 1,
    decreases f,
{
    if let FormulaView::Not(b) = f {
        lemma_weight_positive(*b);
    }
}

/// A member's counts are at most those of its list.
proof fn lemma_member_counts(fs: Seq<FormulaView>, i: int)
    requires
        0 <= i < fs.len(),
    ensures
        quantifier_count(fs[i]) <= quantifier_count_all(fs),
        branch_weight(fs[i]) <= branch_weight_all(fs),
        negation_count(fs[i]) <= negation_count_all(fs),
    decreases fs.len(),
{
    if i < fs.len() - 1 {
        assert(fs.drop_last()[i] == fs[i]);
        lemma_member_counts(fs.drop_last(), i);
    }
}

/// The counts of a list grown by one formula.
proof fn lemma_counts_push(fs: Seq<FormulaView>, f: FormulaView)
    ensures
        quantifier_count_all(fs.push(f)) == quantifier_count_all(fs) + quantifier_count(f),
        branch_weight_all(fs.push(f)) == branch_weight_all(fs) + branch_weight(f),
        negation_count_all(fs.push(f)) == negation_count_all(fs) + negation_count(f),
        all_quantifier_free(fs.push(f)) == (all_quantifier_free(fs) && quantifier_free(f)),
        forall|u: usize| #[trigger] free_in_any(fs.push(f), u) == (free_in_any(fs, u) || free_in(f, u)),
{
    assert(fs.push(f).drop_last() =~= fs);
}

/// Every variable free in some member of the list is free in `f`.
pub open spec fn all_free_within(gs: Seq<FormulaView>, f: FormulaView) -> bool {
    forall|u: usize| #[trigger] free_in_any(gs, u) ==> free_in(f, u)
}

/// The quantified formula binds `v` at its root.
pub open spec fn binds(f: FormulaView, v: usize) -> bool {
    f matches FormulaView::Quantified(_, w, _) && w == v
}

/// The views and well-formedness of a list grown by one formula.
proof fn lemma_views_push(fs: Seq<Formula>, g: Formula)
    ensures
        views_of(fs.push(g)) == views_of(fs).push(g@),
        all_wf(fs.push(g)) == (all_wf(fs) && formula_wf(g)),
{
    assert(fs.push(g).drop_last() =~= fs);
}

/// A formula without quantifiers counts none.
proof fn lemma_free_counts_none(f: FormulaView)
    requires
        quantifier_free(f),
    ensures
        quantifier_count(f) == 0,
    decreases f,
{
    match f {
        FormulaView::Not(b) => lemma_free_counts_none(*b),
        FormulaView::And(fs) => lemma_all_free_count_none(fs),
        FormulaView::Or(fs) => lemma_all_free_count_none(fs),
        _ => {},
    }
}

/// A list without quantifiers counts none.
proof fn lemma_all_free_count_none(fs: Seq<FormulaView>)
    requires
        all_quantifier_free(fs),
    ensures
        quantifier_count_all(fs) == 0,
    decreases fs,
{
    if fs.len() > 0 {
        lemma_all_free_count_none(fs.drop_last());
        lemma_free_counts_none(fs.last());
    }
}

/// A list of atoms has no quantifier.
proof fn lemma_atoms_quantifier_free(fs: Seq<FormulaView>)
    requires
        forall|i: int| 0 <= i < fs.len() ==> (#[trigger] fs[i]) is Atom,
    ensures
        all_quantifier_free(fs),
    decreases fs.len(),
{
    if fs.len() > 0 {
        assert forall|i: int| 0 <= i < fs.drop_last().len() implies (
        #[trigger] fs.drop_last()[i]) is Atom by {
            assert(fs.drop_last()[i] == fs[i]);
        }
        lemma_atoms_quantifier_free(fs.drop_last());
        assert(fs.last() == fs[fs.len() - 1]);
        assert(fs.last() is Atom);
        assert(quantifier_free(fs.last()));
        assert(all_quantifier_free(fs) == (all_quantifier_free(fs.drop_last()) && quantifier_free(
            fs.last(),
        )));
    }
}

/// A pair of formulas without quantifiers.
proof fn lemma_pair_quantifier_free(a: FormulaView, b: FormulaView)
    requires
        quantifier_free(a),
        quantifier_free(b),
    ensures
        all_quantifier_free(seq![a, b]),
{
    assert(seq![a, b].drop_last() =~= seq![a]);
    assert(seq![a].drop_last() =~= Seq::<FormulaView>::empty());
    assert(all_quantifier_free(Seq::<FormulaView>::empty()));
    assert(all_quantifier_free(seq![a]));
}

/// The linear atom rule gives a formula without quantifiers.
proof fn lemma_linear_atom_free(f: FormulaView, v: usize)
    requires
        linear_atom_result(f, v) is Some,
    ensures
        quantifier_free(linear_atom_result(f, v)->0),
{
    if let FormulaView::Quantified(q, _, b) = f {
        let (p, r) = literal_view(*b)->0;
        let g = linear_atom_view(q, p, r, v);
        assert(linear_atom_result(f, v)->0 == g);
        let a = crate::qe::evaluate::leading_in(p, v);
        let c = crate::qe::evaluate::constant_in(p, v);
        let zero = FormulaView::Atom(a, crate::formula::Relation::Equal);
        let nonzero = FormulaView::Atom(a, crate::formula::Relation::NotEqual);
        lemma_pair_quantifier_free(zero, FormulaView::Atom(c, crate::formula::Relation::Equal));
        lemma_pair_quantifier_free(
            FormulaView::And(seq![zero, FormulaView::Atom(c, crate::formula::Relation::Equal)]),
            nonzero,
        );
        lemma_pair_quantifier_free(nonzero, FormulaView::Atom(c, r));
        lemma_pair_quantifier_free(zero, FormulaView::Atom(c, r));
    }
}

/// The substitution rule gives a formula without quantifiers.
proof fn lemma_exists_conjunction_free(f: FormulaView, v: usize)
    requires
        exists_conjunction_result(f, v) is Some,
    ensures
        quantifier_free(exists_conjunction_result(f, v)->0),
{
    let bs = quantified_conjuncts(f, Quantifier::Exists)->0;
    let e = crate::qe::evaluate::pivot_from(bs, v, 0)->0;
    let p = (literal_view(bs[e])->0).0;
    let a = crate::qe::evaluate::leading_in(p, v);
    let c = crate::qe::evaluate::constant_in(p, v);
    let gs = bs.map_values(|b: FormulaView| substituted(b, a, c, v));
    assert(exists_conjunction_result(f, v)->0 == FormulaView::And(gs));
    assert forall|i: int| 0 <= i < gs.len() implies (#[trigger] gs[i]) is Atom by {
        assert(gs[i] == substituted(bs[i], a, c, v));
    }
    lemma_atoms_quantifier_free(gs);
}

/// The literals free of the variable are atoms.
proof fn lemma_free_literals_atoms(bs: Seq<FormulaView>, v: usize)
    ensures
        forall|i: int| 0 <= i < free_literals(bs, v).len() ==> (#[trigger] free_literals(bs, v)[i]) is Atom,
    decreases bs.len(),
{
    if bs.len() > 0 {
        lemma_free_literals_atoms(bs.drop_last(), v);
    }
}

/// The pair conditions are atoms.
proof fn lemma_pair_conditions_atoms(ls: Seq<BoundView>, us: Seq<BoundView>)
    ensures
        forall|i: int| 0 <= i < pair_conditions(ls, us).len() ==> (#[trigger] pair_conditions(ls, us)[i]) is Atom,
    decreases ls.len(),
{
    if ls.len() > 0 {
        lemma_pair_conditions_atoms(ls.drop_last(), us);
        let prev = pair_conditions(ls.drop_last(), us);
        let more = us.map_values(|u: BoundView| pair_condition(ls.last(), u));
        assert forall|i: int| 0 <= i < (prev + more).len() implies (#[trigger] (prev + more)[i]) is Atom by {
            if i >= prev.len() {
                assert((prev + more)[i] == more[i - prev.len()]);
            } else {
                assert((prev + more)[i] == prev[i]);
            }
        }
    }
}

/// The inequality rule gives a formula without quantifiers.
proof fn lemma_exists_inequalities_free(f: FormulaView, v: usize)
    requires
        exists_inequalities_result(f, v) is Some,
    ensures
        quantifier_free(exists_inequalities_result(f, v)->0),
{
    let bs = quantified_conjuncts(f, Quantifier::Exists)->0;
    let fl = free_literals(bs, v);
    let pc = pair_conditions(side_bounds(bs, v, true), side_bounds(bs, v, false));
    lemma_free_literals_atoms(bs, v);
    lemma_pair_conditions_atoms(side_bounds(bs, v, true), side_bounds(bs, v, false));
    assert forall|i: int| 0 <= i < (fl + pc).len() implies (#[trigger] (fl + pc)[i]) is Atom by {
        if i >= fl.len() {
            assert((fl + pc)[i] == pc[i - fl.len()]);
        } else {
            assert((fl + pc)[i] == fl[i]);
        }
    }
    lemma_atoms_quantifier_free(fl + pc);
}


/// Whether `variable` occurs free.
fn occurs_free(formula: &Formula, variable: usize) -> (b: bool)
    ensures
        b == free_in(formula@, variable),
{
    let vs = formula.free_list();
    let mut i: usize = 0;
    while i < vs.len()
        invariant
            i <= vs@.len(),
            forall|v: usize| vs@.contains(v) <==> free_in(formula@, v),
            forall|k: int| 0 <= k < i ==> vs@[k] != variable,
        decreases vs@.len() - i,
    {
        if vs[i] == variable {
            assert(vs@.contains(variable));
            return true;
        }
        i = i + 1;
    }
    assert(!vs@.contains(variable));
    false
}

/// One more call, counted up to the largest count.
fn count_call(stats: &mut EliminationStats)
    ensures
        final(stats).cells_constructed == old(stats).cells_constructed,
        final(stats).leaf_cells == old(stats).leaf_cells,
        final(stats).sector_cells == old(stats).sector_cells,
        final(stats).section_cells == old(stats).section_cells,
        final(stats).projection_levels == old(stats).projection_levels,
        final(stats).projection_polynomials == old(stats).projection_polynomials,
        final(stats).lifting_orders@ == old(stats).lifting_orders@,
        final(stats).quantifier_calls == if old(stats).quantifier_calls < usize::MAX {
            old(stats).quantifier_calls + 1
        } else {
            old(stats).quantifier_calls as int
        },
{
    if stats.quantifier_calls < usize::MAX {
        stats.quantifier_calls = stats.quantifier_calls + 1;
    }
}

/// Whether every product of two literal polynomials among the branches of
/// `exists x. (b1 && ... && bn)` keeps its exponents within `usize`: twice
/// the largest exponent of a literal fits.
fn literal_exponents_fit(branches: &Vec<Formula>) -> (b: bool)
    requires
        all_wf(branches@),
    ensures
        b ==> literal_products_fit(views_of(branches@)),
{
    let ghost bs = views_of(branches@);
    proof {
        lemma_views_of(branches@);
    }
    let mut largest: usize = 0;
    let mut i: usize = 0;
    while i < branches.len()
        invariant
            bs == views_of(branches@),
            bs.len() == branches@.len(),
            forall|k: int| 0 <= k < branches@.len() ==> #[trigger] bs[k] == branches@[k]@,
            i <= branches@.len(),
            forall|k: int|
                0 <= k < i && (#[trigger] literal_view(bs[k])) is Some ==> crate::polynomial::max_exponent(
                    (literal_view(bs[k])->0).0,
                ) <= largest,
        decreases branches@.len() - i,
    {
        proof {
            assert(bs[i as int] == branches@[i as int]@);
        }
        let exponent: usize = match &branches[i] {
            Formula::Atom(atom) => {
                proof {
                    assert(bs[i as int] == FormulaView::Atom(atom.polynomial@, atom.relation));
                }
                atom.polynomial.max_exponent()
            },
            Formula::Not(inner) => {
                proof {
                    assert(bs[i as int] == FormulaView::Not(Box::new(inner@)));
                }
                match &**inner {
                    Formula::Atom(atom) => {
                        proof {
                            assert(inner@ == FormulaView::Atom(atom.polynomial@, atom.relation));
                        }
                        atom.polynomial.max_exponent()
                    },
                    _ => {
                        proof {
                            assert(!(inner@ is Atom));
                        }
                        0
                    },
                }
            },
            _ => {
                proof {
                    assert(!(bs[i as int] is Atom) && !(bs[i as int] is Not));
                }
                0
            },
        };
        if exponent > largest {
            largest = exponent;
        }
        i = i + 1;
    }
    largest <= usize::MAX / 2
}

/// Eliminates the quantifiers nested in `formula`, innermost first.
fn eliminate_nested_children(
    formula: &Formula,
    stats: &mut EliminationStats,
    options: EliminationOptions,
) -> (r: Result<Formula, QuantifierEvaluationError>)
    requires
        formula_wf(*formula),
    ensures
        r matches Ok(g) ==> formula_wf(g) && quantifier_free(g@) && free_within(g@, formula@),
        quantifier_free(formula@) ==> (r matches Ok(g) && g@ == formula@),
    decreases quantifier_count(formula@), branch_weight(formula@), negation_count(formula@), 4nat,
{
    match formula {
        Formula::True => Ok(Formula::True),
        Formula::False => Ok(Formula::False),
        Formula::Atom(_) => Ok(formula.duplicate()),
        Formula::Not(body) => {
            let inner = eliminate_nested_children(body, stats, options.clone());
            match inner {
                Ok(g) => {
                    let r = Formula::Not(Box::new(g));
                    proof {
                        assert(formula@ == FormulaView::Not(Box::new(body@)));
                        assert forall|u: usize| #[trigger] free_in(r@, u) implies free_in(formula@, u) by {
                            assert(free_in(r@, u) == free_in(g@, u));
                        }
                    }
                    Ok(r)
                },
                Err(e) => Err(e),
            }
        },
        Formula::And(formulas) => {
            let members = eliminate_members(formula, formulas, stats, options);
            match members {
                Ok(gs) => {
                    let r = Formula::And(gs);
                    proof {
                        assert(formula@ == FormulaView::And(views_of(formulas@)));
                        assert forall|u: usize| #[trigger] free_in(r@, u) implies free_in(formula@, u) by {
                            assert(free_in_any(views_of(gs@), u));
                        }
                    }
                    Ok(r)
                },
                Err(e) => Err(e),
            }
        },
        Formula::Or(formulas) => {
            let members = eliminate_members(formula, formulas, stats, options);
            match members {
                Ok(gs) => {
                    let r = Formula::Or(gs);
                    proof {
                        assert(formula@ == FormulaView::Or(views_of(formulas@)));
                        assert forall|u: usize| #[trigger] free_in(r@, u) implies free_in(formula@, u) by {
                            assert(free_in_any(views_of(gs@), u));
                        }
                    }
                    Ok(r)
                },
                Err(e) => Err(e),
            }
        },
        Formula::Quantified { .. } => eliminate_recursive(formula, stats, options),
    }
}

/// Eliminates the quantifiers nested in each member of a conjunction or
/// disjunction.
fn eliminate_members(
    parent: &Formula,
    formulas: &Vec<Formula>,
    stats: &mut EliminationStats,
    options: EliminationOptions,
) -> (r: Result<Vec<Formula>, QuantifierEvaluationError>)
    requires
        formula_wf(*parent),
        parent matches Formula::And(fs) ==> fs == *formulas,
        parent matches Formula::Or(fs) ==> fs == *formulas,
        parent is And || parent is Or,
    ensures
        r matches Ok(gs) ==> all_wf(gs@) && all_quantifier_free(views_of(gs@)),
        r matches Ok(gs) ==> forall|u: usize|
            #[trigger] free_in_any(views_of(gs@), u) ==> free_in_any(views_of(formulas@), u),
        quantifier_free(parent@) ==> (r matches Ok(gs) && views_of(gs@) == views_of(formulas@)),
    decreases quantifier_count(parent@), branch_weight(parent@), negation_count(parent@), 3nat,
{
    let ghost fs = views_of(formulas@);
    proof {
        lemma_views_of(formulas@);
        assert(all_wf(formulas@));
    }
    let mut out: Vec<Formula> = Vec::new();
    let mut i: usize = 0;
    proof {
        assert(views_of(out@) =~= views_of(formulas@.take(0)));
    }
    while i < formulas.len()
        invariant
            fs == views_of(formulas@),
            fs.len() == formulas@.len(),
            forall|k: int| 0 <= k < formulas@.len() ==> #[trigger] fs[k] == formulas@[k]@,
            all_wf(formulas@),
            parent matches Formula::And(ps) ==> ps == *formulas,
            parent matches Formula::Or(ps) ==> ps == *formulas,
            parent is And || parent is Or,
            i <= formulas@.len(),
            all_wf(out@),
            all_quantifier_free(views_of(out@)),
            forall|u: usize| #[trigger] free_in_any(views_of(out@), u) ==> free_in_any(fs, u),
            quantifier_free(parent@) ==> views_of(out@) == views_of(formulas@.take(i as int)),
        decreases formulas@.len() - i,
    {
        proof {
            lemma_all_wf_member(formulas@, i as int);
            lemma_member_counts(fs, i as int);
            assert(fs[i as int] == formulas@[i as int]@);
            if quantifier_free(parent@) {
                lemma_all_qf_member(fs, i as int);
            }
        }
        let g = eliminate_nested_children(&formulas[i], stats, options.clone());
        match g {
            Ok(g) => {
                proof {
                    lemma_views_push(out@, g);
                    lemma_counts_push(views_of(out@), g@);
                    assert forall|u: usize| #[trigger] free_in(g@, u) implies free_in_any(fs, u) by {
                        lemma_free_any(fs, u);
                        assert(free_in(fs[i as int], u));
                    }
                    lemma_views_push(formulas@.take(i as int), formulas@[i as int]);
                    assert(formulas@.take(i as int).push(formulas@[i as int]) =~= formulas@.take(
                        i + 1,
                    ));
                }
                out.push(g);
            },
            Err(e) => {
                return Err(e);
            },
        }
        i = i + 1;
    }
    proof {
        assert(formulas@.take(i as int) =~= formulas@);
    }
    Ok(out)
}

/// Eliminates the quantifier of `q x_v. body` after those nested in its
/// body: a body free of `x_v` is the result; otherwise the first rule
/// that takes the formula gives it: a universal linear equation or
/// conjunction that fails for some value, the substitution of a linear
/// equation, the elimination of linear inequalities, the distribution over
/// Boolean branches, and the linear rule for one atom. A formula that
/// none of them takes needs a cylindrical decomposition and is refused as
/// `Unsupported`; one that is not quantified as `WrongVariable`.
pub fn eliminate_recursive(
    formula: &Formula,
    stats: &mut EliminationStats,
    options: EliminationOptions,
) -> (r: Result<Formula, QuantifierEvaluationError>)
    requires
        formula_wf(*formula),
    ensures
        r matches Ok(g) ==> formula_wf(g) && quantifier_free(g@) && free_within(g@, formula@),
        !(formula@ is Quantified) ==> r == Err::<Formula, QuantifierEvaluationError>(
            QuantifierEvaluationError::WrongVariable,
        ),
    decreases quantifier_count(formula@), branch_weight(formula@), negation_count(formula@), 2nat,
{
    count_call(stats);
    let (quantifier, variable, body) = match formula {
        Formula::Quantified { quantifier, variable, body } => (*quantifier, *variable, body),
        _ => return Err(QuantifierEvaluationError::WrongVariable),
    };
    let ghost old_body = body@;
    proof {
        assert(formula@ == FormulaView::Quantified(quantifier, variable, Box::new(body@)));
    }
    let body = match eliminate_nested_children(body, stats, options.clone()) {
        Ok(g) => g,
        Err(e) => return Err(e),
    };
    if !occurs_free(&body, variable) {
        proof {
            assert forall|u: usize| #[trigger] free_in(body@, u) implies free_in(formula@, u) by {
                assert(u != variable);
                assert(free_in(old_body, u));
            }
        }
        return Ok(body);
    }
    let ghost b = body@;
    let reduced = Formula::Quantified { quantifier, variable, body: Box::new(body) };
    proof {
        assert(reduced@ == FormulaView::Quantified(quantifier, variable, Box::new(b)));
        assert(free_within(reduced@, formula@)) by {
            assert forall|u: usize| #[trigger] free_in(reduced@, u) implies free_in(formula@, u) by {
                assert(free_in(reduced@, u) == (u != variable && free_in(b, u)));
                assert(free_in(old_body, u));
            }
        }
        lemma_atoms_wf(reduced);
        lemma_free_counts_none(b);
        if quantifier_count(formula@) == 1 {
            assert(quantifier_count(old_body) == 0);
            lemma_count_none_free(old_body);
            assert(b == old_body);
        }
    }
    if let Some(g) = eliminate_forall_linear_equality(&reduced, variable) {
        return Ok(g);
    }
    if let Some(g) = eliminate_forall_linear_conjunction(&reduced, variable) {
        return Ok(g);
    }
    let fits = match &reduced {
        Formula::Quantified { body, .. } => match &**body {
            Formula::And(branches) => literal_exponents_fit(branches),
            _ => true,
        },
        _ => true,
    };
    if fits {
        if let Some(g) = eliminate_exists_linear_conjunction(&reduced, variable) {
            proof {
                lemma_exists_conjunction_free(reduced@, variable);
                lemma_exists_conjunction_within(reduced@, variable);
            }
            return Ok(g);
        }
    }
    if let Some(g) = eliminate_exists_linear_inequalities(&reduced, variable) {
        proof {
            lemma_exists_inequalities_free(reduced@, variable);
            lemma_exists_inequalities_within(reduced@, variable);
        }
        return Ok(g);
    }
    if let Some(result) = eliminate_supported_boolean_branches(
        quantifier,
        variable,
        &reduced,
        stats,
        options.clone(),
    ) {
        proof {
            assert(result matches Ok(g) ==> free_within(g@, reduced@));
        }
        return result;
    }
    if let Some(g) = eliminate_linear_atom(&reduced, variable) {
        proof {
            lemma_linear_atom_free(reduced@, variable);
            lemma_linear_atom_within(reduced@, variable);
        }
        return Ok(g);
    }
    Err(QuantifierEvaluationError::Unsupported)
}


/// A count of zero quantifiers means none occurs.
proof fn lemma_count_none_free(f: FormulaView)
    requires
        quantifier_count(f) == 0,
    ensures
        quantifier_free(f),
    decreases f,
{
    match f {
        FormulaView::Not(b) => lemma_count_none_free(*b),
        FormulaView::And(fs) => lemma_all_count_none_free(fs),
        FormulaView::Or(fs) => lemma_all_count_none_free(fs),
        _ => {},
    }
}

/// A list counting zero quantifiers holds none.
proof fn lemma_all_count_none_free(fs: Seq<FormulaView>)
    requires
        quantifier_count_all(fs) == 0,
    ensures
        all_quantifier_free(fs),
    decreases fs,
{
    if fs.len() > 0 {
        lemma_all_count_none_free(fs.drop_last());
        lemma_count_none_free(fs.last());
    }
}

/// Whether distributing `q x_v` over the Boolean structure of the body
/// applies: an existential over a disjunction or a universal over a
/// conjunction, a quantifier over a negation, an existential over a
/// conjunction with members both with and without `x_v`, and a universal
/// over a disjunction that is empty or has a member with `x_v`.
pub open spec fn boolean_rule_applies(f: FormulaView, q: Quantifier, v: usize) -> bool {
    match f {
        FormulaView::Quantified(_, _, b) => match *b {
            FormulaView::Or(bs) => q == Quantifier::Exists || bs.len() == 0 || some_with(bs, v),
            FormulaView::And(bs) => q == Quantifier::Forall || (some_without(bs, v) && some_with(bs, v)),
            FormulaView::Not(_) => true,
            _ => false,
        },
        _ => false,
    }
}

/// Some member has no free `x_v`.
pub open spec fn some_without(bs: Seq<FormulaView>, v: usize) -> bool {
    exists|i: int| 0 <= i < bs.len() && !free_in(#[trigger] bs[i], v)
}

/// Some member has `x_v` free.
pub open spec fn some_with(bs: Seq<FormulaView>, v: usize) -> bool {
    exists|j: int| 0 <= j < bs.len() && free_in(#[trigger] bs[j], v)
}

/// Copies of the branches without `x_v` and of those with it, each in
/// order.
fn partition_branches(branches: &Vec<Formula>, variable: usize) -> (r: (Vec<Formula>, Vec<Formula>))
    requires
        all_wf(branches@),
    ensures
        all_wf(r.0@),
        all_wf(r.1@),
        quantifier_count_all(views_of(r.0@)) + quantifier_count_all(views_of(r.1@))
            == quantifier_count_all(views_of(branches@)),
        branch_weight_all(views_of(r.0@)) + branch_weight_all(views_of(r.1@)) == branch_weight_all(
            views_of(branches@),
        ),
        r.0@.len() > 0 <==> some_without(views_of(branches@), variable),
        r.1@.len() > 0 <==> some_with(views_of(branches@), variable),
        all_quantifier_free(views_of(branches@)) ==> all_quantifier_free(views_of(r.0@))
            && all_quantifier_free(views_of(r.1@)),
        forall|u: usize| #[trigger] free_in_any(views_of(r.0@), u) ==> u != variable && free_in_any(
            views_of(branches@),
            u,
        ),
        forall|u: usize| #[trigger] free_in_any(views_of(r.1@), u) ==> free_in_any(views_of(branches@), u),
{
    let ghost bs = views_of(branches@);
    proof {
        lemma_views_of(branches@);
    }
    let mut independent: Vec<Formula> = Vec::new();
    let mut dependent: Vec<Formula> = Vec::new();
    let mut i: usize = 0;
    proof {
        assert(views_of(branches@.take(0)) =~= Seq::<FormulaView>::empty());
        assert(views_of(independent@) =~= Seq::<FormulaView>::empty());
    }
    while i < branches.len()
        invariant
            bs == views_of(branches@),
            bs.len() == branches@.len(),
            forall|k: int| 0 <= k < branches@.len() ==> #[trigger] bs[k] == branches@[k]@,
            all_wf(branches@),
            i <= branches@.len(),
            all_wf(independent@),
            all_wf(dependent@),
            quantifier_count_all(views_of(independent@)) + quantifier_count_all(views_of(dependent@))
                == quantifier_count_all(views_of(branches@.take(i as int))),
            branch_weight_all(views_of(independent@)) + branch_weight_all(views_of(dependent@))
                == branch_weight_all(views_of(branches@.take(i as int))),
            independent@.len() > 0 <==> exists|k: int| 0 <= k < i && !free_in(#[trigger] bs[k], variable),
            dependent@.len() > 0 <==> exists|k: int| 0 <= k < i && free_in(#[trigger] bs[k], variable),
            all_quantifier_free(bs) ==> all_quantifier_free(views_of(independent@))
                && all_quantifier_free(views_of(dependent@)),
            forall|u: usize| #[trigger] free_in_any(views_of(independent@), u) ==> u != variable
                && free_in_any(bs, u),
            forall|u: usize| #[trigger] free_in_any(views_of(dependent@), u) ==> free_in_any(bs, u),
        decreases branches@.len() - i,
    {
        proof {
            lemma_all_wf_member(branches@, i as int);
            lemma_views_push(branches@.take(i as int), branches@[i as int]);
            assert(branches@.take(i as int).push(branches@[i as int]) =~= branches@.take(i + 1));
            lemma_counts_push(views_of(branches@.take(i as int)), bs[i as int]);
            if all_quantifier_free(bs) {
                lemma_all_qf_member(bs, i as int);
            }
        }
        let copy = branches[i].duplicate();
        proof {
            assert forall|u: usize| #[trigger] free_in(copy@, u) implies free_in_any(bs, u) by {
                lemma_free_any(bs, u);
                assert(free_in(bs[i as int], u));
            }
        }
        if occurs_free(&branches[i], variable) {
            proof {
                lemma_views_push(dependent@, copy);
                lemma_counts_push(views_of(dependent@), copy@);
            }
            dependent.push(copy);
        } else {
            proof {
                lemma_views_push(independent@, copy);
                lemma_counts_push(views_of(independent@), copy@);
            }
            independent.push(copy);
        }
        i = i + 1;
    }
    proof {
        assert(branches@.take(i as int) =~= branches@);
    }
    (independent, dependent)
}

/// The negations of the branches, in order.
fn negate_branches(branches: &Vec<Formula>) -> (r: Vec<Formula>)
    requires
        all_wf(branches@),
    ensures
        all_wf(r@),
        quantifier_count_all(views_of(r@)) == quantifier_count_all(views_of(branches@)),
        branch_weight_all(views_of(r@)) == branch_weight_all(views_of(branches@)),
        all_quantifier_free(views_of(branches@)) ==> all_quantifier_free(views_of(r@)),
        forall|u: usize| #[trigger] free_in_any(views_of(r@), u) == free_in_any(views_of(branches@), u),
{
    let ghost bs = views_of(branches@);
    proof {
        lemma_views_of(branches@);
    }
    let mut out: Vec<Formula> = Vec::new();
    let mut i: usize = 0;
    proof {
        assert(views_of(branches@.take(0)) =~= Seq::<FormulaView>::empty());
        assert(views_of(out@) =~= Seq::<FormulaView>::empty());
    }
    while i < branches.len()
        invariant
            bs == views_of(branches@),
            bs.len() == branches@.len(),
            forall|k: int| 0 <= k < branches@.len() ==> #[trigger] bs[k] == branches@[k]@,
            all_wf(branches@),
            i <= branches@.len(),
            all_wf(out@),
            quantifier_count_all(views_of(out@)) == quantifier_count_all(views_of(branches@.take(i as int))),
            branch_weight_all(views_of(out@)) == branch_weight_all(views_of(branches@.take(i as int))),
            all_quantifier_free(bs) ==> all_quantifier_free(views_of(out@)),
            forall|u: usize| #[trigger] free_in_any(views_of(out@), u) == free_in_any(
                views_of(branches@.take(i as int)),
                u,
            ),
        decreases branches@.len() - i,
    {
        proof {
            lemma_all_wf_member(branches@, i as int);
            lemma_views_push(branches@.take(i as int), branches@[i as int]);
            assert(branches@.take(i as int).push(branches@[i as int]) =~= branches@.take(i + 1));
            lemma_counts_push(views_of(branches@.take(i as int)), bs[i as int]);
            if all_quantifier_free(bs) {
                lemma_all_qf_member(bs, i as int);
            }
        }
        let negated = Formula::Not(Box::new(branches[i].duplicate()));
        proof {
            lemma_views_push(out@, negated);
            lemma_counts_push(views_of(out@), negated@);
            assert forall|u: usize| #[trigger] free_in(negated@, u) == free_in(bs[i as int], u) by {}
        }
        out.push(negated);
        i = i + 1;
    }
    proof {
        assert(branches@.take(i as int) =~= branches@);
    }
    out
}

/// The counts of a quantifier over a conjunction or disjunction.
proof fn lemma_parent_counts(parent: FormulaView, bs: Seq<FormulaView>)
    requires
        parent matches FormulaView::Quantified(_, _, b) && (*b == FormulaView::Or(bs) || *b
            == FormulaView::And(bs)),
    ensures
        quantifier_count(parent) == 1 + quantifier_count_all(bs),
        branch_weight(parent) >= 2 + branch_weight_all(bs),
        parent matches FormulaView::Quantified(_, _, b) && *b == FormulaView::Or(bs) ==> branch_weight(
            parent,
        ) == 3 + branch_weight_all(bs),
{
    if let FormulaView::Quantified(_, _, b) = parent {
        if *b == FormulaView::Or(bs) {
            assert(quantifier_count(*b) == quantifier_count_all(bs));
            assert(branch_weight(*b) == 2 + branch_weight_all(bs));
        } else {
            assert(quantifier_count(*b) == quantifier_count_all(bs));
            assert(branch_weight(*b) == 1 + branch_weight_all(bs));
        }
    }
}

/// Eliminates `q x_v` from each branch, collecting the results in order.
fn eliminate_each_branch(
    parent: &Formula,
    quantifier: Quantifier,
    variable: usize,
    branches: &Vec<Formula>,
    stats: &mut EliminationStats,
    options: EliminationOptions,
) -> (r: Result<Vec<Formula>, QuantifierEvaluationError>)
    requires
        formula_wf(*parent),
        parent@ matches FormulaView::Quantified(_, _, b) && (*b == FormulaView::Or(views_of(branches@))
            || *b == FormulaView::And(views_of(branches@))),
        all_wf(branches@),
    ensures
        r matches Ok(gs) ==> all_wf(gs@) && all_quantifier_free(views_of(gs@)) && gs@.len()
            == branches@.len(),
        r matches Ok(gs) ==> forall|u: usize|
            #[trigger] free_in_any(views_of(gs@), u) ==> u != variable && free_in_any(
                views_of(branches@),
                u,
            ),
    decreases quantifier_count(parent@), branch_weight(parent@), negation_count(parent@), 0nat,
{
    let ghost bs = views_of(branches@);
    proof {
        lemma_views_of(branches@);
    }
    let mut out: Vec<Formula> = Vec::new();
    let mut i: usize = 0;
    proof {
        assert(views_of(out@) =~= Seq::<FormulaView>::empty());
    }
    while i < branches.len()
        invariant
            bs == views_of(branches@),
            bs.len() == branches@.len(),
            forall|k: int| 0 <= k < branches@.len() ==> #[trigger] bs[k] == branches@[k]@,
            all_wf(branches@),
            parent@ matches FormulaView::Quantified(_, _, b) && (*b == FormulaView::Or(bs) || *b
                == FormulaView::And(bs)),
            i <= branches@.len(),
            all_wf(out@),
            all_quantifier_free(views_of(out@)),
            out@.len() == i,
            forall|u: usize| #[trigger] free_in_any(views_of(out@), u) ==> u != variable
                && free_in_any(bs, u),
        decreases branches@.len() - i,
    {
        proof {
            lemma_all_wf_member(branches@, i as int);
            lemma_member_counts(bs, i as int);
            lemma_parent_counts(parent@, bs);
        }
        let copy = branches[i].duplicate();
        let ghost c = copy@;
        let quantified = Formula::Quantified { quantifier, variable, body: Box::new(copy) };
        proof {
            assert(quantified@ == FormulaView::Quantified(quantifier, variable, Box::new(c)));
            assert(c == bs[i as int]);
        }
        match eliminate_recursive(&quantified, stats, options.clone()) {
            Ok(g) => {
                proof {
                    lemma_views_push(out@, g);
                    lemma_counts_push(views_of(out@), g@);
                    assert forall|u: usize| #[trigger] free_in(g@, u) implies u != variable
                        && free_in_any(bs, u) by {
                        assert(free_in(quantified@, u));
                        lemma_free_any(bs, u);
                        assert(free_in(bs[i as int], u));
                    }
                }
                out.push(g);
            },
            Err(e) => {
                return Err(e);
            },
        }
        i = i + 1;
    }
    Ok(out)
}

/// The body of a quantified formula; the formula itself otherwise.
pub open spec fn body_of(f: FormulaView) -> FormulaView {
    match f {
        FormulaView::Quantified(_, _, b) => *b,
        _ => f,
    }
}

/// An existential over a disjunction, or a universal over a conjunction,
/// gives the same connective with one member per branch.
pub open spec fn keeps_branches(f: FormulaView, q: Quantifier, g: FormulaView) -> bool {
    match f {
        FormulaView::Quantified(_, _, b) => match *b {
            FormulaView::Or(bs) => q == Quantifier::Exists ==> (g matches FormulaView::Or(gs)
                && gs.len() == bs.len()),
            FormulaView::And(bs) => q == Quantifier::Forall ==> (g matches FormulaView::And(gs)
                && gs.len() == bs.len()),
            _ => true,
        },
        _ => true,
    }
}

/// Distributes `q x_v` over the Boolean structure of the body: an
/// existential over `b1 || ... || bn`, and a universal over `b1 && ... &&
/// bn`, becomes the disjunction, or the conjunction, of the eliminations
/// from each branch; an existential over a conjunction whose members
/// without `x_v` form a guard `G` becomes `G && (exists x_v. rest)`, and a
/// universal over a disjunction likewise `G || (forall x_v. rest)`; a
/// universal over a disjunction all of whose members hold `x_v` becomes
/// `!(exists x_v. !b1 && ... && !bn)`; and a quantifier over a negation
/// becomes the negation of the other quantifier over its body. `None` when
/// none of these shapes is met.
pub fn eliminate_supported_boolean_branches(
    quantifier: Quantifier,
    variable: usize,
    formula: &Formula,
    stats: &mut EliminationStats,
    options: EliminationOptions,
) -> (r: Option<Result<Formula, QuantifierEvaluationError>>)
    requires
        formula_wf(*formula),
    ensures
        r is Some <==> boolean_rule_applies(formula@, quantifier, variable),
        r matches Some(Ok(g)) ==> formula_wf(g),
        r matches Some(Ok(g)) ==> (quantifier_free(body_of(formula@)) ==> quantifier_free(g@)),
        r matches Some(Ok(g)) ==> keeps_branches(formula@, quantifier, g@),
        r matches Some(Ok(g)) ==> (binds(formula@, variable) ==> free_within(g@, formula@)),
    decreases quantifier_count(formula@), branch_weight(formula@), negation_count(formula@), 1nat,
{
    let body = match formula {
        Formula::Quantified { body, .. } => body,
        _ => return None,
    };
    let ghost bv = body@;
    proof {
        let (q0, v0) = match *formula {
            Formula::Quantified { quantifier, variable, .. } => (quantifier, variable),
            _ => (quantifier, variable),
        };
        assert(formula@ == FormulaView::Quantified(q0, v0, Box::new(bv)));
        assert(formula_wf(**body));
    }
    match &**body {
        Formula::Or(branches) => {
            let ghost bs = views_of(branches@);
            proof {
                lemma_views_of(branches@);
                assert(bv == FormulaView::Or(bs));
                lemma_parent_counts(formula@, bs);
            }
            match quantifier {
                Quantifier::Exists => {
                    match eliminate_each_branch(formula, quantifier, variable, branches, stats, options) {
                        Ok(gs) => {
                            let g = Formula::Or(gs);
                            proof {
                                lemma_views_of(gs@);
                                assert forall|u: usize| #[trigger] free_in(g@, u) && binds(formula@, variable)
                                    implies free_in(formula@, u) by {
                                    assert(free_in_any(views_of(gs@), u));
                                    assert(free_in(bv, u));
                                }
                            }
                            Some(Ok(g))
                        },
                        Err(e) => Some(Err(e)),
                    }
                },
                Quantifier::Forall => {
                    let (independent, dependent) = partition_branches(branches, variable);
                    if independent.len() == 0 {
                        proof {
                            if bs.len() > 0 {
                                assert(!!free_in(bs[0], variable));
                            }
                            assert(boolean_rule_applies(formula@, quantifier, variable));
                        }
                        let negated = negate_branches(branches);
                        let ghost nv = views_of(negated@);
                        let conjunction = Formula::And(negated);
                        let ghost cv = conjunction@;
                        proof {
                            assert(cv == FormulaView::And(nv));
                            assert(formula_wf(conjunction));
                        }
                        let quantified = Formula::Quantified {
                            quantifier: Quantifier::Exists,
                            variable,
                            body: Box::new(conjunction),
                        };
                        proof {
                            assert(quantified@ == FormulaView::Quantified(
                                Quantifier::Exists,
                                variable,
                                Box::new(cv),
                            ));
                            assert(quantifier_count(cv) == quantifier_count_all(nv));
                            assert(branch_weight(cv) == 1 + branch_weight_all(nv));
                            assert(quantifier_count(quantified@) == 1 + quantifier_count(cv));
                            assert(branch_weight(quantified@) == 1 + branch_weight(cv));
                        }
                        match eliminate_recursive(&quantified, stats, options) {
                            Ok(g) => {
                                let r = Formula::Not(Box::new(g));
                                proof {
                                    assert forall|u: usize| #[trigger] free_in(r@, u) && binds(
                                        formula@,
                                        variable,
                                    ) implies free_in(formula@, u) by {
                                        assert(free_in(g@, u));
                                        assert(free_in(quantified@, u));
                                        assert(free_in(cv, u));
                                        assert(free_in_any(nv, u));
                                        assert(free_in(bv, u));
                                    }
                                }
                                Some(Ok(r))
                            },
                            Err(e) => Some(Err(e)),
                        }
                    } else if dependent.len() == 0 {
                        proof {
                            assert(!boolean_rule_applies(formula@, quantifier, variable));
                        }
                        None
                    } else {
                        proof {
                            assert(boolean_rule_applies(formula@, quantifier, variable));
                        }
                        let ghost dv = views_of(dependent@);
                        proof {
                            let s = views_of(independent@);
                            lemma_views_of(independent@);
                            lemma_member_counts(s, 0);
                            lemma_weight_positive(s[0]);
                        }
                        let disjunction = Formula::Or(dependent);
                        let ghost cv = disjunction@;
                        proof {
                            assert(cv == FormulaView::Or(dv));
                            assert(formula_wf(disjunction));
                        }
                        let quantified = Formula::Quantified {
                            quantifier: Quantifier::Forall,
                            variable,
                            body: Box::new(disjunction),
                        };
                        proof {
                            assert(quantified@ == FormulaView::Quantified(
                                Quantifier::Forall,
                                variable,
                                Box::new(cv),
                            ));
                            assert(quantifier_count(cv) == quantifier_count_all(dv));
                            assert(branch_weight(cv) == 2 + branch_weight_all(dv));
                            assert(quantifier_count(quantified@) == 1 + quantifier_count(cv));
                            assert(branch_weight(quantified@) == 1 + branch_weight(cv));
                        }
                        match eliminate_recursive(&quantified, stats, options) {
                            Ok(g) => {
                                let ghost iv = views_of(independent@);
                                let guard = Formula::Or(independent);
                                let ghost (gv, rv) = (guard@, g@);
                                let pair = pair_of(guard, g);
                                let ghost pv = views_of(pair@);
                                let r = Formula::Or(pair);
                                proof {
                                    assert(gv == FormulaView::Or(iv));
                                    assert(r@ == FormulaView::Or(pv));
                                    assert forall|u: usize| #[trigger] free_in(r@, u) && binds(
                                        formula@,
                                        variable,
                                    ) implies free_in(formula@, u) by {
                                        assert(free_in_any(pv, u));
                                        if free_in(gv, u) {
                                            assert(free_in_any(iv, u));
                                        } else {
                                            assert(free_in(rv, u));
                                            assert(free_in(quantified@, u));
                                            assert(free_in(cv, u));
                                            assert(free_in_any(dv, u));
                                        }
                                        assert(free_in(bv, u));
                                    }
                                }
                                Some(Ok(r))
                            },
                            Err(e) => Some(Err(e)),
                        }
                    }
                },
            }
        },
        Formula::And(branches) => {
            let ghost bs = views_of(branches@);
            proof {
                lemma_views_of(branches@);
                assert(bv == FormulaView::And(bs));
                lemma_parent_counts(formula@, bs);
            }
            match quantifier {
                Quantifier::Forall => {
                    match eliminate_each_branch(formula, quantifier, variable, branches, stats, options) {
                        Ok(gs) => {
                            let g = Formula::And(gs);
                            proof {
                                lemma_views_of(gs@);
                                assert forall|u: usize| #[trigger] free_in(g@, u) && binds(formula@, variable)
                                    implies free_in(formula@, u) by {
                                    assert(free_in_any(views_of(gs@), u));
                                    assert(free_in(bv, u));
                                }
                            }
                            Some(Ok(g))
                        },
                        Err(e) => Some(Err(e)),
                    }
                },
                Quantifier::Exists => {
                    let (independent, dependent) = partition_branches(branches, variable);
                    if independent.len() == 0 || dependent.len() == 0 {
                        proof {
                            assert(!boolean_rule_applies(formula@, quantifier, variable));
                        }
                        None
                    } else {
                        proof {
                            assert(boolean_rule_applies(formula@, quantifier, variable));
                        }
                        let ghost dv = views_of(dependent@);
                        proof {
                            let s = views_of(independent@);
                            lemma_views_of(independent@);
                            lemma_member_counts(s, 0);
                            lemma_weight_positive(s[0]);
                        }
                        let conjunction = Formula::And(dependent);
                        let ghost cv = conjunction@;
                        proof {
                            assert(cv == FormulaView::And(dv));
                            assert(formula_wf(conjunction));
                        }
                        let quantified = Formula::Quantified {
                            quantifier: Quantifier::Exists,
                            variable,
                            body: Box::new(conjunction),
                        };
                        proof {
                            assert(quantified@ == FormulaView::Quantified(
                                Quantifier::Exists,
                                variable,
                                Box::new(cv),
                            ));
                            assert(quantifier_count(cv) == quantifier_count_all(dv));
                            assert(branch_weight(cv) == 1 + branch_weight_all(dv));
                            assert(quantifier_count(quantified@) == 1 + quantifier_count(cv));
                            assert(branch_weight(quantified@) == 1 + branch_weight(cv));
                        }
                        match eliminate_recursive(&quantified, stats, options) {
                            Ok(g) => {
                                let ghost iv = views_of(independent@);
                                let guard = Formula::And(independent);
                                let ghost (gv, rv) = (guard@, g@);
                                let pair = pair_of(guard, g);
                                let ghost pv = views_of(pair@);
                                let r = Formula::And(pair);
                                proof {
                                    assert(gv == FormulaView::And(iv));
                                    assert(r@ == FormulaView::And(pv));
                                    assert forall|u: usize| #[trigger] free_in(r@, u) && binds(
                                        formula@,
                                        variable,
                                    ) implies free_in(formula@, u) by {
                                        assert(free_in_any(pv, u));
                                        if free_in(gv, u) {
                                            assert(free_in_any(iv, u));
                                        } else {
                                            assert(free_in(rv, u));
                                            assert(free_in(quantified@, u));
                                            assert(free_in(cv, u));
                                            assert(free_in_any(dv, u));
                                        }
                                        assert(free_in(bv, u));
                                    }
                                }
                                Some(Ok(r))
                            },
                            Err(e) => Some(Err(e)),
                        }
                    }
                },
            }
        },
        Formula::Not(inner) => {
            let other = match quantifier {
                Quantifier::Exists => Quantifier::Forall,
                Quantifier::Forall => Quantifier::Exists,
            };
            let copy = inner.duplicate();
            let ghost c = copy@;
            let quantified = Formula::Quantified { quantifier: other, variable, body: Box::new(copy) };
            proof {
                assert(bv == FormulaView::Not(Box::new(inner@)));
                assert(c == inner@);
                assert(quantified@ == FormulaView::Quantified(other, variable, Box::new(c)));
                assert(quantifier_count(bv) == quantifier_count(c));
                assert(branch_weight(bv) == branch_weight(c));
                assert(negation_count(bv) == 1 + negation_count(c));
                assert(quantifier_count(quantified@) == 1 + quantifier_count(c));
                assert(branch_weight(quantified@) == 1 + branch_weight(c));
                assert(negation_count(quantified@) == negation_count(c));
            }
            match eliminate_recursive(&quantified, stats, options) {
                Ok(g) => {
                    let r = Formula::Not(Box::new(g));
                    proof {
                        assert forall|u: usize| #[trigger] free_in(r@, u) && binds(formula@, variable)
                            implies free_in(formula@, u) by {
                            assert(free_in(g@, u));
                            assert(free_in(quantified@, u));
                            assert(free_in(c, u));
                            assert(free_in(bv, u));
                        }
                    }
                    Some(Ok(r))
                },
                Err(e) => Some(Err(e)),
            }
        },
        _ => None,
    }
}

/// The list of the two formulas.
fn pair_of(first: Formula, second: Formula) -> (v: Vec<Formula>)
    ensures
        views_of(v@) == seq![first@, second@],
        all_wf(v@) == (formula_wf(first) && formula_wf(second)),
        all_quantifier_free(views_of(v@)) == (quantifier_free(first@) && quantifier_free(second@)),
        forall|u: usize| #[trigger] free_in_any(views_of(v@), u) == (free_in(first@, u) || free_in(
            second@,
            u,
        )),
{
    let ghost (a, b) = (first, second);
    let mut v: Vec<Formula> = Vec::new();
    proof {
        assert(views_of(v@) =~= Seq::<FormulaView>::empty());
        lemma_views_push(v@, a);
        lemma_counts_push(views_of(v@), a@);
    }
    v.push(first);
    proof {
        lemma_views_push(v@, b);
        lemma_counts_push(views_of(v@), b@);
    }
    v.push(second);
    proof {
        assert(views_of(v@) =~= seq![a@, b@]);
        assert forall|u: usize| #[trigger] free_in_any(views_of(v@), u) == (free_in(a@, u) || free_in(
            b@,
            u,
        )) by {
            lemma_pair_free(a@, b@, u);
        }
    }
    v
}


/// Eliminates every quantifier of the formula under the given options and
/// reports the work done. A formula without quantifiers is returned as it
/// is; any other must be quantified at its root (else `WrongVariable`),
/// and its quantifiers go through `eliminate_recursive`, innermost first.
/// The symmetric sum-and-product rule that the options may enable is not
/// among the rules applied here.
pub fn eliminate_with_options(formula: &Formula, options: EliminationOptions) -> (r: Result<
    (Formula, EliminationStats),
    QuantifierEvaluationError,
>)
    requires
        formula_wf(*formula),
    ensures
        r matches Ok((g, _)) ==> formula_wf(g) && quantifier_free(g@),
        r matches Ok((g, _)) ==> forall|v: usize| free_in(g@, v) ==> free_in(formula@, v),
        quantifier_free(formula@) ==> (r matches Ok((g, _)) && g@ == formula@),
        !quantifier_free(formula@) && !(formula@ is Quantified) ==> r == Err::<
            (Formula, EliminationStats),
            QuantifierEvaluationError,
        >(QuantifierEvaluationError::WrongVariable),
{
    let mut stats = EliminationStats::default();
    if formula.is_quantifier_free() {
        return Ok((formula.duplicate(), stats));
    }
    match eliminate_recursive(formula, &mut stats, options) {
        Ok(g) => Ok((g, stats)),
        Err(e) => Err(e),
    }
}

/// `eliminate_with_options` under the default options.
pub fn eliminate_with_stats(formula: &Formula) -> (r: Result<
    (Formula, EliminationStats),
    QuantifierEvaluationError,
>)
    requires
        formula_wf(*formula),
    ensures
        r matches Ok((g, _)) ==> formula_wf(g) && quantifier_free(g@),
        r matches Ok((g, _)) ==> forall|v: usize| free_in(g@, v) ==> free_in(formula@, v),
        quantifier_free(formula@) ==> (r matches Ok((g, _)) && g@ == formula@),
        !quantifier_free(formula@) && !(formula@ is Quantified) ==> r == Err::<
            (Formula, EliminationStats),
            QuantifierEvaluationError,
        >(QuantifierEvaluationError::WrongVariable),
{
    eliminate_with_options(formula, EliminationOptions::default())
}

/// The quantifier-free formula that `eliminate_with_stats` gives, without
/// its report.
pub fn eliminate(formula: &Formula) -> (r: Result<Formula, QuantifierEvaluationError>)
    requires
        formula_wf(*formula),
    ensures
        r matches Ok(g) ==> formula_wf(g) && quantifier_free(g@),
        r matches Ok(g) ==> forall|v: usize| free_in(g@, v) ==> free_in(formula@, v),
        quantifier_free(formula@) ==> (r matches Ok(g) && g@ == formula@),
        !quantifier_free(formula@) && !(formula@ is Quantified) ==> r == Err::<
            Formula,
            QuantifierEvaluationError,
        >(QuantifierEvaluationError::WrongVariable),
{
    match eliminate_with_stats(formula) {
        Ok((g, _)) => Ok(g),
        Err(e) => Err(e),
    }
}

} // verus!
