//! Which variables the linear elimination rules leave free: every variable
//! free in a result is free in the quantified formula it came from.
use crate::formula::{atoms_wf, all_atoms_wf, free_in, free_in_any, FormulaView, Quantifier, Relation};
use crate::polynomial::{
    add_terms, coefficient_in_terms, degree_of, has_variable, mul_terms, negate_terms, TermView,
};
use crate::qe::evaluate::{
    bound_of, constant_in, exists_conjunction_result, exists_inequalities_result, free_literals,
    leading_in, linear_atom_result, literal_view, pair_condition, pair_conditions, pivot_from,
    quantified_conjuncts, side_bounds, substituted, BoundView,
};
use crate::variables::{
    lemma_add_terms_over, lemma_coefficient_in_over, lemma_mul_terms_over, lemma_negate_over,
    lemma_over_own_variables, lemma_over_subset, monomials_wf, terms_over, variables_of,
};
use vstd::prelude::*;

verus! {

/// Every variable free in `g` is free in `f`.
pub open spec fn free_within(g: FormulaView, f: FormulaView) -> bool {
    forall|u: usize| #[trigger] free_in(g, u) ==> free_in(f, u)
}

/// A variable is free in a list exactly when it is free in a member.
pub proof fn lemma_free_any(fs: Seq<FormulaView>, u: usize)
    ensures
        free_in_any(fs, u) <==> exists|i: int| 0 <= i < fs.len() && free_in(#[trigger] fs[i], u),
    decreases fs.len(),
{
    if fs.len() > 0 {
        lemma_free_any(fs.drop_last(), u);
        if free_in_any(fs.drop_last(), u) {
            let i = choose|i: int| 0 <= i < fs.drop_last().len() && free_in(#[trigger] fs.drop_last()[i], u);
            assert(fs[i] == fs.drop_last()[i]);
        }
        if exists|i: int| 0 <= i < fs.len() && free_in(#[trigger] fs[i], u) {
            let i = choose|i: int| 0 <= i < fs.len() && free_in(#[trigger] fs[i], u);
            if i < fs.len() - 1 {
                assert(fs.drop_last()[i] == fs[i]);
            }
        }
    }
}

/// A member's atoms are well formed when the list's are.
pub proof fn lemma_atoms_member(fs: Seq<FormulaView>, i: int)
    requires
        0 <= i < fs.len(),
        all_atoms_wf(fs),
    ensures
        atoms_wf(fs[i]),
    decreases fs.len(),
{
    if i < fs.len() - 1 {
        assert(fs.drop_last()[i] == fs[i]);
        lemma_atoms_member(fs.drop_last(), i);
    }
}

/// A variable of terms over a set belongs to it.
pub proof fn lemma_has_over(q: Seq<TermView>, vars: Set<usize>, u: usize)
    requires
        terms_over(q, vars),
        has_variable(q, u),
    ensures
        vars.contains(u),
{
    let (i, k) = choose|i: int, k: int| 0 <= i < q.len() && 0 <= k < q[i].0.len() && (#[trigger] q[i].0[k]).0 == u;
    assert(crate::variables::powers_over(q[i].0, vars));
}

/// Terms of degree zero in `v` do not mention it.
pub proof fn lemma_degree_zero_absent(p: Seq<TermView>, v: usize)
    requires
        monomials_wf(p),
        degree_of(p, v) == 0,
    ensures
        !has_variable(p, v),
{
    if has_variable(p, v) {
        let (i, k) = choose|i: int, k: int| 0 <= i < p.len() && 0 <= k < p[i].0.len() && (#[trigger] p[i].0[k]).0 == v;
        assert(crate::monomial::powers_wf(p[i].0));
        crate::monomial::lemma_exponent_at(p[i].0, k);
        crate::polynomial::lemma_degree_of(p, v, 0);
        assert(crate::monomial::exponent_of(p[i].0, v) <= degree_of(p, v));
    }
}

/// The polynomial of a literal, with its well-formedness and the variables
/// it makes free.
pub proof fn lemma_literal_free(b: FormulaView, u: usize)
    requires
        literal_view(b) is Some,
        atoms_wf(b),
    ensures
        monomials_wf((literal_view(b)->0).0),
        free_in(b, u) == has_variable((literal_view(b)->0).0, u),
{
    match b {
        FormulaView::Atom(p, r) => {
            assert(free_in(b, u) == has_variable(p, u));
        },
        FormulaView::Not(inner) => {
            assert(atoms_wf(*inner));
            assert(free_in(b, u) == free_in(*inner, u));
        },
        _ => {},
    }
}

/// Both members of a pair.
pub proof fn lemma_pair_free(a: FormulaView, b: FormulaView, u: usize)
    ensures
        free_in_any(seq![a, b], u) == (free_in(a, u) || free_in(b, u)),
{
    assert(seq![a, b].drop_last() =~= seq![a]);
    assert(seq![a].drop_last() =~= Seq::<FormulaView>::empty());
    assert(!free_in_any(Seq::<FormulaView>::empty(), u));
    assert(free_in_any(seq![a], u) == free_in(a, u));
    assert(free_in_any(seq![a, b], u) == (free_in_any(seq![a], u) || free_in(b, u)));
}

/// The variables of terms, as a set, are those they mention.
proof fn lemma_variables_of(p: Seq<TermView>, u: usize)
    ensures
        variables_of(p).contains(u) == has_variable(p, u),
{
}

/// The linear atom rule frees no new variable.
pub proof fn lemma_linear_atom_within(f: FormulaView, v: usize)
    requires
        linear_atom_result(f, v) is Some,
        atoms_wf(f),
        f matches FormulaView::Quantified(_, w, _) && w == v,
    ensures
        free_within(linear_atom_result(f, v)->0, f),
{
    if let FormulaView::Quantified(q, _, b) = f {
        let (p, r) = literal_view(*b)->0;
        let g = linear_atom_result(f, v)->0;
        let vars = variables_of(p);
        lemma_literal_free(*b, 0);
        lemma_over_own_variables(p);
        lemma_coefficient_in_over(p, v, 1, vars);
        lemma_coefficient_in_over(p, v, 0, vars);
        let a = leading_in(p, v);
        let c = constant_in(p, v);
        let zero = FormulaView::Atom(a, Relation::Equal);
        let nonzero = FormulaView::Atom(a, Relation::NotEqual);
        assert forall|u: usize| #[trigger] free_in(g, u) implies free_in(f, u) by {
            lemma_literal_free(*b, u);
            lemma_pair_free(zero, FormulaView::Atom(c, Relation::Equal), u);
            lemma_pair_free(
                FormulaView::And(seq![zero, FormulaView::Atom(c, Relation::Equal)]),
                nonzero,
                u,
            );
            lemma_pair_free(nonzero, FormulaView::Atom(c, r), u);
            lemma_pair_free(zero, FormulaView::Atom(c, r), u);
            assert(has_variable(a, u) || has_variable(c, u));
            if has_variable(a, u) {
                lemma_has_over(a, vars.remove(v), u);
            } else {
                lemma_has_over(c, vars.remove(v), u);
            }
            lemma_variables_of(p, u);
        }
    }
}

/// The set of variables free in `q x_v. (b1 && ... && bn)`, with `x_v`.
pub open spec fn scope_with(bs: Seq<FormulaView>, v: usize) -> Set<usize> {
    Set::new(|u: usize| u == v || free_in_any(bs, u))
}

/// Every literal's polynomial lies within the scope.
proof fn lemma_literal_in_scope(bs: Seq<FormulaView>, v: usize, i: int)
    requires
        0 <= i < bs.len(),
        all_atoms_wf(bs),
        literal_view(bs[i]) is Some,
    ensures
        monomials_wf((literal_view(bs[i])->0).0),
        terms_over((literal_view(bs[i])->0).0, scope_with(bs, v)),
{
    let p = (literal_view(bs[i])->0).0;
    lemma_atoms_member(bs, i);
    lemma_literal_free(bs[i], 0);
    lemma_over_own_variables(p);
    assert forall|u: usize| variables_of(p).contains(u) implies scope_with(bs, v).contains(u) by {
        lemma_literal_free(bs[i], u);
        lemma_free_any(bs, u);
    }
    lemma_over_subset(p, variables_of(p), scope_with(bs, v));
}

/// A variable of terms over the scope other than `x_v` is free in the
/// quantified conjunction.
proof fn lemma_scope_free(bs: Seq<FormulaView>, v: usize, q: Seq<TermView>, u: usize)
    requires
        terms_over(q, scope_with(bs, v).remove(v)),
        has_variable(q, u),
    ensures
        u != v,
        free_in_any(bs, u),
{
    lemma_has_over(q, scope_with(bs, v).remove(v), u);
}

/// The substitution rule frees no new variable.
pub proof fn lemma_exists_conjunction_within(f: FormulaView, v: usize)
    requires
        exists_conjunction_result(f, v) is Some,
        atoms_wf(f),
        f matches FormulaView::Quantified(_, w, _) && w == v,
    ensures
        free_within(exists_conjunction_result(f, v)->0, f),
{
    let bs = quantified_conjuncts(f, Quantifier::Exists)->0;
    let e = pivot_from(bs, v, 0)->0;
    assert(0 <= e < bs.len()) by {
        crate::qe::evaluate::lemma_pivot_from(bs, v, 0);
    }
    let p = (literal_view(bs[e])->0).0;
    let a = leading_in(p, v);
    let c = constant_in(p, v);
    let s = scope_with(bs, v);
    let gs = bs.map_values(|b: FormulaView| substituted(b, a, c, v));
    let body = FormulaView::And(bs);
    assert(f == FormulaView::Quantified(Quantifier::Exists, v, Box::new(body)));
    assert(atoms_wf(body));
    assert(all_atoms_wf(bs));
    assert(literal_view(bs[e]) is Some);
    lemma_literal_in_scope(bs, v, e);
    lemma_coefficient_in_over(p, v, 1, s);
    lemma_coefficient_in_over(p, v, 0, s);
    assert forall|u: usize| #[trigger] free_in(FormulaView::And(gs), u) implies free_in(f, u) by {
        lemma_free_any(gs, u);
        let i = choose|i: int| 0 <= i < gs.len() && free_in(#[trigger] gs[i], u);
        assert(gs[i] == substituted(bs[i], a, c, v));
        assert(literal_view(bs[i]) is Some);
        let (pi, ri) = literal_view(bs[i])->0;
        lemma_literal_in_scope(bs, v, i);
        lemma_atoms_member(bs, i);
        lemma_literal_free(bs[i], u);
        if degree_of(pi, v) == 0 {
            lemma_degree_zero_absent(pi, v);
            lemma_free_any(bs, u);
        } else {
            lemma_coefficient_in_over(pi, v, 1, s);
            lemma_coefficient_in_over(pi, v, 0, s);
            let t1 = mul_terms(a, constant_in(pi, v));
            let t2 = mul_terms(leading_in(pi, v), c);
            lemma_mul_terms_over(a, constant_in(pi, v), s.remove(v));
            lemma_mul_terms_over(leading_in(pi, v), c, s.remove(v));
            lemma_negate_over(t2, s.remove(v));
            lemma_add_terms_over(t1, negate_terms(t2), s.remove(v));
            lemma_scope_free(bs, v, add_terms(t1, negate_terms(t2)), u);
        }
        assert(u != v && free_in_any(bs, u));
        assert(free_in(body, u));
    }
}

/// The literals free of `x_v` free nothing that the branches do not, and
/// not `x_v`.
proof fn lemma_free_literals_within(bs: Seq<FormulaView>, v: usize, u: usize)
    requires
        all_atoms_wf(bs),
        forall|i: int| 0 <= i < bs.len() ==> (#[trigger] literal_view(bs[i])) is Some,
    ensures
        free_in_any(free_literals(bs, v), u) ==> u != v && free_in_any(bs, u),
    decreases bs.len(),
{
    if bs.len() > 0 {
        let b0 = bs.drop_last();
        assert forall|i: int| 0 <= i < b0.len() implies (#[trigger] literal_view(b0[i])) is Some by {
            assert(b0[i] == bs[i]);
        }
        lemma_free_literals_within(b0, v, u);
        let n = bs.len() - 1;
        assert(bs.last() == bs[n]);
        assert(literal_view(bs[n]) is Some);
        let (p, r) = literal_view(bs.last())->0;
        let prev = free_literals(b0, v);
        lemma_atoms_member(bs, n);
        lemma_literal_free(bs.last(), u);
        lemma_free_any(bs, u);
        lemma_free_any(b0, u);
        if free_in_any(b0, u) {
            let k = choose|k: int| 0 <= k < b0.len() && free_in(#[trigger] b0[k], u);
            assert(b0[k] == bs[k]);
        }
        if degree_of(p, v) == 0 {
            let pushed = prev.push(FormulaView::Atom(p, r));
            lemma_free_any(pushed, u);
            lemma_free_any(prev, u);
            if free_in_any(pushed, u) {
                let k = choose|k: int| 0 <= k < pushed.len() && free_in(#[trigger] pushed[k], u);
                if k < prev.len() {
                    assert(pushed[k] == prev[k]);
                } else {
                    lemma_degree_zero_absent(p, v);
                }
            }
        }
    }
}

/// Both polynomials of every bound lie within the scope without `x_v`.
proof fn lemma_side_bounds_over(bs: Seq<FormulaView>, v: usize, lower: bool, s: Set<usize>)
    requires
        forall|i: int| 0 <= i < bs.len() ==> (#[trigger] literal_view(bs[i])) is Some && monomials_wf(
            (literal_view(bs[i])->0).0,
        ) && terms_over((literal_view(bs[i])->0).0, s),
    ensures
        forall|k: int|
            0 <= k < side_bounds(bs, v, lower).len() ==> terms_over(
                (#[trigger] side_bounds(bs, v, lower)[k]).1,
                s.remove(v),
            ) && terms_over(side_bounds(bs, v, lower)[k].2, s.remove(v)),
    decreases bs.len(),
{
    if bs.len() > 0 {
        let b0 = bs.drop_last();
        assert forall|i: int| 0 <= i < b0.len() implies (#[trigger] literal_view(b0[i])) is Some
            && monomials_wf((literal_view(b0[i])->0).0) && terms_over((literal_view(b0[i])->0).0, s) by {
            assert(b0[i] == bs[i]);
        }
        lemma_side_bounds_over(b0, v, lower, s);
        let n = bs.len() - 1;
        assert(bs.last() == bs[n]);
        let (p, r) = literal_view(bs.last())->0;
        assert(literal_view(bs[n]) is Some && monomials_wf(p) && terms_over(p, s));
        lemma_coefficient_in_over(p, v, 1, s);
        lemma_coefficient_in_over(p, v, 0, s);
        lemma_negate_over(leading_in(p, v), s.remove(v));
        lemma_negate_over(constant_in(p, v), s.remove(v));
        let prev = side_bounds(b0, v, lower);
        let bound = bound_of(p, r, v);
        assert(terms_over(bound.1, s.remove(v)) && terms_over(bound.2, s.remove(v)));
        assert forall|k: int| 0 <= k < side_bounds(bs, v, lower).len() implies terms_over(
            (#[trigger] side_bounds(bs, v, lower)[k]).1,
            s.remove(v),
        ) && terms_over(side_bounds(bs, v, lower)[k].2, s.remove(v)) by {
            if k < prev.len() {
                assert(side_bounds(bs, v, lower)[k] == prev[k]);
            }
        }
    }
}

/// An atom whose polynomial lies over the set.
pub open spec fn atom_over(f: FormulaView, s: Set<usize>) -> bool {
    f matches FormulaView::Atom(q, _) && terms_over(q, s)
}

/// Every pair condition is an atom over the set.
proof fn lemma_pair_conditions_over(ls: Seq<BoundView>, us: Seq<BoundView>, s: Set<usize>)
    requires
        forall|k: int| 0 <= k < ls.len() ==> terms_over((#[trigger] ls[k]).1, s) && terms_over(ls[k].2, s),
        forall|k: int| 0 <= k < us.len() ==> terms_over((#[trigger] us[k]).1, s) && terms_over(us[k].2, s),
    ensures
        forall|i: int|
            0 <= i < pair_conditions(ls, us).len() ==> atom_over(
                #[trigger] pair_conditions(ls, us)[i],
                s,
            ),
    decreases ls.len(),
{
    if ls.len() > 0 {
        let l0 = ls.drop_last();
        assert forall|k: int| 0 <= k < l0.len() implies terms_over((#[trigger] l0[k]).1, s) && terms_over(
            l0[k].2,
            s,
        ) by {
            assert(l0[k] == ls[k]);
        }
        lemma_pair_conditions_over(l0, us, s);
        let l = ls.last();
        assert(ls[ls.len() - 1] == l);
        let prev = pair_conditions(l0, us);
        let more = us.map_values(|u: BoundView| pair_condition(l, u));
        assert forall|i: int| 0 <= i < (prev + more).len() implies atom_over(#[trigger] (prev + more)[i], s) by {
            if i >= prev.len() {
                let u = us[i - prev.len()];
                assert((prev + more)[i] == pair_condition(l, u));
                lemma_mul_terms_over(u.1, l.2, s);
                lemma_mul_terms_over(l.1, u.2, s);
                lemma_negate_over(mul_terms(l.1, u.2), s);
                lemma_add_terms_over(mul_terms(u.1, l.2), negate_terms(mul_terms(l.1, u.2)), s);
            } else {
                assert((prev + more)[i] == prev[i]);
            }
        }
        assert(pair_conditions(ls, us) == prev + more);
    }
}

/// The inequality rule frees no new variable.
pub proof fn lemma_exists_inequalities_within(f: FormulaView, v: usize)
    requires
        exists_inequalities_result(f, v) is Some,
        atoms_wf(f),
        f matches FormulaView::Quantified(_, w, _) && w == v,
    ensures
        free_within(exists_inequalities_result(f, v)->0, f),
{
    let bs = quantified_conjuncts(f, Quantifier::Exists)->0;
    let s = scope_with(bs, v);
    let body = FormulaView::And(bs);
    assert(f == FormulaView::Quantified(Quantifier::Exists, v, Box::new(body)));
    assert(atoms_wf(body));
    assert(all_atoms_wf(bs));
    assert forall|i: int| 0 <= i < bs.len() implies (#[trigger] literal_view(bs[i])) is Some && monomials_wf(
        (literal_view(bs[i])->0).0,
    ) && terms_over((literal_view(bs[i])->0).0, s) by {
        assert(crate::qe::evaluate::inequality_branch(bs[i], v));
        lemma_literal_in_scope(bs, v, i);
    }
    let ls = side_bounds(bs, v, true);
    let us = side_bounds(bs, v, false);
    lemma_side_bounds_over(bs, v, true, s);
    lemma_side_bounds_over(bs, v, false, s);
    lemma_pair_conditions_over(ls, us, s.remove(v));
    let fl = free_literals(bs, v);
    let pc = pair_conditions(ls, us);
    assert forall|u: usize| #[trigger] free_in(FormulaView::And(fl + pc), u) implies free_in(f, u) by {
        lemma_free_any(fl + pc, u);
        let i = choose|i: int| 0 <= i < (fl + pc).len() && free_in(#[trigger] (fl + pc)[i], u);
        lemma_free_literals_within(bs, v, u);
        if i < fl.len() {
            assert((fl + pc)[i] == fl[i]);
            lemma_free_any(fl, u);
        } else {
            assert((fl + pc)[i] == pc[i - fl.len()]);
            let q = (pc[i - fl.len()])->Atom_0;
            lemma_scope_free(bs, v, q, u);
        }
        assert(u != v && free_in_any(bs, u));
        assert(free_in(body, u));
    }
}

} // verus!
