//! The elimination of linear inequalities is exact: at every point that
//! assigns the other free variables, the formula it gives is true exactly
//! when some value of the eliminated variable satisfies every branch.
use crate::evaluation::{coefficients_reduced, values_positive};
use crate::formula::{eval_and, eval_view, free_in_any, relation_holds, FormulaView, Quantifier, Relation};
use crate::polynomial::{
    add_terms, degree_of, evaluate_terms, has_variable, mul_terms, negate_terms, rat_reduced,
    terms_canonical, TermView,
};
use crate::qe::evaluate::{
    assigned, bound_of, constant_in, constant_value, exists_exact_at, exists_inequalities_result,
    free_literals, inequality_branch, is_constant, leading_in, lemma_constant_monomials,
    lemma_constant_value_nonzero, lemma_eval_and_some, lemma_free_in_member, lemma_literal_eval,
    lemma_scaled_relation, lemma_terms_local, literal_view, literals_canonical, pair_condition,
    pair_conditions, quantified_conjuncts, side_bounds, BoundView,
};
use crate::rational::{rat_add, rat_mul, rat_neg, rat_sub, rat_zero};
use crate::variables::{
    lemma_add_terms_over, lemma_coefficient_in_over, lemma_mul_terms_over, lemma_negate_over,
    lemma_over_own_variables, lemma_over_subset, terms_over, variables_of,
};
use vstd::prelude::*;

verus! {

/// The relation a bound puts `constant + coefficient * x_v` in with zero:
/// above it for a lower bound, below it for an upper one, strictly or not.
pub open spec fn bound_relation(b: BoundView) -> Relation {
    if b.0 {
        if b.3 {
            Relation::Greater
        } else {
            Relation::GreaterOrEqual
        }
    } else {
        if b.3 {
            Relation::Less
        } else {
            Relation::LessOrEqual
        }
    }
}

/// `constant + coefficient * x` at the point.
pub open spec fn bound_value(b: BoundView, values: Map<usize, (int, nat)>, x: (int, nat)) -> (int, nat) {
    rat_add(evaluate_terms(b.2, values), rat_mul(evaluate_terms(b.1, values), x))
}

/// The value `x` of the variable meets the bound at the point.
pub open spec fn bound_met(b: BoundView, values: Map<usize, (int, nat)>, x: (int, nat)) -> bool {
    relation_holds(bound_relation(b), bound_value(b, values, x))
}

/// A bound whose polynomials are canonical and read only assigned
/// variables, with a positive constant coefficient.
pub open spec fn bound_ready(b: BoundView, values: Map<usize, (int, nat)>) -> bool {
    &&& terms_canonical(b.1)
    &&& terms_canonical(b.2)
    &&& is_constant(b.1)
    &&& evaluate_terms(b.1, values).0 > 0
    &&& terms_over(b.1, assigned(values))
    &&& terms_over(b.2, assigned(values))
}

/// Sums and products of fractions with positive denominators are in lowest
/// terms, and so are negations of fractions in lowest terms.
proof fn lemma_reduced(a: (int, nat), b: (int, nat))
    requires
        a.1 > 0,
        b.1 > 0,
    ensures
        rat_reduced(rat_add(a, b)),
        rat_reduced(rat_mul(a, b)),
        rat_reduced(a) ==> rat_reduced(rat_neg(a)),
{
    crate::field::lemma_add_value(a, b);
    crate::field::lemma_mul_value(a, b);
    assert(crate::rational::abs(-a.0) == crate::rational::abs(a.0));
}

/// `(a + t) - (b + t) == a - b`.
proof fn lemma_cancel_common(a: (int, nat), b: (int, nat), t: (int, nat))
    requires
        rat_reduced(a),
        rat_reduced(b),
        rat_reduced(t),
    ensures
        rat_sub(rat_add(a, t), rat_add(b, t)) == rat_sub(a, b),
{
    let (nb, nt) = (rat_neg(b), rat_neg(t));
    lemma_reduced(b, t);
    lemma_reduced(t, b);
    lemma_reduced(nb, nt);
    lemma_reduced(nt, nb);
    lemma_reduced(a, nb);
    lemma_reduced(t, rat_add(nt, nb));
    crate::field::lemma_sub_as_add(rat_add(a, t), rat_add(b, t));
    crate::field::lemma_neg_add(b, t);
    crate::polynomial::lemma_rat_add_commutes(nb, nt);
    crate::field::lemma_add_associative(a, t, rat_add(nt, nb));
    crate::field::lemma_add_associative(t, nt, nb);
    crate::field::lemma_add_neg_cancel(t);
    crate::polynomial::lemma_add_zero_left(nb);
    crate::field::lemma_sub_as_add(a, b);
}

/// From `kl + cl * x` above zero and `ku + cu * x` below it, with positive
/// `cl` and `cu`: `cu * kl - cl * ku` is above zero, strictly unless both
/// bounds are weak.
pub proof fn lemma_pair_sign(
    cl: (int, nat),
    kl: (int, nat),
    cu: (int, nat),
    ku: (int, nat),
    x: (int, nat),
    strict_lower: bool,
    strict_upper: bool,
)
    requires
        rat_reduced(cl),
        rat_reduced(kl),
        rat_reduced(cu),
        rat_reduced(ku),
        rat_reduced(x),
        cl.0 > 0,
        cu.0 > 0,
        relation_holds(
            if strict_lower {
                Relation::Greater
            } else {
                Relation::GreaterOrEqual
            },
            rat_add(kl, rat_mul(cl, x)),
        ),
        relation_holds(
            if strict_upper {
                Relation::Less
            } else {
                Relation::LessOrEqual
            },
            rat_add(ku, rat_mul(cu, x)),
        ),
    ensures
        relation_holds(
            if strict_lower || strict_upper {
                Relation::Greater
            } else {
                Relation::GreaterOrEqual
            },
            rat_sub(rat_mul(cu, kl), rat_mul(cl, ku)),
        ),
{
    let clx = rat_mul(cl, x);
    let cux = rat_mul(cu, x);
    lemma_reduced(cl, x);
    lemma_reduced(cu, x);
    let a = rat_add(kl, clx);
    let b = rat_add(ku, cux);
    lemma_reduced(kl, clx);
    lemma_reduced(ku, cux);
    let rl = if strict_lower {
        Relation::Greater
    } else {
        Relation::GreaterOrEqual
    };
    let ru = if strict_upper {
        Relation::Less
    } else {
        Relation::LessOrEqual
    };
    let p = rat_mul(cu, a);
    let n = rat_mul(cl, b);
    lemma_scaled_relation(rl, cu, a);
    lemma_scaled_relation(ru, cl, b);
    lemma_reduced(cu, a);
    lemma_reduced(cl, b);
    // p == cu * kl + t and n == cl * ku + t with t == cu * (cl * x)
    crate::field::lemma_distributive(kl, clx, cu);
    crate::field::lemma_mul_commutative(rat_add(kl, clx), cu);
    crate::field::lemma_mul_commutative(kl, cu);
    crate::field::lemma_mul_commutative(clx, cu);
    crate::field::lemma_distributive(ku, cux, cl);
    crate::field::lemma_mul_commutative(rat_add(ku, cux), cl);
    crate::field::lemma_mul_commutative(ku, cl);
    crate::field::lemma_mul_commutative(cux, cl);
    crate::field::lemma_mul_associative(cu, cl, x);
    crate::field::lemma_mul_associative(cl, cu, x);
    crate::field::lemma_mul_commutative(cu, cl);
    let t = rat_mul(cu, clx);
    lemma_reduced(cu, clx);
    lemma_reduced(cu, kl);
    lemma_reduced(cl, ku);
    assert(p == rat_add(rat_mul(cu, kl), t));
    assert(n == rat_add(rat_mul(cl, ku), t));
    lemma_cancel_common(rat_mul(cu, kl), rat_mul(cl, ku), t);
    let d = rat_sub(p, n);
    assert(d == rat_sub(rat_mul(cu, kl), rat_mul(cl, ku)));
    crate::rational::lemma_sub_sign(p, n);
    let (p0, p1, n0, n1) = (p.0, p.1 as int, n.0, n.1 as int);
    if strict_lower || strict_upper {
        assert(n0 * p1 < p0 * n1) by (nonlinear_arith)
            requires
                p1 > 0,
                n1 > 0,
                p0 >= 0,
                n0 <= 0,
                p0 > 0 || n0 < 0,
        ;
    } else {
        assert(!(p0 * n1 < n0 * p1)) by (nonlinear_arith)
            requires
                p1 > 0,
                n1 > 0,
                p0 >= 0,
                n0 <= 0,
        ;
    }
}


/// Negation keeps terms canonical, keeps their monomials, and negates the
/// value.
proof fn lemma_negated_terms(a: Seq<TermView>, values: Map<usize, (int, nat)>)
    requires
        terms_canonical(a),
        values_positive(values),
    ensures
        terms_canonical(negate_terms(a)),
        evaluate_terms(negate_terms(a), values) == rat_neg(evaluate_terms(a, values)),
        forall|u: usize| has_variable(negate_terms(a), u) ==> has_variable(a, u),
        negate_terms(a).len() == a.len(),
{
    let n = negate_terms(a);
    assert(terms_canonical(n)) by {
        assert forall|i: int| 0 <= i < n.len() implies {
            &&& crate::monomial::powers_wf((#[trigger] n[i]).0)
            &&& rat_reduced(n[i].1)
            &&& n[i].1.0 != 0
        } by {
            assert(crate::rational::abs(-a[i].1.0) == crate::rational::abs(a[i].1.0));
        }
    }
    assert(coefficients_reduced(a));
    crate::evaluation::law_evaluate_negate(a, values);
    assert forall|u: usize| has_variable(n, u) implies has_variable(a, u) by {
        let (i, k) = choose|i: int, k: int| 0 <= i < n.len() && 0 <= k < n[i].0.len() && (#[trigger] n[i].0[k]).0 == u;
        assert(a[i].0[k].0 == u);
    }
}

/// A branch of degree one in `x_v` gives a bound that is ready at the
/// point, and the branch holds with `x` for `x_v` exactly when `x` meets
/// the bound.
pub proof fn lemma_branch_bound(b: FormulaView, v: usize, values: Map<usize, (int, nat)>, x: (int, nat))
    requires
        inequality_branch(b, v),
        degree_of((literal_view(b)->0).0, v) == 1,
        terms_canonical((literal_view(b)->0).0),
        values_positive(values),
        rat_reduced(x),
        forall|u: usize| has_variable((literal_view(b)->0).0, u) && u != v ==> values.contains_key(u),
    ensures
        bound_ready(bound_of((literal_view(b)->0).0, (literal_view(b)->0).1, v), values),
        eval_view(b, values.insert(v, x)) == Some(
            bound_met(bound_of((literal_view(b)->0).0, (literal_view(b)->0).1, v), values, x),
        ),
{
    let (p, r) = literal_view(b)->0;
    let w = values.insert(v, x);
    let c = leading_in(p, v);
    let k = constant_in(p, v);
    lemma_literal_eval(b, w);
    crate::evaluation::lemma_coefficient_in_canonical(p, v, 1);
    crate::evaluation::lemma_coefficient_in_canonical(p, v, 0);
    crate::evaluation::lemma_linear_in_variable(p, v, values, x);
    let cv = evaluate_terms(c, values);
    let kv = evaluate_terms(k, values);
    let y = rat_add(kv, rat_mul(cv, x));
    assert(evaluate_terms(p, w) == y);
    lemma_constant_value_nonzero(c, values);
    lemma_constant_value_nonzero(c, Map::empty());
    assert(cv == constant_value(c));
    crate::evaluation::lemma_eval_reduced(c, values);
    crate::evaluation::lemma_eval_reduced(k, values);
    // the coefficients read only assigned variables
    let vars = variables_of(p);
    lemma_over_own_variables(p);
    lemma_coefficient_in_over(p, v, 1, vars);
    lemma_coefficient_in_over(p, v, 0, vars);
    assert(vars.remove(v).subset_of(assigned(values))) by {
        assert forall|u: usize| vars.remove(v).contains(u) implies assigned(values).contains(u) by {
            assert(has_variable(p, u));
        }
    }
    lemma_over_subset(c, vars.remove(v), assigned(values));
    lemma_over_subset(k, vars.remove(v), assigned(values));
    let bd = bound_of(p, r, v);
    if cv.0 > 0 {
        assert(bd == (bd.0, c, k, bd.3));
        assert(bound_relation(bd) == r);
    } else {
        lemma_negated_terms(c, values);
        lemma_negated_terms(k, values);
        lemma_negate_over(c, assigned(values));
        lemma_negate_over(k, assigned(values));
        assert(bd == (bd.0, negate_terms(c), negate_terms(k), bd.3));
        assert forall|u: usize| !#[trigger] has_variable(negate_terms(c), u) by {
            if has_variable(negate_terms(c), u) {
                assert(has_variable(c, u));
            }
        }
        assert(is_constant(negate_terms(c)));
        crate::field::lemma_mul_value(cv, x);
        crate::field::lemma_neg_mul(cv, x);
        crate::field::lemma_neg_add(kv, rat_mul(cv, x));
        assert(bound_value(bd, values, x) == rat_neg(y));
    }
}


/// A lower bound and an upper bound that one value meets leave a true
/// condition.
pub proof fn lemma_pair_true(l: BoundView, u: BoundView, values: Map<usize, (int, nat)>, x: (int, nat))
    requires
        bound_ready(l, values),
        bound_ready(u, values),
        l.0,
        !u.0,
        bound_met(l, values, x),
        bound_met(u, values, x),
        values_positive(values),
        rat_reduced(x),
    ensures
        eval_view(pair_condition(l, u), values) == Some(true),
{
    lemma_constant_monomials(u.1);
    lemma_constant_monomials(l.1);
    crate::evaluation::lemma_eval_mul(u.1, l.2, values);
    crate::evaluation::lemma_eval_mul(l.1, u.2, values);
    let a = mul_terms(u.1, l.2);
    let b = mul_terms(l.1, u.2);
    crate::evaluation::law_evaluate_sub(a, b, values);
    let poly = add_terms(a, negate_terms(b));
    let vs = assigned(values);
    lemma_mul_terms_over(u.1, l.2, vs);
    lemma_mul_terms_over(l.1, u.2, vs);
    lemma_negate_over(b, vs);
    lemma_add_terms_over(a, negate_terms(b), vs);
    assert forall|z: usize| has_variable(poly, z) implies values.contains_key(z) by {
        crate::qe::scope::lemma_has_over(poly, vs, z);
    }
    let (cl, kl, cu, ku) = (
        evaluate_terms(l.1, values),
        evaluate_terms(l.2, values),
        evaluate_terms(u.1, values),
        evaluate_terms(u.2, values),
    );
    crate::evaluation::lemma_eval_reduced(l.1, values);
    crate::evaluation::lemma_eval_reduced(l.2, values);
    crate::evaluation::lemma_eval_reduced(u.1, values);
    crate::evaluation::lemma_eval_reduced(u.2, values);
    lemma_pair_sign(cl, kl, cu, ku, x, l.3, u.3);
}


/// Where a literal free of `x_v` in the result comes from.
proof fn lemma_free_literal_source(bs: Seq<FormulaView>, v: usize, k: int) -> (i: int)
    requires
        0 <= k < free_literals(bs, v).len(),
    ensures
        0 <= i < bs.len(),
        degree_of((literal_view(bs[i])->0).0, v) == 0,
        free_literals(bs, v)[k] == FormulaView::Atom(
            (literal_view(bs[i])->0).0,
            (literal_view(bs[i])->0).1,
        ),
    decreases bs.len(),
{
    let b0 = bs.drop_last();
    let prev = free_literals(b0, v);
    if k < prev.len() {
        assert(free_literals(bs, v)[k] == prev[k]);
        let i = lemma_free_literal_source(b0, v, k);
        assert(b0[i] == bs[i]);
        i
    } else {
        assert(bs.last() == bs[bs.len() - 1]);
        bs.len() - 1
    }
}

/// Where a bound of one side comes from.
proof fn lemma_bound_source(bs: Seq<FormulaView>, v: usize, lower: bool, k: int) -> (i: int)
    requires
        0 <= k < side_bounds(bs, v, lower).len(),
    ensures
        0 <= i < bs.len(),
        degree_of((literal_view(bs[i])->0).0, v) == 1,
        side_bounds(bs, v, lower)[k] == bound_of(
            (literal_view(bs[i])->0).0,
            (literal_view(bs[i])->0).1,
            v,
        ),
        side_bounds(bs, v, lower)[k].0 == lower,
    decreases bs.len(),
{
    let b0 = bs.drop_last();
    let prev = side_bounds(b0, v, lower);
    if k < prev.len() {
        assert(side_bounds(bs, v, lower)[k] == prev[k]);
        let i = lemma_bound_source(b0, v, lower, k);
        assert(b0[i] == bs[i]);
        i
    } else {
        assert(bs.last() == bs[bs.len() - 1]);
        bs.len() - 1
    }
}

/// Which lower and upper bound a pair condition joins.
proof fn lemma_pair_source(ls: Seq<BoundView>, us: Seq<BoundView>, m: int) -> (ab: (int, int))
    requires
        0 <= m < pair_conditions(ls, us).len(),
    ensures
        0 <= ab.0 < ls.len(),
        0 <= ab.1 < us.len(),
        pair_conditions(ls, us)[m] == pair_condition(ls[ab.0], us[ab.1]),
    decreases ls.len(),
{
    let l0 = ls.drop_last();
    let prev = pair_conditions(l0, us);
    let more = us.map_values(|u: BoundView| pair_condition(ls.last(), u));
    assert(pair_conditions(ls, us) == prev + more);
    if m < prev.len() {
        assert((prev + more)[m] == prev[m]);
        let ab = lemma_pair_source(l0, us, m);
        assert(l0[ab.0] == ls[ab.0]);
        ab
    } else {
        assert((prev + more)[m] == more[m - prev.len()]);
        assert(ls.last() == ls[ls.len() - 1]);
        (ls.len() - 1, m - prev.len())
    }
}

/// The polynomial of every branch reads only assigned variables besides
/// `x_v`.
proof fn lemma_branches_assigned(bs: Seq<FormulaView>, v: usize, values: Map<usize, (int, nat)>)
    requires
        forall|i: int| 0 <= i < bs.len() ==> #[trigger] inequality_branch(bs[i], v),
        literals_canonical(bs),
        forall|u: usize| u != v && free_in_any(bs, u) ==> values.contains_key(u),
    ensures
        forall|i: int|
            0 <= i < bs.len() ==> forall|u: usize|
                has_variable(#[trigger] (literal_view(bs[i])->0).0, u) && u != v ==> values.contains_key(u),
{
    assert forall|i: int| 0 <= i < bs.len() implies forall|u: usize|
        has_variable(#[trigger] (literal_view(bs[i])->0).0, u) && u != v ==> values.contains_key(u) by {
        assert(inequality_branch(bs[i], v));
        assert(literal_view(bs[i]) matches Some((p, _)) && terms_canonical(p));
        let p = (literal_view(bs[i])->0).0;
        assert(crate::variables::monomials_wf(p)) by {
            assert forall|j: int| 0 <= j < p.len() implies crate::monomial::powers_wf((#[trigger] p[j]).0) by {}
        }
        match bs[i] {
            FormulaView::Not(inner) => {
                assert(crate::formula::atoms_wf(*inner));
            },
            _ => {},
        }
        assert(crate::formula::atoms_wf(bs[i]));
        assert forall|u: usize| has_variable((literal_view(bs[i])->0).0, u) && u != v implies values.contains_key(
            u,
        ) by {
            crate::qe::scope::lemma_literal_free(bs[i], u);
            lemma_free_in_member(bs, i, u);
        }
    }
}

/// The elimination of linear inequalities is sound: at a point that
/// assigns every other free variable, if some rational `x` for `x_v`
/// satisfies every branch of `exists x_v. (b1 && ... && bn)`, the formula
/// the rule gives is true there. In particular two weak bounds that meet,
/// `l <= x_v` and `x_v <= l`, leave a true condition.
pub proof fn law_exists_inequalities_sound(
    f: FormulaView,
    v: usize,
    values: Map<usize, (int, nat)>,
    x: (int, nat),
)
    requires
        exists_inequalities_result(f, v) is Some,
        literals_canonical(quantified_conjuncts(f, Quantifier::Exists)->0),
        values_positive(values),
        rat_reduced(x),
        forall|u: usize|
            u != v && free_in_any(quantified_conjuncts(f, Quantifier::Exists)->0, u) ==> values.contains_key(u),
        eval_and(quantified_conjuncts(f, Quantifier::Exists)->0, values.insert(v, x)) == Some(true),
    ensures
        eval_view(exists_inequalities_result(f, v)->0, values) == Some(true),
{
    let bs = quantified_conjuncts(f, Quantifier::Exists)->0;
    let w = values.insert(v, x);
    let fl = free_literals(bs, v);
    let ls = side_bounds(bs, v, true);
    let us = side_bounds(bs, v, false);
    let pc = pair_conditions(ls, us);
    let gs = fl + pc;
    assert(exists_inequalities_result(f, v)->0 == FormulaView::And(gs));
    crate::qe::simplify::lemma_eval_and(bs, w);
    lemma_branches_assigned(bs, v, values);
    assert forall|g: int| 0 <= g < gs.len() implies #[trigger] eval_view(gs[g], values) == Some(true) by {
        if g < fl.len() {
            assert(gs[g] == fl[g]);
            let i = lemma_free_literal_source(bs, v, g);
            let (p, r) = literal_view(bs[i])->0;
            assert(inequality_branch(bs[i], v));
            assert(eval_view(bs[i], w) == Some(true));
            lemma_literal_eval(bs[i], w);
            crate::qe::scope::lemma_degree_zero_absent(p, v);
            assert forall|i2: int, k2: int| 0 <= i2 < p.len() && 0 <= k2 < p[i2].0.len() implies (
            #[trigger] p[i2].0[k2]).0 != v by {
                if p[i2].0[k2].0 == v {
                    assert(has_variable(p, v));
                }
            }
            lemma_terms_local(p, values, v, x);
        } else {
            assert(gs[g] == pc[g - fl.len()]);
            let (a, b) = lemma_pair_source(ls, us, g - fl.len());
            let il = lemma_bound_source(bs, v, true, a);
            let iu = lemma_bound_source(bs, v, false, b);
            assert(inequality_branch(bs[il], v));
            assert(inequality_branch(bs[iu], v));
            assert(eval_view(bs[il], w) == Some(true));
            assert(eval_view(bs[iu], w) == Some(true));
            lemma_branch_bound(bs[il], v, values, x);
            lemma_branch_bound(bs[iu], v, values, x);
            lemma_pair_true(ls[a], us[b], values, x);
        }
    }
    crate::qe::simplify::lemma_eval_and(gs, values);
}


/// The value of `x_v` at which a bound's `constant + coefficient * x_v`
/// vanishes.
pub open spec fn threshold(b: BoundView, values: Map<usize, (int, nat)>) -> (int, nat) {
    crate::rational::rat_div(
        rat_sub(rat_zero(), evaluate_terms(b.2, values)),
        evaluate_terms(b.1, values),
    )
}

/// `x` lies on the side of the threshold that the bound asks for.
pub open spec fn beyond(b: BoundView, t: (int, nat), x: (int, nat)) -> bool {
    if b.0 {
        if b.3 {
            crate::rational::rat_lt(t, x)
        } else {
            crate::rational::rat_le(t, x)
        }
    } else {
        if b.3 {
            crate::rational::rat_lt(x, t)
        } else {
            crate::rational::rat_le(x, t)
        }
    }
}

/// A ready bound is met exactly by the values on its side of its
/// threshold.
pub proof fn lemma_threshold(b: BoundView, values: Map<usize, (int, nat)>, x: (int, nat))
    requires
        bound_ready(b, values),
        values_positive(values),
        rat_reduced(x),
    ensures
        rat_reduced(threshold(b, values)),
        bound_met(b, values, x) == beyond(b, threshold(b, values), x),
{
    let c = evaluate_terms(b.1, values);
    let k = evaluate_terms(b.2, values);
    crate::evaluation::lemma_eval_reduced(b.1, values);
    crate::evaluation::lemma_eval_reduced(b.2, values);
    crate::field::lemma_zero_reduced(rat_zero());
    crate::qe::evaluate::lemma_solve_linear(c, k, rat_zero());
    let t = threshold(b, values);
    let nk = rat_neg(k);
    lemma_reduced(k, k);
    crate::field::lemma_sub_as_add(rat_zero(), k);
    crate::polynomial::lemma_add_zero_left(nk);
    assert(rat_mul(c, t) == nk);
    // c * (x - t) == k + c * x
    lemma_reduced(t, t);
    let nt = rat_neg(t);
    lemma_reduced(x, nt);
    crate::field::lemma_sub_as_add(x, t);
    crate::field::lemma_distributive(x, nt, c);
    crate::field::lemma_mul_commutative(rat_add(x, nt), c);
    crate::field::lemma_mul_commutative(x, c);
    crate::field::lemma_mul_commutative(nt, c);
    crate::field::lemma_neg_mul(t, c);
    crate::field::lemma_mul_commutative(t, c);
    crate::polynomial::lemma_rat_add_commutes(rat_mul(c, x), k);
    let d = rat_sub(x, t);
    assert(rat_mul(c, d) == bound_value(b, values, x));
    lemma_scaled_relation(bound_relation(b), c, d);
    crate::rational::lemma_sub_sign(x, t);
}


/// A lower and an upper bound are compatible: the lower threshold is below
/// the upper one, or equal to it when both bounds are weak.
pub open spec fn compatible(l: BoundView, u: BoundView, values: Map<usize, (int, nat)>) -> bool {
    if l.3 || u.3 {
        crate::rational::rat_lt(threshold(l, values), threshold(u, values))
    } else {
        crate::rational::rat_le(threshold(l, values), threshold(u, values))
    }
}

/// The condition of a lower and an upper bound is true exactly when they
/// are compatible.
pub proof fn lemma_pair_exact(l: BoundView, u: BoundView, values: Map<usize, (int, nat)>)
    requires
        bound_ready(l, values),
        bound_ready(u, values),
        values_positive(values),
    ensures
        eval_view(pair_condition(l, u), values) == Some(compatible(l, u, values)),
{
    lemma_constant_monomials(u.1);
    lemma_constant_monomials(l.1);
    crate::evaluation::lemma_eval_mul(u.1, l.2, values);
    crate::evaluation::lemma_eval_mul(l.1, u.2, values);
    let a = mul_terms(u.1, l.2);
    let b = mul_terms(l.1, u.2);
    crate::evaluation::law_evaluate_sub(a, b, values);
    let poly = add_terms(a, negate_terms(b));
    let vs = assigned(values);
    lemma_mul_terms_over(u.1, l.2, vs);
    lemma_mul_terms_over(l.1, u.2, vs);
    lemma_negate_over(b, vs);
    lemma_add_terms_over(a, negate_terms(b), vs);
    assert forall|z: usize| has_variable(poly, z) implies values.contains_key(z) by {
        crate::qe::scope::lemma_has_over(poly, vs, z);
    }
    let (cl, kl, cu, ku) = (
        evaluate_terms(l.1, values),
        evaluate_terms(l.2, values),
        evaluate_terms(u.1, values),
        evaluate_terms(u.2, values),
    );
    crate::evaluation::lemma_eval_reduced(l.1, values);
    crate::evaluation::lemma_eval_reduced(l.2, values);
    crate::evaluation::lemma_eval_reduced(u.1, values);
    crate::evaluation::lemma_eval_reduced(u.2, values);
    crate::field::lemma_zero_reduced(rat_zero());
    lemma_threshold(l, values, rat_zero());
    lemma_threshold(u, values, rat_zero());
    let (tl, tu) = (threshold(l, values), threshold(u, values));
    crate::field::lemma_zero_reduced(rat_zero());
    crate::qe::evaluate::lemma_solve_linear(cl, kl, rat_zero());
    crate::qe::evaluate::lemma_solve_linear(cu, ku, rat_zero());
    crate::field::lemma_sub_as_add(rat_zero(), kl);
    crate::field::lemma_sub_as_add(rat_zero(), ku);
    lemma_reduced(kl, kl);
    lemma_reduced(ku, ku);
    crate::polynomial::lemma_add_zero_left(rat_neg(kl));
    crate::polynomial::lemma_add_zero_left(rat_neg(ku));
    // kl == -(cl * tl) and ku == -(cu * tu)
    assert(kl == rat_neg(rat_mul(cl, tl)));
    assert(ku == rat_neg(rat_mul(cu, tu)));
    let pp = rat_mul(cl, cu);
    lemma_reduced(cl, cu);
    lemma_reduced(cl, tl);
    lemma_reduced(cu, tu);
    lemma_reduced(pp, tl);
    lemma_reduced(pp, tu);
    lemma_reduced(tl, tl);
    // cu * kl == -(pp * tl)
    crate::field::lemma_neg_mul(rat_mul(cl, tl), cu);
    crate::field::lemma_mul_commutative(rat_neg(rat_mul(cl, tl)), cu);
    crate::field::lemma_mul_commutative(rat_mul(cl, tl), cu);
    crate::field::lemma_mul_associative(cu, cl, tl);
    crate::field::lemma_mul_commutative(cu, cl);
    assert(rat_mul(cu, kl) == rat_neg(rat_mul(pp, tl)));
    // cl * ku == -(pp * tu)
    crate::field::lemma_neg_mul(rat_mul(cu, tu), cl);
    crate::field::lemma_mul_commutative(rat_neg(rat_mul(cu, tu)), cl);
    crate::field::lemma_mul_commutative(rat_mul(cu, tu), cl);
    crate::field::lemma_mul_associative(cl, cu, tu);
    assert(rat_mul(cl, ku) == rat_neg(rat_mul(pp, tu)));
    // the difference is pp * (tu - tl)
    let d = rat_sub(rat_mul(cu, kl), rat_mul(cl, ku));
    crate::field::lemma_sub_as_add(rat_mul(cu, kl), rat_mul(cl, ku));
    assert(d == rat_add(rat_neg(rat_mul(pp, tl)), rat_mul(pp, tu)));
    let ntl = rat_neg(tl);
    crate::field::lemma_sub_as_add(tu, tl);
    crate::field::lemma_distributive(tu, ntl, pp);
    crate::field::lemma_mul_commutative(rat_add(tu, ntl), pp);
    crate::field::lemma_mul_commutative(tu, pp);
    crate::field::lemma_mul_commutative(ntl, pp);
    crate::field::lemma_neg_mul(tl, pp);
    crate::field::lemma_mul_commutative(tl, pp);
    crate::polynomial::lemma_rat_add_commutes(rat_neg(rat_mul(pp, tl)), rat_mul(pp, tu));
    assert(d == rat_mul(pp, rat_sub(tu, tl)));
    // pp is positive
    assert(cl.1 * cu.1 > 0 && cl.0 * cu.0 > 0) by (nonlinear_arith)
        requires
            cl.1 > 0,
            cu.1 > 0,
            cl.0 > 0,
            cu.0 > 0,
    ;
    crate::rational::lemma_normalize_sign(cl.0 * cu.0, (cl.1 * cu.1) as int);
    let rel = if l.3 || u.3 {
        Relation::Greater
    } else {
        Relation::GreaterOrEqual
    };
    lemma_reduced(tu, ntl);
    lemma_scaled_relation(rel, pp, rat_sub(tu, tl));
    crate::rational::lemma_sub_sign(tu, tl);
}


/// Where a literal free of `x_v` appears among the result's literals.
proof fn lemma_free_literal_in(bs: Seq<FormulaView>, v: usize, i: int) -> (k: int)
    requires
        0 <= i < bs.len(),
        degree_of((literal_view(bs[i])->0).0, v) == 0,
    ensures
        0 <= k < free_literals(bs, v).len(),
        free_literals(bs, v)[k] == FormulaView::Atom((literal_view(bs[i])->0).0, (literal_view(bs[i])->0).1),
    decreases bs.len(),
{
    let b0 = bs.drop_last();
    let prev = free_literals(b0, v);
    if i == bs.len() - 1 {
        assert(bs.last() == bs[i]);
        prev.len() as int
    } else {
        assert(b0[i] == bs[i]);
        let k = lemma_free_literal_in(b0, v, i);
        assert(free_literals(bs, v)[k] == prev[k]);
        k
    }
}

/// Where the bound of a branch appears among the bounds of its side.
proof fn lemma_bound_in(bs: Seq<FormulaView>, v: usize, i: int) -> (k: int)
    requires
        0 <= i < bs.len(),
        degree_of((literal_view(bs[i])->0).0, v) == 1,
    ensures
        0 <= k < side_bounds(
            bs,
            v,
            bound_of((literal_view(bs[i])->0).0, (literal_view(bs[i])->0).1, v).0,
        ).len(),
        side_bounds(bs, v, bound_of((literal_view(bs[i])->0).0, (literal_view(bs[i])->0).1, v).0)[k]
            == bound_of((literal_view(bs[i])->0).0, (literal_view(bs[i])->0).1, v),
    decreases bs.len(),
{
    let lower = bound_of((literal_view(bs[i])->0).0, (literal_view(bs[i])->0).1, v).0;
    let b0 = bs.drop_last();
    let prev = side_bounds(b0, v, lower);
    if i == bs.len() - 1 {
        assert(bs.last() == bs[i]);
        prev.len() as int
    } else {
        assert(b0[i] == bs[i]);
        let k = lemma_bound_in(b0, v, i);
        assert(side_bounds(bs, v, lower)[k] == prev[k]);
        k
    }
}

/// Where the condition of a lower and an upper bound appears.
proof fn lemma_pair_in(ls: Seq<BoundView>, us: Seq<BoundView>, a: int, b: int) -> (m: int)
    requires
        0 <= a < ls.len(),
        0 <= b < us.len(),
    ensures
        0 <= m < pair_conditions(ls, us).len(),
        pair_conditions(ls, us)[m] == pair_condition(ls[a], us[b]),
    decreases ls.len(),
{
    let l0 = ls.drop_last();
    let prev = pair_conditions(l0, us);
    let more = us.map_values(|u: BoundView| pair_condition(ls.last(), u));
    assert(pair_conditions(ls, us) == prev + more);
    if a == ls.len() - 1 {
        assert((prev + more)[prev.len() + b] == more[b]);
        assert(ls.last() == ls[a]);
        prev.len() + b
    } else {
        assert(l0[a] == ls[a]);
        let m = lemma_pair_in(l0, us, a, b);
        assert((prev + more)[m] == prev[m]);
        m
    }
}

/// `<` and `<=` chain for fractions with positive denominators.
proof fn lemma_order_chain(a: (int, nat), b: (int, nat), c: (int, nat))
    requires
        a.1 > 0,
        b.1 > 0,
        c.1 > 0,
    ensures
        crate::rational::rat_le(a, b) && crate::rational::rat_le(b, c) ==> crate::rational::rat_le(a, c),
        crate::rational::rat_lt(a, b) && crate::rational::rat_le(b, c) ==> crate::rational::rat_lt(a, c),
        crate::rational::rat_le(a, b) && crate::rational::rat_lt(b, c) ==> crate::rational::rat_lt(a, c),
{
    let (a0, a1, b0, b1, c0, c1) = (a.0, a.1 as int, b.0, b.1 as int, c.0, c.1 as int);
    assert(a0 * b1 <= b0 * a1 && b0 * c1 <= c0 * b1 ==> a0 * c1 <= c0 * a1) by (nonlinear_arith)
        requires
            a1 > 0,
            b1 > 0,
            c1 > 0,
    ;
    assert(a0 * b1 < b0 * a1 && b0 * c1 <= c0 * b1 ==> a0 * c1 < c0 * a1) by (nonlinear_arith)
        requires
            a1 > 0,
            b1 > 0,
            c1 > 0,
    ;
    assert(a0 * b1 <= b0 * a1 && b0 * c1 < c0 * b1 ==> a0 * c1 < c0 * a1) by (nonlinear_arith)
        requires
            a1 > 0,
            b1 > 0,
            c1 > 0,
    ;
}

/// Every bound of the list is ready at the point.
pub open spec fn all_ready(bs: Seq<BoundView>, values: Map<usize, (int, nat)>) -> bool {
    forall|k: int| 0 <= k < bs.len() ==> bound_ready(#[trigger] bs[k], values)
}

/// The lower bound with the highest threshold, a strict one among equals.
proof fn lemma_best_lower(ls: Seq<BoundView>, values: Map<usize, (int, nat)>) -> (k: int)
    requires
        ls.len() > 0,
        all_ready(ls, values),
        values_positive(values),
    ensures
        0 <= k < ls.len(),
        forall|j: int|
            0 <= j < ls.len() ==> crate::rational::rat_le(threshold(#[trigger] ls[j], values), threshold(ls[k], values))
                && (crate::rational::rat_le(threshold(ls[k], values), threshold(ls[j], values)) && ls[j].3
                ==> ls[k].3),
    decreases ls.len(),
{
    let n = ls.len() - 1;
    crate::field::lemma_zero_reduced(rat_zero());
    assert(bound_ready(ls[n], values));
    lemma_threshold(ls[n], values, rat_zero());
    let tn = threshold(ls[n], values);
    if n == 0 {
        0
    } else {
        let l0 = ls.drop_last();
        assert forall|j: int| 0 <= j < l0.len() implies bound_ready(#[trigger] l0[j], values) by {
            assert(l0[j] == ls[j]);
        }
        let k0 = lemma_best_lower(l0, values);
        assert(l0[k0] == ls[k0]);
        assert(bound_ready(ls[k0], values));
        lemma_threshold(ls[k0], values, rat_zero());
        let t0 = threshold(ls[k0], values);
        let k = if crate::rational::rat_lt(t0, tn) || (crate::rational::rat_le(tn, t0)
            && crate::rational::rat_le(t0, tn) && ls[n].3) {
            n
        } else {
            k0
        };
        assert forall|j: int| 0 <= j < ls.len() implies crate::rational::rat_le(
            threshold(#[trigger] ls[j], values),
            threshold(ls[k], values),
        ) && (crate::rational::rat_le(threshold(ls[k], values), threshold(ls[j], values)) && ls[j].3
            ==> ls[k].3) by {
            assert(bound_ready(ls[j], values));
            lemma_threshold(ls[j], values, rat_zero());
            let tj = threshold(ls[j], values);
            if j < n {
                assert(l0[j] == ls[j]);
                lemma_order_chain(tj, t0, tn);
                lemma_order_chain(tn, tj, t0);
            }
        }
        k
    }
}

/// The upper bound with the lowest threshold, a strict one among equals.
proof fn lemma_best_upper(us: Seq<BoundView>, values: Map<usize, (int, nat)>) -> (k: int)
    requires
        us.len() > 0,
        all_ready(us, values),
        values_positive(values),
    ensures
        0 <= k < us.len(),
        forall|j: int|
            0 <= j < us.len() ==> crate::rational::rat_le(threshold(us[k], values), threshold(#[trigger] us[j], values))
                && (crate::rational::rat_le(threshold(us[j], values), threshold(us[k], values)) && us[j].3
                ==> us[k].3),
    decreases us.len(),
{
    let n = us.len() - 1;
    crate::field::lemma_zero_reduced(rat_zero());
    assert(bound_ready(us[n], values));
    lemma_threshold(us[n], values, rat_zero());
    let tn = threshold(us[n], values);
    if n == 0 {
        0
    } else {
        let u0 = us.drop_last();
        assert forall|j: int| 0 <= j < u0.len() implies bound_ready(#[trigger] u0[j], values) by {
            assert(u0[j] == us[j]);
        }
        let k0 = lemma_best_upper(u0, values);
        assert(u0[k0] == us[k0]);
        assert(bound_ready(us[k0], values));
        lemma_threshold(us[k0], values, rat_zero());
        let t0 = threshold(us[k0], values);
        let k = if crate::rational::rat_lt(tn, t0) || (crate::rational::rat_le(tn, t0)
            && crate::rational::rat_le(t0, tn) && us[n].3) {
            n
        } else {
            k0
        };
        assert forall|j: int| 0 <= j < us.len() implies crate::rational::rat_le(
            threshold(us[k], values),
            threshold(#[trigger] us[j], values),
        ) && (crate::rational::rat_le(threshold(us[j], values), threshold(us[k], values)) && us[j].3
            ==> us[k].3) by {
            assert(bound_ready(us[j], values));
            lemma_threshold(us[j], values, rat_zero());
            let tj = threshold(us[j], values);
            if j < n {
                assert(u0[j] == us[j]);
                lemma_order_chain(tn, t0, tj);
                lemma_order_chain(t0, tj, tn);
            }
        }
        k
    }
}


/// One more and one less than a fraction lie above and below it.
proof fn lemma_step_away(a: (int, nat))
    requires
        rat_reduced(a),
    ensures
        crate::rational::rat_lt(a, rat_add(a, (1, 1))),
        rat_reduced(rat_add(a, (1, 1))),
        crate::rational::rat_lt(rat_add(a, (-1, 1)), a),
        rat_reduced(rat_add(a, (-1, 1))),
{
    crate::field::lemma_add_value(a, (1, 1));
    crate::field::lemma_add_value(a, (-1, 1));
    let p = rat_add(a, (1, 1));
    let q = rat_add(a, (-1, 1));
    let (a0, a1, p0, p1, q0, q1) = (a.0, a.1 as int, p.0, p.1 as int, q.0, q.1 as int);
    assert(a0 * p1 < p0 * a1) by (nonlinear_arith)
        requires
            p0 * (a1 * 1) == (a0 * 1 + 1 * a1) * p1,
            a1 > 0,
            p1 > 0,
    ;
    assert(q0 * a1 < a0 * q1) by (nonlinear_arith)
        requires
            q0 * (a1 * 1) == (a0 * 1 + (-1) * a1) * q1,
            a1 > 0,
            q1 > 0,
    ;
}

/// A lower bound no higher than the best one, and not strict where the
/// best one is weak at the same threshold, is met wherever the best one is.
proof fn lemma_lower_follows(b: BoundView, t: (int, nat), best: BoundView, l: (int, nat), x: (int, nat))
    requires
        t.1 > 0,
        l.1 > 0,
        x.1 > 0,
        b.0,
        best.0,
        crate::rational::rat_le(t, l),
        crate::rational::rat_le(l, t) && b.3 ==> best.3,
        beyond(best, l, x),
    ensures
        beyond(b, t, x),
{
    lemma_order_chain(t, l, x);
}

/// An upper bound no lower than the best one, and not strict where the
/// best one is weak at the same threshold, is met wherever the best one is.
proof fn lemma_upper_follows(b: BoundView, t: (int, nat), best: BoundView, u: (int, nat), x: (int, nat))
    requires
        t.1 > 0,
        u.1 > 0,
        x.1 > 0,
        !b.0,
        !best.0,
        crate::rational::rat_le(u, t),
        crate::rational::rat_le(t, u) && b.3 ==> best.3,
        beyond(best, u, x),
    ensures
        beyond(b, t, x),
{
    lemma_order_chain(x, u, t);
}

/// Lower and upper bounds that are pairwise compatible are all met by one
/// value.
proof fn lemma_witness(ls: Seq<BoundView>, us: Seq<BoundView>, values: Map<usize, (int, nat)>) -> (x: (int, nat))
    requires
        all_ready(ls, values),
        all_ready(us, values),
        values_positive(values),
        forall|k: int| 0 <= k < ls.len() ==> (#[trigger] ls[k]).0,
        forall|k: int| 0 <= k < us.len() ==> !(#[trigger] us[k]).0,
        forall|a: int, b: int|
            0 <= a < ls.len() && 0 <= b < us.len() ==> compatible(#[trigger] ls[a], #[trigger] us[b], values),
    ensures
        rat_reduced(x),
        forall|k: int| 0 <= k < ls.len() ==> bound_met(#[trigger] ls[k], values, x),
        forall|k: int| 0 <= k < us.len() ==> bound_met(#[trigger] us[k], values, x),
{
    crate::field::lemma_zero_reduced(rat_zero());
    let kl: int = if ls.len() > 0 {
        lemma_best_lower(ls, values)
    } else {
        0
    };
    let ku: int = if us.len() > 0 {
        lemma_best_upper(us, values)
    } else {
        0
    };
    let l = if ls.len() > 0 {
        threshold(ls[kl], values)
    } else {
        rat_zero()
    };
    let u = if us.len() > 0 {
        threshold(us[ku], values)
    } else {
        rat_zero()
    };
    if ls.len() > 0 {
        assert(bound_ready(ls[kl], values));
        lemma_threshold(ls[kl], values, rat_zero());
    }
    if us.len() > 0 {
        assert(bound_ready(us[ku], values));
        lemma_threshold(us[ku], values, rat_zero());
    }
    let x = if ls.len() == 0 && us.len() == 0 {
        rat_zero()
    } else if us.len() == 0 {
        lemma_step_away(l);
        rat_add(l, (1, 1))
    } else if ls.len() == 0 {
        lemma_step_away(u);
        rat_add(u, (-1, 1))
    } else {
        assert(compatible(ls[kl], us[ku], values));
        if crate::rational::rat_lt(l, u) {
            let m = rat_mul(rat_add(l, u), crate::algebra::univariate::half());
            crate::algebra::univariate::lemma_midpoint_halves(l, u);
            lemma_reduced(l, u);
            lemma_reduced(rat_add(l, u), crate::algebra::univariate::half());
            crate::rational::lemma_sub_sign(u, l);
            let d = rat_sub(u, l);
            crate::field::lemma_sub_as_add(u, l);
            lemma_reduced(l, l);
            lemma_reduced(u, rat_neg(l));
            assert(d.1 * 2 > 0 && d.0 * 1 > 0) by (nonlinear_arith)
                requires
                    d.1 > 0,
                    d.0 > 0,
            ;
            crate::rational::lemma_normalize_sign(d.0 * 1, (d.1 * 2) as int);
            crate::rational::lemma_sub_sign(m, l);
            crate::rational::lemma_sub_sign(u, m);
            m
        } else {
            l
        }
    };
    assert(x.1 > 0);
    // the best bounds are met
    if ls.len() > 0 {
        assert(beyond(ls[kl], l, x));
    }
    if us.len() > 0 {
        assert(beyond(us[ku], u, x));
    }
    // every bound is met
    if ls.len() > 0 {
        assert forall|k: int| 0 <= k < ls.len() implies bound_met(#[trigger] ls[k], values, x) by {
            assert(bound_ready(ls[k], values));
            lemma_threshold(ls[k], values, x);
            lemma_lower_follows(ls[k], threshold(ls[k], values), ls[kl], l, x);
        }
    }
    if us.len() > 0 {
        assert forall|k: int| 0 <= k < us.len() implies bound_met(#[trigger] us[k], values, x) by {
            assert(bound_ready(us[k], values));
            lemma_threshold(us[k], values, x);
            lemma_upper_follows(us[k], threshold(us[k], values), us[ku], u, x);
        }
    }
    x
}

/// The elimination of linear inequalities is complete: at a point that
/// assigns every other free variable, where the formula the rule gives for
/// `exists x_v. (b1 && ... && bn)` is true, some rational `x` for `x_v`
/// satisfies every branch. With the soundness law, the result is true
/// exactly when the bounds leave room for `x_v`.
pub proof fn law_exists_inequalities_complete(f: FormulaView, v: usize, values: Map<usize, (int, nat)>)
    requires
        exists_inequalities_result(f, v) is Some,
        literals_canonical(quantified_conjuncts(f, Quantifier::Exists)->0),
        values_positive(values),
        forall|u: usize|
            u != v && free_in_any(quantified_conjuncts(f, Quantifier::Exists)->0, u) ==> values.contains_key(u),
        eval_view(exists_inequalities_result(f, v)->0, values) == Some(true),
    ensures
        exists|x: (int, nat)|
            rat_reduced(x) && eval_and(quantified_conjuncts(f, Quantifier::Exists)->0, values.insert(v, x))
                == Some(true),
{
    let bs = quantified_conjuncts(f, Quantifier::Exists)->0;
    let fl = free_literals(bs, v);
    let ls = side_bounds(bs, v, true);
    let us = side_bounds(bs, v, false);
    let pc = pair_conditions(ls, us);
    let gs = fl + pc;
    assert(exists_inequalities_result(f, v)->0 == FormulaView::And(gs));
    crate::qe::simplify::lemma_eval_and(gs, values);
    assert(forall|g: int| 0 <= g < gs.len() ==> #[trigger] eval_view(gs[g], values) == Some(true));
    lemma_branches_assigned(bs, v, values);
    crate::field::lemma_zero_reduced(rat_zero());
    // every bound is ready and on its side
    assert forall|k: int| 0 <= k < ls.len() implies bound_ready(#[trigger] ls[k], values) && ls[k].0 by {
        let i = lemma_bound_source(bs, v, true, k);
        assert(inequality_branch(bs[i], v));
        lemma_branch_bound(bs[i], v, values, rat_zero());
    }
    assert forall|k: int| 0 <= k < us.len() implies bound_ready(#[trigger] us[k], values) && !us[k].0 by {
        let i = lemma_bound_source(bs, v, false, k);
        assert(inequality_branch(bs[i], v));
        lemma_branch_bound(bs[i], v, values, rat_zero());
    }
    // every pair is compatible
    assert forall|a: int, b: int| 0 <= a < ls.len() && 0 <= b < us.len() implies compatible(
        #[trigger] ls[a],
        #[trigger] us[b],
        values,
    ) by {
        let m = lemma_pair_in(ls, us, a, b);
        assert(gs[fl.len() + m] == pc[m]);
        assert(eval_view(gs[fl.len() + m], values) == Some(true));
        assert(bound_ready(ls[a], values) && bound_ready(us[b], values));
        lemma_pair_exact(ls[a], us[b], values);
    }
    let x = lemma_witness(ls, us, values);
    let w = values.insert(v, x);
    assert forall|i: int| 0 <= i < bs.len() implies #[trigger] eval_view(bs[i], w) == Some(true) by {
        assert(inequality_branch(bs[i], v));
        let (p, r) = literal_view(bs[i])->0;
        if degree_of(p, v) == 0 {
            let k = lemma_free_literal_in(bs, v, i);
            assert(gs[k] == fl[k]);
            assert(eval_view(gs[k], values) == Some(true));
            crate::qe::scope::lemma_degree_zero_absent(p, v);
            assert forall|i2: int, k2: int| 0 <= i2 < p.len() && 0 <= k2 < p[i2].0.len() implies (
            #[trigger] p[i2].0[k2]).0 != v by {
                if p[i2].0[k2].0 == v {
                    assert(has_variable(p, v));
                }
            }
            lemma_terms_local(p, values, v, x);
            assert forall|u: usize| has_variable(p, u) implies w.contains_key(u) by {
                if u != v {
                    assert(values.contains_key(u));
                }
            }
            lemma_literal_eval(bs[i], w);
            lemma_literal_eval(FormulaView::Atom(p, r), values);
        } else {
            let k = lemma_bound_in(bs, v, i);
            lemma_branch_bound(bs[i], v, values, x);
            if bound_of(p, r, v).0 {
                assert(bound_met(ls[k], values, x));
            } else {
                assert(bound_met(us[k], values, x));
            }
        }
    }
    crate::qe::simplify::lemma_eval_and(bs, w);
}

/// The elimination of linear inequalities is exact: at every point that
/// assigns the other free variables, the formula it gives for
/// `exists x_v. (b1 && ... && bn)` has a truth value, and it is true
/// exactly when some rational `x_v` satisfies every branch there.
pub proof fn law_exists_inequalities_exact(f: FormulaView, v: usize, values: Map<usize, (int, nat)>)
    requires
        exists_inequalities_result(f, v) is Some,
        literals_canonical(quantified_conjuncts(f, Quantifier::Exists)->0),
    ensures
        exists_exact_at(
            quantified_conjuncts(f, Quantifier::Exists)->0,
            v,
            exists_inequalities_result(f, v)->0,
            values,
        ),
{
    let bs = quantified_conjuncts(f, Quantifier::Exists)->0;
    if values_positive(values) && (forall|u: usize| u != v && free_in_any(bs, u) ==> values.contains_key(u)) {
        let fl = free_literals(bs, v);
        let ls = side_bounds(bs, v, true);
        let us = side_bounds(bs, v, false);
        let pc = pair_conditions(ls, us);
        let gs = fl + pc;
        let g = exists_inequalities_result(f, v)->0;
        assert(g == FormulaView::And(gs));
        lemma_branches_assigned(bs, v, values);
        crate::field::lemma_zero_reduced(rat_zero());
        // every member of the result has a truth value
        assert forall|m: int| 0 <= m < gs.len() implies (#[trigger] eval_view(gs[m], values)) is Some by {
            if m < fl.len() {
                assert(gs[m] == fl[m]);
                let i = lemma_free_literal_source(bs, v, m);
                let (p, r) = literal_view(bs[i])->0;
                crate::qe::scope::lemma_degree_zero_absent(p, v);
                assert forall|u: usize| has_variable(p, u) implies values.contains_key(u) by {
                    if u == v {
                        assert(has_variable(p, v));
                    }
                }
            } else {
                assert(gs[m] == pc[m - fl.len()]);
                let (a, b) = lemma_pair_source(ls, us, m - fl.len());
                let il = lemma_bound_source(bs, v, true, a);
                let iu = lemma_bound_source(bs, v, false, b);
                assert(inequality_branch(bs[il], v));
                assert(inequality_branch(bs[iu], v));
                lemma_branch_bound(bs[il], v, values, rat_zero());
                lemma_branch_bound(bs[iu], v, values, rat_zero());
                lemma_pair_exact(ls[a], us[b], values);
            }
        }
        lemma_eval_and_some(gs, values);
        assert(eval_view(g, values) is Some);
        if exists|x: (int, nat)| rat_reduced(x) && #[trigger] eval_and(bs, values.insert(v, x)) == Some(true) {
            let x = choose|x: (int, nat)| rat_reduced(x) && #[trigger] eval_and(bs, values.insert(v, x)) == Some(true);
            law_exists_inequalities_sound(f, v, values, x);
            assert(eval_view(g, values) == Some(true));
        } else if eval_view(g, values) == Some(true) {
            law_exists_inequalities_complete(f, v, values);
            assert(false);
        } else {
            assert(eval_view(g, values) == Some(false));
        }
    }
}

} // verus!
