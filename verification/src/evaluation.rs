//! Evaluation respects arithmetic: the value of a sum of polynomials at a
//! point is the sum of their values, the value of a negated polynomial is
//! the negated value, and so for differences and products.
use crate::field::{
    lemma_add_associative, lemma_add_value, lemma_distributive, lemma_mul_associative,
    lemma_mul_commutative, lemma_mul_one, lemma_mul_value, lemma_mul_zero, lemma_neg_add,
    lemma_neg_mul, lemma_zero_reduced,
};
use crate::monomial::{lemma_mono_lt_irreflexive, lemma_mono_mul_wf, mono_mul, mono_mul_fits, powers_wf};
use crate::polynomial::{
    add_row, add_terms, coefficient_of, evaluate_terms, insert_term, lemma_add_terms, lemma_add_zero_left,
    lemma_insert_canonical, mul_fits, mul_terms,
    lemma_add_zero_right, lemma_coefficient_absent, lemma_coefficient_at, lemma_position_facts,
    lemma_rat_add_commutes, monomial_value, negate_terms, position_of, rat_reduced, terms_canonical,
    terms_sorted, value_of, TermView,
};
use crate::rational::{abs, gcd, rat_add, rat_mul, rat_neg, rat_pow, rat_sub, rat_zero};
use vstd::prelude::*;

verus! {

/// Every value of the point has a positive denominator.
pub open spec fn values_positive(values: Map<usize, (int, nat)>) -> bool {
    forall|v: usize| values.contains_key(v) ==> (#[trigger] values[v]).1 > 0
}

/// Every coefficient is in lowest terms.
pub open spec fn coefficients_reduced(s: Seq<TermView>) -> bool {
    forall|i: int| 0 <= i < s.len() ==> rat_reduced((#[trigger] s[i]).1)
}

/// One is in lowest terms.
pub proof fn lemma_one_reduced()
    ensures
        rat_reduced((1int, 1nat)),
{
    assert(gcd(1, 1) == gcd(1, 0));
}

/// A power of a fraction with a positive denominator is in lowest terms.
pub proof fn lemma_pow_reduced(x: (int, nat), e: nat)
    requires
        x.1 > 0,
    ensures
        rat_reduced(rat_pow(x, e)),
    decreases e,
{
    if e == 0 {
        lemma_one_reduced();
    } else {
        lemma_pow_reduced(x, (e - 1) as nat);
        lemma_mul_value(rat_pow(x, (e - 1) as nat), x);
    }
}

/// The value of a monomial with coefficient `c` is `c` times its value with
/// coefficient one, in lowest terms.
pub proof fn lemma_monomial_scale(c: (int, nat), p: Seq<(usize, usize)>, values: Map<usize, (int, nat)>)
    requires
        rat_reduced(c),
        values_positive(values),
    ensures
        monomial_value(c, p, values) == rat_mul(c, monomial_value((1, 1), p, values)),
        rat_reduced(monomial_value(c, p, values)),
    decreases p.len(),
{
    lemma_one_reduced();
    if p.len() == 0 {
        lemma_mul_one(c);
    } else {
        let q = p.drop_last();
        lemma_monomial_scale(c, q, values);
        lemma_monomial_scale((1, 1), q, values);
        let m = monomial_value((1, 1), q, values);
        let x = value_of(values, p.last().0);
        assert(x.1 > 0);
        let pw = rat_pow(x, p.last().1 as nat);
        lemma_pow_reduced(x, p.last().1 as nat);
        lemma_mul_associative(c, m, pw);
        lemma_mul_value(monomial_value(c, q, values), pw);
    }
}

/// The value of a monomial is additive in its coefficient.
proof fn lemma_monomial_add(
    c1: (int, nat),
    c2: (int, nat),
    p: Seq<(usize, usize)>,
    values: Map<usize, (int, nat)>,
)
    requires
        rat_reduced(c1),
        rat_reduced(c2),
        values_positive(values),
    ensures
        monomial_value(rat_add(c1, c2), p, values) == rat_add(
            monomial_value(c1, p, values),
            monomial_value(c2, p, values),
        ),
{
    lemma_one_reduced();
    lemma_add_value(c1, c2);
    lemma_monomial_scale(rat_add(c1, c2), p, values);
    lemma_monomial_scale(c1, p, values);
    lemma_monomial_scale(c2, p, values);
    lemma_monomial_scale((1, 1), p, values);
    lemma_distributive(c1, c2, monomial_value((1, 1), p, values));
}

/// A monomial with a zero coefficient has value zero.
proof fn lemma_monomial_zero(c: (int, nat), p: Seq<(usize, usize)>, values: Map<usize, (int, nat)>)
    requires
        rat_reduced(c),
        c.0 == 0,
        values_positive(values),
    ensures
        monomial_value(c, p, values) == rat_zero(),
{
    lemma_one_reduced();
    lemma_monomial_scale(c, p, values);
    lemma_monomial_scale((1, 1), p, values);
    lemma_mul_zero(monomial_value((1, 1), p, values), c);
}

/// Negating the coefficient negates the value of a monomial.
proof fn lemma_monomial_neg(c: (int, nat), p: Seq<(usize, usize)>, values: Map<usize, (int, nat)>)
    requires
        rat_reduced(c),
        values_positive(values),
    ensures
        monomial_value(rat_neg(c), p, values) == rat_neg(monomial_value(c, p, values)),
{
    lemma_one_reduced();
    assert(abs(-c.0) == abs(c.0));
    lemma_monomial_scale(rat_neg(c), p, values);
    lemma_monomial_scale(c, p, values);
    lemma_monomial_scale((1, 1), p, values);
    lemma_neg_mul(c, monomial_value((1, 1), p, values));
}

/// The value of terms with reduced coefficients is in lowest terms.
pub proof fn lemma_eval_reduced(s: Seq<TermView>, values: Map<usize, (int, nat)>)
    requires
        coefficients_reduced(s),
        values_positive(values),
    ensures
        rat_reduced(evaluate_terms(s, values)),
    decreases s.len(),
{
    lemma_zero_reduced(rat_zero());
    if s.len() > 0 {
        let t = s.drop_last();
        assert(coefficients_reduced(t)) by {
            assert forall|i: int| 0 <= i < t.len() implies rat_reduced((#[trigger] t[i]).1) by {
                assert(t[i] == s[i]);
            }
        }
        lemma_eval_reduced(t, values);
        assert(rat_reduced(s[s.len() - 1].1));
        lemma_monomial_scale(s.last().1, s.last().0, values);
        lemma_add_value(evaluate_terms(t, values), monomial_value(s.last().1, s.last().0, values));
    }
}

/// The value of a concatenation is the sum of the values.
proof fn lemma_eval_concat(u: Seq<TermView>, w: Seq<TermView>, values: Map<usize, (int, nat)>)
    requires
        coefficients_reduced(u),
        coefficients_reduced(w),
        values_positive(values),
    ensures
        evaluate_terms(u + w, values) == rat_add(evaluate_terms(u, values), evaluate_terms(w, values)),
    decreases w.len(),
{
    lemma_eval_reduced(u, values);
    if w.len() == 0 {
        assert(u + w =~= u);
        lemma_add_zero_right(evaluate_terms(u, values));
    } else {
        let w1 = w.drop_last();
        assert(coefficients_reduced(w1)) by {
            assert forall|i: int| 0 <= i < w1.len() implies rat_reduced((#[trigger] w1[i]).1) by {
                assert(w1[i] == w[i]);
            }
        }
        assert((u + w).drop_last() =~= u + w1);
        assert((u + w).last() == w.last());
        lemma_eval_concat(u, w1, values);
        lemma_eval_reduced(w1, values);
        assert(rat_reduced(w[w.len() - 1].1));
        lemma_monomial_scale(w.last().1, w.last().0, values);
        lemma_add_associative(
            evaluate_terms(u, values),
            evaluate_terms(w1, values),
            monomial_value(w.last().1, w.last().0, values),
        );
    }
}

/// The value of one term is the value of its monomial.
proof fn lemma_eval_single(t: TermView, values: Map<usize, (int, nat)>)
    requires
        rat_reduced(t.1),
        values_positive(values),
    ensures
        evaluate_terms(seq![t], values) == monomial_value(t.1, t.0, values),
{
    let one = seq![t];
    assert(one.drop_last() =~= Seq::<TermView>::empty());
    assert(evaluate_terms(one.drop_last(), values) == rat_zero());
    assert(one.last() == t);
    assert(evaluate_terms(one, values) == rat_add(rat_zero(), monomial_value(t.1, t.0, values)));
    lemma_monomial_scale(t.1, t.0, values);
    lemma_add_zero_left(monomial_value(t.1, t.0, values));
}

/// Rearranging a sum of four fractions with positive denominators.
proof fn lemma_add_swap_last(t: (int, nat), a: (int, nat), c: (int, nat), r: (int, nat))
    requires
        t.1 > 0,
        a.1 > 0,
        c.1 > 0,
        r.1 > 0,
    ensures
        rat_add(rat_add(t, rat_add(a, c)), r) == rat_add(rat_add(t, rat_add(a, r)), c),
{
    lemma_add_value(a, c);
    lemma_add_value(a, r);
    lemma_add_value(c, r);
    lemma_add_value(r, c);
    lemma_add_associative(t, rat_add(a, c), r);
    lemma_add_associative(a, c, r);
    lemma_rat_add_commutes(c, r);
    lemma_add_associative(a, r, c);
    lemma_add_associative(t, rat_add(a, r), c);
}

/// Rearranging a sum of three fractions with positive denominators.
proof fn lemma_add_swap(t: (int, nat), c: (int, nat), r: (int, nat))
    requires
        t.1 > 0,
        c.1 > 0,
        r.1 > 0,
    ensures
        rat_add(rat_add(t, c), r) == rat_add(rat_add(t, r), c),
{
    lemma_add_associative(t, c, r);
    lemma_rat_add_commutes(c, r);
    lemma_add_associative(t, r, c);
}

/// Adding a term adds the value of its monomial.
pub proof fn lemma_eval_insert(
    s: Seq<TermView>,
    m: Seq<(usize, usize)>,
    c: (int, nat),
    values: Map<usize, (int, nat)>,
)
    requires
        terms_sorted(s),
        coefficients_reduced(s),
        rat_reduced(c),
        values_positive(values),
    ensures
        evaluate_terms(insert_term(s, m, c), values) == rat_add(
            evaluate_terms(s, values),
            monomial_value(c, m, values),
        ),
{
    lemma_position_facts(s, m);
    let i = position_of(s, m) as int;
    let found = i < s.len() && s[i].0 == m;
    let cs = coefficient_of(s, m);
    let head = s.take(i);
    let rest = if found {
        s.skip(i + 1)
    } else {
        s.skip(i)
    };
    assert(coefficients_reduced(head)) by {
        assert forall|k: int| 0 <= k < head.len() implies rat_reduced((#[trigger] head[k]).1) by {
            assert(head[k] == s[k]);
        }
    }
    assert(coefficients_reduced(rest)) by {
        assert forall|k: int| 0 <= k < rest.len() implies rat_reduced((#[trigger] rest[k]).1) by {
            if found {
                assert(rest[k] == s[k + i + 1]);
            } else {
                assert(rest[k] == s[k + i]);
            }
        }
    }
    if found {
        lemma_coefficient_at(s, i);
        assert(rat_reduced(s[i].1));
    } else {
        assert forall|k: int| 0 <= k < s.len() implies s[k].0 != m by {
            if k < i {
                if s[k].0 == m {
                    lemma_mono_lt_irreflexive(m);
                }
            }
        }
        lemma_coefficient_absent(s, m);
        lemma_zero_reduced(rat_zero());
    }
    assert(rat_reduced(cs));
    let x = rat_add(cs, c);
    lemma_add_value(cs, c);
    let middle = if x.0 == 0 {
        Seq::<TermView>::empty()
    } else {
        seq![(m, x)]
    };
    assert(coefficients_reduced(middle));
    let mx = monomial_value(x, m, values);
    let mc = monomial_value(c, m, values);
    assert(evaluate_terms(middle, values) == mx) by {
        if x.0 == 0 {
            lemma_monomial_zero(x, m, values);
        } else {
            lemma_eval_single((m, x), values);
        }
    }
    let r = insert_term(s, m, c);
    assert(r == head + middle + rest);
    assert(coefficients_reduced(head + middle)) by {
        assert forall|k: int| 0 <= k < (head + middle).len() implies rat_reduced(
            (#[trigger] (head + middle)[k]).1,
        ) by {
            if k < head.len() {
                assert((head + middle)[k] == head[k]);
            } else {
                assert((head + middle)[k] == middle[k - head.len()]);
            }
        }
    }
    lemma_eval_concat(head + middle, rest, values);
    lemma_eval_concat(head, middle, values);
    let et = evaluate_terms(head, values);
    let er = evaluate_terms(rest, values);
    lemma_eval_reduced(head, values);
    lemma_eval_reduced(rest, values);
    lemma_monomial_scale(c, m, values);
    if found {
        let single = seq![s[i]];
        assert(s == head + (single + rest));
        assert(coefficients_reduced(single));
        assert(coefficients_reduced(single + rest)) by {
            assert forall|k: int| 0 <= k < (single + rest).len() implies rat_reduced(
                (#[trigger] (single + rest)[k]).1,
            ) by {
                if k == 0 {
                    assert((single + rest)[k] == s[i]);
                } else {
                    assert((single + rest)[k] == rest[k - 1]);
                }
            }
        }
        lemma_eval_concat(head, single + rest, values);
        lemma_eval_concat(single, rest, values);
        lemma_eval_single(s[i], values);
        let ma = monomial_value(s[i].1, m, values);
        lemma_monomial_scale(s[i].1, m, values);
        lemma_monomial_add(s[i].1, c, m, values);
        lemma_add_swap_last(et, ma, mc, er);
    } else {
        assert(s == head + rest);
        lemma_eval_concat(head, rest, values);
        lemma_add_zero_left(c);
        lemma_add_swap(et, mc, er);
    }
}

/// A canonical term list has reduced coefficients, and so has its prefix
/// without the last term.
pub proof fn lemma_canonical_drop_last(s: Seq<TermView>)
    requires
        terms_canonical(s),
        s.len() > 0,
    ensures
        terms_canonical(s.drop_last()),
        coefficients_reduced(s),
{
    let t = s.drop_last();
    assert forall|a: int, b: int| 0 <= a < b < t.len() implies crate::monomial::mono_lt(t[a].0, t[b].0) by {
        assert(t[a] == s[a] && t[b] == s[b]);
    }
    assert forall|a: int| 0 <= a < t.len() implies {
        &&& crate::monomial::powers_wf((#[trigger] t[a]).0)
        &&& rat_reduced(t[a].1)
        &&& t[a].1.0 != 0
    } by {
        assert(t[a] == s[a]);
    }
}

/// Evaluation is additive: at any point, the value of `a + b` is the value
/// of `a` plus the value of `b`.
pub proof fn law_evaluate_add(a: Seq<TermView>, b: Seq<TermView>, values: Map<usize, (int, nat)>)
    requires
        terms_canonical(a),
        terms_canonical(b),
        values_positive(values),
    ensures
        evaluate_terms(add_terms(a, b), values) == rat_add(
            evaluate_terms(a, values),
            evaluate_terms(b, values),
        ),
    decreases b.len(),
{
    assert(coefficients_reduced(a));
    lemma_eval_reduced(a, values);
    if b.len() == 0 {
        lemma_add_zero_right(evaluate_terms(a, values));
    } else {
        let b1 = b.drop_last();
        lemma_canonical_drop_last(b);
        law_evaluate_add(a, b1, values);
        lemma_add_terms(a, b1);
        let t = b.last();
        assert(rat_reduced(b[b.len() - 1].1));
        lemma_eval_insert(add_terms(a, b1), t.0, t.1, values);
        assert(coefficients_reduced(b1));
        lemma_eval_reduced(b1, values);
        lemma_monomial_scale(t.1, t.0, values);
        lemma_add_associative(
            evaluate_terms(a, values),
            evaluate_terms(b1, values),
            monomial_value(t.1, t.0, values),
        );
    }
}

/// Evaluation commutes with negation: at any point, the value of `-a` is
/// the negated value of `a`.
pub proof fn law_evaluate_negate(a: Seq<TermView>, values: Map<usize, (int, nat)>)
    requires
        coefficients_reduced(a),
        values_positive(values),
    ensures
        evaluate_terms(negate_terms(a), values) == rat_neg(evaluate_terms(a, values)),
    decreases a.len(),
{
    let n = negate_terms(a);
    if a.len() > 0 {
        let a1 = a.drop_last();
        assert(coefficients_reduced(a1)) by {
            assert forall|i: int| 0 <= i < a1.len() implies rat_reduced((#[trigger] a1[i]).1) by {
                assert(a1[i] == a[i]);
            }
        }
        assert(n.drop_last() =~= negate_terms(a1));
        law_evaluate_negate(a1, values);
        let t = a.last();
        assert(rat_reduced(a[a.len() - 1].1));
        assert(n.last() == (t.0, rat_neg(t.1)));
        lemma_monomial_neg(t.1, t.0, values);
        lemma_eval_reduced(a1, values);
        lemma_monomial_scale(t.1, t.0, values);
        lemma_neg_add(evaluate_terms(a1, values), monomial_value(t.1, t.0, values));
    }
}

/// Evaluation is subtractive: at any point, the value of `a - b` is the
/// value of `a` minus the value of `b`.
pub proof fn law_evaluate_sub(a: Seq<TermView>, b: Seq<TermView>, values: Map<usize, (int, nat)>)
    requires
        terms_canonical(a),
        terms_canonical(b),
        values_positive(values),
    ensures
        evaluate_terms(add_terms(a, negate_terms(b)), values) == rat_sub(
            evaluate_terms(a, values),
            evaluate_terms(b, values),
        ),
{
    let n = negate_terms(b);
    assert(terms_canonical(n)) by {
        assert forall|i: int, j: int| 0 <= i < j < n.len() implies crate::monomial::mono_lt(n[i].0, n[j].0) by {
            assert(n[i].0 == b[i].0 && n[j].0 == b[j].0);
        }
        assert forall|i: int| 0 <= i < n.len() implies {
            &&& crate::monomial::powers_wf((#[trigger] n[i]).0)
            &&& rat_reduced(n[i].1)
            &&& n[i].1.0 != 0
        } by {
            assert(n[i] == (b[i].0, rat_neg(b[i].1)));
            assert(abs(-b[i].1.0) == abs(b[i].1.0));
        }
    }
    law_evaluate_add(a, n, values);
    law_evaluate_negate(b, values);
    let x = evaluate_terms(a, values);
    let y = evaluate_terms(b, values);
    assert(x.0 * y.1 + (-y.0) * x.1 == x.0 * y.1 - y.0 * x.1) by (nonlinear_arith);
}

/// The value of a power list: its monomial's value with coefficient one.
pub open spec fn powers_value(p: Seq<(usize, usize)>, values: Map<usize, (int, nat)>) -> (int, nat) {
    monomial_value((1, 1), p, values)
}

/// The value of one factor `x_v ^ e`.
pub open spec fn factor_value(x: (usize, usize), values: Map<usize, (int, nat)>) -> (int, nat) {
    rat_pow(value_of(values, x.0), x.1 as nat)
}

/// Regrouping a product of four fractions with positive denominators.
pub proof fn lemma_mul_regroup(p: (int, nat), q: (int, nat), r: (int, nat), t: (int, nat))
    requires
        p.1 > 0,
        q.1 > 0,
        r.1 > 0,
        t.1 > 0,
    ensures
        rat_mul(rat_mul(p, q), rat_mul(r, t)) == rat_mul(rat_mul(p, r), rat_mul(q, t)),
{
    lemma_mul_value(p, q);
    lemma_mul_value(r, t);
    lemma_mul_value(p, r);
    lemma_mul_value(q, t);
    lemma_mul_value(q, r);
    lemma_mul_value(r, q);
    lemma_mul_associative(p, q, rat_mul(r, t));
    lemma_mul_associative(q, r, t);
    lemma_mul_commutative(q, r);
    lemma_mul_associative(r, q, t);
    lemma_mul_associative(p, r, rat_mul(q, t));
}

/// A power of a sum of exponents is the product of the powers.
pub proof fn lemma_pow_add(x: (int, nat), e1: nat, e2: nat)
    requires
        x.1 > 0,
    ensures
        rat_pow(x, e1 + e2) == rat_mul(rat_pow(x, e1), rat_pow(x, e2)),
    decreases e2,
{
    lemma_pow_reduced(x, e1);
    if e2 == 0 {
        lemma_mul_one(rat_pow(x, e1));
        assert(e1 + e2 == e1);
    } else {
        let e = (e2 - 1) as nat;
        lemma_pow_add(x, e1, e);
        lemma_pow_reduced(x, e);
        assert((e1 + e2 - 1) as nat == e1 + e);
        lemma_mul_associative(rat_pow(x, e1), rat_pow(x, e), x);
    }
}

/// The value of a concatenation of power lists is the product of their
/// values.
pub proof fn lemma_powers_concat(u: Seq<(usize, usize)>, w: Seq<(usize, usize)>, values: Map<usize, (int, nat)>)
    requires
        values_positive(values),
    ensures
        powers_value(u + w, values) == rat_mul(powers_value(u, values), powers_value(w, values)),
    decreases w.len(),
{
    lemma_one_reduced();
    lemma_monomial_scale((1, 1), u, values);
    if w.len() == 0 {
        assert(u + w =~= u);
        lemma_mul_one(powers_value(u, values));
    } else {
        let w1 = w.drop_last();
        assert((u + w).drop_last() =~= u + w1);
        assert((u + w).last() == w.last());
        lemma_powers_concat(u, w1, values);
        lemma_monomial_scale((1, 1), w1, values);
        let x = value_of(values, w.last().0);
        assert(x.1 > 0);
        lemma_pow_reduced(x, w.last().1 as nat);
        lemma_mul_associative(powers_value(u, values), powers_value(w1, values), factor_value(w.last(), values));
    }
}

/// The value of a power list that starts with `x`.
proof fn lemma_powers_first(p: Seq<(usize, usize)>, values: Map<usize, (int, nat)>)
    requires
        values_positive(values),
        p.len() > 0,
    ensures
        powers_value(p, values) == rat_mul(factor_value(p[0], values), powers_value(p.drop_first(), values)),
{
    let head = seq![p[0]];
    assert(p == head + p.drop_first());
    lemma_powers_concat(head, p.drop_first(), values);
    assert(head.drop_last() =~= Seq::<(usize, usize)>::empty());
    assert(head.last() == p[0]);
    assert(monomial_value((1, 1), head.drop_last(), values) == (1int, 1nat));
    assert(powers_value(head, values) == rat_mul((1, 1), factor_value(p[0], values)));
    let x = value_of(values, p[0].0);
    assert(x.1 > 0);
    lemma_pow_reduced(x, p[0].1 as nat);
    lemma_one_reduced();
    lemma_mul_one(factor_value(p[0], values));
}

/// Dropping the first entry keeps a product of power lists free of overflow.
proof fn lemma_fits_drop_first(a: Seq<(usize, usize)>, b: Seq<(usize, usize)>, drop_a: bool, drop_b: bool)
    requires
        mono_mul_fits(a, b),
        drop_a ==> a.len() > 0,
        drop_b ==> b.len() > 0,
    ensures
        mono_mul_fits(if drop_a { a.drop_first() } else { a }, if drop_b { b.drop_first() } else { b }),
{
    let a2 = if drop_a { a.drop_first() } else { a };
    let b2 = if drop_b { b.drop_first() } else { b };
    let da: int = if drop_a { 1 } else { 0 };
    let db: int = if drop_b { 1 } else { 0 };
    assert forall|i: int, j: int|
        0 <= i < a2.len() && 0 <= j < b2.len() && #[trigger] a2[i].0 == #[trigger] b2[j].0 implies a2[i].1
        + b2[j].1 <= usize::MAX by {
        assert(a2[i] == a[i + da]);
        assert(b2[j] == b[j + db]);
    }
}

/// The value of a product of power lists is the product of their values.
proof fn lemma_powers_mul(a: Seq<(usize, usize)>, b: Seq<(usize, usize)>, values: Map<usize, (int, nat)>)
    requires
        values_positive(values),
        mono_mul_fits(a, b),
    ensures
        powers_value(mono_mul(a, b), values) == rat_mul(powers_value(a, values), powers_value(b, values)),
    decreases a.len() + b.len(),
{
    lemma_one_reduced();
    lemma_monomial_scale((1, 1), a, values);
    lemma_monomial_scale((1, 1), b, values);
    if a.len() == 0 {
        lemma_mul_one(powers_value(b, values));
    } else if b.len() == 0 {
        lemma_mul_one(powers_value(a, values));
    } else {
        let a1 = a.drop_first();
        let b1 = b.drop_first();
        let fa = factor_value(a[0], values);
        let fb = factor_value(b[0], values);
        let xa = value_of(values, a[0].0);
        let xb = value_of(values, b[0].0);
        assert(xa.1 > 0 && xb.1 > 0);
        lemma_pow_reduced(xa, a[0].1 as nat);
        lemma_pow_reduced(xb, b[0].1 as nat);
        lemma_monomial_scale((1, 1), a1, values);
        lemma_monomial_scale((1, 1), b1, values);
        lemma_powers_first(a, values);
        lemma_powers_first(b, values);
        let pa = powers_value(a, values);
        let pb = powers_value(b, values);
        let pa1 = powers_value(a1, values);
        let pb1 = powers_value(b1, values);
        let r = mono_mul(a, b);
        if a[0].0 < b[0].0 {
            lemma_fits_drop_first(a, b, true, false);
            lemma_powers_mul(a1, b, values);
            assert(r == seq![a[0]] + mono_mul(a1, b));
            assert(r.drop_first() == mono_mul(a1, b));
            lemma_powers_first(r, values);
            lemma_mul_associative(fa, pa1, pb);
        } else if b[0].0 < a[0].0 {
            lemma_fits_drop_first(a, b, false, true);
            lemma_powers_mul(a, b1, values);
            assert(r == seq![b[0]] + mono_mul(a, b1));
            assert(r.drop_first() == mono_mul(a, b1));
            lemma_powers_first(r, values);
            lemma_mul_associative(fb, pa, pb1);
            lemma_mul_commutative(fb, pa);
            lemma_mul_associative(pa, fb, pb1);
        } else {
            lemma_fits_drop_first(a, b, true, true);
            lemma_powers_mul(a1, b1, values);
            let e = (a[0].1 + b[0].1) as usize;
            assert(a[0].1 + b[0].1 <= usize::MAX);
            assert(r == seq![(a[0].0, e)] + mono_mul(a1, b1));
            assert(r.drop_first() == mono_mul(a1, b1));
            lemma_powers_first(r, values);
            lemma_pow_add(xa, a[0].1 as nat, b[0].1 as nat);
            assert(factor_value(r[0], values) == rat_mul(fa, fb));
            lemma_mul_regroup(fa, fb, pa1, pb1);
        }
    }
}

/// The value of a product term is the product of the term values.
proof fn lemma_monomial_mul(t: TermView, u: TermView, values: Map<usize, (int, nat)>)
    requires
        rat_reduced(t.1),
        rat_reduced(u.1),
        values_positive(values),
        mono_mul_fits(t.0, u.0),
    ensures
        monomial_value(rat_mul(t.1, u.1), mono_mul(t.0, u.0), values) == rat_mul(
            monomial_value(t.1, t.0, values),
            monomial_value(u.1, u.0, values),
        ),
{
    lemma_one_reduced();
    lemma_mul_value(t.1, u.1);
    lemma_monomial_scale(rat_mul(t.1, u.1), mono_mul(t.0, u.0), values);
    lemma_monomial_scale(t.1, t.0, values);
    lemma_monomial_scale(u.1, u.0, values);
    lemma_monomial_scale((1, 1), t.0, values);
    lemma_monomial_scale((1, 1), u.0, values);
    lemma_powers_mul(t.0, u.0, values);
    lemma_mul_regroup(t.1, u.1, powers_value(t.0, values), powers_value(u.0, values));
}

/// Adding the products of one term with a list adds the term's value times
/// the list's value, and keeps canonical form.
proof fn lemma_eval_add_row(acc: Seq<TermView>, t: TermView, b: Seq<TermView>, values: Map<usize, (int, nat)>)
    requires
        terms_canonical(acc),
        powers_wf(t.0),
        rat_reduced(t.1),
        terms_canonical(b),
        forall|j: int| 0 <= j < b.len() ==> mono_mul_fits(t.0, (#[trigger] b[j]).0),
        values_positive(values),
    ensures
        terms_canonical(add_row(acc, t, b)),
        evaluate_terms(add_row(acc, t, b), values) == rat_add(
            evaluate_terms(acc, values),
            rat_mul(monomial_value(t.1, t.0, values), evaluate_terms(b, values)),
        ),
    decreases b.len(),
{
    let ev = evaluate_terms(acc, values);
    let tv = monomial_value(t.1, t.0, values);
    assert(coefficients_reduced(acc));
    lemma_eval_reduced(acc, values);
    lemma_monomial_scale(t.1, t.0, values);
    lemma_zero_reduced(rat_zero());
    if b.len() == 0 {
        lemma_mul_zero(tv, rat_zero());
        lemma_add_zero_right(ev);
    } else {
        let b1 = b.drop_last();
        let u = b.last();
        lemma_canonical_drop_last(b);
        assert forall|j: int| 0 <= j < b1.len() implies mono_mul_fits(t.0, (#[trigger] b1[j]).0) by {
            assert(b1[j] == b[j]);
        }
        lemma_eval_add_row(acc, t, b1, values);
        let row = add_row(acc, t, b1);
        assert(mono_mul_fits(t.0, b[b.len() - 1].0));
        assert(rat_reduced(b[b.len() - 1].1) && powers_wf(b[b.len() - 1].0));
        lemma_mono_mul_wf(t.0, u.0);
        lemma_mul_value(t.1, u.1);
        lemma_insert_canonical(row, mono_mul(t.0, u.0), rat_mul(t.1, u.1));
        lemma_eval_insert(row, mono_mul(t.0, u.0), rat_mul(t.1, u.1), values);
        lemma_monomial_mul(t, u, values);
        let ub = evaluate_terms(b1, values);
        let uv = monomial_value(u.1, u.0, values);
        assert(coefficients_reduced(b1));
        lemma_eval_reduced(b1, values);
        lemma_monomial_scale(u.1, u.0, values);
        lemma_mul_value(tv, ub);
        lemma_mul_value(tv, uv);
        lemma_add_associative(ev, rat_mul(tv, ub), rat_mul(tv, uv));
        lemma_distributive(ub, uv, tv);
        lemma_mul_commutative(rat_add(ub, uv), tv);
        lemma_mul_commutative(ub, tv);
        lemma_mul_commutative(uv, tv);
    }
}

/// A product of canonical terms is canonical and has the product value.
pub proof fn lemma_eval_mul(a: Seq<TermView>, b: Seq<TermView>, values: Map<usize, (int, nat)>)
    requires
        terms_canonical(a),
        terms_canonical(b),
        mul_fits(a, b),
        values_positive(values),
    ensures
        terms_canonical(mul_terms(a, b)),
        evaluate_terms(mul_terms(a, b), values) == rat_mul(
            evaluate_terms(a, values),
            evaluate_terms(b, values),
        ),
    decreases a.len(),
{
    assert(coefficients_reduced(b));
    lemma_eval_reduced(b, values);
    lemma_zero_reduced(rat_zero());
    if a.len() == 0 {
        lemma_mul_zero(evaluate_terms(b, values), rat_zero());
    } else {
        let a1 = a.drop_last();
        let t = a.last();
        lemma_canonical_drop_last(a);
        assert(mul_fits(a1, b)) by {
            assert forall|i: int, j: int| 0 <= i < a1.len() && 0 <= j < b.len() implies mono_mul_fits(
                (#[trigger] a1[i]).0,
                (#[trigger] b[j]).0,
            ) by {
                assert(a1[i] == a[i]);
            }
        }
        lemma_eval_mul(a1, b, values);
        assert(rat_reduced(a[a.len() - 1].1) && powers_wf(a[a.len() - 1].0));
        assert forall|j: int| 0 <= j < b.len() implies mono_mul_fits(t.0, (#[trigger] b[j]).0) by {
            assert(mono_mul_fits(a[a.len() - 1].0, b[j].0));
        }
        lemma_eval_add_row(mul_terms(a1, b), t, b, values);
        let ea = evaluate_terms(a1, values);
        let eb = evaluate_terms(b, values);
        let tv = monomial_value(t.1, t.0, values);
        assert(coefficients_reduced(a1));
        lemma_eval_reduced(a1, values);
        lemma_monomial_scale(t.1, t.0, values);
        lemma_distributive(ea, tv, eb);
    }
}

/// Evaluation is multiplicative: at any point, the value of `a * b` is the
/// value of `a` times the value of `b`, when no exponent of the product
/// overflows.
pub proof fn law_evaluate_mul(a: Seq<TermView>, b: Seq<TermView>, values: Map<usize, (int, nat)>)
    requires
        terms_canonical(a),
        terms_canonical(b),
        mul_fits(a, b),
        values_positive(values),
    ensures
        evaluate_terms(mul_terms(a, b), values) == rat_mul(
            evaluate_terms(a, values),
            evaluate_terms(b, values),
        ),
{
    lemma_eval_mul(a, b, values);
}

/// Assigning `v` leaves the value of a monomial without `v` unchanged.
pub proof fn lemma_monomial_local(
    c: (int, nat),
    p: Seq<(usize, usize)>,
    values: Map<usize, (int, nat)>,
    v: usize,
    x: (int, nat),
)
    requires
        forall|k: int| 0 <= k < p.len() ==> (#[trigger] p[k]).0 != v,
    ensures
        monomial_value(c, p, values.insert(v, x)) == monomial_value(c, p, values),
    decreases p.len(),
{
    if p.len() > 0 {
        let q = p.drop_last();
        assert forall|k: int| 0 <= k < q.len() implies (#[trigger] q[k]).0 != v by {
            assert(q[k] == p[k]);
        }
        lemma_monomial_local(c, q, values, v, x);
        let u = p.last().0;
        assert(p[p.len() - 1] == p.last());
        assert(u != v);
        assert(value_of(values.insert(v, x), u) == value_of(values, u));
    }
}

/// A monomial whose exponent of `v` is one, at a point that assigns `x` to
/// `v`: the value of the rest of the monomial times `x`.
pub proof fn lemma_monomial_split(
    c: (int, nat),
    m: Seq<(usize, usize)>,
    values: Map<usize, (int, nat)>,
    v: usize,
    x: (int, nat),
)
    requires
        powers_wf(m),
        crate::monomial::exponent_of(m, v) == 1,
        rat_reduced(c),
        rat_reduced(x),
        values_positive(values),
    ensures
        monomial_value(c, m, values.insert(v, x)) == rat_mul(
            monomial_value(c, crate::monomial::set_exponent(m, v, 0), values),
            x,
        ),
{
    let w = values.insert(v, x);
    assert(values_positive(w));
    let k = crate::variables::lemma_exponent_listed(m, v);
    crate::monomial::lemma_exponent_at(m, k);
    assert forall|j: int| 0 <= j < k implies (#[trigger] m[j]).0 < v by {
        assert(m[j].0 < m[k].0);
    }
    crate::monomial::lemma_var_position(m, v, k);
    let head = m.take(k);
    let tail = m.skip(k + 1);
    let one = seq![(v, 1usize)];
    assert(m[k] == (v, 1usize));
    assert(crate::monomial::set_exponent(m, v, 0) =~= head + Seq::<(usize, usize)>::empty() + tail);
    assert(crate::monomial::set_exponent(m, v, 0) =~= head + tail);
    assert(m =~= (head + one) + tail);
    assert forall|j: int| 0 <= j < head.len() implies (#[trigger] head[j]).0 != v by {
        assert(head[j] == m[j]);
    }
    assert forall|j: int| 0 <= j < tail.len() implies (#[trigger] tail[j]).0 != v by {
        assert(tail[j] == m[j + k + 1]);
        assert(m[k].0 < m[j + k + 1].0);
    }
    lemma_monomial_local((1, 1), head, values, v, x);
    lemma_monomial_local((1, 1), tail, values, v, x);
    lemma_powers_concat(head + one, tail, w);
    lemma_powers_concat(head, one, w);
    lemma_powers_concat(head, tail, values);
    // the factor x_v
    lemma_one_reduced();
    assert(one.drop_last().len() == 0);
    assert(value_of(w, v) == x);
    assert(rat_pow(x, 0) == (1int, 1nat));
    lemma_mul_one(x);
    assert(rat_pow(x, 1) == x);
    assert(one.last() == (v, 1usize));
    assert(monomial_value((1, 1), one.drop_last(), w) == (1int, 1nat));
    assert(monomial_value((1, 1), one, w) == rat_mul((1, 1), rat_pow(x, 1)));
    assert(powers_value(one, w) == x);
    let a = powers_value(head, values);
    let b = powers_value(tail, values);
    lemma_monomial_scale((1, 1), head, values);
    lemma_monomial_scale((1, 1), tail, values);
    // (a * x) * b == (a * b) * x
    lemma_mul_associative(a, x, b);
    lemma_mul_commutative(x, b);
    lemma_mul_associative(a, b, x);
    // scaling by c
    lemma_monomial_scale(c, m, w);
    lemma_monomial_scale(c, head + tail, values);
    lemma_mul_value(a, b);
    lemma_mul_associative(c, rat_mul(a, b), x);
}

/// The coefficient lists of a canonical polynomial are canonical.
pub proof fn lemma_coefficient_in_canonical(s: Seq<TermView>, v: usize, d: usize)
    requires
        terms_canonical(s),
    ensures
        terms_canonical(crate::polynomial::coefficient_in_terms(s, v, d)),
    decreases s.len(),
{
    if s.len() == 0 {
        assert(terms_canonical(Seq::<TermView>::empty()));
    } else {
        lemma_canonical_drop_last(s);
        lemma_coefficient_in_canonical(s.drop_last(), v, d);
        let t = s.last();
        assert(s[s.len() - 1] == t);
        if crate::monomial::exponent_of(t.0, v) == d {
            crate::monomial::lemma_set_exponent(t.0, v, 0);
            lemma_insert_canonical(
                crate::polynomial::coefficient_in_terms(s.drop_last(), v, d),
                crate::monomial::set_exponent(t.0, v, 0),
                t.1,
            );
        }
    }
}

/// A polynomial of degree at most one in `v`, at a point that assigns `x`
/// to `v`: the value of its part free of `x_v` plus the value of its
/// coefficient of `x_v` times `x`.
pub proof fn lemma_linear_in_variable(s: Seq<TermView>, v: usize, values: Map<usize, (int, nat)>, x: (int, nat))
    requires
        terms_canonical(s),
        crate::polynomial::degree_of(s, v) <= 1,
        rat_reduced(x),
        values_positive(values),
    ensures
        evaluate_terms(s, values.insert(v, x)) == rat_add(
            evaluate_terms(crate::polynomial::coefficient_in_terms(s, v, 0), values),
            rat_mul(evaluate_terms(crate::polynomial::coefficient_in_terms(s, v, 1), values), x),
        ),
    decreases s.len(),
{
    let w = values.insert(v, x);
    lemma_zero_reduced(rat_zero());
    if s.len() == 0 {
        lemma_mul_zero(x, rat_zero());
        lemma_add_zero_left(rat_zero());
    } else {
        let s0 = s.drop_last();
        let t = s.last();
        assert(s[s.len() - 1] == t);
        lemma_canonical_drop_last(s);
        assert(crate::polynomial::degree_of(s0, v) <= 1);
        lemma_linear_in_variable(s0, v, values, x);
        let b0s = crate::polynomial::coefficient_in_terms(s0, v, 0);
        let a0s = crate::polynomial::coefficient_in_terms(s0, v, 1);
        lemma_coefficient_in_canonical(s0, v, 0);
        lemma_coefficient_in_canonical(s0, v, 1);
        let b0 = evaluate_terms(b0s, values);
        let a0 = evaluate_terms(a0s, values);
        lemma_eval_reduced(b0s, values);
        lemma_eval_reduced(a0s, values);
        assert(values_positive(w));
        let e = crate::monomial::exponent_of(t.0, v);
        assert(e <= 1);
        assert(rat_reduced(t.1));
        assert(powers_wf(t.0));
        crate::monomial::lemma_set_exponent(t.0, v, 0);
        let m0 = crate::monomial::set_exponent(t.0, v, 0);
        lemma_monomial_scale(t.1, m0, values);
        let mv = monomial_value(t.1, m0, values);
        lemma_mul_value(a0, x);
        if e == 0 {
            crate::monomial::law_monomial_exponents_determine(m0, t.0);
            assert forall|k: int| 0 <= k < t.0.len() implies (#[trigger] t.0[k]).0 != v by {
                crate::monomial::lemma_exponent_at(t.0, k);
            }
            lemma_monomial_local(t.1, t.0, values, v, x);
            lemma_eval_insert(b0s, m0, t.1, values);
            // (b0 + a0 x) + mv == (b0 + mv) + a0 x
            lemma_add_associative(b0, rat_mul(a0, x), mv);
            lemma_rat_add_commutes(rat_mul(a0, x), mv);
            lemma_add_associative(b0, mv, rat_mul(a0, x));
        } else {
            lemma_monomial_split(t.1, t.0, values, v, x);
            lemma_eval_insert(a0s, m0, t.1, values);
            // (b0 + a0 x) + mv x == b0 + (a0 + mv) x
            lemma_mul_value(mv, x);
            lemma_add_associative(b0, rat_mul(a0, x), rat_mul(mv, x));
            lemma_distributive(a0, mv, x);
        }
    }
}

} // verus!
