//! Which variables a term list mentions, and how each polynomial operation
//! keeps them: sums and products mention only variables of their operands,
//! a coefficient in `v` mentions no `v` at all.
use crate::monomial::{
    exponent_of, lemma_exponent_absent, lemma_exponent_at, lemma_mono_mul_vars, lemma_set_exponent,
    mono_mul, powers_wf, set_exponent,
};
use crate::polynomial::{
    add_row, add_terms, coefficient_in_terms, derivative_terms, insert_term, lemma_position_of_bound,
    mul_terms, negate_terms, one_terms, pow_terms, position_of, coefficient_of, TermView,
};
use crate::rational::{rat_add, rat_int, rat_mul};
use vstd::prelude::*;

verus! {

/// Every variable of the power list belongs to `vars`.
pub open spec fn powers_over(p: Seq<(usize, usize)>, vars: Set<usize>) -> bool {
    forall|k: int| 0 <= k < p.len() ==> vars.contains((#[trigger] p[k]).0)
}

/// Every variable of every term belongs to `vars`.
pub open spec fn terms_over(s: Seq<TermView>, vars: Set<usize>) -> bool {
    forall|i: int| 0 <= i < s.len() ==> powers_over((#[trigger] s[i]).0, vars)
}

/// Every monomial of the terms is well formed.
pub open spec fn monomials_wf(s: Seq<TermView>) -> bool {
    forall|i: int| 0 <= i < s.len() ==> powers_wf((#[trigger] s[i]).0)
}

/// The variables that occur in some term.
pub open spec fn variables_of(s: Seq<TermView>) -> Set<usize> {
    Set::new(
        |v: usize|
            exists|i: int, k: int| 0 <= i < s.len() && 0 <= k < s[i].0.len() && (#[trigger] s[i].0[k]).0 == v,
    )
}

/// A term list mentions only its own variables.
pub proof fn lemma_over_own_variables(s: Seq<TermView>)
    ensures
        terms_over(s, variables_of(s)),
{
    assert forall|i: int| 0 <= i < s.len() implies powers_over((#[trigger] s[i]).0, variables_of(s)) by {
        assert forall|k: int| 0 <= k < s[i].0.len() implies variables_of(s).contains(
            (#[trigger] s[i].0[k]).0,
        ) by {}
    }
}

/// A term list over a set is over every larger set.
pub proof fn lemma_over_subset(s: Seq<TermView>, a: Set<usize>, b: Set<usize>)
    requires
        terms_over(s, a),
        a.subset_of(b),
    ensures
        terms_over(s, b),
{
    assert forall|i: int| 0 <= i < s.len() implies powers_over((#[trigger] s[i]).0, b) by {
        assert(powers_over(s[i].0, a));
        assert forall|k: int| 0 <= k < s[i].0.len() implies b.contains((#[trigger] s[i].0[k]).0) by {
            assert(a.contains(s[i].0[k].0));
        }
    }
}

/// A product of power lists uses only variables of its factors.
pub proof fn lemma_mono_mul_over(a: Seq<(usize, usize)>, b: Seq<(usize, usize)>, vars: Set<usize>)
    requires
        powers_over(a, vars),
        powers_over(b, vars),
    ensures
        powers_over(mono_mul(a, b), vars),
{
    let m = mono_mul(a, b);
    assert forall|k: int| 0 <= k < m.len() implies vars.contains((#[trigger] m[k]).0) by {
        lemma_mono_mul_vars(a, b, k);
    }
}

/// A variable with a positive exponent is listed.
pub proof fn lemma_exponent_listed(p: Seq<(usize, usize)>, u: usize) -> (k: int)
    requires
        exponent_of(p, u) > 0,
    ensures
        0 <= k < p.len(),
        p[k].0 == u,
{
    if forall|j: int| 0 <= j < p.len() ==> (#[trigger] p[j]).0 != u {
        lemma_exponent_absent(p, u);
    }
    choose|j: int| 0 <= j < p.len() && (#[trigger] p[j]).0 == u
}

/// Setting an exponent brings in no new variable unless that exponent is
/// positive and the variable was there already; setting it to zero removes
/// the variable.
pub proof fn lemma_set_exponent_over(p: Seq<(usize, usize)>, v: usize, e: usize, vars: Set<usize>)
    requires
        powers_wf(p),
        powers_over(p, vars),
        e == 0 || exponent_of(p, v) > 0,
    ensures
        powers_wf(set_exponent(p, v, e)),
        powers_over(set_exponent(p, v, e), vars),
        e == 0 ==> powers_over(set_exponent(p, v, e), vars.remove(v)),
{
    let r = set_exponent(p, v, e);
    lemma_set_exponent(p, v, e);
    assert forall|k: int| 0 <= k < r.len() implies vars.contains((#[trigger] r[k]).0) && (e == 0
        ==> r[k].0 != v) by {
        let u = r[k].0;
        lemma_exponent_at(r, k);
        assert(exponent_of(r, u) >= 1);
        if u == v {
            let j = lemma_exponent_listed(p, v);
            assert(vars.contains(p[j].0));
        } else {
            assert(exponent_of(p, u) == exponent_of(r, u));
            let j = lemma_exponent_listed(p, u);
            assert(vars.contains(p[j].0));
        }
    }
}

/// Adding a term keeps every property that all monomials, the new one
/// included, share.
pub proof fn lemma_insert_keeps(
    s: Seq<TermView>,
    m: Seq<(usize, usize)>,
    c: (int, nat),
    prop: spec_fn(Seq<(usize, usize)>) -> bool,
)
    requires
        forall|i: int| 0 <= i < s.len() ==> prop((#[trigger] s[i]).0),
        prop(m),
    ensures
        forall|i: int| 0 <= i < insert_term(s, m, c).len() ==> prop((#[trigger] insert_term(s, m, c)[i]).0),
{
    let r = insert_term(s, m, c);
    let i = position_of(s, m) as int;
    lemma_position_of_bound(s, m);
    let found = i < s.len() && s[i].0 == m;
    let x = rat_add(coefficient_of(s, m), c);
    let j0 = if found {
        i + 1
    } else {
        i
    };
    let mid: int = if x.0 == 0 {
        0
    } else {
        1
    };
    assert forall|a: int| 0 <= a < r.len() implies prop((#[trigger] r[a]).0) by {
        if a < i {
            assert(r[a] == s[a]);
        } else if a >= i + mid {
            assert(r[a] == s[a - i - mid + j0]);
        }
    }
}

/// Adding a term over `vars` keeps a term list over `vars`.
pub proof fn lemma_insert_over(s: Seq<TermView>, m: Seq<(usize, usize)>, c: (int, nat), vars: Set<usize>)
    requires
        terms_over(s, vars),
        powers_over(m, vars),
    ensures
        terms_over(insert_term(s, m, c), vars),
{
    let prop = |p: Seq<(usize, usize)>| powers_over(p, vars);
    assert forall|i: int| 0 <= i < s.len() implies prop((#[trigger] s[i]).0) by {
        assert(powers_over(s[i].0, vars));
    }
    lemma_insert_keeps(s, m, c, prop);
    let r = insert_term(s, m, c);
    assert forall|i: int| 0 <= i < r.len() implies powers_over((#[trigger] r[i]).0, vars) by {
        assert(prop(r[i].0));
    }
}

/// A sum mentions only variables of its operands.
pub proof fn lemma_add_terms_over(a: Seq<TermView>, b: Seq<TermView>, vars: Set<usize>)
    requires
        terms_over(a, vars),
        terms_over(b, vars),
    ensures
        terms_over(add_terms(a, b), vars),
    decreases b.len(),
{
    if b.len() > 0 {
        let b1 = b.drop_last();
        assert(terms_over(b1, vars)) by {
            assert forall|i: int| 0 <= i < b1.len() implies powers_over((#[trigger] b1[i]).0, vars) by {
                assert(b1[i] == b[i]);
            }
        }
        lemma_add_terms_over(a, b1, vars);
        assert(powers_over(b[b.len() - 1].0, vars));
        lemma_insert_over(add_terms(a, b1), b.last().0, b.last().1, vars);
    }
}

/// Negating keeps every monomial.
pub proof fn lemma_negate_over(a: Seq<TermView>, vars: Set<usize>)
    requires
        terms_over(a, vars),
    ensures
        terms_over(negate_terms(a), vars),
{
    let n = negate_terms(a);
    assert forall|i: int| 0 <= i < n.len() implies powers_over((#[trigger] n[i]).0, vars) by {
        assert(n[i].0 == a[i].0);
    }
}

/// Adding the products of one term with a list keeps the variables.
pub proof fn lemma_add_row_over(acc: Seq<TermView>, t: TermView, b: Seq<TermView>, vars: Set<usize>)
    requires
        terms_over(acc, vars),
        powers_over(t.0, vars),
        terms_over(b, vars),
    ensures
        terms_over(add_row(acc, t, b), vars),
    decreases b.len(),
{
    if b.len() > 0 {
        let b1 = b.drop_last();
        assert(terms_over(b1, vars)) by {
            assert forall|i: int| 0 <= i < b1.len() implies powers_over((#[trigger] b1[i]).0, vars) by {
                assert(b1[i] == b[i]);
            }
        }
        lemma_add_row_over(acc, t, b1, vars);
        assert(powers_over(b[b.len() - 1].0, vars));
        lemma_mono_mul_over(t.0, b.last().0, vars);
        lemma_insert_over(add_row(acc, t, b1), mono_mul(t.0, b.last().0), rat_mul(t.1, b.last().1), vars);
    }
}

/// A product mentions only variables of its factors.
pub proof fn lemma_mul_terms_over(a: Seq<TermView>, b: Seq<TermView>, vars: Set<usize>)
    requires
        terms_over(a, vars),
        terms_over(b, vars),
    ensures
        terms_over(mul_terms(a, b), vars),
    decreases a.len(),
{
    if a.len() > 0 {
        let a1 = a.drop_last();
        assert(terms_over(a1, vars)) by {
            assert forall|i: int| 0 <= i < a1.len() implies powers_over((#[trigger] a1[i]).0, vars) by {
                assert(a1[i] == a[i]);
            }
        }
        lemma_mul_terms_over(a1, b, vars);
        assert(powers_over(a[a.len() - 1].0, vars));
        lemma_add_row_over(mul_terms(a1, b), a.last(), b, vars);
    }
}

/// The constant one mentions no variable.
pub proof fn lemma_one_over(vars: Set<usize>)
    ensures
        terms_over(one_terms(), vars),
{
    assert forall|i: int| 0 <= i < one_terms().len() implies powers_over((#[trigger] one_terms()[i]).0, vars) by {
        assert(one_terms()[i].0.len() == 0);
    }
}

/// A power mentions only variables of its base.
pub proof fn lemma_pow_terms_over(s: Seq<TermView>, e: nat, vars: Set<usize>)
    requires
        terms_over(s, vars),
    ensures
        terms_over(pow_terms(s, e), vars),
    decreases e,
{
    if e == 0 {
        lemma_one_over(vars);
    } else {
        lemma_pow_terms_over(s, (e - 1) as nat, vars);
        lemma_mul_terms_over(pow_terms(s, (e - 1) as nat), s, vars);
    }
}

/// A coefficient in `v` keeps well-formed monomials and mentions no `v`.
pub proof fn lemma_coefficient_in_over(s: Seq<TermView>, v: usize, d: usize, vars: Set<usize>)
    requires
        monomials_wf(s),
        terms_over(s, vars),
    ensures
        monomials_wf(coefficient_in_terms(s, v, d)),
        terms_over(coefficient_in_terms(s, v, d), vars.remove(v)),
    decreases s.len(),
{
    if s.len() > 0 {
        let s1 = s.drop_last();
        assert(terms_over(s1, vars) && monomials_wf(s1)) by {
            assert forall|i: int| 0 <= i < s1.len() implies powers_over((#[trigger] s1[i]).0, vars) by {
                assert(s1[i] == s[i]);
            }
            assert forall|i: int| 0 <= i < s1.len() implies powers_wf((#[trigger] s1[i]).0) by {
                assert(s1[i] == s[i]);
            }
        }
        lemma_coefficient_in_over(s1, v, d, vars);
        let t = s.last();
        assert(powers_over(s[s.len() - 1].0, vars) && powers_wf(s[s.len() - 1].0));
        if exponent_of(t.0, v) == d {
            let r1 = coefficient_in_terms(s1, v, d);
            let m = set_exponent(t.0, v, 0);
            lemma_set_exponent_over(t.0, v, 0, vars);
            lemma_insert_over(r1, m, t.1, vars.remove(v));
            let prop = |p: Seq<(usize, usize)>| powers_wf(p);
            assert forall|i: int| 0 <= i < r1.len() implies prop((#[trigger] r1[i]).0) by {
                assert(powers_wf(r1[i].0));
            }
            lemma_insert_keeps(r1, m, t.1, prop);
            let r = insert_term(r1, m, t.1);
            assert forall|i: int| 0 <= i < r.len() implies powers_wf((#[trigger] r[i]).0) by {
                assert(prop(r[i].0));
            }
        }
    }
}

/// A derivative keeps well-formed monomials and mentions only variables of
/// the polynomial.
pub proof fn lemma_derivative_over(s: Seq<TermView>, v: usize, vars: Set<usize>)
    requires
        monomials_wf(s),
        terms_over(s, vars),
    ensures
        monomials_wf(derivative_terms(s, v)),
        terms_over(derivative_terms(s, v), vars),
    decreases s.len(),
{
    if s.len() > 0 {
        let s1 = s.drop_last();
        assert(terms_over(s1, vars) && monomials_wf(s1)) by {
            assert forall|i: int| 0 <= i < s1.len() implies powers_over((#[trigger] s1[i]).0, vars) by {
                assert(s1[i] == s[i]);
            }
            assert forall|i: int| 0 <= i < s1.len() implies powers_wf((#[trigger] s1[i]).0) by {
                assert(s1[i] == s[i]);
            }
        }
        lemma_derivative_over(s1, v, vars);
        let t = s.last();
        assert(powers_over(s[s.len() - 1].0, vars) && powers_wf(s[s.len() - 1].0));
        let e = exponent_of(t.0, v);
        if e > 0 {
            let r1 = derivative_terms(s1, v);
            let m = set_exponent(t.0, v, (e - 1) as usize);
            let c = rat_mul(t.1, rat_int(e as int));
            lemma_set_exponent_over(t.0, v, (e - 1) as usize, vars);
            lemma_insert_over(r1, m, c, vars);
            let prop = |p: Seq<(usize, usize)>| powers_wf(p);
            assert forall|i: int| 0 <= i < r1.len() implies prop((#[trigger] r1[i]).0) by {
                assert(powers_wf(r1[i].0));
            }
            lemma_insert_keeps(r1, m, c, prop);
            let r = insert_term(r1, m, c);
            assert forall|i: int| 0 <= i < r.len() implies powers_wf((#[trigger] r[i]).0) by {
                assert(prop(r[i].0));
            }
        }
    }
}

/// Setting the exponent of `v` brings in no variable but `v`.
pub proof fn lemma_set_exponent_adds(p: Seq<(usize, usize)>, v: usize, e: usize, vars: Set<usize>)
    requires
        powers_wf(p),
        powers_over(p, vars),
    ensures
        powers_wf(set_exponent(p, v, e)),
        powers_over(set_exponent(p, v, e), vars.insert(v)),
{
    let r = set_exponent(p, v, e);
    lemma_set_exponent(p, v, e);
    assert forall|k: int| 0 <= k < r.len() implies vars.insert(v).contains((#[trigger] r[k]).0) by {
        let u = r[k].0;
        lemma_exponent_at(r, k);
        if u != v {
            assert(exponent_of(p, u) == exponent_of(r, u));
            let j = lemma_exponent_listed(p, u);
            assert(vars.contains(p[j].0));
        }
    }
}

/// Renaming `old` to `new` in a monomial leaves `old` out and brings in no
/// variable but `new`.
pub proof fn lemma_rename_powers_over(p: Seq<(usize, usize)>, old: usize, new: usize, vars: Set<usize>)
    requires
        powers_wf(p),
        powers_over(p, vars),
        old != new,
    ensures
        powers_over(crate::polynomial::rename_powers(p, old, new), vars.remove(old).insert(new)),
{
    let e = exponent_of(p, old);
    if e == 0 {
        assert forall|k: int| 0 <= k < p.len() implies vars.remove(old).insert(new).contains((#[trigger] p[k]).0) by {
            if p[k].0 == old {
                lemma_exponent_at(p, k);
            }
        }
    } else {
        lemma_set_exponent_over(p, old, 0, vars);
        let q = set_exponent(p, old, 0);
        lemma_set_exponent_adds(q, new, (exponent_of(q, new) + e) as usize, vars.remove(old));
    }
}

/// Renaming `old` to `new` in a polynomial leaves `old` out and brings in
/// no variable but `new`.
pub proof fn lemma_rename_terms_over(s: Seq<TermView>, old: usize, new: usize, vars: Set<usize>)
    requires
        monomials_wf(s),
        terms_over(s, vars),
        old != new,
    ensures
        terms_over(crate::polynomial::rename_terms(s, old, new), vars.remove(old).insert(new)),
    decreases s.len(),
{
    if s.len() > 0 {
        let s0 = s.drop_last();
        assert(monomials_wf(s0) && terms_over(s0, vars)) by {
            assert forall|i: int| 0 <= i < s0.len() implies powers_wf((#[trigger] s0[i]).0) && powers_over(s0[i].0, vars) by {
                assert(s0[i] == s[i]);
            }
        }
        lemma_rename_terms_over(s0, old, new, vars);
        let t = s.last();
        assert(s[s.len() - 1] == t);
        lemma_rename_powers_over(t.0, old, new, vars);
        lemma_insert_over(
            crate::polynomial::rename_terms(s0, old, new),
            crate::polynomial::rename_powers(t.0, old, new),
            t.1,
            vars.remove(old).insert(new),
        );
    }
}

} // verus!
