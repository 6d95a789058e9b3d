//! The sign partition met when the symmetric sum/product rule meets a cubic:
//! a disjunction of the branches `-1 - k > 0 && k^3 - 3k^2 >= 0`,
//! `-1 - k < 0 && k^3 - 3k^2 <= 0` (and, with three branches,
//! `-1 - k = 0 && k = 0`), in either orientation, which holds exactly when
//! `1 + k > 0 && 3 - k >= 0`.
use crate::formula::{all_wf, formula_wf, lemma_all_wf_member, lemma_views_of, views_of, Formula, FormulaView, Relation};
use crate::qe::simplify::lemma_all_wf_iff;
use crate::polynomial::{
    add_terms, max_exponent, mul_terms, negate_terms, pow_terms, Polynomial, TermView,
};
use vstd::prelude::*;

verus! {

/// The terms of the integer constant `n`.
pub open spec fn integer_terms(n: int) -> Seq<TermView> {
    if n == 0 {
        Seq::<TermView>::empty()
    } else {
        seq![(Seq::<(usize, usize)>::empty(), (n, 1nat))]
    }
}

/// The terms of `x_v`.
pub open spec fn variable_terms(v: usize) -> Seq<TermView> {
    seq![(seq![(v, 1usize)], (1int, 1nat))]
}

/// `-1 - x_v`.
pub open spec fn minus_one_minus(v: usize) -> Seq<TermView> {
    add_terms(integer_terms(-1), negate_terms(variable_terms(v)))
}

/// `1 + x_v`.
pub open spec fn one_plus(v: usize) -> Seq<TermView> {
    add_terms(integer_terms(1), variable_terms(v))
}

/// `3 - x_v`.
pub open spec fn three_minus(v: usize) -> Seq<TermView> {
    add_terms(integer_terms(3), negate_terms(variable_terms(v)))
}

/// `x_v^3 - 3 x_v^2`.
pub open spec fn cubic_difference(v: usize) -> Seq<TermView> {
    add_terms(
        pow_terms(variable_terms(v), 3),
        negate_terms(mul_terms(integer_terms(3), pow_terms(variable_terms(v), 2))),
    )
}

/// The polynomial is `-1 - x_v` or `1 + x_v`.
pub open spec fn linear_in(p: Seq<TermView>, v: usize) -> bool {
    p == minus_one_minus(v) || p == one_plus(v)
}

/// `v` is the least variable of `p` with `linear_in(p, v)`.
pub open spec fn least_pattern(p: Seq<TermView>, v: usize) -> bool {
    &&& crate::polynomial::has_variable(p, v)
    &&& linear_in(p, v)
    &&& forall|w: usize| w < v ==> !(crate::polynomial::has_variable(p, w) && linear_in(p, w))
}

/// The least variable `v` of the polynomial with `linear_in(p, v)`.
#[verifier::opaque]
pub open spec fn pattern_variable(p: Seq<TermView>) -> Option<usize> {
    if exists|v: usize| crate::polynomial::has_variable(p, v) && #[trigger] linear_in(p, v) {
        Some(choose|v: usize| #[trigger] least_pattern(p, v))
    } else {
        None
    }
}

/// The pattern variable of an atom's polynomial.
pub open spec fn atom_variable(f: FormulaView) -> Option<usize> {
    match f {
        FormulaView::Atom(p, _) => pattern_variable(p),
        _ => None,
    }
}

/// One step of the search through members.
proof fn lemma_members_step(ms: Seq<FormulaView>, k: int)
    requires
        0 <= k < ms.len(),
    ensures
        first_in_members(ms.skip(k)) == if atom_variable(ms[k]) is Some {
            atom_variable(ms[k])
        } else {
            first_in_members(ms.skip(k + 1))
        },
{
    assert(ms.skip(k)[0] == ms[k]);
    assert(ms.skip(k).drop_first() =~= ms.skip(k + 1));
}

/// One step of the search through terms.
proof fn lemma_terms_step(ts: Seq<Seq<FormulaView>>, t: int)
    requires
        0 <= t < ts.len(),
    ensures
        first_in_terms(ts.skip(t)) == if first_in_members(ts[t]) is Some {
            first_in_members(ts[t])
        } else {
            first_in_terms(ts.skip(t + 1))
        },
{
    assert(ts.skip(t)[0] == ts[t]);
    assert(ts.skip(t).drop_first() =~= ts.skip(t + 1));
}

/// The pattern variable of the first member, in order, that is an atom
/// with one.
pub open spec fn first_in_members(members: Seq<FormulaView>) -> Option<usize>
    decreases members.len(),
{
    if members.len() == 0 {
        None
    } else {
        if atom_variable(members[0]) is Some {
            atom_variable(members[0])
        } else {
            first_in_members(members.drop_first())
        }
    }
}

/// The pattern variable of the first atom with one, term by term.
pub open spec fn first_in_terms(terms: Seq<Seq<FormulaView>>) -> Option<usize>
    decreases terms.len(),
{
    if terms.len() == 0 {
        None
    } else if first_in_members(terms[0]) is Some {
        first_in_members(terms[0])
    } else {
        first_in_terms(terms.drop_first())
    }
}

/// The term holds the atom `lp lr 0` and the atom `cp cr 0`.
pub open spec fn has_branch(
    term: Seq<FormulaView>,
    lp: Seq<TermView>,
    lr: Relation,
    cr: Relation,
    cp: Seq<TermView>,
) -> bool {
    &&& exists|k: int| 0 <= k < term.len() && term[k] == FormulaView::Atom(lp, lr)
    &&& exists|k: int| 0 <= k < term.len() && term[k] == FormulaView::Atom(cp, cr)
}

/// Some term has the branch.
pub open spec fn some_branch(
    terms: Seq<Seq<FormulaView>>,
    lp: Seq<TermView>,
    lr: Relation,
    cr: Relation,
    cp: Seq<TermView>,
) -> bool {
    exists|i: int| 0 <= i < terms.len() && #[trigger] has_branch(terms[i], lp, lr, cr, cp)
}

/// A conjunction of two members.
pub open spec fn is_pair(f: FormulaView) -> bool {
    f matches FormulaView::And(ms) && ms.len() == 2
}

/// The members of each disjunct, when every disjunct is a conjunction of
/// two.
pub open spec fn pair_terms(fs: Seq<FormulaView>) -> Option<Seq<Seq<FormulaView>>> {
    if forall|i: int| 0 <= i < fs.len() ==> #[trigger] is_pair(fs[i]) {
        Some(Seq::new(fs.len(), |i: int| fs[i]->And_0))
    } else {
        None
    }
}

/// The branches match in the orientation of `lin` and `cubic`.
pub open spec fn oriented(
    terms: Seq<Seq<FormulaView>>,
    n: nat,
    lin: Seq<TermView>,
    cubic: Seq<TermView>,
    v: usize,
    above: Relation,
    above_weak: Relation,
    below: Relation,
    below_weak: Relation,
) -> bool {
    &&& some_branch(terms, lin, above, above_weak, cubic)
    &&& some_branch(terms, lin, below, below_weak, cubic)
    &&& (n == 2 || some_branch(terms, lin, Relation::Equal, Relation::Equal, variable_terms(v)))
}

/// What the partition simplifies to, when it matches.
pub open spec fn cubic_partition_result(fs: Seq<FormulaView>) -> Option<FormulaView> {
    if !(fs.len() == 2 || fs.len() == 3) {
        None
    } else if pair_terms(fs) is None {
        None
    } else {
        let terms = pair_terms(fs)->0;
        match first_in_terms(terms) {
            None => None,
            Some(v) => {
                let lin = minus_one_minus(v);
                let cubic = cubic_difference(v);
                if oriented(
                    terms,
                    fs.len(),
                    lin,
                    cubic,
                    v,
                    Relation::Greater,
                    Relation::GreaterOrEqual,
                    Relation::Less,
                    Relation::LessOrEqual,
                ) || oriented(
                    terms,
                    fs.len(),
                    negate_terms(lin),
                    negate_terms(cubic),
                    v,
                    Relation::Less,
                    Relation::LessOrEqual,
                    Relation::Greater,
                    Relation::GreaterOrEqual,
                ) {
                    Some(
                        FormulaView::And(
                            seq![
                                FormulaView::Atom(one_plus(v), Relation::Greater),
                                FormulaView::Atom(three_minus(v), Relation::GreaterOrEqual),
                            ],
                        ),
                    )
                } else {
                    None
                }
            },
        }
    }
}

/// Whether some member of `term` is the atom `p r 0`.
fn term_has_atom(term: &Vec<Formula>, p: &Polynomial, r: Relation) -> (b: bool)
    requires
        all_wf(term@),
        p.wf(),
    ensures
        b == exists|k: int| 0 <= k < term@.len() && views_of(term@)[k] == FormulaView::Atom(p@, r),
{
    let mut k: usize = 0;
    proof {
        lemma_views_of(term@);
    }
    while k < term.len()
        invariant
            all_wf(term@),
            p.wf(),
            k <= term@.len(),
            views_of(term@).len() == term@.len(),
            forall|j: int| 0 <= j < term@.len() ==> #[trigger] views_of(term@)[j] == term@[j]@,
            forall|j: int| 0 <= j < k ==> views_of(term@)[j] != FormulaView::Atom(p@, r),
        decreases term@.len() - k,
    {
        proof {
            lemma_all_wf_member(term@, k as int);
        }
        if let Formula::Atom(atom) = &term[k] {
            if atom.relation == r && atom.polynomial.equals(p) {
                proof {
                    assert(views_of(term@)[k as int] == FormulaView::Atom(p@, r));
                }
                return true;
            }
        }
        k = k + 1;
    }
    false
}

/// Whether some disjunct holds both atoms.
fn any_branch(formulas: &Vec<Formula>, lp: &Polynomial, lr: Relation, cr: Relation, cp: &Polynomial) -> (b: bool)
    requires
        all_wf(formulas@),
        pair_terms(views_of(formulas@)) is Some,
        lp.wf(),
        cp.wf(),
    ensures
        b == some_branch(pair_terms(views_of(formulas@))->0, lp@, lr, cr, cp@),
{
    let ghost fs = views_of(formulas@);
    let ghost ts = pair_terms(fs)->0;
    proof {
        lemma_views_of(formulas@);
    }
    let mut i: usize = 0;
    while i < formulas.len()
        invariant
            all_wf(formulas@),
            fs == views_of(formulas@),
            fs.len() == formulas@.len(),
            forall|j: int| 0 <= j < fs.len() ==> #[trigger] fs[j] == formulas@[j]@,
            pair_terms(fs) is Some,
            ts == pair_terms(fs)->0,
            lp.wf(),
            cp.wf(),
            i <= formulas@.len(),
            forall|j: int| 0 <= j < i ==> !#[trigger] has_branch(ts[j], lp@, lr, cr, cp@),
        decreases formulas@.len() - i,
    {
        proof {
            lemma_all_wf_member(formulas@, i as int);
            assert(is_pair(fs[i as int]));
        }
        match &formulas[i] {
            Formula::And(members) => {
                proof {
                    lemma_views_of(members@);
                    assert(ts[i as int] == views_of(members@));
                }
                if term_has_atom(members, lp, lr) && term_has_atom(members, cp, cr) {
                    proof {
                        assert(has_branch(ts[i as int], lp@, lr, cr, cp@));
                    }
                    return true;
                }
            },
            _ => {
                proof {
                    assert(false);
                }
            },
        }
        i = i + 1;
    }
    false
}

/// The least variable of `p` in whose `-1 - x` or `1 + x` form it is.
fn atom_pattern_variable(p: &Polynomial) -> (r: Option<usize>)
    requires
        p.wf(),
    ensures
        r == pattern_variable(p@),
{
    reveal(pattern_variable);
    let vs = p.variables();
    let mut i: usize = 0;
    while i < vs.len()
        invariant
            p.wf(),
            crate::polynomial::strictly_increasing(vs@),
            forall|v: usize| vs@.contains(v) <==> crate::polynomial::has_variable(p@, v),
            i <= vs@.len(),
            forall|j: int| 0 <= j < i ==> !#[trigger] linear_in(p@, vs@[j]),
        decreases vs@.len() - i,
    {
        let v = vs[i];
        let lin = Polynomial::integer(-1).minus(&Polynomial::variable(v));
        let plus = Polynomial::integer(1).plus(&Polynomial::variable(v));
        if p.equals(&lin) || p.equals(&plus) {
            proof {
                assert(vs@.contains(v));
                assert(linear_in(p@, v));
                assert forall|w: usize| w < v implies !(crate::polynomial::has_variable(p@, w) && linear_in(p@, w)) by {
                    if crate::polynomial::has_variable(p@, w) && linear_in(p@, w) {
                        assert(vs@.contains(w));
                        let j = choose|j: int| 0 <= j < vs@.len() && vs@[j] == w;
                        if j >= i {
                            if j > i {
                                assert(vs@[i as int] < vs@[j]);
                            }
                        }
                    }
                }
                reveal(pattern_variable);
                assert(least_pattern(p@, v));
                assert(exists|u: usize| crate::polynomial::has_variable(p@, u) && #[trigger] linear_in(p@, u));
                let c = choose|u: usize| #[trigger] least_pattern(p@, u);
                assert(least_pattern(p@, c));
                if c < v {
                    assert(!(crate::polynomial::has_variable(p@, c) && linear_in(p@, c)));
                } else if v < c {
                    assert(!(crate::polynomial::has_variable(p@, v) && linear_in(p@, v)));
                }
                assert(pattern_variable(p@) == Some(c));
            }
            return Some(v);
        }
        i = i + 1;
    }
    proof {
        assert(!exists|v: usize| crate::polynomial::has_variable(p@, v) && #[trigger] linear_in(p@, v)) by {
            if exists|v: usize| crate::polynomial::has_variable(p@, v) && #[trigger] linear_in(p@, v) {
                let v = choose|v: usize| crate::polynomial::has_variable(p@, v) && #[trigger] linear_in(p@, v);
                assert(vs@.contains(v));
                let j = choose|j: int| 0 <= j < vs@.len() && vs@[j] == v;
                assert(!linear_in(p@, vs@[j]));
            }
        }
    }
    None
}

/// Recognizes the sign partition of the cubic symmetric case in the
/// members of a disjunction, and gives the conjunction `1 + k > 0 &&
/// 3 - k >= 0` it amounts to; `None` when the members do not have its
/// shape.
pub fn simplify_cubic_symmetric_sign_partition(formulas: &Vec<Formula>) -> (r: Option<Formula>)
    requires
        all_wf(formulas@),
    ensures
        match r {
            Some(f) => formula_wf(f) && cubic_partition_result(views_of(formulas@)) == Some(f@),
            None => cubic_partition_result(views_of(formulas@)) is None,
        },
{
    let ghost fs = views_of(formulas@);
    proof {
        lemma_views_of(formulas@);
    }
    let n = formulas.len();
    if !(n == 2 || n == 3) {
        return None;
    }
    let mut i: usize = 0;
    while i < n
        invariant
            n == formulas@.len(),
            all_wf(formulas@),
            fs == views_of(formulas@),
            fs.len() == n,
            forall|j: int| 0 <= j < n ==> #[trigger] fs[j] == formulas@[j]@,
            i <= n,
            forall|j: int| 0 <= j < i ==> #[trigger] is_pair(fs[j]),
        decreases n - i,
    {
        proof {
            lemma_all_wf_member(formulas@, i as int);
        }
        match &formulas[i] {
            Formula::And(members) => {
                proof {
                    lemma_views_of(members@);
                    assert(fs[i as int] == FormulaView::And(views_of(members@)));
                }
                if members.len() != 2 {
                    proof {
                        assert(!is_pair(fs[i as int]));
                        assert(pair_terms(fs) is None);
                    }
                    return None;
                }
            },
            _ => {
                proof {
                    assert(!is_pair(fs[i as int]));
                    assert(pair_terms(fs) is None);
                }
                return None;
            },
        }
        i = i + 1;
    }
    let ghost ts = pair_terms(fs)->0;
    proof {
        assert(pair_terms(fs) is Some);
        assert(ts.skip(0) =~= ts);
    }
    let mut found: Option<usize> = None;
    let mut t: usize = 0;
    while t < n && found.is_none()
        invariant
            n == formulas@.len(),
            all_wf(formulas@),
            fs == views_of(formulas@),
            fs.len() == n,
            forall|j: int| 0 <= j < n ==> #[trigger] fs[j] == formulas@[j]@,
            pair_terms(fs) is Some,
            ts == pair_terms(fs)->0,
            ts.len() == n,
            t <= n,
            found is None ==> first_in_terms(ts) == first_in_terms(ts.skip(t as int)),
            found is Some ==> first_in_terms(ts) == found,
        decreases n - t, if found is None { 1int } else { 0int },
    {
        proof {
            lemma_all_wf_member(formulas@, t as int);
            assert(is_pair(fs[t as int]));
        }
        let members = match &formulas[t] {
            Formula::And(members) => members,
            _ => {
                proof {
                    assert(false);
                }
                return None;
            },
        };
        let ghost ms = views_of(members@);
        proof {
            lemma_views_of(members@);
            lemma_terms_step(ts, t as int);
            assert(ts[t as int] == ms);
            assert(ms.skip(0) =~= ms);
        }
        let mut k: usize = 0;
        let mut here: Option<usize> = None;
        while k < members.len() && here.is_none()
            invariant
                all_wf(members@),
                ms == views_of(members@),
                ms.len() == members@.len(),
                forall|j: int| 0 <= j < members@.len() ==> #[trigger] ms[j] == members@[j]@,
                k <= members@.len(),
                here is None ==> first_in_members(ms) == first_in_members(ms.skip(k as int)),
                here is Some ==> first_in_members(ms) == here,
            decreases members@.len() - k, if here is None { 1int } else { 0int },
        {
            proof {
                lemma_all_wf_member(members@, k as int);
                lemma_members_step(ms, k as int);
            }
            if let Formula::Atom(atom) = &members[k] {
                here = atom_pattern_variable(&atom.polynomial);
            }
            proof {
                assert(here == atom_variable(ms[k as int]));
            }
            k = k + 1;
        }
        proof {
            if here is None {
                assert(ms.skip(k as int).len() == 0);
            }
        }
        found = here;
        t = t + 1;
    }
    proof {
        if found is None {
            assert(ts.skip(t as int).len() == 0);
        }
    }
    let v = match found {
        Some(v) => v,
        None => return None,
    };
    let variable = Polynomial::variable(v);
    let lin = Polynomial::integer(-1).minus(&variable);
    proof {
        let m = variable@[0].0;
        assert(m.drop_last().len() == 0);
        assert(crate::monomial::power_max(m.drop_last()) == 0);
        assert(m.last().1 == 1);
        assert(crate::monomial::power_max(m) == 1);
        assert(variable@.drop_last().len() == 0);
        assert(max_exponent(variable@.drop_last()) == 0);
        assert(variable@.last().0 == m);
        assert(max_exponent(variable@) == 1);
    }
    let cube = variable.pow(3);
    let square = variable.pow(2);
    let three = Polynomial::integer(3);
    proof {
        assert(crate::polynomial::mul_fits(three@, square@)) by {
            assert forall|i: int, j: int|
                0 <= i < three@.len() && 0 <= j < square@.len() implies crate::monomial::mono_mul_fits(
                (#[trigger] three@[i]).0,
                (#[trigger] square@[j]).0,
            ) by {
                assert(three@[i].0.len() == 0);
            }
        }
    }
    let cubic = cube.minus(&three.times(&square));
    let canonical_lin = lin.negated();
    let canonical_cubic = cubic.negated();
    let equal_original = n == 2 || any_branch(formulas, &lin, Relation::Equal, Relation::Equal, &variable);
    let original = any_branch(formulas, &lin, Relation::Greater, Relation::GreaterOrEqual, &cubic)
        && any_branch(formulas, &lin, Relation::Less, Relation::LessOrEqual, &cubic) && equal_original;
    let equal_canonical = n == 2 || any_branch(
        formulas,
        &canonical_lin,
        Relation::Equal,
        Relation::Equal,
        &variable,
    );
    let canonical = any_branch(
        formulas,
        &canonical_lin,
        Relation::Less,
        Relation::LessOrEqual,
        &canonical_cubic,
    ) && any_branch(formulas, &canonical_lin, Relation::Greater, Relation::GreaterOrEqual, &canonical_cubic)
        && equal_canonical;
    if !original && !canonical {
        return None;
    }
    let first = Formula::atom(Polynomial::integer(1).plus(&Polynomial::variable(v)), Relation::Greater);
    let second = Formula::atom(
        Polynomial::integer(3).minus(&Polynomial::variable(v)),
        Relation::GreaterOrEqual,
    );
    let mut parts: Vec<Formula> = Vec::new();
    parts.push(first);
    parts.push(second);
    let result = Formula::And(parts);
    proof {
        lemma_views_of(parts@);
        assert(views_of(parts@) =~= seq![
            FormulaView::Atom(one_plus(v), Relation::Greater),
            FormulaView::Atom(three_minus(v), Relation::GreaterOrEqual),
        ]);
        assert(all_wf(parts@)) by {
            lemma_all_wf_iff(parts@);
            assert forall|i: int| 0 <= i < parts@.len() implies formula_wf(#[trigger] parts@[i]) by {}
        }
    }
    Some(result)
}

} // verus!
