//! Factoring the atom shared by most disjuncts out of a disjunction:
//! `(a && b) || (a && c) || d` becomes `(a && (b || c)) || d`.
use crate::formula::{
    all_wf, duplicate_list, formula_wf, lemma_all_wf_member, lemma_views_of, views_of, Formula,
    FormulaView,
};
use crate::qe::simplify::lemma_all_wf_iff;
use vstd::prelude::*;

verus! {

/// The members of a disjunct: those of a conjunction, else the disjunct.
pub open spec fn term_members(f: FormulaView) -> Seq<FormulaView> {
    match f {
        FormulaView::And(ms) => ms,
        _ => seq![f],
    }
}

/// The members of every disjunct.
pub open spec fn member_lists(fs: Seq<FormulaView>) -> Seq<Seq<FormulaView>> {
    Seq::new(fs.len(), |i: int| term_members(fs[i]))
}

/// `prev` followed by the atoms among the first `k` members not in it yet.
pub open spec fn atoms_of_members(prev: Seq<FormulaView>, ms: Seq<FormulaView>, k: int) -> Seq<FormulaView>
    decreases k,
{
    if k <= 0 {
        prev
    } else {
        let acc = atoms_of_members(prev, ms, k - 1);
        if ms[k - 1] is Atom && !acc.contains(ms[k - 1]) {
            acc.push(ms[k - 1])
        } else {
            acc
        }
    }
}

/// The atoms of the first `n` lists, each once, in order of appearance.
pub open spec fn atoms_of_lists(ts: Seq<Seq<FormulaView>>, n: int) -> Seq<FormulaView>
    decreases n,
{
    if n <= 0 {
        Seq::<FormulaView>::empty()
    } else {
        atoms_of_members(atoms_of_lists(ts, n - 1), ts[n - 1], ts[n - 1].len() as int)
    }
}

/// How many of the first `n` lists hold `a`.
pub open spec fn containing_count(ts: Seq<Seq<FormulaView>>, a: FormulaView, n: int) -> nat
    decreases n,
{
    if n <= 0 {
        0
    } else {
        containing_count(ts, a, n - 1) + if ts[n - 1].contains(a) {
            1nat
        } else {
            0nat
        }
    }
}

/// Among the first `n` candidates, the last one held by the most lists.
pub open spec fn most_common(cands: Seq<FormulaView>, ts: Seq<Seq<FormulaView>>, n: int) -> FormulaView
    decreases n,
{
    if n <= 1 {
        cands[0]
    } else {
        let prev = most_common(cands, ts, n - 1);
        if containing_count(ts, cands[n - 1], ts.len() as int) >= containing_count(ts, prev, ts.len() as int) {
            cands[n - 1]
        } else {
            prev
        }
    }
}

/// The first `k` members other than `a`, in order.
pub open spec fn without(ms: Seq<FormulaView>, a: FormulaView, k: int) -> Seq<FormulaView>
    decreases k,
{
    if k <= 0 {
        Seq::<FormulaView>::empty()
    } else if ms[k - 1] == a {
        without(ms, a, k - 1)
    } else {
        without(ms, a, k - 1).push(ms[k - 1])
    }
}

/// The conjunction of the members: true for none, the member for one.
pub open spec fn conjunction_of(ms: Seq<FormulaView>) -> FormulaView {
    if ms.len() == 0 {
        FormulaView::True
    } else if ms.len() == 1 {
        ms[0]
    } else {
        FormulaView::And(ms)
    }
}

/// What is left of each of the first `n` lists holding `a` without it.
pub open spec fn residuals(ts: Seq<Seq<FormulaView>>, a: FormulaView, n: int) -> Seq<FormulaView>
    decreases n,
{
    if n <= 0 {
        Seq::<FormulaView>::empty()
    } else if ts[n - 1].contains(a) {
        residuals(ts, a, n - 1).push(conjunction_of(without(ts[n - 1], a, ts[n - 1].len() as int)))
    } else {
        residuals(ts, a, n - 1)
    }
}

/// The disjuncts among the first `n` whose lists do not hold `a`.
pub open spec fn others(fs: Seq<FormulaView>, ts: Seq<Seq<FormulaView>>, a: FormulaView, n: int) -> Seq<FormulaView>
    decreases n,
{
    if n <= 0 {
        Seq::<FormulaView>::empty()
    } else if ts[n - 1].contains(a) {
        others(fs, ts, a, n - 1)
    } else {
        others(fs, ts, a, n - 1).push(fs[n - 1])
    }
}

/// The disjunction with its most common atom factored out, when at least
/// two disjuncts hold it.
pub open spec fn factor_result(fs: Seq<FormulaView>) -> Option<FormulaView> {
    let ts = member_lists(fs);
    let cands = atoms_of_lists(ts, ts.len() as int);
    if cands.len() == 0 {
        None
    } else {
        let a = most_common(cands, ts, cands.len() as int);
        if containing_count(ts, a, ts.len() as int) < 2 {
            None
        } else {
            let factored = FormulaView::And(seq![a, FormulaView::Or(residuals(ts, a, ts.len() as int))]);
            let rest = others(fs, ts, a, fs.len() as int);
            if rest.len() == 0 {
                Some(factored)
            } else {
                Some(FormulaView::Or(seq![factored] + rest))
            }
        }
    }
}

/// Appending a formula appends its view.
proof fn lemma_views_push(fs: Seq<Formula>, g: Formula)
    ensures
        views_of(fs.push(g)) == views_of(fs).push(g@),
{
    assert(fs.push(g).drop_last() =~= fs);
}

/// Appending a well-formed formula keeps a list well formed.
proof fn lemma_wf_push(fs: Seq<Formula>, g: Formula)
    requires
        all_wf(fs),
        formula_wf(g),
    ensures
        all_wf(fs.push(g)),
{
    assert(fs.push(g).drop_last() =~= fs);
}

/// Whether the list holds a formula equal to `f`.
fn list_contains(list: &Vec<Formula>, f: &Formula) -> (b: bool)
    requires
        all_wf(list@),
        formula_wf(*f),
    ensures
        b == views_of(list@).contains(f@),
{
    proof {
        lemma_views_of(list@);
    }
    let mut i: usize = 0;
    while i < list.len()
        invariant
            all_wf(list@),
            formula_wf(*f),
            views_of(list@).len() == list@.len(),
            forall|k: int| 0 <= k < list@.len() ==> #[trigger] views_of(list@)[k] == list@[k]@,
            i <= list@.len(),
            forall|k: int| 0 <= k < i ==> views_of(list@)[k] != f@,
        decreases list@.len() - i,
    {
        proof {
            lemma_all_wf_member(list@, i as int);
        }
        if list[i].equals(f) {
            proof {
                assert(views_of(list@)[i as int] == f@);
            }
            return true;
        }
        i = i + 1;
    }
    false
}

/// The members of each disjunct, copied.
fn collect_member_lists(formulas: &Vec<Formula>) -> (ts: Vec<Vec<Formula>>)
    requires
        all_wf(formulas@),
    ensures
        ts@.len() == formulas@.len(),
        forall|i: int|
            0 <= i < ts@.len() ==> {
                &&& all_wf((#[trigger] ts@[i])@)
                &&& views_of(ts@[i]@) == member_lists(views_of(formulas@))[i]
            },
{
    let ghost fs = views_of(formulas@);
    proof {
        lemma_views_of(formulas@);
    }
    let mut ts: Vec<Vec<Formula>> = Vec::new();
    let mut i: usize = 0;
    while i < formulas.len()
        invariant
            all_wf(formulas@),
            fs == views_of(formulas@),
            fs.len() == formulas@.len(),
            forall|k: int| 0 <= k < fs.len() ==> #[trigger] fs[k] == formulas@[k]@,
            i <= formulas@.len(),
            ts@.len() == i,
            forall|k: int|
                0 <= k < i ==> {
                    &&& all_wf((#[trigger] ts@[k])@)
                    &&& views_of(ts@[k]@) == member_lists(fs)[k]
                },
        decreases formulas@.len() - i,
    {
        proof {
            lemma_all_wf_member(formulas@, i as int);
        }
        let members = match &formulas[i] {
            Formula::And(ms) => duplicate_list(ms),
            f => {
                let mut single: Vec<Formula> = Vec::new();
                let g = f.duplicate();
                single.push(g);
                proof {
                    lemma_views_push(Seq::<Formula>::empty(), g);
                    lemma_wf_push(Seq::<Formula>::empty(), g);
                    assert(Seq::<Formula>::empty().push(g) =~= single@);
                    assert(views_of(single@) =~= seq![fs[i as int]]);
                }
                single
            },
        };
        let ghost before = ts@;
        ts.push(members);
        proof {
            assert forall|k: int|
                0 <= k < i + 1 implies {
                    &&& all_wf((#[trigger] ts@[k])@)
                    &&& views_of(ts@[k]@) == member_lists(fs)[k]
                } by {
                if k < i {
                    assert(ts@[k] == before[k]);
                }
            }
        }
        i = i + 1;
    }
    ts
}

/// The views of the member lists.
pub open spec fn lists_view(ts: Seq<Vec<Formula>>) -> Seq<Seq<FormulaView>> {
    Seq::new(ts.len(), |i: int| views_of(ts[i]@))
}

/// Every list is well formed.
pub open spec fn lists_wf(ts: Seq<Vec<Formula>>) -> bool {
    forall|i: int| 0 <= i < ts.len() ==> all_wf((#[trigger] ts[i])@)
}

/// How many lists hold `a`.
fn count_containing(ts: &Vec<Vec<Formula>>, a: &Formula) -> (c: usize)
    requires
        lists_wf(ts@),
        formula_wf(*a),
    ensures
        c == containing_count(lists_view(ts@), a@, ts@.len() as int),
{
    let ghost tv = lists_view(ts@);
    let mut c: usize = 0;
    let mut i: usize = 0;
    while i < ts.len()
        invariant
            lists_wf(ts@),
            formula_wf(*a),
            tv == lists_view(ts@),
            i <= ts@.len(),
            c == containing_count(tv, a@, i as int),
            c <= i,
        decreases ts@.len() - i,
    {
        if list_contains(&ts[i], a) {
            c = c + 1;
        }
        i = i + 1;
    }
    c
}

/// The list without the members equal to `a`, as one formula.
fn residual_of(members: &Vec<Formula>, a: &Formula) -> (r: Formula)
    requires
        all_wf(members@),
        formula_wf(*a),
    ensures
        formula_wf(r),
        r@ == conjunction_of(without(views_of(members@), a@, members@.len() as int)),
{
    let ghost ms = views_of(members@);
    proof {
        lemma_views_of(members@);
    }
    let mut kept: Vec<Formula> = Vec::new();
    let mut k: usize = 0;
    while k < members.len()
        invariant
            all_wf(members@),
            formula_wf(*a),
            ms == views_of(members@),
            ms.len() == members@.len(),
            forall|j: int| 0 <= j < ms.len() ==> #[trigger] ms[j] == members@[j]@,
            k <= members@.len(),
            all_wf(kept@),
            views_of(kept@) == without(ms, a@, k as int),
        decreases members@.len() - k,
    {
        proof {
            lemma_all_wf_member(members@, k as int);
        }
        if !members[k].equals(a) {
            let g = members[k].duplicate();
            proof {
                lemma_views_push(kept@, g);
                lemma_wf_push(kept@, g);
            }
            kept.push(g);
        }
        k = k + 1;
    }
    proof {
        lemma_views_of(kept@);
    }
    if kept.len() == 0 {
        Formula::True
    } else if kept.len() == 1 {
        proof {
            lemma_all_wf_member(kept@, 0);
        }
        let g = kept[0].duplicate();
        g
    } else {
        Formula::And(kept)
    }
}

/// Factors the atom held by most disjuncts (the last such in order of first
/// appearance) out of the disjuncts that hold it, when there are at least
/// two: `(a && b) || (a && c) || d` becomes `(a && (b || c)) || d`.
pub fn factor_common_atom(formulas: &Vec<Formula>) -> (r: Option<Formula>)
    requires
        all_wf(formulas@),
    ensures
        match r {
            Some(f) => formula_wf(f) && factor_result(views_of(formulas@)) == Some(f@),
            None => factor_result(views_of(formulas@)) is None,
        },
{
    let ghost fs = views_of(formulas@);
    proof {
        lemma_views_of(formulas@);
    }
    let ts = collect_member_lists(formulas);
    let ghost tv = lists_view(ts@);
    proof {
        assert(tv =~= member_lists(fs));
    }
    let mut cands: Vec<Formula> = Vec::new();
    let mut i: usize = 0;
    while i < ts.len()
        invariant
            lists_wf(ts@),
            tv == lists_view(ts@),
            i <= ts@.len(),
            all_wf(cands@),
            views_of(cands@) == atoms_of_lists(tv, i as int),
        decreases ts@.len() - i,
    {
        let members = &ts[i];
        let ghost ms = views_of(members@);
        let ghost start = views_of(cands@);
        proof {
            lemma_views_of(members@);
            assert(tv[i as int] == ms);
        }
        let mut k: usize = 0;
        while k < members.len()
            invariant
                all_wf(members@),
                ms == views_of(members@),
                ms.len() == members@.len(),
                forall|j: int| 0 <= j < ms.len() ==> #[trigger] ms[j] == members@[j]@,
                k <= members@.len(),
                all_wf(cands@),
                views_of(cands@) == atoms_of_members(start, ms, k as int),
            decreases members@.len() - k,
        {
            proof {
                lemma_all_wf_member(members@, k as int);
            }
            let is_atom = match &members[k] {
                Formula::Atom(_) => true,
                _ => false,
            };
            if is_atom && !list_contains(&cands, &members[k]) {
                let g = members[k].duplicate();
                proof {
                    lemma_views_push(cands@, g);
                    lemma_wf_push(cands@, g);
                }
                cands.push(g);
            }
            k = k + 1;
        }
        i = i + 1;
    }
    let ghost cv = views_of(cands@);
    proof {
        lemma_views_of(cands@);
    }
    if cands.len() == 0 {
        return None;
    }
    proof {
        lemma_all_wf_member(cands@, 0);
    }
    let mut best: usize = 0;
    let mut best_count = count_containing(&ts, &cands[0]);
    let mut c: usize = 1;
    while c < cands.len()
        invariant
            lists_wf(ts@),
            tv == lists_view(ts@),
            all_wf(cands@),
            cv == views_of(cands@),
            cv.len() == cands@.len(),
            forall|j: int| 0 <= j < cv.len() ==> #[trigger] cv[j] == cands@[j]@,
            1 <= c <= cands@.len(),
            best < cands@.len(),
            cv[best as int] == most_common(cv, tv, c as int),
            best_count == containing_count(tv, cv[best as int], tv.len() as int),
        decreases cands@.len() - c,
    {
        proof {
            lemma_all_wf_member(cands@, c as int);
        }
        let count = count_containing(&ts, &cands[c]);
        if count >= best_count {
            best = c;
            best_count = count;
        }
        c = c + 1;
    }
    proof {
        lemma_all_wf_member(cands@, best as int);
    }
    let atom = cands[best].duplicate();
    if best_count < 2 {
        return None;
    }
    let mut residual_list: Vec<Formula> = Vec::new();
    let mut rest: Vec<Formula> = Vec::new();
    let mut t: usize = 0;
    while t < ts.len()
        invariant
            lists_wf(ts@),
            tv == lists_view(ts@),
            ts@.len() == formulas@.len(),
            all_wf(formulas@),
            fs == views_of(formulas@),
            fs.len() == formulas@.len(),
            forall|j: int| 0 <= j < fs.len() ==> #[trigger] fs[j] == formulas@[j]@,
            formula_wf(atom),
            t <= ts@.len(),
            all_wf(residual_list@),
            all_wf(rest@),
            views_of(residual_list@) == residuals(tv, atom@, t as int),
            views_of(rest@) == others(fs, tv, atom@, t as int),
        decreases ts@.len() - t,
    {
        proof {
            lemma_all_wf_member(formulas@, t as int);
            lemma_views_of(ts@[t as int]@);
            assert(tv[t as int] == views_of(ts@[t as int]@));
        }
        if list_contains(&ts[t], &atom) {
            let g = residual_of(&ts[t], &atom);
            proof {
                lemma_views_push(residual_list@, g);
                lemma_wf_push(residual_list@, g);
            }
            residual_list.push(g);
        } else {
            let g = formulas[t].duplicate();
            proof {
                lemma_views_push(rest@, g);
                lemma_wf_push(rest@, g);
            }
            rest.push(g);
        }
        t = t + 1;
    }
    let mut pair: Vec<Formula> = Vec::new();
    let first = atom.duplicate();
    let disjunction = Formula::Or(residual_list);
    proof {
        lemma_views_push(Seq::<Formula>::empty(), first);
        lemma_wf_push(Seq::<Formula>::empty(), first);
        assert(Seq::<Formula>::empty().push(first) =~= seq![first]);
    }
    pair.push(first);
    proof {
        lemma_views_push(pair@, disjunction);
        lemma_wf_push(pair@, disjunction);
    }
    pair.push(disjunction);
    let factored = Formula::And(pair);
    proof {
        assert(views_of(pair@) =~= seq![atom@, FormulaView::Or(residuals(tv, atom@, tv.len() as int))]);
        lemma_views_of(rest@);
    }
    if rest.len() == 0 {
        return Some(factored);
    }
    let mut all: Vec<Formula> = Vec::new();
    proof {
        lemma_views_push(Seq::<Formula>::empty(), factored);
        lemma_wf_push(Seq::<Formula>::empty(), factored);
        assert(Seq::<Formula>::empty().push(factored) =~= seq![factored]);
    }
    all.push(factored);
    let mut j: usize = 0;
    while j < rest.len()
        invariant
            all_wf(rest@),
            j <= rest@.len(),
            all_wf(all@),
            views_of(rest@).len() == rest@.len(),
            forall|k: int| 0 <= k < rest@.len() ==> #[trigger] views_of(rest@)[k] == rest@[k]@,
            views_of(all@) == seq![factored@] + views_of(rest@).take(j as int),
        decreases rest@.len() - j,
    {
        proof {
            lemma_all_wf_member(rest@, j as int);
        }
        let g = rest[j].duplicate();
        proof {
            lemma_views_push(all@, g);
            lemma_wf_push(all@, g);
            assert(views_of(rest@).take(j + 1) =~= views_of(rest@).take(j as int).push(g@));
        }
        all.push(g);
        j = j + 1;
    }
    proof {
        assert(views_of(rest@).take(j as int) =~= views_of(rest@));
    }
    Some(Formula::Or(all))
}

} // verus!
