//! Simplification of conjunctions of sign conditions.
//!
//! A relation is read as the set of signs (negative, zero, positive) at
//! which it holds, a bit each in [`mask_of`].  Two conditions on the same
//! polynomial combine into the relation of the intersection of their sets.
use crate::formula::{
    all_wf, eval_and, eval_or, eval_view, formula_wf, lemma_all_wf_member, lemma_views_of, relation_holds,
    views_of, Formula, FormulaView, Relation,
};
use crate::monomial::{mono_mul_fits, powers_wf, total_degree_of};
use crate::polynomial::{mul_fits, mul_terms, one_terms, Polynomial, TermView};
use crate::variables::{lemma_mul_terms_over, lemma_one_over, lemma_over_subset, powers_over, terms_over};
use vstd::prelude::*;

verus! {

/// The bit of the sign of a value: 1 negative, 2 zero, 4 positive.
pub open spec fn sign_bit(value: (int, nat)) -> u8 {
    if value.0 < 0 {
        1
    } else if value.0 == 0 {
        2
    } else {
        4
    }
}

/// The signs at which a relation holds, as bits.
pub open spec fn mask_of(relation: Relation) -> u8 {
    match relation {
        Relation::Less => 1,
        Relation::Equal => 2,
        Relation::Greater => 4,
        Relation::LessOrEqual => 3,
        Relation::NotEqual => 5,
        Relation::GreaterOrEqual => 6,
    }
}

/// The relation holding at exactly the signs of `mask`, when there is one.
pub open spec fn relation_of_mask(mask: u8) -> Option<Relation> {
    if mask == 1 {
        Some(Relation::Less)
    } else if mask == 2 {
        Some(Relation::Equal)
    } else if mask == 3 {
        Some(Relation::LessOrEqual)
    } else if mask == 4 {
        Some(Relation::Greater)
    } else if mask == 5 {
        Some(Relation::NotEqual)
    } else if mask == 6 {
        Some(Relation::GreaterOrEqual)
    } else {
        None
    }
}

/// The signs at which `relation` holds.
pub fn relation_mask(relation: Relation) -> (m: u8)
    ensures
        m == mask_of(relation),
{
    match relation {
        Relation::Less => 1,
        Relation::Equal => 2,
        Relation::Greater => 4,
        Relation::LessOrEqual => 3,
        Relation::NotEqual => 5,
        Relation::GreaterOrEqual => 6,
    }
}

/// The relation holding at exactly the signs of `mask`; `None` for no sign
/// or every sign.
pub fn relation_from_mask(mask: u8) -> (r: Option<Relation>)
    ensures
        r == relation_of_mask(mask),
{
    match mask {
        1 => Some(Relation::Less),
        2 => Some(Relation::Equal),
        3 => Some(Relation::LessOrEqual),
        4 => Some(Relation::Greater),
        5 => Some(Relation::NotEqual),
        6 => Some(Relation::GreaterOrEqual),
        _ => None,
    }
}

/// A relation holds of a value exactly when its mask has the value's sign.
pub proof fn law_relation_mask(relation: Relation, value: (int, nat))
    ensures
        relation_holds(relation, value) <==> (mask_of(relation) & sign_bit(value)) != 0,
{
    let m = mask_of(relation);
    let s = sign_bit(value);
    assert((1u8 & 1u8) != 0 && (1u8 & 2u8) == 0 && (1u8 & 4u8) == 0) by (bit_vector);
    assert((2u8 & 1u8) == 0 && (2u8 & 2u8) != 0 && (2u8 & 4u8) == 0) by (bit_vector);
    assert((4u8 & 1u8) == 0 && (4u8 & 2u8) == 0 && (4u8 & 4u8) != 0) by (bit_vector);
    assert((3u8 & 1u8) != 0 && (3u8 & 2u8) != 0 && (3u8 & 4u8) == 0) by (bit_vector);
    assert((5u8 & 1u8) != 0 && (5u8 & 2u8) == 0 && (5u8 & 4u8) != 0) by (bit_vector);
    assert((6u8 & 1u8) == 0 && (6u8 & 2u8) != 0 && (6u8 & 4u8) != 0) by (bit_vector);
}

/// Every relation is the relation of its own mask.
pub proof fn law_mask_round_trip(relation: Relation)
    ensures
        relation_of_mask(mask_of(relation)) == Some(relation),
{
}

/// The bits of an intersection of masks.
proof fn lemma_and_bits(a: u8, b: u8, s: u8)
    requires
        s == 1 || s == 2 || s == 4,
    ensures
        ((a & b) & s) != 0 <==> ((a & s) != 0 && (b & s) != 0),
        (a & b) <= a,
{
    assert(((a & b) & s) != 0 <==> ((a & s) != 0 && (b & s) != 0)) by (bit_vector)
        requires
            s == 1 || s == 2 || s == 4,
    ;
    assert((a & b) <= a) by (bit_vector);
}

/// Two conditions on one value hold together exactly when the relation of
/// the intersection of their masks holds; when the intersection has no
/// relation, they never hold together.
pub proof fn law_merge_relations(first: Relation, second: Relation, value: (int, nat))
    ensures
        relation_of_mask(mask_of(first) & mask_of(second)) matches Some(r) ==> (relation_holds(
            r,
            value,
        ) <==> relation_holds(first, value) && relation_holds(second, value)),
        relation_of_mask(mask_of(first) & mask_of(second)) is None ==> !(relation_holds(
            first,
            value,
        ) && relation_holds(second, value)),
{
    let m = mask_of(first) & mask_of(second);
    let s = sign_bit(value);
    lemma_and_bits(mask_of(first), mask_of(second), s);
    law_relation_mask(first, value);
    law_relation_mask(second, value);
    if let Some(r) = relation_of_mask(m) {
        law_relation_mask(r, value);
        assert(mask_of(r) == m);
    } else {
        assert(m == 0) by {
            assert(m <= mask_of(first));
        }
        assert((0u8 & s) == 0) by (bit_vector);
    }
}


/// A conjunction is true when every member is true, and false when some
/// member is false and every member before it true.
pub proof fn lemma_eval_and(fs: Seq<FormulaView>, vals: Map<usize, (int, nat)>)
    ensures
        eval_and(fs, vals) == Some(true) <==> forall|i: int|
            0 <= i < fs.len() ==> #[trigger] eval_view(fs[i], vals) == Some(true),
        eval_and(fs, vals) == Some(false) <==> exists|i: int|
            0 <= i < fs.len() && #[trigger] eval_view(fs[i], vals) == Some(false) && forall|j: int|
                0 <= j < i ==> #[trigger] eval_view(fs[j], vals) == Some(true),
    decreases fs.len(),
{
    if fs.len() > 0 {
        let r = fs.drop_last();
        let n = fs.len() - 1;
        lemma_eval_and(r, vals);
        assert forall|i: int| 0 <= i < r.len() implies r[i] == fs[i] by {}
        if eval_and(fs, vals) == Some(true) {
            assert(eval_and(r, vals) == Some(true));
            assert forall|i: int| 0 <= i < fs.len() implies #[trigger] eval_view(fs[i], vals) == Some(
                true,
            ) by {
                if i < n {
                    assert(eval_view(r[i], vals) == Some(true));
                }
            }
        }
        if forall|i: int| 0 <= i < fs.len() ==> #[trigger] eval_view(fs[i], vals) == Some(true) {
            assert forall|i: int| 0 <= i < r.len() implies #[trigger] eval_view(r[i], vals) == Some(
                true,
            ) by {
                assert(eval_view(fs[i], vals) == Some(true));
            }
            assert(eval_view(fs[n], vals) == Some(true));
        }
        if eval_and(fs, vals) == Some(false) {
            if eval_and(r, vals) == Some(false) {
                let i = choose|i: int|
                    0 <= i < r.len() && #[trigger] eval_view(r[i], vals) == Some(false) && forall|j: int|
                        0 <= j < i ==> #[trigger] eval_view(r[j], vals) == Some(true);
                assert(eval_view(fs[i], vals) == Some(false));
                assert forall|j: int| 0 <= j < i implies #[trigger] eval_view(fs[j], vals) == Some(
                    true,
                ) by {
                    assert(eval_view(r[j], vals) == Some(true));
                }
            } else {
                assert(eval_and(r, vals) == Some(true));
                assert(eval_view(fs[n], vals) == Some(false));
                assert forall|j: int| 0 <= j < n implies #[trigger] eval_view(fs[j], vals) == Some(
                    true,
                ) by {
                    assert(eval_view(r[j], vals) == Some(true));
                }
            }
        }
        if exists|i: int|
            0 <= i < fs.len() && #[trigger] eval_view(fs[i], vals) == Some(false) && forall|j: int|
                0 <= j < i ==> #[trigger] eval_view(fs[j], vals) == Some(true) {
            let i = choose|i: int|
                0 <= i < fs.len() && #[trigger] eval_view(fs[i], vals) == Some(false) && forall|j: int|
                    0 <= j < i ==> #[trigger] eval_view(fs[j], vals) == Some(true);
            if i < n {
                assert(eval_view(r[i], vals) == Some(false));
                assert forall|j: int| 0 <= j < i implies #[trigger] eval_view(r[j], vals) == Some(
                    true,
                ) by {
                    assert(eval_view(fs[j], vals) == Some(true));
                }
                assert(eval_and(r, vals) == Some(false));
            } else {
                assert forall|j: int| 0 <= j < r.len() implies #[trigger] eval_view(r[j], vals)
                    == Some(true) by {
                    assert(eval_view(fs[j], vals) == Some(true));
                }
                assert(eval_and(r, vals) == Some(true));
            }
        }
    }
}

/// Member `k` is an atom whose polynomial appears in a later atom.
pub open spec fn has_partner(fs: Seq<FormulaView>, k: int) -> bool {
    exists|j: int| k < j < fs.len() && same_subject(fs[k], #[trigger] fs[j])
}

/// Both are atoms on the same polynomial.
pub open spec fn same_subject(a: FormulaView, b: FormulaView) -> bool {
    match (a, b) {
        (FormulaView::Atom(p, _), FormulaView::Atom(q, _)) => p == q,
        _ => false,
    }
}

/// No polynomial is the subject of two atoms.
pub open spec fn atoms_distinct(fs: Seq<FormulaView>) -> bool {
    forall|k: int| 0 <= k < fs.len() ==> !#[trigger] has_partner(fs, k)
}

/// The members after replacing member `i` and dropping member `j`.
proof fn lemma_merged_members(fs: Seq<FormulaView>, i: int, j: int, g: FormulaView)
    requires
        0 <= i < j < fs.len(),
    ensures
        fs.update(i, g).remove(j).len() == fs.len() - 1,
        forall|k: int|
            0 <= k < fs.len() - 1 ==> #[trigger] fs.update(i, g).remove(j)[k] == if k < i {
                fs[k]
            } else if k == i {
                g
            } else if k < j {
                fs[k]
            } else {
                fs[k + 1]
            },
{
}

/// The truth of the merged atom: defined exactly when the two atoms are,
/// and then their conjunction.
proof fn lemma_merged_atom(
    p: Seq<crate::polynomial::TermView>,
    r1: Relation,
    r2: Relation,
    r: Relation,
    vals: Map<usize, (int, nat)>,
)
    requires
        relation_holds(r, crate::polynomial::evaluate_terms(p, vals)) <==> relation_holds(
            r1,
            crate::polynomial::evaluate_terms(p, vals),
        ) && relation_holds(r2, crate::polynomial::evaluate_terms(p, vals)),
    ensures
        eval_view(FormulaView::Atom(p, r1), vals) is Some <==> eval_view(FormulaView::Atom(p, r2), vals) is Some,
        eval_view(FormulaView::Atom(p, r), vals) is Some <==> eval_view(FormulaView::Atom(p, r1), vals) is Some,
        eval_view(FormulaView::Atom(p, r), vals) is Some ==> eval_view(FormulaView::Atom(p, r), vals)->0
            == (eval_view(FormulaView::Atom(p, r1), vals)->0 && eval_view(FormulaView::Atom(p, r2), vals)->0),
{
}

/// Replacing member `i` by the merge of atoms `i` and `j` on one polynomial
/// and dropping member `j` keeps a true conjunction true.
#[verifier::spinoff_prover]
proof fn lemma_merge_keeps_true(
    fs: Seq<FormulaView>,
    i: int,
    j: int,
    p: Seq<crate::polynomial::TermView>,
    r1: Relation,
    r2: Relation,
    r: Relation,
    vals: Map<usize, (int, nat)>,
)
    requires
        0 <= i < j < fs.len(),
        fs[i] == FormulaView::Atom(p, r1),
        fs[j] == FormulaView::Atom(p, r2),
        relation_holds(r, crate::polynomial::evaluate_terms(p, vals)) <==> relation_holds(
            r1,
            crate::polynomial::evaluate_terms(p, vals),
        ) && relation_holds(r2, crate::polynomial::evaluate_terms(p, vals)),
        eval_and(fs, vals) == Some(true),
    ensures
        eval_and(fs.update(i, FormulaView::Atom(p, r)).remove(j), vals) == Some(true),
{
    let g = FormulaView::Atom(p, r);
    let new = fs.update(i, g).remove(j);
    lemma_eval_and(fs, vals);
    lemma_merged_members(fs, i, j, g);
    lemma_merged_atom(p, r1, r2, r, vals);
    assert(eval_view(fs[i], vals) == Some(true));
    assert(eval_view(fs[j], vals) == Some(true));
    assert forall|k: int| 0 <= k < new.len() implies #[trigger] eval_view(new[k], vals) == Some(
        true,
    ) by {
        if k < i {
            assert(eval_view(fs[k], vals) == Some(true));
        } else if k == i {
        } else if k < j {
            assert(eval_view(fs[k], vals) == Some(true));
        } else {
            assert(eval_view(fs[k + 1], vals) == Some(true));
        }
    }
    lemma_eval_and(new, vals);
}

/// Replacing member `i` by the merge of atoms `i` and `j` on one polynomial
/// and dropping member `j` keeps a false conjunction false.
#[verifier::spinoff_prover]
proof fn lemma_merge_keeps_false(
    fs: Seq<FormulaView>,
    i: int,
    j: int,
    p: Seq<crate::polynomial::TermView>,
    r1: Relation,
    r2: Relation,
    r: Relation,
    vals: Map<usize, (int, nat)>,
)
    requires
        0 <= i < j < fs.len(),
        fs[i] == FormulaView::Atom(p, r1),
        fs[j] == FormulaView::Atom(p, r2),
        relation_holds(r, crate::polynomial::evaluate_terms(p, vals)) <==> relation_holds(
            r1,
            crate::polynomial::evaluate_terms(p, vals),
        ) && relation_holds(r2, crate::polynomial::evaluate_terms(p, vals)),
        eval_and(fs, vals) == Some(false),
    ensures
        eval_and(fs.update(i, FormulaView::Atom(p, r)).remove(j), vals) == Some(false),
{
    let g = FormulaView::Atom(p, r);
    let new = fs.update(i, g).remove(j);
    lemma_eval_and(fs, vals);
    lemma_merged_members(fs, i, j, g);
    lemma_merged_atom(p, r1, r2, r, vals);
    let ei = eval_view(fs[i], vals);
    let ej = eval_view(fs[j], vals);
    let w = choose|w: int|
        0 <= w < fs.len() && #[trigger] eval_view(fs[w], vals) == Some(false) && forall|t: int|
            0 <= t < w ==> #[trigger] eval_view(fs[t], vals) == Some(true);
    if w > i {
        assert(ei == Some(true));
    }
    if w > j {
        assert(ej == Some(true));
    }
    let nw: int = if w <= i {
        w
    } else if w < j {
        if ej == Some(false) {
            i
        } else {
            w
        }
    } else if w == j {
        i
    } else {
        w - 1
    };
    if w == j {
        assert(ej == Some(false));
    }
    assert(eval_view(new[nw], vals) == Some(false));
    assert forall|t: int| 0 <= t < nw implies #[trigger] eval_view(new[t], vals) == Some(true) by {
        if t < i {
            assert(eval_view(fs[t], vals) == Some(true));
        } else if t == i {
        } else if t < j {
            assert(eval_view(fs[t], vals) == Some(true));
        } else {
            assert(eval_view(fs[t + 1], vals) == Some(true));
        }
    }
    lemma_eval_and(new, vals);
}

/// Two atoms on one polynomial that never hold together make a conjunction
/// never true.
proof fn lemma_conflict(
    fs: Seq<FormulaView>,
    i: int,
    j: int,
    p: Seq<crate::polynomial::TermView>,
    r1: Relation,
    r2: Relation,
    vals: Map<usize, (int, nat)>,
)
    requires
        0 <= i < fs.len(),
        0 <= j < fs.len(),
        fs[i] == FormulaView::Atom(p, r1),
        fs[j] == FormulaView::Atom(p, r2),
        !(relation_holds(r1, crate::polynomial::evaluate_terms(p, vals)) && relation_holds(
            r2,
            crate::polynomial::evaluate_terms(p, vals),
        )),
    ensures
        eval_and(fs, vals) != Some(true),
{
    lemma_eval_and(fs, vals);
    if eval_and(fs, vals) == Some(true) {
        assert(eval_view(fs[i], vals) == Some(true));
        assert(eval_view(fs[j], vals) == Some(true));
    }
}


/// The polynomial and relation of an atom.
fn atom_parts(formula: &Formula) -> (r: Option<(Polynomial, Relation)>)
    requires
        formula_wf(*formula),
    ensures
        match r {
            Some((p, rel)) => p.wf() && formula@ == FormulaView::Atom(p@, rel),
            None => !(formula@ is Atom),
        },
{
    match formula {
        Formula::Atom(atom) => Some((atom.polynomial.duplicate(), atom.relation)),
        _ => None,
    }
}

/// Merges atoms of a conjunction that constrain the same polynomial into
/// one atom with the intersection of their relations, at the place of the
/// first.  Returns `true`, and stops, when two such atoms never hold
/// together.  Otherwise no two atoms left share a polynomial, and wherever
/// the conjunction had a truth value it keeps it.
pub fn merge_sign_constraints(formulas: &mut Vec<Formula>) -> (contradiction: bool)
    requires
        all_wf(old(formulas)@),
    ensures
        all_wf(final(formulas)@),
        contradiction ==> forall|vals: Map<usize, (int, nat)>|
            #[trigger] eval_and(views_of(old(formulas)@), vals) != Some(true),
        !contradiction ==> forall|vals: Map<usize, (int, nat)>|
            #[trigger] eval_and(views_of(old(formulas)@), vals) is Some ==> eval_and(
                views_of(final(formulas)@),
                vals,
            ) == eval_and(views_of(old(formulas)@), vals),
        !contradiction ==> atoms_distinct(views_of(final(formulas)@)),
{
    let ghost orig = views_of(formulas@);
    let mut index: usize = 0;
    while index < formulas.len()
        invariant
            orig == views_of(old(formulas)@),
            all_wf(formulas@),
            index <= formulas@.len(),
            forall|vals: Map<usize, (int, nat)>|
                #[trigger] eval_and(orig, vals) is Some ==> eval_and(views_of(formulas@), vals)
                    == eval_and(orig, vals),
            forall|vals: Map<usize, (int, nat)>|
                #[trigger] eval_and(views_of(formulas@), vals) != Some(true) ==> eval_and(orig, vals)
                    != Some(true),
            forall|k: int| 0 <= k < index ==> !#[trigger] has_partner(views_of(formulas@), k),
        decreases formulas@.len(), formulas@.len() - index,
    {
        let ghost fs = views_of(formulas@);
        proof {
            lemma_views_of(formulas@);
            lemma_all_wf_member(formulas@, index as int);
        }
        let (polynomial, relation) = match atom_parts(&formulas[index]) {
            Some(parts) => parts,
            None => {
                proof {
                    assert(!has_partner(fs, index as int)) by {
                        if has_partner(fs, index as int) {
                            let j = choose|j: int| index < j < fs.len() && same_subject(fs[index as int], #[trigger] fs[j]);
                        }
                    }
                }
                index = index + 1;
                continue;
            },
        };
        let mut other: usize = index + 1;
        let mut found = false;
        while other < formulas.len() && !found
            invariant
                all_wf(formulas@),
                fs == views_of(formulas@),
                fs.len() == formulas@.len(),
                forall|k: int| 0 <= k < fs.len() ==> #[trigger] fs[k] == formulas@[k]@,
                index < formulas@.len(),
                polynomial.wf(),
                fs[index as int] == FormulaView::Atom(polynomial@, relation),
                index < other <= formulas@.len(),
                found ==> other < formulas@.len() && same_subject(fs[index as int], fs[other as int]),
                !found ==> forall|j: int| index < j < other ==> !same_subject(fs[index as int], #[trigger] fs[j]),
            decreases formulas@.len() - other, if found { 0int } else { 1int },
        {
            proof {
                lemma_all_wf_member(formulas@, other as int);
            }
            let mut same = false;
            if let Some((q, _)) = atom_parts(&formulas[other]) {
                same = q.equals(&polynomial);
            }
            proof {
                assert(same == same_subject(fs[index as int], fs[other as int]));
            }
            if same {
                found = true;
            } else {
                other = other + 1;
            }
        }
        if !found {
            proof {
                assert(!has_partner(fs, index as int)) by {
                    if has_partner(fs, index as int) {
                        let j = choose|j: int| index < j < fs.len() && same_subject(fs[index as int], #[trigger] fs[j]);
                    }
                }
            }
            index = index + 1;
            continue;
        }
        proof {
            lemma_all_wf_member(formulas@, other as int);
        }
        let other_relation = match atom_parts(&formulas[other]) {
            Some((_, r)) => r,
            None => {
                proof {
                    assert(false);
                }
                return true;
            },
        };
        let combined = relation_mask(relation) & relation_mask(other_relation);
        let ghost p = polynomial@;
        match relation_from_mask(combined) {
            None => {
                proof {
                    assert forall|vals: Map<usize, (int, nat)>| #[trigger]
                        eval_and(orig, vals) != Some(true) by {
                        law_merge_relations(
                            relation,
                            other_relation,
                            crate::polynomial::evaluate_terms(p, vals),
                        );
                        lemma_conflict(
                            fs,
                            index as int,
                            other as int,
                            p,
                            relation,
                            other_relation,
                            vals,
                        );
                        assert(eval_and(views_of(formulas@), vals) != Some(true));
                    }
                }
                return true;
            },
            Some(combined_relation) => {
                let ghost before = formulas@;
                let merged = Formula::atom(polynomial, combined_relation);
                let ghost g = merged;
                formulas.remove(other);
                formulas.set(index, merged);
                proof {
                    assert(formulas@ =~= before.update(index as int, g).remove(other as int));
                    let nfs = views_of(formulas@);
                    lemma_views_of(formulas@);
                    lemma_views_of(before);
                    assert(nfs =~= fs.update(index as int, FormulaView::Atom(p, combined_relation)).remove(
                        other as int,
                    ));
                    assert(all_wf(formulas@)) by {
                        lemma_all_wf_update_remove(before, index as int, other as int, g);
                    }
                    assert forall|vals: Map<usize, (int, nat)>| #[trigger]
                        eval_and(orig, vals) is Some implies eval_and(nfs, vals) == eval_and(
                        orig,
                        vals,
                    ) by {
                        law_merge_relations(
                            relation,
                            other_relation,
                            crate::polynomial::evaluate_terms(p, vals),
                        );
                        assert(fs == views_of(before));
                        assert(eval_and(views_of(before), vals) == eval_and(orig, vals));
                        assert(eval_and(fs, vals) is Some);
                        if eval_and(fs, vals) == Some(true) {
                            lemma_merge_keeps_true(
                                fs,
                                index as int,
                                other as int,
                                p,
                                relation,
                                other_relation,
                                combined_relation,
                                vals,
                            );
                        } else {
                            assert(eval_and(fs, vals)->0 == false);
                            assert(eval_and(fs, vals) == Some(false));
                            lemma_merge_keeps_false(
                                fs,
                                index as int,
                                other as int,
                                p,
                                relation,
                                other_relation,
                                combined_relation,
                                vals,
                            );
                        }
                    }
                    assert forall|vals: Map<usize, (int, nat)>| #[trigger]
                        eval_and(nfs, vals) != Some(true) implies eval_and(orig, vals) != Some(true) by {
                        law_merge_relations(
                            relation,
                            other_relation,
                            crate::polynomial::evaluate_terms(p, vals),
                        );
                        if eval_and(fs, vals) == Some(true) {
                            lemma_merge_keeps_true(
                                fs,
                                index as int,
                                other as int,
                                p,
                                relation,
                                other_relation,
                                combined_relation,
                                vals,
                            );
                        }
                        assert(eval_and(views_of(before), vals) != Some(true));
                    }
                }
                index = 0;
            },
        }
    }
    proof {
        let fs = views_of(formulas@);
        assert forall|k: int| 0 <= k < fs.len() implies !#[trigger] has_partner(fs, k) by {
            lemma_views_of(formulas@);
        }
    }
    false
}

/// Replacing a member by a well-formed formula and dropping another keeps a
/// list well formed.
proof fn lemma_all_wf_update_remove(fs: Seq<Formula>, i: int, j: int, g: Formula)
    requires
        all_wf(fs),
        formula_wf(g),
        0 <= i < fs.len(),
        0 <= j < fs.len(),
    ensures
        all_wf(fs.update(i, g).remove(j)),
{
    lemma_all_wf_iff(fs);
    lemma_all_wf_iff(fs.update(i, g).remove(j));
    let n = fs.update(i, g).remove(j);
    assert forall|k: int| 0 <= k < n.len() implies formula_wf(#[trigger] n[k]) by {
        if k < j {
            if k != i {
                assert(n[k] == fs[k]);
            }
        } else {
            if k + 1 != i {
                assert(n[k] == fs[k + 1]);
            }
        }
    }
}

/// A list is well formed exactly when every member is.
pub proof fn lemma_all_wf_iff(fs: Seq<Formula>)
    ensures
        all_wf(fs) <==> forall|k: int| 0 <= k < fs.len() ==> formula_wf(#[trigger] fs[k]),
    decreases fs.len(),
{
    if fs.len() > 0 {
        lemma_all_wf_iff(fs.drop_last());
        if forall|k: int| 0 <= k < fs.len() ==> formula_wf(#[trigger] fs[k]) {
            assert forall|k: int| 0 <= k < fs.len() - 1 implies formula_wf(#[trigger] fs.drop_last()[k]) by {
                assert(fs.drop_last()[k] == fs[k]);
            }
            assert(formula_wf(fs[fs.len() - 1]));
        }
        if all_wf(fs) {
            assert forall|k: int| 0 <= k < fs.len() implies formula_wf(#[trigger] fs[k]) by {
                if k < fs.len() - 1 {
                    assert(fs.drop_last()[k] == fs[k]);
                }
            }
        }
    }
}


/// The weak inequality facing the other way.
pub open spec fn opposite_weak(relation: Relation) -> Option<Relation> {
    match relation {
        Relation::LessOrEqual => Some(Relation::GreaterOrEqual),
        Relation::GreaterOrEqual => Some(Relation::LessOrEqual),
        _ => None,
    }
}

/// Member `k` is a weak inequality whose opposite, on the same polynomial,
/// is another member.
pub open spec fn has_opposite(fs: Seq<FormulaView>, k: int) -> bool {
    fs[k] matches FormulaView::Atom(p, r) && (opposite_weak(r) matches Some(o) && exists|j: int|
        0 <= j < fs.len() && j != k && #[trigger] fs[j] == FormulaView::Atom(p, o))
}

/// Joins `p <= 0` and `p >= 0` in a conjunction into `p == 0`, at the place
/// of the first of them, again and again.  Wherever the conjunction had a
/// truth value it keeps it, and no weak inequality is left beside its
/// opposite.
pub fn merge_exact_sign_bounds(formulas: Vec<Formula>) -> (r: Vec<Formula>)
    requires
        all_wf(formulas@),
    ensures
        all_wf(r@),
        forall|vals: Map<usize, (int, nat)>|
            #[trigger] eval_and(views_of(formulas@), vals) is Some ==> eval_and(views_of(r@), vals)
                == eval_and(views_of(formulas@), vals),
        forall|k: int| 0 <= k < r@.len() ==> !#[trigger] has_opposite(views_of(r@), k),
{
    let ghost orig = views_of(formulas@);
    let mut formulas = formulas;
    let mut index: usize = 0;
    while index < formulas.len()
        invariant
            all_wf(formulas@),
            index <= formulas@.len(),
            forall|vals: Map<usize, (int, nat)>|
                #[trigger] eval_and(orig, vals) is Some ==> eval_and(views_of(formulas@), vals)
                    == eval_and(orig, vals),
            forall|k: int| 0 <= k < index ==> !#[trigger] has_opposite(views_of(formulas@), k),
        decreases formulas@.len(), formulas@.len() - index,
    {
        let ghost fs = views_of(formulas@);
        proof {
            lemma_views_of(formulas@);
            lemma_all_wf_member(formulas@, index as int);
        }
        let (polynomial, relation) = match atom_parts(&formulas[index]) {
            Some(parts) => parts,
            None => {
                index = index + 1;
                continue;
            },
        };
        let opposite = match relation {
            Relation::LessOrEqual => Relation::GreaterOrEqual,
            Relation::GreaterOrEqual => Relation::LessOrEqual,
            _ => {
                index = index + 1;
                continue;
            },
        };
        let mut position: usize = 0;
        let mut found = false;
        while position < formulas.len() && !found
            invariant
                all_wf(formulas@),
                fs == views_of(formulas@),
                fs.len() == formulas@.len(),
                forall|k: int| 0 <= k < fs.len() ==> #[trigger] fs[k] == formulas@[k]@,
                index < formulas@.len(),
                polynomial.wf(),
                fs[index as int] == FormulaView::Atom(polynomial@, relation),
                opposite_weak(relation) == Some(opposite),
                position <= formulas@.len(),
                found ==> position < formulas@.len() && fs[position as int] == FormulaView::Atom(
                    polynomial@,
                    opposite,
                ),
                !found ==> forall|j: int|
                    0 <= j < position ==> #[trigger] fs[j] != FormulaView::Atom(polynomial@, opposite),
            decreases formulas@.len() - position, if found { 0int } else { 1int },
        {
            proof {
                lemma_all_wf_member(formulas@, position as int);
            }
            let mut same = false;
            if let Some((q, qr)) = atom_parts(&formulas[position]) {
                same = qr == opposite && q.equals(&polynomial);
            }
            if same {
                found = true;
            } else {
                position = position + 1;
            }
        }
        if !found || position == index {
            proof {
                assert(!has_opposite(fs, index as int)) by {
                    if has_opposite(fs, index as int) {
                        let j = choose|j: int|
                            0 <= j < fs.len() && j != index && #[trigger] fs[j] == FormulaView::Atom(
                                polynomial@,
                                opposite,
                            );
                    }
                }
            }
            index = index + 1;
            continue;
        }
        let first = if index < position {
            index
        } else {
            position
        };
        let second = if index < position {
            position
        } else {
            index
        };
        let ghost p = polynomial@;
        let ghost r1 = fs[first as int]->Atom_1;
        let ghost r2 = fs[second as int]->Atom_1;
        let ghost before = formulas@;
        let merged = Formula::atom(polynomial, Relation::Equal);
        let ghost g = merged;
        formulas.remove(second);
        formulas.set(first, merged);
        proof {
            assert(fs[first as int] == FormulaView::Atom(p, r1));
            assert(fs[second as int] == FormulaView::Atom(p, r2));
            assert(formulas@ =~= before.update(first as int, g).remove(second as int));
            let nfs = views_of(formulas@);
            lemma_views_of(formulas@);
            lemma_views_of(before);
            assert(nfs =~= fs.update(first as int, FormulaView::Atom(p, Relation::Equal)).remove(
                second as int,
            ));
            lemma_all_wf_update_remove(before, first as int, second as int, g);
            assert forall|vals: Map<usize, (int, nat)>| #[trigger]
                eval_and(orig, vals) is Some implies eval_and(nfs, vals) == eval_and(orig, vals) by {
                assert(fs == views_of(before));
                assert(eval_and(fs, vals) == eval_and(orig, vals));
                if eval_and(fs, vals) == Some(true) {
                    lemma_merge_keeps_true(
                        fs,
                        first as int,
                        second as int,
                        p,
                        r1,
                        r2,
                        Relation::Equal,
                        vals,
                    );
                } else {
                    assert(eval_and(fs, vals)->0 == false);
                    lemma_merge_keeps_false(
                        fs,
                        first as int,
                        second as int,
                        p,
                        r1,
                        r2,
                        Relation::Equal,
                        vals,
                    );
                }
            }
        }
        index = 0;
    }
    proof {
        let fs = views_of(formulas@);
        lemma_views_of(formulas@);
        assert forall|k: int| 0 <= k < formulas@.len() implies !#[trigger] has_opposite(fs, k) by {}
    }
    formulas
}


/// Whether a linear constraint from `relation` is checked by refuting its
/// negation: every relation but equality.
pub fn true_for_relation(relation: Relation) -> (b: bool)
    ensures
        b == (relation != Relation::Equal),
{
    !matches!(relation, Relation::Equal)
}

/// A disjunction is false when every member is false, and true when some
/// member is true and every member before it false.
pub proof fn lemma_eval_or(fs: Seq<FormulaView>, vals: Map<usize, (int, nat)>)
    ensures
        eval_or(fs, vals) == Some(false) <==> forall|i: int|
            0 <= i < fs.len() ==> #[trigger] eval_view(fs[i], vals) == Some(false),
        eval_or(fs, vals) == Some(true) <==> exists|i: int|
            0 <= i < fs.len() && #[trigger] eval_view(fs[i], vals) == Some(true) && forall|j: int|
                0 <= j < i ==> #[trigger] eval_view(fs[j], vals) == Some(false),
    decreases fs.len(),
{
    if fs.len() > 0 {
        let r = fs.drop_last();
        let n = fs.len() - 1;
        lemma_eval_or(r, vals);
        assert forall|i: int| 0 <= i < r.len() implies r[i] == fs[i] by {}
        if eval_or(fs, vals) == Some(false) {
            assert(eval_or(r, vals) == Some(false));
            assert forall|i: int| 0 <= i < fs.len() implies #[trigger] eval_view(fs[i], vals) == Some(
                false,
            ) by {
                if i < n {
                    assert(eval_view(r[i], vals) == Some(false));
                }
            }
        }
        if forall|i: int| 0 <= i < fs.len() ==> #[trigger] eval_view(fs[i], vals) == Some(false) {
            assert forall|i: int| 0 <= i < r.len() implies #[trigger] eval_view(r[i], vals) == Some(
                false,
            ) by {
                assert(eval_view(fs[i], vals) == Some(false));
            }
            assert(eval_view(fs[n], vals) == Some(false));
        }
        if eval_or(fs, vals) == Some(true) {
            if eval_or(r, vals) == Some(true) {
                let i = choose|i: int|
                    0 <= i < r.len() && #[trigger] eval_view(r[i], vals) == Some(true) && forall|j: int|
                        0 <= j < i ==> #[trigger] eval_view(r[j], vals) == Some(false);
                assert(eval_view(fs[i], vals) == Some(true));
                assert forall|j: int| 0 <= j < i implies #[trigger] eval_view(fs[j], vals) == Some(
                    false,
                ) by {
                    assert(eval_view(r[j], vals) == Some(false));
                }
            } else {
                assert(eval_or(r, vals) == Some(false));
                assert(eval_view(fs[n], vals) == Some(true));
                assert forall|j: int| 0 <= j < n implies #[trigger] eval_view(fs[j], vals) == Some(
                    false,
                ) by {
                    assert(eval_view(r[j], vals) == Some(false));
                }
            }
        }
        if exists|i: int|
            0 <= i < fs.len() && #[trigger] eval_view(fs[i], vals) == Some(true) && forall|j: int|
                0 <= j < i ==> #[trigger] eval_view(fs[j], vals) == Some(false) {
            let i = choose|i: int|
                0 <= i < fs.len() && #[trigger] eval_view(fs[i], vals) == Some(true) && forall|j: int|
                    0 <= j < i ==> #[trigger] eval_view(fs[j], vals) == Some(false);
            if i < n {
                assert(eval_view(r[i], vals) == Some(true));
                assert forall|j: int| 0 <= j < i implies #[trigger] eval_view(r[j], vals) == Some(
                    false,
                ) by {
                    assert(eval_view(fs[j], vals) == Some(false));
                }
                assert(eval_or(r, vals) == Some(true));
            } else {
                assert forall|j: int| 0 <= j < r.len() implies #[trigger] eval_view(r[j], vals)
                    == Some(false) by {
                    assert(eval_view(fs[j], vals) == Some(false));
                }
                assert(eval_or(r, vals) == Some(false));
            }
        }
    }
}

/// The truth of an atom whose relation is the union of two: defined exactly
/// when they are, and then their disjunction.
proof fn lemma_joined_atom(
    p: Seq<crate::polynomial::TermView>,
    r1: Relation,
    r2: Relation,
    r: Relation,
    vals: Map<usize, (int, nat)>,
)
    requires
        relation_holds(r, crate::polynomial::evaluate_terms(p, vals)) <==> relation_holds(
            r1,
            crate::polynomial::evaluate_terms(p, vals),
        ) || relation_holds(r2, crate::polynomial::evaluate_terms(p, vals)),
    ensures
        eval_view(FormulaView::Atom(p, r1), vals) is Some <==> eval_view(FormulaView::Atom(p, r2), vals) is Some,
        eval_view(FormulaView::Atom(p, r), vals) is Some <==> eval_view(FormulaView::Atom(p, r1), vals) is Some,
        eval_view(FormulaView::Atom(p, r), vals) is Some ==> eval_view(FormulaView::Atom(p, r), vals)->0
            == (eval_view(FormulaView::Atom(p, r1), vals)->0 || eval_view(FormulaView::Atom(p, r2), vals)->0),
{
}

/// Replacing member `i` by the join of atoms `i` and `j` on one polynomial
/// and dropping member `j` keeps a false disjunction false.
#[verifier::spinoff_prover]
proof fn lemma_join_keeps_false(
    fs: Seq<FormulaView>,
    i: int,
    j: int,
    p: Seq<crate::polynomial::TermView>,
    r1: Relation,
    r2: Relation,
    r: Relation,
    vals: Map<usize, (int, nat)>,
)
    requires
        0 <= i < j < fs.len(),
        fs[i] == FormulaView::Atom(p, r1),
        fs[j] == FormulaView::Atom(p, r2),
        relation_holds(r, crate::polynomial::evaluate_terms(p, vals)) <==> relation_holds(
            r1,
            crate::polynomial::evaluate_terms(p, vals),
        ) || relation_holds(r2, crate::polynomial::evaluate_terms(p, vals)),
        eval_or(fs, vals) == Some(false),
    ensures
        eval_or(fs.update(i, FormulaView::Atom(p, r)).remove(j), vals) == Some(false),
{
    let g = FormulaView::Atom(p, r);
    let new = fs.update(i, g).remove(j);
    lemma_eval_or(fs, vals);
    lemma_merged_members(fs, i, j, g);
    lemma_joined_atom(p, r1, r2, r, vals);
    assert(eval_view(fs[i], vals) == Some(false));
    assert(eval_view(fs[j], vals) == Some(false));
    assert forall|k: int| 0 <= k < new.len() implies #[trigger] eval_view(new[k], vals) == Some(
        false,
    ) by {
        if k < i {
            assert(eval_view(fs[k], vals) == Some(false));
        } else if k == i {
        } else if k < j {
            assert(eval_view(fs[k], vals) == Some(false));
        } else {
            assert(eval_view(fs[k + 1], vals) == Some(false));
        }
    }
    lemma_eval_or(new, vals);
}

/// Replacing member `i` by the join of atoms `i` and `j` on one polynomial
/// and dropping member `j` keeps a true disjunction true.
#[verifier::spinoff_prover]
proof fn lemma_join_keeps_true(
    fs: Seq<FormulaView>,
    i: int,
    j: int,
    p: Seq<crate::polynomial::TermView>,
    r1: Relation,
    r2: Relation,
    r: Relation,
    vals: Map<usize, (int, nat)>,
)
    requires
        0 <= i < j < fs.len(),
        fs[i] == FormulaView::Atom(p, r1),
        fs[j] == FormulaView::Atom(p, r2),
        relation_holds(r, crate::polynomial::evaluate_terms(p, vals)) <==> relation_holds(
            r1,
            crate::polynomial::evaluate_terms(p, vals),
        ) || relation_holds(r2, crate::polynomial::evaluate_terms(p, vals)),
        eval_or(fs, vals) == Some(true),
    ensures
        eval_or(fs.update(i, FormulaView::Atom(p, r)).remove(j), vals) == Some(true),
{
    let g = FormulaView::Atom(p, r);
    let new = fs.update(i, g).remove(j);
    lemma_eval_or(fs, vals);
    lemma_merged_members(fs, i, j, g);
    lemma_joined_atom(p, r1, r2, r, vals);
    let ei = eval_view(fs[i], vals);
    let ej = eval_view(fs[j], vals);
    let w = choose|w: int|
        0 <= w < fs.len() && #[trigger] eval_view(fs[w], vals) == Some(true) && forall|t: int|
            0 <= t < w ==> #[trigger] eval_view(fs[t], vals) == Some(false);
    if w > i {
        assert(ei == Some(false));
    }
    if w > j {
        assert(ej == Some(false));
    }
    let nw: int = if w <= i {
        w
    } else if w < j {
        if ej == Some(true) {
            i
        } else {
            w
        }
    } else if w == j {
        i
    } else {
        w - 1
    };
    if w == j {
        assert(ej == Some(true));
    }
    assert(eval_view(new[nw], vals) == Some(true));
    assert forall|t: int| 0 <= t < nw implies #[trigger] eval_view(new[t], vals) == Some(false) by {
        if t < i {
            assert(eval_view(fs[t], vals) == Some(false));
        } else if t == i {
        } else if t < j {
            assert(eval_view(fs[t], vals) == Some(false));
        } else {
            assert(eval_view(fs[t + 1], vals) == Some(false));
        }
    }
    lemma_eval_or(new, vals);
}

/// The weak relation that joins a strict one with equality.
pub open spec fn weak_of(relation: Relation) -> Option<Relation> {
    match relation {
        Relation::Less => Some(Relation::LessOrEqual),
        Relation::Greater => Some(Relation::GreaterOrEqual),
        _ => None,
    }
}

/// Member `k` is a strict inequality whose polynomial also appears, in
/// another member, as an equation.
pub open spec fn has_equal_partner(fs: Seq<FormulaView>, k: int) -> bool {
    fs[k] matches FormulaView::Atom(p, r) && weak_of(r) is Some && exists|j: int|
        0 <= j < fs.len() && j != k && #[trigger] fs[j] == FormulaView::Atom(p, Relation::Equal)
}

/// Joins `p < 0` (or `p > 0`) and `p == 0` in a disjunction into `p <= 0`
/// (or `p >= 0`) at the place of the first of them, again and again.
/// Wherever the disjunction had a truth value it keeps it, and no strict
/// inequality is left beside an equation on its polynomial.
pub fn merge_adjacent_sign_relations(formulas: Vec<Formula>) -> (r: Vec<Formula>)
    requires
        all_wf(formulas@),
    ensures
        all_wf(r@),
        forall|vals: Map<usize, (int, nat)>|
            #[trigger] eval_or(views_of(formulas@), vals) is Some ==> eval_or(views_of(r@), vals)
                == eval_or(views_of(formulas@), vals),
        forall|k: int| 0 <= k < r@.len() ==> !#[trigger] has_equal_partner(views_of(r@), k),
{
    let ghost orig = views_of(formulas@);
    let mut formulas = formulas;
    let mut index: usize = 0;
    while index < formulas.len()
        invariant
            all_wf(formulas@),
            index <= formulas@.len(),
            forall|vals: Map<usize, (int, nat)>|
                #[trigger] eval_or(orig, vals) is Some ==> eval_or(views_of(formulas@), vals)
                    == eval_or(orig, vals),
            forall|k: int| 0 <= k < index ==> !#[trigger] has_equal_partner(views_of(formulas@), k),
        decreases formulas@.len(), formulas@.len() - index,
    {
        let ghost fs = views_of(formulas@);
        proof {
            lemma_views_of(formulas@);
            lemma_all_wf_member(formulas@, index as int);
        }
        let (polynomial, relation) = match atom_parts(&formulas[index]) {
            Some(parts) => parts,
            None => {
                index = index + 1;
                continue;
            },
        };
        let replacement = match relation {
            Relation::Less => Relation::LessOrEqual,
            Relation::Greater => Relation::GreaterOrEqual,
            _ => {
                index = index + 1;
                continue;
            },
        };
        let mut position: usize = 0;
        let mut found = false;
        while position < formulas.len() && !found
            invariant
                all_wf(formulas@),
                fs == views_of(formulas@),
                fs.len() == formulas@.len(),
                forall|k: int| 0 <= k < fs.len() ==> #[trigger] fs[k] == formulas@[k]@,
                index < formulas@.len(),
                polynomial.wf(),
                fs[index as int] == FormulaView::Atom(polynomial@, relation),
                weak_of(relation) == Some(replacement),
                position <= formulas@.len(),
                found ==> position < formulas@.len() && fs[position as int] == FormulaView::Atom(
                    polynomial@,
                    Relation::Equal,
                ),
                !found ==> forall|j: int|
                    0 <= j < position ==> #[trigger] fs[j] != FormulaView::Atom(
                        polynomial@,
                        Relation::Equal,
                    ),
            decreases formulas@.len() - position, if found { 0int } else { 1int },
        {
            proof {
                lemma_all_wf_member(formulas@, position as int);
            }
            let mut same = false;
            if let Some((q, qr)) = atom_parts(&formulas[position]) {
                same = qr == Relation::Equal && q.equals(&polynomial);
            }
            if same {
                found = true;
            } else {
                position = position + 1;
            }
        }
        if !found {
            proof {
                assert(!has_equal_partner(fs, index as int)) by {
                    if has_equal_partner(fs, index as int) {
                        let j = choose|j: int|
                            0 <= j < fs.len() && j != index && #[trigger] fs[j] == FormulaView::Atom(
                                polynomial@,
                                Relation::Equal,
                            );
                    }
                }
            }
            index = index + 1;
            continue;
        }
        let first = if index < position {
            index
        } else {
            position
        };
        let second = if index < position {
            position
        } else {
            index
        };
        let ghost p = polynomial@;
        let ghost r1 = fs[first as int]->Atom_1;
        let ghost r2 = fs[second as int]->Atom_1;
        let ghost before = formulas@;
        let merged = Formula::atom(polynomial, replacement);
        let ghost g = merged;
        formulas.remove(second);
        formulas.set(first, merged);
        proof {
            assert(position != index);
            assert(fs[first as int] == FormulaView::Atom(p, r1));
            assert(fs[second as int] == FormulaView::Atom(p, r2));
            assert(formulas@ =~= before.update(first as int, g).remove(second as int));
            let nfs = views_of(formulas@);
            lemma_views_of(formulas@);
            lemma_views_of(before);
            assert(nfs =~= fs.update(first as int, FormulaView::Atom(p, replacement)).remove(
                second as int,
            ));
            lemma_all_wf_update_remove(before, first as int, second as int, g);
            assert forall|vals: Map<usize, (int, nat)>| #[trigger]
                eval_or(orig, vals) is Some implies eval_or(nfs, vals) == eval_or(orig, vals) by {
                assert(fs == views_of(before));
                assert(eval_or(fs, vals) == eval_or(orig, vals));
                if eval_or(fs, vals) == Some(false) {
                    lemma_join_keeps_false(
                        fs,
                        first as int,
                        second as int,
                        p,
                        r1,
                        r2,
                        replacement,
                        vals,
                    );
                } else {
                    assert(eval_or(fs, vals)->0 == true);
                    lemma_join_keeps_true(
                        fs,
                        first as int,
                        second as int,
                        p,
                        r1,
                        r2,
                        replacement,
                        vals,
                    );
                }
            }
        }
        index = 0;
    }
    proof {
        let fs = views_of(formulas@);
        lemma_views_of(formulas@);
        assert forall|k: int| 0 <= k < formulas@.len() implies !#[trigger] has_equal_partner(fs, k) by {}
    }
    formulas
}

/// The product of the variables `vs`, multiplied in order onto one.
pub open spec fn variables_product(vs: Seq<usize>) -> Seq<TermView>
    decreases vs.len(),
{
    if vs.len() == 0 {
        one_terms()
    } else {
        mul_terms(variables_product(vs.drop_last()), seq![(seq![(vs.last(), 1usize)], (1int, 1nat))])
    }
}

/// A well-formed power list has total degree at most one exactly when it is
/// empty or a single variable to the first power.
pub proof fn lemma_total_degree_small(m: Seq<(usize, usize)>)
    requires
        powers_wf(m),
    ensures
        total_degree_of(m) <= 1 <==> (m.len() == 0 || (m.len() == 1 && m[0].1 == 1)),
{
    if m.len() >= 2 {
        let rest = m.drop_first();
        assert(rest[0] == m[1]);
        assert(m[0].1 >= 1 && m[1].1 >= 1);
        assert(total_degree_of(rest) == rest[0].1 + total_degree_of(rest.drop_first()));
        assert(total_degree_of(m) == m[0].1 + total_degree_of(rest));
    } else if m.len() == 1 {
        assert(m.drop_first().len() == 0);
        assert(total_degree_of(m.drop_first()) == 0);
        assert(total_degree_of(m) == m[0].1);
    }
}

/// Replaces `c * x1^e1 * ... * xk^ek = 0` (or `!= 0`), a single term of
/// total degree above one, by `x1 * ... * xk = 0` (or `!= 0`): a product
/// vanishes exactly when one of its variables does.
pub fn simplify_monomial_zero_atom(polynomial: &Polynomial, relation: Relation) -> (r: Option<Formula>)
    requires
        polynomial.wf(),
    ensures
        r is Some <==> ((relation == Relation::Equal || relation == Relation::NotEqual)
            && polynomial@.len() == 1 && total_degree_of(polynomial@[0].0) > 1),
        r matches Some(f) ==> formula_wf(f) && f@ == FormulaView::Atom(
            variables_product(polynomial@[0].0.map_values(|x: (usize, usize)| x.0)),
            relation,
        ),
{
    if !(relation == Relation::Equal || relation == Relation::NotEqual) {
        return None;
    }
    let terms = polynomial.terms();
    if terms.len() != 1 {
        return None;
    }
    let monomial = &terms[0].0;
    let powers = monomial.powers();
    proof {
        polynomial.lemma_wf();
        assert(terms@[0].0@ == polynomial@[0].0);
        lemma_total_degree_small(monomial@);
    }
    if powers.len() == 0 || (powers.len() == 1 && powers[0].1 == 1) {
        return None;
    }
    if terms[0].1.is_zero() {
        return None;
    }
    let vs = monomial.variables();
    let ghost m = monomial@;
    let mut product = Polynomial::one();
    let mut k: usize = 0;
    proof {
        assert(vs@.take(0) =~= Seq::<usize>::empty());
        lemma_one_over(vs@.take(0).to_set());
    }
    while k < vs.len()
        invariant
            m == monomial@,
            powers_wf(m),
            vs@ == m.map_values(|x: (usize, usize)| x.0),
            k <= vs@.len(),
            product.wf(),
            product@ == variables_product(vs@.take(k as int)),
            terms_over(product@, vs@.take(k as int).to_set()),
        decreases vs@.len() - k,
    {
        let v = vs[k];
        let factor = Polynomial::variable(v);
        let ghost before = vs@.take(k as int).to_set();
        let ghost after = vs@.take(k + 1).to_set();
        proof {
            assert(!before.contains(v)) by {
                if before.contains(v) {
                    let j = choose|j: int| 0 <= j < k && vs@.take(k as int)[j] == v;
                    assert(vs@[j] == m[j].0 && v == m[k as int].0);
                }
            }
            assert(mul_fits(product@, factor@)) by {
                assert forall|i: int, j: int| 0 <= i < product@.len() && 0 <= j < factor@.len() implies mono_mul_fits(
                    (#[trigger] product@[i]).0,
                    (#[trigger] factor@[j]).0,
                ) by {
                    let a = product@[i].0;
                    assert(powers_over(a, before));
                    assert forall|x: int, y: int|
                        0 <= x < a.len() && 0 <= y < factor@[j].0.len() && #[trigger] a[x].0
                            == #[trigger] factor@[j].0[y].0 implies a[x].1 + factor@[j].0[y].1
                        <= usize::MAX by {
                        assert(before.contains(a[x].0));
                    }
                }
            }
            assert(before.subset_of(after)) by {
                assert forall|u: usize| before.contains(u) implies after.contains(u) by {
                    let j = choose|j: int| 0 <= j < k && vs@.take(k as int)[j] == u;
                    assert(vs@.take(k + 1)[j] == u);
                }
            }
            lemma_over_subset(product@, before, after);
            assert(vs@.take(k + 1)[k as int] == v);
            assert(terms_over(factor@, after)) by {
                assert(powers_over(factor@[0].0, after));
            }
            lemma_mul_terms_over(product@, factor@, after);
            assert(vs@.take(k + 1).drop_last() =~= vs@.take(k as int));
            assert(vs@.take(k + 1).last() == v);
        }
        product = product.times(&factor);
        k = k + 1;
    }
    proof {
        assert(vs@.take(vs@.len() as int) =~= vs@);
    }
    Some(Formula::atom(product, relation))
}

} // verus!
