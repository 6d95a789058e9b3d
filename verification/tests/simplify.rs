use quantifier_elimination::qe::simplify::{
    merge_adjacent_sign_relations, merge_exact_sign_bounds, merge_sign_constraints,
    simplify_monomial_zero_atom, relation_from_mask, relation_mask,
    true_for_relation,
};
use quantifier_elimination::qe::factor::factor_common_atom;
use quantifier_elimination::qe::symmetric::simplify_cubic_symmetric_sign_partition;
use quantifier_elimination::{Formula, Polynomial, Rational, Relation};
use std::collections::BTreeMap;

fn x(i: usize) -> Polynomial {
    Polynomial::variable(i)
}

const ALL: [Relation; 6] = [
    Relation::Equal,
    Relation::NotEqual,
    Relation::Less,
    Relation::LessOrEqual,
    Relation::Greater,
    Relation::GreaterOrEqual,
];

#[test]
fn masks_name_the_signs_where_a_relation_holds() {
    assert_eq!(relation_mask(Relation::Less), 1);
    assert_eq!(relation_mask(Relation::Equal), 2);
    assert_eq!(relation_mask(Relation::Greater), 4);
    assert_eq!(relation_mask(Relation::LessOrEqual), 3);
    assert_eq!(relation_mask(Relation::NotEqual), 5);
    assert_eq!(relation_mask(Relation::GreaterOrEqual), 6);
    for relation in ALL {
        assert_eq!(relation_from_mask(relation_mask(relation)), Some(relation));
    }
    assert_eq!(relation_from_mask(0), None);
    assert_eq!(relation_from_mask(7), None);
}

#[test]
fn intersections_of_masks_combine_relations() {
    let le = relation_mask(Relation::LessOrEqual);
    let ge = relation_mask(Relation::GreaterOrEqual);
    assert_eq!(relation_from_mask(le & ge), Some(Relation::Equal));
    let ne = relation_mask(Relation::NotEqual);
    assert_eq!(relation_from_mask(le & ne), Some(Relation::Less));
    let lt = relation_mask(Relation::Less);
    let gt = relation_mask(Relation::Greater);
    assert_eq!(relation_from_mask(lt & gt), None);
}

#[test]
fn sign_constraints_on_one_polynomial_merge() {
    let mut formulas = vec![
        Formula::atom(x(0), Relation::LessOrEqual),
        Formula::atom(x(1), Relation::Greater),
        Formula::atom(x(0), Relation::NotEqual),
    ];
    assert!(!merge_sign_constraints(&mut formulas));
    assert_eq!(
        formulas,
        vec![
            Formula::atom(x(0), Relation::Less),
            Formula::atom(x(1), Relation::Greater),
        ]
    );
}

#[test]
fn contradictory_sign_constraints_are_reported() {
    let mut formulas = vec![
        Formula::atom(x(0), Relation::Less),
        Formula::True,
        Formula::atom(x(0), Relation::GreaterOrEqual),
    ];
    assert!(merge_sign_constraints(&mut formulas));
}

#[test]
fn merging_keeps_the_truth_of_a_conjunction() {
    let original = vec![
        Formula::atom(x(0), Relation::GreaterOrEqual),
        Formula::atom(x(0), Relation::NotEqual),
        Formula::atom(x(0), Relation::LessOrEqual),
        Formula::atom(x(0) - Polynomial::integer(2), Relation::Less),
    ];
    let mut merged = original.clone_list();
    let contradiction = merge_sign_constraints(&mut merged);
    for value in -3..4 {
        let mut values = BTreeMap::new();
        values.insert(0, Rational::from_i64(value));
        let before = Formula::And(original.clone_list()).evaluate(&values);
        if contradiction {
            assert_ne!(before, Some(true));
        } else {
            let after = Formula::And(merged.clone_list()).evaluate(&values);
            assert_eq!(before, after);
        }
    }
}

#[test]
fn opposite_weak_bounds_become_an_equation() {
    let formulas = vec![
        Formula::atom(x(1), Relation::Greater),
        Formula::atom(x(0), Relation::GreaterOrEqual),
        Formula::atom(x(0), Relation::LessOrEqual),
    ];
    assert_eq!(
        merge_exact_sign_bounds(formulas),
        vec![
            Formula::atom(x(1), Relation::Greater),
            Formula::atom(x(0), Relation::Equal),
        ]
    );
    let unrelated = vec![
        Formula::atom(x(0), Relation::GreaterOrEqual),
        Formula::atom(x(1), Relation::LessOrEqual),
    ];
    assert_eq!(merge_exact_sign_bounds(unrelated.clone_list()), unrelated);
}

#[test]
fn equality_is_the_relation_not_checked_by_refutation() {
    assert!(!true_for_relation(Relation::Equal));
    for relation in ALL.into_iter().filter(|r| *r != Relation::Equal) {
        assert!(true_for_relation(relation));
    }
}

trait CloneList {
    fn clone_list(&self) -> Vec<Formula>;
}

impl CloneList for Vec<Formula> {
    fn clone_list(&self) -> Vec<Formula> {
        self.iter().map(Formula::duplicate).collect()
    }
}

#[test]
fn strict_and_equal_disjuncts_join() {
    assert_eq!(
        merge_adjacent_sign_relations(vec![
            Formula::atom(x(0), Relation::Less),
            Formula::atom(x(0), Relation::Equal),
        ]),
        vec![Formula::atom(x(0), Relation::LessOrEqual)]
    );
    assert_eq!(
        merge_adjacent_sign_relations(vec![
            Formula::atom(x(1), Relation::NotEqual),
            Formula::atom(x(0), Relation::Equal),
            Formula::atom(x(0), Relation::Greater),
        ]),
        vec![
            Formula::atom(x(1), Relation::NotEqual),
            Formula::atom(x(0), Relation::GreaterOrEqual),
        ]
    );
    let apart = vec![
        Formula::atom(x(0), Relation::Less),
        Formula::atom(x(1), Relation::Equal),
    ];
    assert_eq!(merge_adjacent_sign_relations(apart.clone_list()), apart);
}

#[test]
fn a_vanishing_monomial_becomes_a_product_of_its_variables() {
    assert_eq!(
        simplify_monomial_zero_atom(&x(0).pow(3), Relation::Equal),
        Some(Formula::atom(x(0), Relation::Equal))
    );
    let term = Polynomial::integer(-4) * x(0).pow(2) * x(2);
    assert_eq!(
        simplify_monomial_zero_atom(&term, Relation::NotEqual),
        Some(Formula::atom(x(0) * x(2), Relation::NotEqual))
    );
    assert_eq!(simplify_monomial_zero_atom(&x(0).pow(3), Relation::Less), None);
    assert_eq!(simplify_monomial_zero_atom(&x(1), Relation::Equal), None);
    assert_eq!(
        simplify_monomial_zero_atom(&(x(0) * x(1) + Polynomial::integer(1)), Relation::Equal),
        None
    );
}

#[test]
fn the_cubic_symmetric_sign_partition_collapses() {
    let k = x(0);
    let linear = || Polynomial::integer(-1) - x(0);
    let cubic = || x(0).pow(3) - Polynomial::integer(3) * x(0).pow(2);
    let partition = vec![
        Formula::And(vec![
            Formula::atom(linear(), Relation::Greater),
            Formula::atom(cubic(), Relation::GreaterOrEqual),
        ]),
        Formula::And(vec![
            Formula::atom(linear(), Relation::Less),
            Formula::atom(cubic(), Relation::LessOrEqual),
        ]),
        Formula::And(vec![
            Formula::atom(linear(), Relation::Equal),
            Formula::atom(k.clone(), Relation::Equal),
        ]),
    ];
    let expected = Formula::And(vec![
        Formula::atom(Polynomial::integer(1) + x(0), Relation::Greater),
        Formula::atom(Polynomial::integer(3) - x(0), Relation::GreaterOrEqual),
    ]);
    assert_eq!(simplify_cubic_symmetric_sign_partition(&partition), Some(expected.duplicate()));
    let two = vec![partition[0].duplicate(), partition[1].duplicate()];
    assert_eq!(simplify_cubic_symmetric_sign_partition(&two), Some(expected.duplicate()));
    let canonical = vec![
        Formula::And(vec![
            Formula::atom(-linear(), Relation::Less),
            Formula::atom(-cubic(), Relation::LessOrEqual),
        ]),
        Formula::And(vec![
            Formula::atom(-linear(), Relation::Greater),
            Formula::atom(-cubic(), Relation::GreaterOrEqual),
        ]),
    ];
    assert_eq!(simplify_cubic_symmetric_sign_partition(&canonical), Some(expected));
    let incomplete = vec![partition[0].duplicate(), partition[2].duplicate()];
    assert_eq!(simplify_cubic_symmetric_sign_partition(&incomplete), None);
    let missing_equality = vec![
        partition[0].duplicate(),
        partition[1].duplicate(),
        Formula::And(vec![
            Formula::atom(linear(), Relation::Equal),
            Formula::atom(k.pow(3), Relation::Equal),
        ]),
    ];
    assert_eq!(simplify_cubic_symmetric_sign_partition(&missing_equality), None);
}

#[test]
fn the_most_common_atom_is_factored_out() {
    let a = || Formula::atom(x(0), Relation::Greater);
    let b = || Formula::atom(x(1), Relation::Less);
    let c = || Formula::atom(x(2), Relation::Equal);
    let d = || Formula::atom(x(3), Relation::NotEqual);
    let formulas = vec![
        Formula::And(vec![a(), b()]),
        Formula::And(vec![a(), c()]),
        d(),
    ];
    assert_eq!(
        factor_common_atom(&formulas),
        Some(Formula::Or(vec![
            Formula::And(vec![a(), Formula::Or(vec![b(), c()])]),
            d(),
        ]))
    );
    let tied = vec![Formula::And(vec![a(), b()]), Formula::And(vec![a(), b()])];
    assert_eq!(
        factor_common_atom(&tied),
        Some(Formula::And(vec![b(), Formula::Or(vec![a(), a()])]))
    );
    let whole = vec![a(), Formula::And(vec![a(), c()])];
    assert_eq!(
        factor_common_atom(&whole),
        Some(Formula::And(vec![a(), Formula::Or(vec![Formula::True, c()])]))
    );
    assert_eq!(factor_common_atom(&vec![a(), b()]), None);
    assert_eq!(factor_common_atom(&vec![Formula::True, Formula::False]), None);
}
