use quantifier_elimination::qe::evaluate::{
    eliminate_recursive, eliminate_supported_boolean_branches, eliminate_with_options,
};
use quantifier_elimination::{
    eliminate, eliminate_with_stats, EliminationOptions, EliminationStats, Formula, Polynomial,
    Quantifier, QuantifierEvaluationError, Rational, Relation,
};
use std::collections::BTreeMap;

fn x(i: usize) -> Polynomial {
    Polynomial::variable(i)
}

fn constant(n: i64) -> Polynomial {
    Polynomial::integer(n)
}

fn point(assignments: &[(usize, i64)]) -> BTreeMap<usize, Rational> {
    let mut values = BTreeMap::new();
    for (variable, value) in assignments {
        values.insert(*variable, Rational::from_i64(*value));
    }
    values
}

#[test]
fn eliminates_vacuous_quantifiers_with_multiple_free_variables() {
    let body = Formula::atom(x(0) + x(2), Relation::Equal);

    assert_eq!(eliminate(&Formula::existential(1, body.duplicate())).unwrap(), body);
    assert_eq!(eliminate(&Formula::universal(1, body.duplicate())).unwrap(), body);
}

#[test]
fn eliminates_linear_atomic_formulas_with_multiple_free_variables() {
    let formula = Formula::existential(
        1,
        Formula::atom((x(0) + x(2)) * x(1) - constant(1), Relation::Equal),
    );
    let eliminated = eliminate(&formula).unwrap();

    for (x_value, z_value, expected) in [(0, 1, true), (1, -1, false), (2, 3, true)] {
        let values = point(&[(0, x_value), (2, z_value)]);
        assert_eq!(eliminated.evaluate(&values), Some(expected));
    }
}

#[test]
fn covers_all_linear_relation_quantifiers_with_multiple_free_variables() {
    let relations = [
        Relation::Equal,
        Relation::NotEqual,
        Relation::Less,
        Relation::LessOrEqual,
        Relation::Greater,
        Relation::GreaterOrEqual,
    ];

    for relation in relations {
        let polynomial = (x(0) + x(2)) * x(1) + x(0) - x(2);
        let existential =
            eliminate(&Formula::existential(1, Formula::atom(polynomial.clone(), relation)))
                .unwrap();
        let universal =
            eliminate(&Formula::universal(1, Formula::atom(polynomial, relation))).unwrap();

        let nonzero_leading = point(&[(0, 1), (2, 0)]);
        assert_eq!(existential.evaluate(&nonzero_leading), Some(true));
        assert_eq!(universal.evaluate(&nonzero_leading), Some(false));

        let zero_leading = point(&[(0, 1), (2, -1)]);
        let expected = match relation {
            Relation::Equal => false,
            Relation::NotEqual => true,
            Relation::Less => false,
            Relation::LessOrEqual => false,
            Relation::Greater => true,
            Relation::GreaterOrEqual => true,
        };
        assert_eq!(existential.evaluate(&zero_leading), Some(expected));
        assert_eq!(universal.evaluate(&zero_leading), Some(expected));
    }
}

#[test]
fn eliminates_negated_linear_atoms_with_multiple_free_variables() {
    let formula = Formula::existential(
        1,
        Formula::Not(Box::new(Formula::atom(
            (x(0) + x(2)) * x(1) - constant(1),
            Relation::Less,
        ))),
    );
    let eliminated = eliminate(&formula).unwrap();

    for (x_value, z_value, expected) in [(0, 1, true), (1, -1, false), (2, 3, true)] {
        let values = point(&[(0, x_value), (2, z_value)]);
        assert_eq!(eliminated.evaluate(&values), Some(expected));
    }
}

#[test]
fn distributes_supported_boolean_branches_over_multiple_free_variables() {
    let existential = Formula::existential(
        1,
        Formula::Or(vec![
            Formula::atom((x(0) + x(2)) * x(1) - constant(1), Relation::Equal),
            Formula::atom(x(1) + x(0) - x(2), Relation::Greater),
        ]),
    );
    let universal = Formula::universal(
        1,
        Formula::And(vec![
            Formula::atom(x(1) * (x(0) + x(2)), Relation::Equal),
            Formula::atom(x(1) - x(0) + x(2), Relation::Equal),
        ]),
    );

    let existential_result = eliminate(&existential).unwrap();
    let universal_result = eliminate(&universal).unwrap();
    let values = point(&[(0, 1), (2, 2)]);
    assert_eq!(existential_result.evaluate(&values), Some(true));
    assert_eq!(universal_result.evaluate(&values), Some(false));
}

#[test]
fn composes_branch_distribution_across_nested_quantifiers() {
    let formula = Formula::existential(
        0,
        Formula::existential(
            1,
            Formula::Or(vec![
                Formula::atom(x(1) + x(0) - x(2), Relation::Equal),
                Formula::atom(x(1) - x(0) - x(2), Relation::Greater),
            ]),
        ),
    );

    let eliminated = eliminate(&formula).unwrap();
    let values = point(&[(2, 3)]);
    assert_eq!(eliminated.evaluate(&values), Some(true));
}

#[test]
fn substitutes_positive_constant_leading_linear_equalities() {
    let formula = Formula::existential(
        1,
        Formula::And(vec![
            Formula::atom(x(1) - x(0) - x(2), Relation::Equal),
            Formula::atom(x(1) - x(0), Relation::Greater),
        ]),
    );
    let eliminated = eliminate(&formula).unwrap();

    for (z_value, expected) in [(-1, false), (0, false), (1, true)] {
        let values = point(&[(0, 2), (2, z_value)]);
        assert_eq!(eliminated.evaluate(&values), Some(expected));
    }
}

#[test]
fn rejects_universal_conjunctions_with_linear_equalities() {
    let formula = Formula::universal(
        1,
        Formula::And(vec![
            Formula::atom(x(1) - x(0) - x(2), Relation::Equal),
            Formula::atom(x(0), Relation::Greater),
        ]),
    );

    assert_eq!(eliminate(&formula).unwrap(), Formula::False);
}

#[test]
fn substitutes_negative_constant_leading_linear_equalities() {
    let formula = Formula::existential(
        1,
        Formula::And(vec![
            Formula::atom(x(0) + x(2) - x(1), Relation::Equal),
            Formula::atom(x(1) - x(0), Relation::Greater),
        ]),
    );
    let eliminated = eliminate(&formula).unwrap();

    for (z_value, expected) in [(-1, false), (0, false), (1, true)] {
        let values = point(&[(0, 2), (2, z_value)]);
        assert_eq!(eliminated.evaluate(&values), Some(expected));
    }
}

#[test]
fn substitutes_negated_linear_conjunction_branches() {
    let formula = Formula::existential(
        1,
        Formula::And(vec![
            Formula::atom(x(1) - x(0), Relation::Equal),
            Formula::Not(Box::new(Formula::atom(x(1) - x(2), Relation::LessOrEqual))),
        ]),
    );
    let eliminated = eliminate(&formula).unwrap();
    assert_eq!(eliminated.evaluate(&point(&[(0, 2), (2, 1)])), Some(true));
    assert_eq!(eliminated.evaluate(&point(&[(0, 2), (2, 2)])), Some(false));
}

#[test]
fn eliminates_existential_linear_inequality_bounds() {
    let formula = Formula::existential(
        1,
        Formula::And(vec![
            Formula::atom(x(1) - x(0), Relation::Greater),
            Formula::atom(x(1) - x(2), Relation::LessOrEqual),
        ]),
    );
    let eliminated = eliminate(&formula).unwrap();

    for (x_value, z_value, expected) in [(0, 1, true), (1, 1, false), (2, 1, false)] {
        let values = point(&[(0, x_value), (2, z_value)]);
        assert_eq!(eliminated.evaluate(&values), Some(expected));
    }
}

#[test]
fn eliminates_universal_linear_conjunctions_and_disjunctions() {
    let conjunction = Formula::universal(
        1,
        Formula::And(vec![
            Formula::atom(x(1) - x(0), Relation::Greater),
            Formula::atom(x(1) - x(2), Relation::Less),
        ]),
    );
    let disjunction = Formula::universal(
        1,
        Formula::Or(vec![
            Formula::atom(x(1) - x(0), Relation::LessOrEqual),
            Formula::atom(x(1) - x(2), Relation::GreaterOrEqual),
        ]),
    );

    assert_eq!(eliminate(&conjunction).unwrap(), Formula::False);
    let eliminated = eliminate(&disjunction).unwrap();
    assert_eq!(eliminated.evaluate(&point(&[(0, 2), (2, 1)])), Some(true));
    assert_eq!(eliminated.evaluate(&point(&[(0, 2), (2, 3)])), Some(false));
}

#[test]
fn quantifier_free_formulas_come_back_unchanged() {
    let formula = Formula::And(vec![
        Formula::atom(x(0), Relation::Greater),
        Formula::atom(x(1) - constant(2), Relation::NotEqual),
    ]);
    let (eliminated, stats) = eliminate_with_stats(&formula).unwrap();
    assert_eq!(eliminated, formula);
    assert_eq!(stats.quantifier_calls, 0);
}

#[test]
fn a_formula_with_a_quantifier_below_its_root_is_refused() {
    let formula = Formula::And(vec![
        Formula::atom(x(0), Relation::Greater),
        Formula::existential(1, Formula::atom(x(1) - x(0), Relation::Equal)),
    ]);
    assert_eq!(eliminate(&formula), Err(QuantifierEvaluationError::WrongVariable));
}

#[test]
fn a_quantifier_that_needs_a_decomposition_is_unsupported() {
    let formula = Formula::existential(
        0,
        Formula::atom(x(0) * x(0) + constant(1), Relation::Equal),
    );
    assert_eq!(eliminate(&formula), Err(QuantifierEvaluationError::Unsupported));
}

#[test]
fn nested_quantifiers_are_counted_once_each() {
    let formula = Formula::existential(
        0,
        Formula::existential(1, Formula::atom(x(1) - x(0) - x(2), Relation::Greater)),
    );
    let mut stats = EliminationStats::default();
    let eliminated = eliminate_recursive(&formula, &mut stats, EliminationOptions::default()).unwrap();
    assert!(eliminated.is_quantifier_free());
    // The two quantifiers, then the outer one once more for each of the two
    // branches of the disjunction that the inner one leaves.
    assert_eq!(stats.quantifier_calls, 4);
    let (again, _) = eliminate_with_options(&formula, EliminationOptions::default()).unwrap();
    assert_eq!(again, eliminated);
}

#[test]
fn boolean_distribution_applies_only_to_its_shapes() {
    let mut stats = EliminationStats::default();
    let atom = Formula::existential(1, Formula::atom(x(1) - x(0), Relation::Greater));
    assert!(eliminate_supported_boolean_branches(
        Quantifier::Exists,
        1,
        &atom,
        &mut stats,
        EliminationOptions::default()
    )
    .is_none());

    // Every member of the conjunction holds x1: no guard to factor out.
    let dependent = Formula::existential(
        1,
        Formula::And(vec![
            Formula::atom(x(1) - x(0), Relation::Greater),
            Formula::atom(x(1) - x(2), Relation::Less),
        ]),
    );
    assert!(eliminate_supported_boolean_branches(
        Quantifier::Exists,
        1,
        &dependent,
        &mut stats,
        EliminationOptions::default()
    )
    .is_none());

    let branches = Formula::existential(
        1,
        Formula::Or(vec![
            Formula::atom(x(1) - x(0), Relation::Greater),
            Formula::atom(x(1) * x(2) - constant(1), Relation::Equal),
        ]),
    );
    let result = eliminate_supported_boolean_branches(
        Quantifier::Exists,
        1,
        &branches,
        &mut stats,
        EliminationOptions::default(),
    )
    .unwrap()
    .unwrap();
    match &result {
        Formula::Or(members) => assert_eq!(members.len(), 2),
        _ => panic!("expected a disjunction"),
    }
    assert_eq!(result.evaluate(&point(&[(0, 5), (2, 0)])), Some(true));
}

#[test]
fn a_guard_without_the_variable_is_factored_out() {
    let formula = Formula::existential(
        1,
        Formula::And(vec![
            Formula::Or(vec![
                Formula::atom(x(0) - constant(1), Relation::Greater),
                Formula::atom(x(0) + constant(1), Relation::Less),
            ]),
            Formula::atom(x(1) - x(0), Relation::Greater),
            Formula::Not(Box::new(Formula::atom(x(1) - x(2), Relation::GreaterOrEqual))),
        ]),
    );
    let eliminated = eliminate(&formula).unwrap();
    match &eliminated {
        Formula::And(parts) => assert_eq!(parts.len(), 2),
        _ => panic!("expected the guard beside the elimination"),
    }
    assert_eq!(eliminated.evaluate(&point(&[(0, 2), (2, 5)])), Some(true));
    assert_eq!(eliminated.evaluate(&point(&[(0, 2), (2, 2)])), Some(false));
    assert_eq!(eliminated.evaluate(&point(&[(0, 0), (2, 5)])), Some(false));
}

#[test]
fn elimination_frees_no_new_variable() {
    let formula = Formula::existential(
        1,
        Formula::And(vec![
            Formula::atom(x(1) - x(0), Relation::Greater),
            Formula::atom(x(1) - x(2), Relation::Less),
            Formula::atom(x(3), Relation::NotEqual),
        ]),
    );
    let eliminated = eliminate(&formula).unwrap();
    let before = formula.free_variables();
    let after = eliminated.free_variables();
    assert!(after.iter().all(|v| before.contains(v)));
    assert!(!after.contains(&1));
    assert!(after.contains(&0) && after.contains(&2) && after.contains(&3));
}
