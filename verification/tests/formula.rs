use quantifier_elimination::qe::normalize::to_nnf;
use quantifier_elimination::{Formula, Monomial, Polynomial, Rational, Relation, RenameError, VariableNames};
use std::collections::BTreeMap;

#[test]
fn normalizes_negation_and_dualizes_quantifiers() {
    let x = Polynomial::variable(0);
    let formula = Formula::Not(Box::new(Formula::universal(
        0,
        Formula::atom(x, Relation::Less),
    )));
    let expected = Formula::existential(
        0,
        Formula::atom(Polynomial::variable(0), Relation::GreaterOrEqual),
    );

    assert_eq!(to_nnf(&formula), expected);
}

#[test]
fn negation_normal_form_swaps_connectives_and_constants() {
    let x = Polynomial::variable(0);
    let formula = Formula::Not(Box::new(Formula::And(vec![
        Formula::True,
        Formula::Or(vec![
            Formula::atom(x.clone(), Relation::Equal),
            Formula::Not(Box::new(Formula::atom(x.clone(), Relation::Greater))),
        ]),
    ])));
    let expected = Formula::Or(vec![
        Formula::False,
        Formula::And(vec![
            Formula::atom(x.clone(), Relation::NotEqual),
            Formula::atom(x, Relation::Greater),
        ]),
    ]);
    assert_eq!(to_nnf(&formula), expected);
}

#[test]
fn negation_normal_form_keeps_the_truth_value() {
    let x = Polynomial::variable(0);
    let formula = Formula::Not(Box::new(Formula::Or(vec![
        Formula::atom(x.clone() - Polynomial::integer(1), Relation::Less),
        Formula::atom(x.clone() - Polynomial::integer(3), Relation::GreaterOrEqual),
    ])));
    for n in -2..6 {
        let mut values = BTreeMap::new();
        values.insert(0, Rational::from_i64(n));
        assert_eq!(to_nnf(&formula).evaluate(&values), formula.evaluate(&values));
    }
}

#[test]
fn tracks_free_variables_across_quantifier_scopes() {
    let x = Polynomial::variable(0);
    let y = Polynomial::variable(1);
    let formula = Formula::existential(
        0,
        Formula::And(vec![
            Formula::atom(x + y.clone(), Relation::Equal),
            Formula::atom(y, Relation::Greater),
        ]),
    );

    assert_eq!(
        formula.free_variables().into_iter().collect::<Vec<_>>(),
        vec![1]
    );
}

#[test]
fn alpha_renames_without_capturing_free_variables() {
    let x = Polynomial::variable(0);
    let formula = Formula::existential(0, Formula::atom(x, Relation::Equal));
    let renamed = formula.alpha_rename(0, 2).unwrap();

    assert_eq!(renamed.free_variables().len(), 0);
    assert!(matches!(renamed, Formula::Quantified { variable: 2, .. }));

    let y = Polynomial::variable(1);
    let capturing = Formula::existential(0, Formula::atom(y, Relation::Equal));
    assert_eq!(capturing.alpha_rename(0, 1), Err(RenameError::WouldCapture));
}

#[test]
fn alpha_renaming_needs_the_outer_binder() {
    let formula = Formula::atom(Polynomial::variable(0), Relation::Equal);
    assert_eq!(formula.alpha_rename(0, 1), Err(RenameError::NotBound));

    let bound = Formula::universal(3, Formula::True);
    assert_eq!(bound.alpha_rename(0, 1), Err(RenameError::NotBound));
}

#[test]
fn alpha_renaming_stops_at_inner_binders() {
    let x = Polynomial::variable(0);
    let formula = Formula::existential(
        0,
        Formula::And(vec![
            Formula::atom(x.clone(), Relation::Greater),
            Formula::universal(0, Formula::atom(x.clone(), Relation::Less)),
        ]),
    );
    let renamed = formula.alpha_rename(0, 5).unwrap();
    assert_eq!(
        renamed,
        Formula::existential(
            5,
            Formula::And(vec![
                Formula::atom(Polynomial::variable(5), Relation::Greater),
                Formula::universal(0, Formula::atom(x, Relation::Less)),
            ]),
        )
    );
}

#[test]
fn evaluates_quantifier_free_formulas_at_exact_rational_points() {
    let x = Polynomial::variable(0);
    let formula = Formula::atom(x, Relation::GreaterOrEqual);
    let mut values = BTreeMap::new();
    values.insert(0, Rational::from_i64(-1));
    assert_eq!(formula.evaluate(&values), Some(false));
    values.insert(0, Rational::from_i64(2));
    assert_eq!(formula.evaluate(&values), Some(true));
    assert_eq!(Formula::existential(0, Formula::True).evaluate(&values), None);
    assert_eq!(
        Formula::atom(Polynomial::variable(1), Relation::Equal).evaluate(&values),
        None
    );
}

#[test]
fn conjunctions_stop_at_the_first_false_member() {
    let values = BTreeMap::new();
    let missing = || Formula::atom(Polynomial::variable(9), Relation::Equal);
    assert_eq!(
        Formula::And(vec![Formula::False, missing()]).evaluate(&values),
        Some(false)
    );
    assert_eq!(
        Formula::And(vec![missing(), Formula::False]).evaluate(&values),
        None
    );
    assert_eq!(
        Formula::Or(vec![Formula::True, missing()]).evaluate(&values),
        Some(true)
    );
    assert_eq!(Formula::Or(vec![]).evaluate(&values), Some(false));
    assert_eq!(Formula::And(vec![]).evaluate(&values), Some(true));
}

#[test]
fn reports_whether_quantifiers_occur() {
    let atom = || Formula::atom(Polynomial::variable(0), Relation::Equal);
    assert!(Formula::Not(Box::new(atom())).is_quantifier_free());
    assert!(!Formula::Or(vec![atom(), Formula::existential(0, atom())]).is_quantifier_free());
}

#[test]
fn copies_formulas_exactly() {
    let formula = Formula::universal(
        1,
        Formula::Or(vec![Formula::atom(Polynomial::variable(1), Relation::Less), Formula::True]),
    );
    assert_eq!(formula.duplicate(), formula);
}

#[test]
fn alpha_renaming_rejects_capture_under_an_inner_binder() {
    // exists x0. forall x2. x2^2 + x0 >= 0, renamed x0 -> x2, would bind the
    // renamed x0 by the inner forall.
    let x0 = Polynomial::variable(0);
    let x2 = Polynomial::variable(2);
    let body = Formula::universal(
        2,
        Formula::atom(x2.clone().times(&x2).plus(&x0), Relation::GreaterOrEqual),
    );
    let formula = Formula::existential(0, body);
    assert_eq!(formula.alpha_rename(0, 2), Err(RenameError::WouldCapture));
    // Renaming to a variable that no inner binder uses is fine.
    assert!(formula.alpha_rename(0, 3).is_ok());
}

#[test]
fn default_values_are_empty() {
    assert!(Polynomial::default().is_zero());
    assert!(Monomial::default().is_one());
    assert_eq!(VariableNames::default(), VariableNames::new());
    assert_eq!(VariableNames::default().name(4), "x4");
}

#[test]
fn alpha_renaming_keeps_the_free_variables() {
    // exists x0. x0 * x1 - x3 > 0 && (forall x2. x2 + x0 = 0)
    let body = Formula::And(vec![
        Formula::atom(
            Polynomial::variable(0) * Polynomial::variable(1) - Polynomial::variable(3),
            Relation::Greater,
        ),
        Formula::universal(
            2,
            Formula::atom(Polynomial::variable(2) + Polynomial::variable(0), Relation::Equal),
        ),
    ]);
    let formula = Formula::existential(0, body);
    let renamed = formula.alpha_rename(0, 5).unwrap();
    assert_eq!(renamed.free_variables(), formula.free_variables());
    assert_eq!(renamed.free_variables().into_iter().collect::<Vec<_>>(), vec![1, 3]);
    // The inner binder of x2 would capture a renaming to 2.
    assert_eq!(formula.alpha_rename(0, 2), Err(RenameError::WouldCapture));
}
