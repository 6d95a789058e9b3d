use quantifier_elimination::cad::lifting::CellKind;
use quantifier_elimination::cad::projection::build_projection_stack;
use quantifier_elimination::qe::evaluate::{
    atom_with_negated_relation, eliminate_exists_linear_conjunction,
    eliminate_exists_linear_inequalities, eliminate_forall_linear_conjunction,
    eliminate_forall_linear_equality, eliminate_linear_atom, reverse_inequality, select_variable_order,
    EliminationOptions, EliminationStats, QuantifierEvaluationError,
};
use quantifier_elimination::cad::projection::ProjectionError;
use quantifier_elimination::qe::special::SpecialRule;
use quantifier_elimination::{Formula, Polynomial, Rational, Relation};
use std::collections::BTreeMap;

fn x(i: usize) -> Polynomial {
    Polynomial::variable(i)
}

fn constant(n: i64) -> Polynomial {
    Polynomial::integer(n)
}

#[test]
fn linear_atom_under_exists_is_a_disjunction() {
    let formula = Formula::existential(0, Formula::atom(x(0) + x(1), Relation::Greater));
    let expected = Formula::Or(vec![
        Formula::atom(constant(1), Relation::NotEqual),
        Formula::atom(x(1), Relation::Greater),
    ]);
    assert_eq!(eliminate_linear_atom(&formula, 0), Some(expected));
}

#[test]
fn linear_equation_under_exists_keeps_the_degenerate_case() {
    let formula = Formula::existential(0, Formula::atom(x(1) * x(0) - x(2), Relation::Equal));
    let expected = Formula::Or(vec![
        Formula::And(vec![
            Formula::atom(x(1), Relation::Equal),
            Formula::atom(-x(2), Relation::Equal),
        ]),
        Formula::atom(x(1), Relation::NotEqual),
    ]);
    assert_eq!(eliminate_linear_atom(&formula, 0), Some(expected));
}

#[test]
fn linear_atom_under_forall_needs_a_vanishing_coefficient() {
    let body = Formula::Not(Box::new(Formula::atom(
        x(1) * x(0) + constant(2),
        Relation::Less,
    )));
    let formula = Formula::universal(0, body);
    let expected = Formula::And(vec![
        Formula::atom(x(1), Relation::Equal),
        Formula::atom(constant(2), Relation::GreaterOrEqual),
    ]);
    assert_eq!(eliminate_linear_atom(&formula, 0), Some(expected));
}

#[test]
fn linear_atom_rule_rejects_other_shapes() {
    let quadratic = Formula::existential(0, Formula::atom(x(0) * x(0), Relation::Equal));
    assert_eq!(eliminate_linear_atom(&quadratic, 0), None);
    let open = Formula::atom(x(0), Relation::Equal);
    assert_eq!(eliminate_linear_atom(&open, 0), None);
    let conjunction = Formula::existential(
        0,
        Formula::And(vec![Formula::atom(x(0), Relation::Equal)]),
    );
    assert_eq!(eliminate_linear_atom(&conjunction, 0), None);
}

#[test]
fn forall_with_a_linear_equation_is_false() {
    let formula = Formula::universal(
        0,
        Formula::And(vec![
            Formula::atom(x(1), Relation::Greater),
            Formula::atom(x(0) - constant(1), Relation::Equal),
        ]),
    );
    assert_eq!(eliminate_forall_linear_equality(&formula, 0), Some(Formula::False));
    let parametric = Formula::universal(
        0,
        Formula::And(vec![Formula::atom(x(1) * x(0), Relation::Equal)]),
    );
    assert_eq!(eliminate_forall_linear_equality(&parametric, 0), None);
    let existential = Formula::existential(
        0,
        Formula::And(vec![Formula::atom(x(0), Relation::Equal)]),
    );
    assert_eq!(eliminate_forall_linear_equality(&existential, 0), None);
}

#[test]
fn forall_with_a_linear_literal_is_false() {
    let formula = Formula::universal(
        0,
        Formula::And(vec![
            Formula::atom(x(1), Relation::Greater),
            Formula::Not(Box::new(Formula::atom(x(0) - constant(1), Relation::Greater))),
        ]),
    );
    assert_eq!(eliminate_forall_linear_conjunction(&formula, 0), Some(Formula::False));
    let free = Formula::universal(
        0,
        Formula::And(vec![Formula::atom(x(1), Relation::Greater)]),
    );
    assert_eq!(eliminate_forall_linear_conjunction(&free, 0), None);
}

#[test]
fn exists_substitutes_a_linear_equation() {
    // exists x0. 2*x0 - x1 = 0 && x0 + x2 > 0
    let formula = Formula::existential(
        0,
        Formula::And(vec![
            Formula::atom(constant(2) * x(0) - x(1), Relation::Equal),
            Formula::atom(x(0) + x(2), Relation::Greater),
        ]),
    );
    let expected = Formula::And(vec![
        Formula::atom(Polynomial::zero(), Relation::Equal),
        Formula::atom(x(1) + constant(2) * x(2), Relation::Greater),
    ]);
    assert_eq!(eliminate_exists_linear_conjunction(&formula, 0), Some(expected));
}

#[test]
fn exists_substitution_reverses_for_a_negative_coefficient() {
    // exists x0. -x0 + x1 = 0 && x0 < 3 && x1 != 4
    let formula = Formula::existential(
        0,
        Formula::And(vec![
            Formula::atom(x(1) - x(0), Relation::Equal),
            Formula::atom(x(0) - constant(3), Relation::Less),
            Formula::atom(x(1) - constant(4), Relation::NotEqual),
        ]),
    );
    let expected = Formula::And(vec![
        Formula::atom(Polynomial::zero(), Relation::Equal),
        Formula::atom(constant(3) - x(1), Relation::Greater),
        Formula::atom(x(1) - constant(4), Relation::NotEqual),
    ]);
    assert_eq!(eliminate_exists_linear_conjunction(&formula, 0), Some(expected));
}

#[test]
fn exists_substitution_needs_an_equation_and_linear_branches() {
    let no_equation = Formula::existential(
        0,
        Formula::And(vec![Formula::atom(x(0), Relation::Greater)]),
    );
    assert_eq!(eliminate_exists_linear_conjunction(&no_equation, 0), None);
    let quadratic = Formula::existential(
        0,
        Formula::And(vec![
            Formula::atom(x(0), Relation::Equal),
            Formula::atom(x(0) * x(0) - constant(1), Relation::Greater),
        ]),
    );
    assert_eq!(eliminate_exists_linear_conjunction(&quadratic, 0), None);
}

#[test]
fn exists_pairs_lower_and_upper_bounds() {
    // exists x0. x0 > x1 && x0 <= 5 && x2 >= 0
    let formula = Formula::existential(
        0,
        Formula::And(vec![
            Formula::atom(x(0) - x(1), Relation::Greater),
            Formula::atom(x(0) - constant(5), Relation::LessOrEqual),
            Formula::atom(x(2), Relation::GreaterOrEqual),
        ]),
    );
    let expected = Formula::And(vec![
        Formula::atom(x(2), Relation::GreaterOrEqual),
        Formula::atom(constant(5) - x(1), Relation::Greater),
    ]);
    assert_eq!(eliminate_exists_linear_inequalities(&formula, 0), Some(expected));
}

#[test]
fn exists_bounds_with_negative_coefficients_are_normalized() {
    // exists x0. -x0 > 0 && x0 + 1 > 0 && x0 - 7 >= 0
    let formula = Formula::existential(
        0,
        Formula::And(vec![
            Formula::atom(-x(0), Relation::Greater),
            Formula::atom(x(0) + constant(1), Relation::Greater),
            Formula::atom(x(0) - constant(7), Relation::GreaterOrEqual),
        ]),
    );
    // lower bounds: x0 + 1 > 0, x0 - 7 >= 0; upper bound: x0 < 0
    let expected = Formula::And(vec![
        Formula::atom(constant(1), Relation::Greater),
        Formula::atom(constant(-7), Relation::Greater),
    ]);
    assert_eq!(eliminate_exists_linear_inequalities(&formula, 0), Some(expected));
}

#[test]
fn exists_bounds_reject_equations() {
    let formula = Formula::existential(
        0,
        Formula::And(vec![Formula::atom(x(0) - constant(1), Relation::Equal)]),
    );
    assert_eq!(eliminate_exists_linear_inequalities(&formula, 0), None);
}

#[test]
fn literals_are_read_through_one_negation() {
    let atom = atom_with_negated_relation(&Formula::Not(Box::new(Formula::atom(
        x(0),
        Relation::Less,
    ))))
    .unwrap();
    assert_eq!(atom.relation, Relation::GreaterOrEqual);
    assert_eq!(atom.polynomial, x(0));
    assert!(atom_with_negated_relation(&Formula::True).is_none());
}

#[test]
fn inequalities_reverse() {
    assert_eq!(reverse_inequality(Relation::Less), Relation::Greater);
    assert_eq!(reverse_inequality(Relation::GreaterOrEqual), Relation::LessOrEqual);
    assert_eq!(reverse_inequality(Relation::Equal), Relation::Equal);
    assert_eq!(reverse_inequality(Relation::NotEqual), Relation::NotEqual);
}

#[test]
fn statistics_count_cells_and_projection_levels() {
    let mut stats = EliminationStats::default();
    stats.record_kind(&CellKind::Sector);
    stats.record_kind(&CellKind::Sector);
    stats.record_kind(&CellKind::Section);
    assert_eq!(stats.sector_cells, 2);
    assert_eq!(stats.section_cells, 1);

    let formula = Formula::existential(0, Formula::atom(x(0) * x(0) + x(1), Relation::Equal));
    let stack = build_projection_stack(&formula, &[1, 0]).unwrap();
    let total: usize = stack.levels.iter().map(Vec::len).sum();
    stats.record_projection_stack(&stack);
    assert_eq!(stats.projection_levels, 2);
    assert_eq!(stats.projection_polynomials, total);
}

#[test]
fn default_options_enable_special_handling() {
    let options = EliminationOptions::default();
    assert!(options.special_handling);
    assert_eq!(options.special_rules.enabled_rules, vec![SpecialRule::SymmetricSumProduct]);
    assert_eq!(options.variable_order, None);
}

#[test]
fn projection_errors_convert() {
    let error: QuantifierEvaluationError = ProjectionError::MissingVariable(3).into();
    assert_eq!(
        error,
        QuantifierEvaluationError::Projection(ProjectionError::MissingVariable(3))
    );
}

#[test]
fn variables_coupled_with_the_quantified_variable_come_first() {
    // exists x2. x2*x1 = 0 && x2 + x1 + x0 > 0: x1 shares two atoms, x0 one
    let formula = Formula::existential(
        2,
        Formula::And(vec![
            Formula::atom(x(2) * x(1), Relation::Equal),
            Formula::atom(x(2) + x(1) + x(0), Relation::Greater),
        ]),
    );
    assert_eq!(select_variable_order(&formula, &vec![0, 1], 2), vec![1, 0]);
}

#[test]
fn higher_degree_breaks_ties_then_the_index() {
    // both share one atom with x2; x0 has degree 2 there
    let formula = Formula::existential(
        2,
        Formula::atom(x(2) + x(0) * x(0) + x(1), Relation::Equal),
    );
    assert_eq!(select_variable_order(&formula, &vec![0, 1], 2), vec![0, 1]);
    let level = Formula::existential(2, Formula::atom(x(2) + x(3) + x(1), Relation::Equal));
    assert_eq!(select_variable_order(&level, &vec![1, 3], 2), vec![1, 3]);
    let uncoupled = Formula::existential(
        2,
        Formula::And(vec![
            Formula::atom(x(2), Relation::Equal),
            Formula::atom(x(0) + x(1), Relation::Equal),
        ]),
    );
    assert_eq!(select_variable_order(&uncoupled, &vec![0, 1], 2), vec![0, 1]);
}

#[test]
fn the_linear_rule_agrees_with_rational_witnesses() {
    // exists x0. x1 * x0 - x2 = 0: true exactly when x1 != 0 or x2 = 0.
    let formula = Formula::existential(0, Formula::atom(x(1) * x(0) - x(2), Relation::Equal));
    let result = eliminate_linear_atom(&formula, 0).unwrap();
    let at = |a: i64, b: i64| {
        let mut values = BTreeMap::new();
        values.insert(1, Rational::from_i64(a));
        values.insert(2, Rational::from_i64(b));
        result.evaluate(&values)
    };
    // x1 = 2, x2 = 3: the witness x0 = 3/2 exists.
    assert_eq!(at(2, 3), Some(true));
    // x1 = 0, x2 = 0: every x0 is a witness.
    assert_eq!(at(0, 0), Some(true));
    // x1 = 0, x2 = 5: 0 * x0 = 5 has no solution.
    assert_eq!(at(0, 5), Some(false));

    // forall x0. x1 * x0 + 1 > 0: true exactly when x1 = 0.
    let formula = Formula::universal(0, Formula::atom(x(1) * x(0) + constant(1), Relation::Greater));
    let result = eliminate_linear_atom(&formula, 0).unwrap();
    let mut values = BTreeMap::new();
    values.insert(1, Rational::from_i64(0));
    assert_eq!(result.evaluate(&values), Some(true));
    values.insert(1, Rational::from_i64(3));
    assert_eq!(result.evaluate(&values), Some(false));
}

#[test]
fn substituting_the_pivot_agrees_with_the_root() {
    // exists x0. (2 * x0 - x1 = 0 && x0 > 2): true exactly when x1 / 2 > 2.
    let formula = Formula::existential(
        0,
        Formula::And(vec![
            Formula::atom(constant(2) * x(0) - x(1), Relation::Equal),
            Formula::atom(x(0) - constant(2), Relation::Greater),
        ]),
    );
    let result = eliminate_exists_linear_conjunction(&formula, 0).unwrap();
    for (value, expected) in [(6, true), (4, false), (5, true), (-3, false)] {
        let mut values = BTreeMap::new();
        values.insert(1, Rational::from_i64(value));
        assert_eq!(result.evaluate(&values), Some(expected));
    }
}
