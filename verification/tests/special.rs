use quantifier_elimination::qe::special::{
    all_variables, is_product_binding, is_sum_binding, next_variable, SpecialHandlingConfig,
    SpecialRule,
};
use quantifier_elimination::{Atom, Formula, Polynomial, Relation};

#[test]
fn parses_enabled_symmetric_rule() {
    let config =
        SpecialHandlingConfig::parse("[special-rules]\nsymmetric-sum-product = true\n").unwrap();

    assert_eq!(config.enabled_rules, vec![SpecialRule::SymmetricSumProduct]);
}

#[test]
fn parses_disabled_symmetric_rule() {
    let config =
        SpecialHandlingConfig::parse("[special-rules]\nsymmetric-sum-product = false\n").unwrap();

    assert!(config.enabled_rules.is_empty());
}

#[test]
fn rejects_unknown_rules() {
    let error = SpecialHandlingConfig::parse("[special-rules]\nunknown-rule = true\n").unwrap_err();

    assert!(error.contains("unknown special rule"));
}

#[test]
fn reports_the_line_of_an_unknown_rule() {
    let error = SpecialHandlingConfig::parse("# rules\n[special-rules]\n\nunknown-rule = true\n")
        .unwrap_err();

    assert_eq!(error, "unknown special rule `unknown-rule` on line 4");
}

#[test]
fn ignores_comments_and_surrounding_space() {
    let config = SpecialHandlingConfig::parse(
        "  [special-rules]  # section\n\t symmetric-sum-product =  true # on\r\n",
    )
    .unwrap();

    assert_eq!(config.enabled_rules, vec![SpecialRule::SymmetricSumProduct]);
}

#[test]
fn rejects_an_unknown_section() {
    let error = SpecialHandlingConfig::parse("[rules]\n").unwrap_err();

    assert_eq!(error, "unknown special-rules config section on line 1");
}

#[test]
fn rejects_entries_outside_the_section() {
    let error = SpecialHandlingConfig::parse("symmetric-sum-product = true\n").unwrap_err();

    assert_eq!(
        error,
        "special-rules config entry appears outside [special-rules] on line 1"
    );
}

#[test]
fn rejects_a_line_without_a_value() {
    let error = SpecialHandlingConfig::parse("[special-rules]\nsymmetric-sum-product\n").unwrap_err();

    assert_eq!(error, "expected rule = true|false on line 2");
}

#[test]
fn rejects_a_value_other_than_true_or_false() {
    let error =
        SpecialHandlingConfig::parse("[special-rules]\nsymmetric-sum-product = yes\n").unwrap_err();

    assert_eq!(
        error,
        "special rule `symmetric-sum-product` must be true or false on line 2"
    );
}

#[test]
fn an_empty_configuration_enables_nothing() {
    let config = SpecialHandlingConfig::parse("").unwrap();

    assert!(config.enabled_rules.is_empty());
}

#[test]
fn the_default_configuration_enables_every_rule() {
    let config = SpecialHandlingConfig::default();

    assert_eq!(config.enabled_rules, vec![SpecialRule::SymmetricSumProduct]);
}

fn var(i: usize) -> Polynomial {
    Polynomial::variable(i)
}

#[test]
fn all_variables_lists_binders_and_atoms_in_order() {
    let formula = Formula::existential(
        4,
        Formula::And(vec![
            Formula::atom(var(4) + var(1), Relation::Equal),
            Formula::Not(Box::new(Formula::atom(var(0), Relation::Less))),
        ]),
    );
    assert_eq!(all_variables(&formula), vec![4, 1, 4, 0]);
    assert_eq!(next_variable(&formula), 5);
    assert_eq!(next_variable(&Formula::True), 0);
}

#[test]
fn sum_bindings_are_recognized_either_way_round() {
    let binding = Atom::new(var(2) - var(0) - var(1), Relation::Equal);
    assert!(is_sum_binding(&binding, 0, 1, 2));
    assert!(is_sum_binding(&binding, 1, 0, 2));
    let flipped = Atom::new(var(0) + var(1) - var(2), Relation::Equal);
    assert!(is_sum_binding(&flipped, 0, 1, 2));
    let inequality = Atom::new(var(2) - var(0) - var(1), Relation::Less);
    assert!(!is_sum_binding(&inequality, 0, 1, 2));
    assert!(!is_sum_binding(&binding, 0, 1, 3));
}

#[test]
fn product_bindings_are_recognized_either_way_round() {
    let binding = Atom::new(var(3) - var(0) * var(1), Relation::Equal);
    assert!(is_product_binding(&binding, 0, 1, 3));
    let flipped = Atom::new(var(0) * var(1) - var(3), Relation::Equal);
    assert!(is_product_binding(&flipped, 1, 0, 3));
    let sum = Atom::new(var(3) - var(0) - var(1), Relation::Equal);
    assert!(!is_product_binding(&sum, 0, 1, 3));
}
