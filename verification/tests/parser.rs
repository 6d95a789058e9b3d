use quantifier_elimination::{
    parse_formula, parse_formula_with_names, Formula, Polynomial, Relation,
};

#[test]
fn parses_arithmetic_relations_and_boolean_connectives() {
    let formula = parse_formula("x0^2 - 2 = 0 && !(x1 < 3)").unwrap();
    assert_eq!(
        formula,
        Formula::And(vec![
            Formula::atom(
                Polynomial::variable(0).pow(2) - Polynomial::integer(2),
                Relation::Equal,
            ),
            Formula::Not(Box::new(Formula::atom(
                Polynomial::variable(1) - Polynomial::integer(3),
                Relation::Less,
            ))),
        ])
    );
}

#[test]
fn parses_nested_quantifiers() {
    let formula = parse_formula("exists x1. forall x0. x1 - x0 = 0").unwrap();
    assert_eq!(
        formula,
        Formula::existential(
            1,
            Formula::universal(
                0,
                Formula::atom(
                    Polynomial::variable(1) - Polynomial::variable(0),
                    Relation::Equal
                ),
            ),
        )
    );
}

#[test]
fn reports_location_for_invalid_syntax() {
    let error = parse_formula("x0 =").unwrap_err();
    assert_eq!(error.position, 4);
    assert!(error.message.contains("polynomial term"));
}

#[test]
fn parses_named_free_variables_with_display_names() {
    let parsed = parse_formula_with_names("st + tmp = x").unwrap();

    assert_eq!(
        parsed.formula,
        Formula::atom(
            Polynomial::variable(0) + Polynomial::variable(1) - Polynomial::variable(2),
            Relation::Equal
        )
    );
    assert_eq!(parsed.names.name(0), "st");
    assert_eq!(parsed.names.name(1), "tmp");
    assert_eq!(parsed.names.name(2), "x");
}

#[test]
fn named_binders_shadow_free_names() {
    let parsed = parse_formula_with_names("y > 0 && exists y. y = x").unwrap();

    assert_eq!(
        parsed.formula,
        Formula::And(vec![
            Formula::atom(Polynomial::variable(0), Relation::Greater),
            Formula::existential(
                1,
                Formula::atom(
                    Polynomial::variable(1) - Polynomial::variable(2),
                    Relation::Equal
                ),
            ),
        ])
    );
    assert_eq!(parsed.names.name(0), "y");
    assert_eq!(parsed.names.name(1), "y");
    assert_eq!(parsed.names.name(2), "x");
}

#[test]
fn parses_disjunctions_constants_and_every_relation() {
    let formula = parse_formula("true || false || x0 != 1 || x0 <= 2 || x0 >= 3 || x0 > 4").unwrap();
    let x = || Polynomial::variable(0);
    assert_eq!(
        formula,
        Formula::Or(vec![
            Formula::True,
            Formula::False,
            Formula::atom(x() - Polynomial::integer(1), Relation::NotEqual),
            Formula::atom(x() - Polynomial::integer(2), Relation::LessOrEqual),
            Formula::atom(x() - Polynomial::integer(3), Relation::GreaterOrEqual),
            Formula::atom(x() - Polynomial::integer(4), Relation::Greater),
        ])
    );
}

#[test]
fn expands_products_powers_and_signs() {
    let formula = parse_formula("-x1 * (x0 + 1)^2 = +3").unwrap();
    let x0 = Polynomial::variable(0);
    let x1 = Polynomial::variable(1);
    let expected = (x0.clone() * x0.clone()
        + Polynomial::integer(2) * x0
        + Polynomial::integer(1))
        * -x1
        - Polynomial::integer(3);
    assert_eq!(formula, Formula::atom(expected, Relation::Equal));
}

#[test]
fn parenthesized_formulas_group() {
    let formula = parse_formula("!(x0 = 0 || x1 = 0) && x2 = 0").unwrap();
    assert_eq!(
        formula,
        Formula::And(vec![
            Formula::Not(Box::new(Formula::Or(vec![
                Formula::atom(Polynomial::variable(0), Relation::Equal),
                Formula::atom(Polynomial::variable(1), Relation::Equal),
            ]))),
            Formula::atom(Polynomial::variable(2), Relation::Equal),
        ])
    );
}

#[test]
fn rejects_unknown_characters() {
    let error = parse_formula("x0 = 1 @").unwrap_err();
    assert_eq!(error.position, 7);
    assert_eq!(error.message, "unexpected character '@'");
}

#[test]
fn rejects_integer_literals_that_overflow() {
    let error = parse_formula("x0 = 99999999999999999999").unwrap_err();
    assert_eq!(error.position, 5);
    assert_eq!(error.message, "integer literal is too large");
}

#[test]
fn rejects_badly_formed_variables() {
    let error = parse_formula("y = 0").unwrap_err();
    assert_eq!(error.position, 0);
    assert_eq!(error.message, "variables must use the form x0, x1, ...");

    let error = parse_formula("x1a = 0").unwrap_err();
    assert_eq!(error.message, "variable index is too large");

    let error = parse_formula("x99999999999999999999999 = 0").unwrap_err();
    assert_eq!(error.message, "variable index is too large");
}

#[test]
fn reports_missing_pieces_of_a_quantifier() {
    let error = parse_formula("exists").unwrap_err();
    assert_eq!((error.position, error.message.as_str()), (1, "expected variable"));

    let error = parse_formula("exists 3. x0 = 0").unwrap_err();
    assert_eq!(
        (error.position, error.message.as_str()),
        (7, "expected a variable such as x0")
    );

    let error = parse_formula("exists x0 x0 = 0").unwrap_err();
    assert_eq!(
        (error.position, error.message.as_str()),
        (10, "expected '.' after quantified variable")
    );
}

#[test]
fn reports_unbalanced_parentheses_and_trailing_tokens() {
    let error = parse_formula("(x0 = 0").unwrap_err();
    assert_eq!(
        (error.position, error.message.as_str()),
        (7, "expected ')' after formula")
    );

    let error = parse_formula("x0 = 0 )").unwrap_err();
    assert_eq!(
        (error.position, error.message.as_str()),
        (7, "expected end of input")
    );

    let error = parse_formula("x0 = 0 + 1 +").unwrap_err();
    assert_eq!(
        (error.position, error.message.as_str()),
        (12, "expected polynomial term")
    );
}

#[test]
fn reports_bad_exponents_and_relations() {
    let error = parse_formula("x0^ = 0").unwrap_err();
    assert_eq!(
        (error.position, error.message.as_str()),
        (4, "expected a non-negative integer exponent")
    );

    let error = parse_formula("x0^").unwrap_err();
    assert_eq!((error.position, error.message.as_str()), (3, "expected exponent"));

    let error = parse_formula("x0 + 1").unwrap_err();
    assert_eq!((error.position, error.message.as_str()), (6, "expected relation"));

    let error = parse_formula("x0 + 1 && x0").unwrap_err();
    assert_eq!(
        (error.position, error.message.as_str()),
        (7, "expected a comparison relation")
    );
}

#[test]
fn reserved_words_cannot_name_variables() {
    assert!(parse_formula_with_names("x + forall = 0").is_err());
    assert!(parse_formula_with_names("exists true. true = 0").is_err());
    assert!(parse_formula_with_names("y = false").is_err());
    assert!(parse_formula_with_names("exists x. x = exists").is_err());
    assert!(parse_formula_with_names("exists_x + true_ = 0").is_ok());
}
