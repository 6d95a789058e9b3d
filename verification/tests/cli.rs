use quantifier_elimination::cli::{
    format_formula, format_relation, format_stats, parse_max_cells, parse_special_rules,
    parse_variable_order, resolve_variable_order, validate_variable_order,
};
use quantifier_elimination::qe::evaluate::EliminationStats;
use quantifier_elimination::{
    parse_formula, parse_formula_with_names, Formula, Polynomial, Relation, VariableNames,
};

fn args(items: &[&str]) -> Vec<String> {
    items.iter().map(|item| item.to_string()).collect()
}

#[test]
fn max_cells_defaults_to_one_hundred() {
    assert_eq!(parse_max_cells(&args(&["--stats"])), Ok(Some(100)));
}

#[test]
fn max_cells_reads_a_positive_count() {
    assert_eq!(parse_max_cells(&args(&["--max-cells=5"])), Ok(Some(5)));
    assert_eq!(parse_max_cells(&args(&["--max-cells=+7"])), Ok(Some(7)));
    assert_eq!(
        parse_max_cells(&args(&["f", "--max-cells=3", "--max-cells=9"])),
        Ok(Some(3))
    );
}

#[test]
fn max_cells_rejects_zero_and_text() {
    let message = "--max-cells requires a positive integer".to_string();
    assert_eq!(parse_max_cells(&args(&["--max-cells=0"])), Err(message.clone()));
    assert_eq!(parse_max_cells(&args(&["--max-cells=ab"])), Err(message.clone()));
    assert_eq!(parse_max_cells(&args(&["--max-cells="])), Err(message.clone()));
    assert_eq!(parse_max_cells(&args(&["--max-cells=-4"])), Err(message.clone()));
    assert_eq!(
        parse_max_cells(&args(&["--max-cells=99999999999999999999999"])),
        Err(message)
    );
}

#[test]
fn variable_order_splits_names() {
    assert_eq!(parse_variable_order(&args(&["x"])), Ok(None));
    assert_eq!(
        parse_variable_order(&args(&["--variable-order=x2,x0"])),
        Ok(Some(args(&["x2", "x0"])))
    );
    assert_eq!(
        parse_variable_order(&args(&["--variable-order="])),
        Err("--variable-order requires a comma-separated list".to_string())
    );
    assert_eq!(
        parse_variable_order(&args(&["--variable-order=a,,b"])),
        Err("invalid empty variable in --variable-order".to_string())
    );
    assert_eq!(
        parse_variable_order(&args(&["--variable-order=a,"])),
        Err("invalid empty variable in --variable-order".to_string())
    );
}

#[test]
fn special_rules_name_a_file() {
    assert_eq!(parse_special_rules(&args(&["--stats"])), Ok(None));
    assert_eq!(
        parse_special_rules(&args(&["--special-rules=config/special-rules.toml"])),
        Ok(Some("config/special-rules.toml".to_string()))
    );
    assert_eq!(
        parse_special_rules(&args(&["--special-rules="])),
        Err("--special-rules requires a file path".to_string())
    );
}

#[test]
fn relations_print_as_operators() {
    assert_eq!(format_relation(Relation::Equal), "=");
    assert_eq!(format_relation(Relation::NotEqual), "!=");
    assert_eq!(format_relation(Relation::Less), "<");
    assert_eq!(format_relation(Relation::LessOrEqual), "<=");
    assert_eq!(format_relation(Relation::Greater), ">");
    assert_eq!(format_relation(Relation::GreaterOrEqual), ">=");
}

#[test]
fn formulas_print_with_names() {
    let names = VariableNames::new().with(0, "x");
    let formula = Formula::And(vec![
        Formula::atom(Polynomial::variable(0) - Polynomial::integer(1), Relation::Greater),
        Formula::Not(Box::new(Formula::atom(Polynomial::variable(1), Relation::Equal))),
    ]);
    assert_eq!(format_formula(&formula, &names), "(-1 + x > 0) && (!(x1 = 0))");
    assert_eq!(format_formula(&Formula::True, &names), "true");
    assert_eq!(format_formula(&Formula::False, &names), "false");
    let disjunction = Formula::Or(vec![Formula::True, Formula::False]);
    assert_eq!(format_formula(&disjunction, &names), "(true) || (false)");
    let quantified = Formula::existential(0, Formula::True);
    assert_eq!(format_formula(&quantified, &names), "<quantified>");
}

#[test]
fn statistics_report_lists_every_counter() {
    let names = VariableNames::new();
    let mut stats = EliminationStats::default();
    assert_eq!(
        format_stats(&stats, &names),
        "stats:\n  quantifier calls: 0\n  cells constructed: 0\n  leaf cells: 0\n  sector cells: 0\n  section cells: 0\n  projection levels: 0\n  projection polynomials: 0"
    );
    stats.quantifier_calls = 2;
    stats.lifting_orders = vec![vec![2, 0, 1]];
    assert_eq!(
        format_stats(&stats, &names),
        "stats:\n  quantifier calls: 2\n  cells constructed: 0\n  leaf cells: 0\n  sector cells: 0\n  section cells: 0\n  projection levels: 0\n  projection polynomials: 0\n  lifting order count: 1\n  lifting order 0: x2 -> x0 -> x1"
    );
}

#[test]
fn variable_orders_resolve_names_of_free_variables() {
    let parsed = parse_formula_with_names("exists x. x^2 + st + y = 0").unwrap();
    let order = args(&["y", "st"]);
    let resolved = resolve_variable_order(Some(&order), &parsed).unwrap().unwrap();
    let names: Vec<String> = resolved.iter().map(|v| parsed.names.name(*v)).collect();
    assert_eq!(names, order);
    assert_eq!(resolve_variable_order(None, &parsed), Ok(None));
    let bound = args(&["x"]);
    let error = resolve_variable_order(Some(&bound), &parsed).unwrap_err();
    assert_eq!(
        error,
        "--variable-order must contain exactly the free variables: {st, y}; unknown or bound variable: x"
    );
}

#[test]
fn variable_orders_must_list_each_free_variable_once() {
    let formula = parse_formula("exists x2. x2 + x0 + x1 = 0").unwrap();
    let names = VariableNames::new();
    assert_eq!(validate_variable_order(None, &formula, &names), Ok(()));
    assert_eq!(validate_variable_order(Some(&vec![1, 0]), &formula, &names), Ok(()));
    assert_eq!(
        validate_variable_order(Some(&vec![0]), &formula, &names),
        Err("--variable-order must list every free variable exactly once; expected {x0, x1}, got 1 entries".to_string())
    );
    assert_eq!(
        validate_variable_order(Some(&vec![1, 1]), &formula, &names),
        Err("--variable-order contains duplicate variable: x1".to_string())
    );
    assert_eq!(
        validate_variable_order(Some(&vec![0, 2]), &formula, &names),
        Err("--variable-order must contain exactly the free variables: {x0, x1}".to_string())
    );
}
