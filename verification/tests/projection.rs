use quantifier_elimination::cad::projection::{
    build_projection_stack, project, resultant, ProjectionError,
};
use quantifier_elimination::{Formula, Polynomial, Relation};

#[test]
fn extracts_coefficients_and_derivatives() {
    let x = Polynomial::variable(0);
    let y = Polynomial::variable(1);
    let polynomial = x.clone() * x + y.clone();
    assert_eq!(polynomial.coefficient_in(0, 0), y);
    assert_eq!(polynomial.derivative(0).to_string(), "2*x0");
}

#[test]
fn computes_resultant_of_two_linear_polynomials() {
    let x = Polynomial::variable(0);
    let a = Polynomial::variable(1);
    let b = Polynomial::variable(2);
    let left = x.clone() + a;
    let right = x + b;
    assert_eq!(resultant(&left, &right, 0).to_string(), "x1 - x2");
}

#[test]
fn projection_contains_discriminant_and_resultant_data() {
    let x = Polynomial::variable(0);
    let y = Polynomial::variable(1);
    let first = x.clone() * x.clone() + y;
    let second = x + Polynomial::integer(1);
    let projected = project(&[first, second], 0);
    assert!(projected
        .iter()
        .any(|polynomial| polynomial.to_string() == "x1"));
    assert!(projected
        .iter()
        .any(|polynomial| polynomial.to_string() == "1"));
}

#[test]
fn builds_projection_levels_in_variable_order() {
    let x = Polynomial::variable(0);
    let y = Polynomial::variable(1);
    let formula = Formula::existential(0, Formula::atom(x.clone() * x + y, Relation::Equal));
    let stack = build_projection_stack(&formula, &[1, 0]).unwrap();

    assert_eq!(stack.variable_order, vec![1, 0]);
    assert_eq!(stack.levels.len(), 3);
    assert!(!stack.levels[0].is_empty());
    assert!(!stack.levels[1].is_empty());
    assert!(!stack.levels[2].is_empty());
    assert!(stack.levels[2]
        .iter()
        .all(|polynomial| polynomial.variables().is_empty()));
}

#[test]
fn resultant_with_a_constant_is_a_power() {
    let x = Polynomial::variable(0);
    let y = Polynomial::variable(1);
    // res_x(y + 1, x^2 + 1) = (y + 1)^2
    let left = y + Polynomial::integer(1);
    let right = x.clone() * x + Polynomial::integer(1);
    assert_eq!(resultant(&left, &right, 0).to_string(), "1 + 2*x1 + x1^2");
    assert_eq!(
        resultant(&Polynomial::integer(3), &Polynomial::integer(5), 0).to_string(),
        "1"
    );
}

#[test]
fn resultant_of_quadratic_and_its_derivative() {
    // res_x(x^2 + y, 2x) = 4y
    let x = Polynomial::variable(0);
    let y = Polynomial::variable(1);
    let p = x.clone() * x + y;
    let d = p.derivative(0);
    assert_eq!(resultant(&p, &d, 0).to_string(), "4*x1");
}

#[test]
fn resultant_vanishes_on_common_root() {
    // x - 1 and x^2 - 1 share the root 1.
    let x = Polynomial::variable(0);
    let left = x.clone() - Polynomial::integer(1);
    let right = x.clone() * x - Polynomial::integer(1);
    assert!(resultant(&left, &right, 0).is_zero());
}

#[test]
fn projection_lists_each_polynomial_once() {
    let x = Polynomial::variable(0);
    let y = Polynomial::variable(1);
    let p = x.clone() + y.clone();
    let projected = project(&[p.clone(), p], 0);
    let texts: Vec<String> = projected.iter().map(|q| q.to_string()).collect();
    // coefficient 1 and x1, and the resultant of p with itself is zero
    assert_eq!(texts, vec!["x1".to_string(), "1".to_string()]);
}

#[test]
fn rejects_duplicate_variable_in_order() {
    let x = Polynomial::variable(0);
    let formula = Formula::atom(x, Relation::Greater);
    assert_eq!(
        build_projection_stack(&formula, &[0, 2, 0, 2]),
        Err(ProjectionError::DuplicateVariable(0))
    );
}

#[test]
fn rejects_missing_variable_in_order() {
    let x = Polynomial::variable(0);
    let z = Polynomial::variable(3);
    let w = Polynomial::variable(5);
    let formula = Formula::atom(x * z + w, Relation::Greater);
    assert_eq!(
        build_projection_stack(&formula, &[0]),
        Err(ProjectionError::MissingVariable(3))
    );
}

#[test]
fn projection_eliminates_its_variable() {
    let x = Polynomial::variable(0);
    let y = Polynomial::variable(1);
    let z = Polynomial::variable(2);
    let first = x.clone() * x.clone() * y.clone() + z.clone() * x.clone() + Polynomial::integer(1);
    let second = x.clone() * z.clone() - y.clone();
    let projected = project(&[first, second], 0);
    assert!(!projected.is_empty());
    for polynomial in &projected {
        let variables = polynomial.variables();
        assert!(!variables.contains(&0));
        assert!(variables.iter().all(|v| *v == 1 || *v == 2));
    }
}

#[test]
fn every_level_drops_the_eliminated_variables() {
    let x = Polynomial::variable(0);
    let y = Polynomial::variable(1);
    let z = Polynomial::variable(2);
    let formula = Formula::And(vec![
        Formula::atom(x.clone() + y.clone() + z.clone(), Relation::Less),
        Formula::atom(y.clone() - x.clone() * z.clone(), Relation::Equal),
    ]);
    let stack = build_projection_stack(&formula, &[2, 0, 1]).unwrap();
    assert_eq!(stack.levels.len(), 4);
    for polynomial in &stack.levels[1] {
        assert!(!polynomial.variables().contains(&1));
    }
    for polynomial in &stack.levels[2] {
        let variables = polynomial.variables();
        assert!(!variables.contains(&1) && !variables.contains(&0));
    }
    for polynomial in &stack.levels[3] {
        assert!(polynomial.variables().is_empty());
    }
}

#[test]
fn projection_lists_every_nonzero_piece_once() {
    let x = Polynomial::variable(0);
    let y = Polynomial::variable(1);
    let first = x.clone() * x.clone() + y.clone();
    let second = x.clone() * y.clone() - Polynomial::integer(1);
    let polynomials = vec![first.clone(), second.clone(), first.clone()];
    let projected = project(&polynomials, 0);
    for (i, p) in projected.iter().enumerate() {
        assert!(!p.is_zero());
        for q in projected.iter().skip(i + 1) {
            assert_ne!(p, q);
        }
    }
    for p in [&first, &second] {
        for degree in 0..=p.degree(0) {
            let coefficient = p.coefficient_in(0, degree);
            if !coefficient.is_zero() {
                assert!(projected.contains(&coefficient));
            }
        }
    }
    let pair = resultant(&first, &second, 0);
    assert!(!pair.is_zero());
    assert!(projected.contains(&pair));
}
