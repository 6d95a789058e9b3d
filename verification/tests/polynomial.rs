use quantifier_elimination::{Monomial, Polynomial, Rational, VariableNames};
use std::collections::BTreeMap;

fn value(n: i64) -> Rational {
    Rational::from_i64(n)
}

#[test]
fn polynomial_arithmetic_is_exact() {
    let x = Polynomial::variable(0);
    let y = Polynomial::variable(1);
    let expression = (x.clone() + Polynomial::integer(1)) * (y - Polynomial::integer(2));
    let mut values = BTreeMap::new();
    values.insert(0, value(3));
    values.insert(1, value(5));

    assert_eq!(expression.evaluate(&values), value(12));
    assert_eq!(expression.to_string(), "-2 - 2*x0 + x0*x1 + x1");
}

#[test]
fn zero_terms_are_removed() {
    let x = Polynomial::variable(0);
    assert!((x.clone() - x).is_zero());
}

#[test]
fn variables_can_have_stable_display_names() {
    let expression = Polynomial::variable(0) * Polynomial::variable(1);
    let names = VariableNames::new().with(0, "x").with(1, "y");

    assert_eq!(expression.to_string_with(&names), "x*y");
    assert_eq!(expression.to_string(), "x0*x1");
}

#[test]
fn reports_missing_variables_when_evaluating() {
    let expression = Polynomial::variable(2);
    let values = BTreeMap::new();

    assert_eq!(expression.try_evaluate(&values), None);
}

#[test]
fn unassigned_variables_evaluate_as_zero() {
    let expression = Polynomial::variable(2) + Polynomial::integer(7);
    assert_eq!(expression.evaluate(&BTreeMap::new()), value(7));
}

#[test]
fn writes_fractions_powers_and_signs() {
    let x = Polynomial::variable(0);
    let half = Polynomial::constant(value(1).div(&value(2)));
    let expression = half.clone() * x.clone().pow(3) - Polynomial::integer(3) * x.clone()
        - half;
    assert_eq!(expression.to_string(), "-1/2 - 3*x0 + 1/2*x0^3");
    assert_eq!((-x).to_string(), "-x0");
    assert_eq!(Polynomial::zero().to_string(), "0");
}

#[test]
fn extracts_coefficients_degrees_and_variables() {
    let x = Polynomial::variable(0);
    let y = Polynomial::variable(3);
    let expression = Polynomial::integer(2) * x.clone() * x.clone() * y.clone()
        + Polynomial::integer(5) * x.clone()
        - y.clone();

    assert_eq!(expression.degree(0), 2);
    assert_eq!(expression.degree(3), 1);
    assert_eq!(expression.degree(7), 0);
    assert_eq!(expression.variables(), vec![0, 3]);
    assert_eq!(
        expression.coefficient_in(0, 2),
        Polynomial::integer(2) * y.clone()
    );
    assert_eq!(expression.coefficient_in(0, 0), -y.clone());
    assert_eq!(expression.coefficient(&Monomial::variable(0)), value(5));
    assert_eq!(expression.coefficient(&Monomial::one()), value(0));
}

#[test]
fn differentiates_term_by_term() {
    let x = Polynomial::variable(0);
    let y = Polynomial::variable(1);
    let expression = x.clone().pow(3) * y.clone() + Polynomial::integer(4) * x.clone() + y.clone();

    assert_eq!(
        expression.derivative(0),
        Polynomial::integer(3) * x.clone().pow(2) * y.clone() + Polynomial::integer(4)
    );
    assert_eq!(expression.derivative(2), Polynomial::zero());
}

#[test]
fn renames_variables_and_merges_exponents() {
    let x = Polynomial::variable(0);
    let y = Polynomial::variable(1);
    let expression = x.clone() * y.clone() + x.clone();

    assert_eq!(
        expression.rename_variable(0, 1),
        y.clone().pow(2) + y.clone()
    );
    assert_eq!(expression.rename_variable(0, 0), expression);
    assert_eq!(expression.rename_variable(5, 0), expression);
}

#[test]
fn raises_to_powers_by_repeated_multiplication() {
    let x = Polynomial::variable(0);
    let binomial = x.clone() + Polynomial::one();
    assert_eq!(
        binomial.pow(3),
        x.clone().pow(3)
            + Polynomial::integer(3) * x.clone().pow(2)
            + Polynomial::integer(3) * x.clone()
            + Polynomial::one()
    );
    assert_eq!(Polynomial::zero().pow(0), Polynomial::one());
    assert_eq!(x.max_exponent(), 1);
}

#[test]
fn addition_commutes_and_cancels() {
    let x = Polynomial::variable(0);
    let y = Polynomial::variable(1);
    let a = Polynomial::integer(3) * x.clone() - y.clone();
    let b = y.clone() * y.clone() + Polynomial::integer(-2);
    assert_eq!(a.clone() + b.clone(), b.clone() + a.clone());
    assert_eq!(a.clone() + Polynomial::zero(), a.clone());
    assert_eq!(Polynomial::zero() + a.clone(), a.clone());
    assert!((a.clone() - a).is_zero());
}

#[test]
fn monomials_report_exponents_and_degrees() {
    let m = Monomial::variable(2);
    assert_eq!(m.exponent(2), 1);
    assert_eq!(m.exponent(1), 0);
    assert_eq!(m.variables(), vec![2]);
    assert_eq!(m.total_degree(), 1);
    assert_eq!(Monomial::one().total_degree(), 0);
    assert!(Monomial::one().variables().is_empty());
}

#[test]
fn names_default_to_indices() {
    let mut names = VariableNames::new();
    names.insert(4, "k");
    assert_eq!(names.name(4), "k");
    assert_eq!(names.name(12), "x12");
}

#[test]
fn evaluation_respects_sums_differences_and_products() {
    let x = Polynomial::variable(0);
    let y = Polynomial::variable(1);
    let first = x.clone() * x.clone() + Polynomial::integer(3) * y.clone() - Polynomial::integer(1);
    let second = Polynomial::integer(2) * x - y + Polynomial::integer(5);
    let mut values = BTreeMap::new();
    values.insert(0, value(2).div(&value(3)));
    values.insert(1, value(-7).div(&value(2)));

    let a = first.evaluate(&values);
    let b = second.evaluate(&values);
    assert_eq!(first.plus(&second).evaluate(&values), a.add(&b));
    assert_eq!(first.minus(&second).evaluate(&values), a.sub(&b));
    assert_eq!(first.times(&second).evaluate(&values), a.mul(&b));
    assert_eq!(first.negated().evaluate(&values), a.negated());
    // first = 4/9 - 21/2 - 1 = -199/18, second = 4/3 + 7/2 + 5 = 59/6
    assert_eq!(a, value(-199).div(&value(18)));
    assert_eq!(b, value(59).div(&value(6)));
}
