use quantifier_elimination::algebra::coefficient::binomial;
use quantifier_elimination::formula::Atom;
use quantifier_elimination::qe::evaluate::{collect_polynomials, to_univariate};
use quantifier_elimination::{
    Formula, Polynomial, QuantifierEvaluationError, Rational, Relation, RootInterval,
    UnivariatePolynomial,
};

fn q(n: i64) -> Rational {
    Rational::from_i64(n)
}

#[test]
fn derivative_and_division_are_exact() {
    let polynomial = UnivariatePolynomial::from_integers(&[-2, 0, 1]);
    assert_eq!(polynomial.derivative().to_string(), "2x");

    let divisor = UnivariatePolynomial::from_integers(&[-1, 1]);
    let (quotient, remainder) = polynomial.div_rem(&divisor);
    assert_eq!(quotient.to_string(), "x + 1");
    assert_eq!(remainder.to_string(), "-1");
}

#[test]
fn trailing_zero_coefficients_are_dropped() {
    let polynomial = UnivariatePolynomial::from_integers(&[3, 0, 0]);
    assert_eq!(polynomial.degree(), Some(0));
    assert_eq!(polynomial, UnivariatePolynomial::constant(q(3)));
    assert!(UnivariatePolynomial::from_integers(&[0, 0]).is_zero());
    assert_eq!(UnivariatePolynomial::zero().degree(), None);
    assert_eq!(UnivariatePolynomial::zero().to_string(), "0");
    assert!(UnivariatePolynomial::constant(q(0)).is_zero());
}

#[test]
fn coefficients_read_back() {
    let polynomial = UnivariatePolynomial::from_integers(&[4, -1, 0, 2]);
    assert_eq!(polynomial.coefficient(0), q(4));
    assert_eq!(polynomial.coefficient(2), q(0));
    assert_eq!(polynomial.coefficient(9), q(0));
    assert_eq!(polynomial.leading_coefficient(), Some(&q(2)));
    assert_eq!(UnivariatePolynomial::zero().leading_coefficient(), None);
    assert_eq!(polynomial.to_string(), "2x^3 - x + 4");
}

#[test]
fn evaluation_uses_horner_rule() {
    let polynomial = UnivariatePolynomial::from_integers(&[1, -3, 2]);
    assert_eq!(polynomial.evaluate(&q(0)), q(1));
    assert_eq!(polynomial.evaluate(&q(1)), q(0));
    assert_eq!(polynomial.evaluate(&q(3)), q(10));
    let half = q(1).div(&q(2));
    assert_eq!(polynomial.evaluate(&half), q(0));
}

#[test]
fn arithmetic_is_coefficientwise() {
    let a = UnivariatePolynomial::from_integers(&[1, 2, 3]);
    let b = UnivariatePolynomial::from_integers(&[1, 0, -3]);
    assert_eq!((a.clone() + b.clone()).to_string(), "2x + 2");
    assert_eq!((a.clone() - b).to_string(), "6x^2 + 2x");
    assert_eq!((-a.clone()).to_string(), "-3x^2 - 2x - 1");
    assert!((a.clone() - a).is_zero());
}

#[test]
fn division_by_a_higher_degree_leaves_the_dividend() {
    let dividend = UnivariatePolynomial::from_integers(&[1, 1]);
    let divisor = UnivariatePolynomial::from_integers(&[0, 0, 1]);
    let (quotient, remainder) = dividend.div_rem(&divisor);
    assert!(quotient.is_zero());
    assert_eq!(remainder, dividend);
}

#[test]
fn division_with_rational_quotient() {
    // x^2 + 1 = (2x - 1) * (x/2 + 1/4) + 5/4
    let dividend = UnivariatePolynomial::from_integers(&[1, 0, 1]);
    let divisor = UnivariatePolynomial::from_integers(&[-1, 2]);
    let (quotient, remainder) = dividend.div_rem(&divisor);
    assert_eq!(quotient.to_string(), "1/2x + 1/4");
    assert_eq!(remainder.to_string(), "5/4");
}

#[test]
fn sturm_sequence_of_a_quadratic() {
    let polynomial = UnivariatePolynomial::from_integers(&[-2, 0, 1]);
    let sequence = polynomial.sturm_sequence();
    let texts: Vec<String> = sequence.iter().map(|p| p.to_string()).collect();
    assert_eq!(texts, vec!["x^2 - 2", "2x", "2"]);
    assert!(UnivariatePolynomial::zero().sturm_sequence().is_empty());
    assert_eq!(
        UnivariatePolynomial::from_integers(&[5]).sturm_sequence().len(),
        1
    );
}

#[test]
fn sturm_variations_count_roots_between_points() {
    let polynomial = UnivariatePolynomial::from_integers(&[-2, 0, 1]);
    let sequence = polynomial.sturm_sequence();
    let below = UnivariatePolynomial::variations_at(&sequence, &q(-2));
    let middle = UnivariatePolynomial::variations_at(&sequence, &q(0));
    let above = UnivariatePolynomial::variations_at(&sequence, &q(2));
    assert_eq!(below - middle, 1);
    assert_eq!(middle - above, 1);
    let no_roots = UnivariatePolynomial::from_integers(&[1, 0, 1]).sturm_sequence();
    assert_eq!(
        UnivariatePolynomial::variations_at(&no_roots, &q(-5)),
        UnivariatePolynomial::variations_at(&no_roots, &q(5))
    );
}

#[test]
fn root_bound_exceeds_every_root() {
    // x^2 - 2: max |c_i / c_n| = 2, so the bound is 3
    let polynomial = UnivariatePolynomial::from_integers(&[-2, 0, 1]);
    assert_eq!(polynomial.root_bound(), q(3));
    let scaled = UnivariatePolynomial::from_integers(&[3, -4, 2]);
    assert_eq!(scaled.root_bound(), q(3));
}

#[test]
fn root_intervals_keep_their_endpoints() {
    let interval = RootInterval::new(q(-1), q(2));
    assert_eq!(interval.lower, q(-1));
    assert_eq!(interval.upper, q(2));
}

#[test]
fn univariate_polynomials_become_polynomials_in_a_variable() {
    let univariate = UnivariatePolynomial::from_integers(&[-2, 0, 1]);
    let polynomial = Polynomial::from_univariate(3, &univariate);
    let x = Polynomial::variable(3);
    assert_eq!(polynomial, x.clone() * x - Polynomial::integer(2));
    assert!(Polynomial::from_univariate(0, &UnivariatePolynomial::zero()).is_zero());
}

#[test]
fn atoms_in_the_first_variable_become_univariate() {
    let x = Polynomial::variable(0);
    let atom = Atom::new(x.clone() * x.clone() - Polynomial::integer(2), Relation::Equal);
    let univariate = to_univariate(&atom).unwrap();
    assert_eq!(univariate, UnivariatePolynomial::from_integers(&[-2, 0, 1]));
    let other = Atom::new(x + Polynomial::variable(1), Relation::Equal);
    assert_eq!(
        to_univariate(&other),
        Err(QuantifierEvaluationError::NonUnivariatePolynomial)
    );
}

#[test]
fn formulas_collect_their_univariate_polynomials() {
    let x = Polynomial::variable(0);
    let formula = Formula::And(vec![
        Formula::atom(x.clone() - Polynomial::integer(1), Relation::Greater),
        Formula::Not(Box::new(Formula::atom(x.clone() * x.clone(), Relation::Equal))),
    ]);
    let mut polynomials = Vec::new();
    assert_eq!(collect_polynomials(&formula, &mut polynomials), Ok(()));
    assert_eq!(polynomials.len(), 2);
    assert_eq!(polynomials[1], UnivariatePolynomial::from_integers(&[0, 0, 1]));
    let nested = Formula::existential(0, Formula::True);
    assert_eq!(
        collect_polynomials(&nested, &mut Vec::new()),
        Err(QuantifierEvaluationError::NestedQuantifier)
    );
}

#[test]
fn binomial_coefficients() {
    assert_eq!(binomial(5, 0), 1);
    assert_eq!(binomial(5, 2), 10);
    assert_eq!(binomial(6, 3), 20);
    assert_eq!(binomial(10, 10), 1);
    assert_eq!(binomial(3, 4), 0);
    assert_eq!(binomial(0, 1), 0);
    assert_eq!(binomial(60, 30), 118264581564861424);
}

#[test]
fn division_identity_holds_at_sample_points() {
    let dividend = UnivariatePolynomial::from_integers(&[7, -3, 0, 2, 5]);
    let divisor = UnivariatePolynomial::from_integers(&[1, 0, 3]);
    let (quotient, remainder) = dividend.div_rem(&divisor);
    assert!(remainder.degree().unwrap_or(0) < divisor.degree().unwrap());
    for point in [q(-2), q(0), q(1).div(&q(3)), q(4)] {
        let expected = quotient
            .evaluate(&point)
            .mul(&divisor.evaluate(&point))
            .add(&remainder.evaluate(&point));
        assert_eq!(dividend.evaluate(&point), expected);
    }
}

#[test]
fn sums_and_differences_evaluate_pointwise() {
    let first = UnivariatePolynomial::from_integers(&[1, -2, 4]);
    let second = UnivariatePolynomial::from_integers(&[3, 2, -4]);
    let point = q(5).div(&q(2));
    let a = first.evaluate(&point);
    let b = second.evaluate(&point);
    assert_eq!(first.plus(&second).evaluate(&point), a.add(&b));
    assert_eq!(first.minus(&second).evaluate(&point), a.sub(&b));
    assert_eq!(first.negated().evaluate(&point), a.negated());
    assert_eq!(first.plus(&second), UnivariatePolynomial::from_integers(&[4]));
}

#[test]
fn sturm_isolates_two_real_roots() {
    let polynomial = UnivariatePolynomial::from_integers(&[-2, 0, 1]);
    let roots = polynomial.isolate_real_roots();
    assert_eq!(roots.len(), 2);
    assert!(roots[0].upper.less_or_equal(&roots[1].lower));
    assert!(roots[0].lower.less_than(&q(0)) && roots[0].upper.less_or_equal(&q(0)));
    assert!(q(0).less_or_equal(&roots[1].lower) && q(0).less_than(&roots[1].upper));
}

#[test]
fn sturm_handles_no_real_roots() {
    let polynomial = UnivariatePolynomial::from_integers(&[1, 0, 1]);
    assert!(polynomial.isolate_real_roots().is_empty());
}

#[test]
fn sturm_isolates_three_integer_roots_in_order() {
    // (x - 1)(x - 2)(x - 3)
    let polynomial = UnivariatePolynomial::from_integers(&[-6, 11, -6, 1]);
    let roots = polynomial.isolate_real_roots();
    assert_eq!(roots.len(), 3);
    for (index, root) in roots.iter().enumerate() {
        let exact = q(index as i64 + 1);
        assert!(root.lower.less_than(&root.upper));
        let inside = root.lower.less_than(&exact) && exact.less_or_equal(&root.upper);
        assert!(inside, "root {} lies in its interval", index + 1);
    }
    assert!(roots[0].upper.less_or_equal(&roots[1].lower));
    assert!(roots[1].upper.less_or_equal(&roots[2].lower));
}

#[test]
fn constants_have_no_isolated_roots() {
    assert!(UnivariatePolynomial::from_integers(&[5]).isolate_real_roots().is_empty());
    assert!(UnivariatePolynomial::from_integers(&[]).isolate_real_roots().is_empty());
}
