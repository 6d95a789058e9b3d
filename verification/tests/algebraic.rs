use quantifier_elimination::{AlgebraicReal, Rational, RootInterval, UnivariatePolynomial};

fn q(n: i64) -> Rational {
    Rational::from_i64(n)
}

fn fraction(n: i64, d: i64) -> Rational {
    q(n).div(&q(d))
}

fn square_root_of_two() -> AlgebraicReal {
    AlgebraicReal::new(
        UnivariatePolynomial::from_integers(&[-2, 0, 1]),
        RootInterval::new(q(1), q(2)),
    )
}

#[test]
fn negation_reflects_the_polynomial_and_the_interval() {
    let root = square_root_of_two();
    let negated = root.negated();
    // x^2 - 2 is unchanged by x -> -x.
    assert_eq!(negated.polynomial, root.polynomial);
    assert_eq!(negated.interval.lower, q(-2));
    assert_eq!(negated.interval.upper, q(-1));

    let cube_root = AlgebraicReal::new(
        UnivariatePolynomial::from_integers(&[-2, 0, 0, 1]),
        RootInterval::new(q(1), q(2)),
    );
    let negated = cube_root.negated();
    assert_eq!(
        negated.polynomial,
        UnivariatePolynomial::from_integers(&[-2, 0, 0, -1])
    );
    // The reflected polynomial takes at -x the value the original takes at x.
    for x in [-3, 0, 2, 5] {
        assert_eq!(
            negated.polynomial.evaluate(&q(-x)),
            cube_root.polynomial.evaluate(&q(x))
        );
    }
}

#[test]
fn adding_a_rational_shifts_the_root() {
    let root = square_root_of_two();
    let shifted = root.add_rational(&q(1));
    // (y - 1)^2 - 2 = y^2 - 2y - 1.
    assert_eq!(
        shifted.polynomial,
        UnivariatePolynomial::from_integers(&[-1, -2, 1])
    );
    assert_eq!(shifted.interval.lower, q(2));
    assert_eq!(shifted.interval.upper, q(3));
    for y in [-2, 0, 3, 7] {
        assert_eq!(
            shifted.polynomial.evaluate(&q(y)),
            root.polynomial.evaluate(&q(y - 1))
        );
    }

    let by_half = root.add_rational(&fraction(1, 2));
    assert_eq!(by_half.interval.lower, fraction(3, 2));
    assert_eq!(by_half.interval.upper, fraction(5, 2));
    assert_eq!(
        by_half.polynomial.evaluate(&fraction(3, 2)),
        root.polynomial.evaluate(&q(1))
    );
}

#[test]
fn multiplying_by_a_rational_scales_the_root() {
    let root = square_root_of_two();
    let doubled = root.mul_rational(&q(2)).unwrap();
    // (y / 2)^2 - 2 = y^2 / 4 - 2.
    assert_eq!(doubled.polynomial.coefficient(0), q(-2));
    assert_eq!(doubled.polynomial.coefficient(1), q(0));
    assert_eq!(doubled.polynomial.coefficient(2), fraction(1, 4));
    assert_eq!(doubled.polynomial.degree(), Some(2));
    assert_eq!(doubled.interval.lower, q(2));
    assert_eq!(doubled.interval.upper, q(4));

    // A negative factor swaps the ends of the interval.
    let flipped = root.mul_rational(&q(-1)).unwrap();
    assert_eq!(flipped.polynomial, root.polynomial);
    assert_eq!(flipped.interval.lower, q(-2));
    assert_eq!(flipped.interval.upper, q(-1));

    let thirds = root.mul_rational(&fraction(-1, 3)).unwrap();
    assert_eq!(thirds.interval.lower, fraction(-2, 3));
    assert_eq!(thirds.interval.upper, fraction(-1, 3));
    assert_eq!(
        thirds.polynomial.evaluate(&fraction(-1, 3)),
        root.polynomial.evaluate(&q(1))
    );

    assert!(root.mul_rational(&q(0)).is_none());
}

#[test]
fn shifting_and_scaling_round_trip() {
    let x = fraction(3, 2);
    let v = fraction(-5, 7);
    assert_eq!(x.add(&v).sub(&v), x);
    assert_eq!(x.mul(&v).div(&v), x);
}
