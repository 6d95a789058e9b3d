use quantifier_elimination::qe::linear::{
    formula_linear_bound, simplify_univariate_linear_bounds, LinearBound,
};
use quantifier_elimination::{Formula, Polynomial, Rational, Relation};

fn x(i: usize) -> Polynomial {
    Polynomial::variable(i)
}

fn constant(n: i64) -> Polynomial {
    Polynomial::integer(n)
}

fn q(n: i64) -> Rational {
    Rational::from_i64(n)
}

#[test]
fn linear_atoms_bound_their_variable() {
    let upper = Formula::atom(constant(2) * x(0) - constant(4), Relation::Less);
    match formula_linear_bound(&upper) {
        Some((0, LinearBound::Upper { value, strict: true })) => assert_eq!(value, q(2)),
        other => panic!("unexpected bound {:?}", other),
    }
    let flipped = Formula::atom(constant(6) - constant(3) * x(1), Relation::LessOrEqual);
    match formula_linear_bound(&flipped) {
        Some((1, LinearBound::Lower { value, strict: false })) => assert_eq!(value, q(2)),
        other => panic!("unexpected bound {:?}", other),
    }
    let point = Formula::atom(constant(2) * x(0) + constant(1), Relation::Equal);
    match formula_linear_bound(&point) {
        Some((0, LinearBound::Point(value))) => assert_eq!(value, q(-1).div(&q(2))),
        other => panic!("unexpected bound {:?}", other),
    }
    assert!(formula_linear_bound(&Formula::atom(x(0) - constant(1), Relation::NotEqual)).is_none());
    assert!(formula_linear_bound(&Formula::atom(x(0) * x(1), Relation::Less)).is_none());
    assert!(formula_linear_bound(&Formula::atom(x(0) * x(0) - constant(1), Relation::Less)).is_none());
    assert!(formula_linear_bound(&Formula::True).is_none());
}

#[test]
fn only_the_tightest_bounds_stay() {
    let mut formulas = vec![
        Formula::atom(x(0) - constant(1), Relation::Greater),
        Formula::atom(x(0) - constant(3), Relation::Greater),
        Formula::atom(x(0) - constant(10), Relation::Less),
        Formula::atom(x(0) - constant(10), Relation::LessOrEqual),
    ];
    assert!(!simplify_univariate_linear_bounds(&mut formulas));
    assert_eq!(
        formulas,
        vec![
            Formula::atom(x(0) - constant(3), Relation::Greater),
            Formula::atom(x(0) - constant(10), Relation::Less),
        ]
    );
}

#[test]
fn a_point_replaces_the_other_bounds() {
    let mut formulas = vec![
        Formula::atom(x(0) - constant(2), Relation::Equal),
        Formula::atom(x(1), Relation::Less),
        Formula::atom(x(0) - constant(1), Relation::Greater),
    ];
    assert!(!simplify_univariate_linear_bounds(&mut formulas));
    assert_eq!(
        formulas,
        vec![
            Formula::atom(x(0) - constant(2), Relation::Equal),
            Formula::atom(x(1), Relation::Less),
        ]
    );
}

#[test]
fn contradictory_bounds_are_reported() {
    let mut crossing = vec![
        Formula::atom(x(0) - constant(5), Relation::Greater),
        Formula::atom(x(0) - constant(2), Relation::Less),
    ];
    assert!(simplify_univariate_linear_bounds(&mut crossing));
    let mut touching = vec![
        Formula::atom(x(0) - constant(2), Relation::GreaterOrEqual),
        Formula::atom(x(0) - constant(2), Relation::Less),
    ];
    assert!(simplify_univariate_linear_bounds(&mut touching));
    let mut two_points = vec![
        Formula::atom(x(0) - constant(2), Relation::Equal),
        Formula::atom(x(0) - constant(3), Relation::Equal),
    ];
    assert!(simplify_univariate_linear_bounds(&mut two_points));
    let mut point_below = vec![
        Formula::atom(x(0) - constant(2), Relation::Equal),
        Formula::atom(x(0) - constant(2), Relation::Greater),
    ];
    assert!(simplify_univariate_linear_bounds(&mut point_below));
    let mut single = vec![Formula::atom(x(0) - constant(2), Relation::Greater)];
    assert!(!simplify_univariate_linear_bounds(&mut single));
    assert_eq!(single.len(), 1);
}

fn holds(bound: &LinearBound, value: &Rational) -> bool {
    match bound {
        LinearBound::Lower { value: root, strict: true } => root.less_than(value),
        LinearBound::Lower { value: root, strict: false } => root.less_or_equal(value),
        LinearBound::Upper { value: root, strict: true } => value.less_than(root),
        LinearBound::Upper { value: root, strict: false } => value.less_or_equal(root),
        LinearBound::Point(root) => value == root,
    }
}

#[test]
fn an_atom_holds_exactly_where_its_bound_does() {
    let atoms = [
        Formula::atom(constant(3) * x(0) - constant(2), Relation::Less),
        Formula::atom(constant(2) - constant(5) * x(0), Relation::LessOrEqual),
        Formula::atom(constant(-4) * x(0) + constant(1), Relation::Greater),
        Formula::atom(constant(7) * x(0), Relation::GreaterOrEqual),
        Formula::atom(constant(2) * x(0) - constant(1), Relation::Equal),
    ];
    let points = [q(-1), q(0), q(1).div(&q(5)), q(1).div(&q(2)), q(2).div(&q(3)), q(1), q(4)];
    for atom in &atoms {
        let (variable, bound) = formula_linear_bound(atom).unwrap();
        assert_eq!(variable, 0);
        for point in &points {
            let mut values = std::collections::BTreeMap::new();
            values.insert(0, point.clone());
            assert_eq!(atom.evaluate(&values), Some(holds(&bound, point)));
        }
    }
}
