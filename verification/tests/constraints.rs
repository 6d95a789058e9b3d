use quantifier_elimination::qe::constraints::{
    atom_constraints, atom_constraints_for_relation, is_linear_polynomial, linear_coefficients,
};
use quantifier_elimination::{Atom, Polynomial, Rational, Relation};

fn linear() -> Polynomial {
    // 2x0 - x1 + 3
    Polynomial::variable(0)
        .times(&Polynomial::integer(2))
        .minus(&Polynomial::variable(1))
        .plus(&Polynomial::integer(3))
}

#[test]
fn linear_polynomials_are_recognised() {
    assert!(is_linear_polynomial(&linear()));
    assert!(is_linear_polynomial(&Polynomial::integer(5)));
    let square = Polynomial::variable(0).times(&Polynomial::variable(0));
    assert!(!is_linear_polynomial(&square));
    let product = Polynomial::variable(0).times(&Polynomial::variable(1));
    assert!(!is_linear_polynomial(&product));
    assert!(linear_coefficients(&square).is_none());
}

#[test]
fn linear_coefficients_split_off_the_constant() {
    let (coefficients, constant) = linear_coefficients(&linear()).unwrap();
    assert_eq!(constant, Rational::from_i64(3));
    assert!(coefficients.equals(
        &Polynomial::variable(0)
            .times(&Polynomial::integer(2))
            .minus(&Polynomial::variable(1))
    ));
}

#[test]
fn relations_become_constraints() {
    let less = atom_constraints_for_relation(&linear(), Relation::Less);
    assert_eq!(less.len(), 1);
    assert!(less[0].strict);
    assert_eq!(less[0].constant, Rational::from_i64(-3));
    assert!(less[0].coefficients.equals(&linear().negated().plus(&Polynomial::integer(3))));

    let equal = atom_constraints_for_relation(&linear(), Relation::Equal);
    assert_eq!(equal.len(), 2);
    assert!(!equal[0].strict && !equal[1].strict);
    assert_eq!(equal[0].constant, Rational::from_i64(3));
    assert_eq!(equal[1].constant, Rational::from_i64(-3));

    assert!(atom_constraints_for_relation(&linear(), Relation::NotEqual).is_empty());

    let atom = Atom { polynomial: linear(), relation: Relation::GreaterOrEqual };
    let reversed = atom_constraints(&atom, true).unwrap();
    assert_eq!(reversed.len(), 1);
    assert_eq!(reversed[0].constant, Rational::from_i64(-3));
    assert!(!reversed[0].strict);

    let different = Atom { polynomial: linear(), relation: Relation::NotEqual };
    assert!(atom_constraints(&different, false).is_none());
}
