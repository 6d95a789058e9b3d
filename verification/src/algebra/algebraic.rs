//! Real algebraic numbers: a defining polynomial with an isolating interval
//! around one of its real roots.
use crate::algebra::horner::{
    all_reduced, lemma_prefix_full, lemma_prefix_reduced, lemma_prefix_step, lemma_value_accumulate,
    lemma_value_neg, lemma_value_reduced, lemma_value_trim, prefix,
};
use crate::evaluation::{lemma_mul_regroup, lemma_pow_add, lemma_pow_reduced};
use crate::polynomial::{lemma_add_zero_left, lemma_add_zero_right, rat_reduced};
use crate::algebra::univariate::{
    all_rationals_wf, coefficient_at, lemma_push_view, poly_value, rationals_view, trim,
    CoefficientsView, RootInterval, UnivariatePolynomial,
};
use crate::field::{
    lemma_add_associative, lemma_add_value, lemma_distributive, lemma_mul_commutative, lemma_mul_value,
    lemma_mul_zero, lemma_neg_mul, lemma_zero_reduced,
};
use crate::rational::{abs, rat_add, rat_int, rat_lt, rat_mul, rat_neg, rat_pow, rat_sub, rat_zero, Rational};
use vstd::prelude::*;

verus! {

/// An exact real algebraic number: a defining polynomial and an interval
/// that holds exactly one of its real roots.
#[derive(Clone, Debug, PartialEq, Eq)]
pub struct AlgebraicReal {
    pub polynomial: UnivariatePolynomial,
    pub interval: RootInterval,
}

/// The coefficients with those of odd degree negated, one at least.
pub open spec fn alternating(s: CoefficientsView) -> CoefficientsView {
    Seq::new(
        if s.len() == 0 {
            1nat
        } else {
            s.len()
        },
        |i: int|
            if i % 2 == 0 {
                coefficient_at(s, i)
            } else {
                rat_neg(coefficient_at(s, i))
            },
    )
}

/// The coefficients of `p(-x)`.
pub open spec fn reflected(s: CoefficientsView) -> CoefficientsView {
    trim(alternating(s))
}

/// The coefficients with those of odd degree negated.
pub open spec fn signs_alternated(s: CoefficientsView) -> CoefficientsView {
    Seq::new(s.len(), |i: int| if i % 2 == 0 { s[i] } else { rat_neg(s[i]) })
}

impl AlgebraicReal {
    /// The root of `polynomial` isolated by `interval`.
    pub fn new(polynomial: UnivariatePolynomial, interval: RootInterval) -> (r: Self)
        ensures
            r.polynomial == polynomial,
            r.interval == interval,
    {
        AlgebraicReal { polynomial, interval }
    }

    /// The negated number: the root of `p(-x)` in the reflected interval.
    pub fn negated(&self) -> (r: Self)
        requires
            self.polynomial.wf(),
            self.interval.lower.wf(),
            self.interval.upper.wf(),
            rat_lt(self.interval.lower@, self.interval.upper@),
        ensures
            r.polynomial.wf(),
            r.polynomial@ == reflected(self.polynomial@),
            r.interval.lower@ == rat_neg(self.interval.upper@),
            r.interval.upper@ == rat_neg(self.interval.lower@),
    {
        let top = match self.polynomial.degree() {
            Some(d) => d,
            None => 0,
        };
        let ghost s = self.polynomial@;
        let ghost target = alternating(s);
        let mut coefficients: Vec<Rational> = Vec::new();
        let mut degree: usize = 0;
        while degree <= top
            invariant
                self.polynomial.wf(),
                s == self.polynomial@,
                target == alternating(s),
                top as int == target.len() - 1,
                top < usize::MAX,
                degree <= top + 1,
                all_rationals_wf(coefficients@),
                rationals_view(coefficients@) == target.take(degree as int),
            decreases top + 1 - degree,
        {
            let c = self.polynomial.coefficient(degree);
            let entry = if degree % 2 == 0 {
                c
            } else {
                c.negated()
            };
            proof {
                lemma_push_view(coefficients@, entry);
                assert(target.take(degree + 1) =~= target.take(degree as int).push(entry@));
            }
            coefficients.push(entry);
            degree = degree + 1;
        }
        proof {
            assert(target.take(degree as int) =~= target);
        }
        let polynomial = UnivariatePolynomial::new(coefficients);
        let lower = self.interval.upper.negated();
        let upper = self.interval.lower.negated();
        proof {
            let (l, u) = (self.interval.lower@, self.interval.upper@);
            assert(rat_lt(rat_neg(u), rat_neg(l))) by {
                assert((-u.0) * l.1 < (-l.0) * u.1) by (nonlinear_arith)
                    requires
                        l.0 * u.1 < u.0 * l.1,
                ;
            }
        }
        AlgebraicReal { polynomial, interval: RootInterval::new(lower, upper) }
    }
}

/// `(-a) * (-b) == a * b` for fractions with positive denominators.
proof fn lemma_neg_times_neg(a: (int, nat), b: (int, nat))
    requires
        a.1 > 0,
        b.1 > 0,
    ensures
        rat_mul(rat_neg(a), rat_neg(b)) == rat_mul(a, b),
{
    lemma_neg_mul(a, rat_neg(b));
    lemma_mul_commutative(a, rat_neg(b));
    lemma_neg_mul(b, a);
    lemma_mul_commutative(b, a);
}

/// Alternating the signs of the coefficients reflects the polynomial:
/// its value at `-x` is the original value at `x`.
proof fn lemma_signs_alternated(s: CoefficientsView, x: (int, nat))
    requires
        all_reduced(s),
        x.1 > 0,
    ensures
        poly_value(signs_alternated(s), rat_neg(x)) == poly_value(s, x),
    decreases s.len(),
{
    let a = signs_alternated(s);
    if s.len() > 0 {
        let t = s.drop_first();
        assert(all_reduced(t)) by {
            assert forall|i: int| 0 <= i < t.len() implies crate::polynomial::rat_reduced(#[trigger] t[i]) by {
                assert(t[i] == s[i + 1]);
            }
        }
        lemma_signs_alternated(t, x);
        let at = signs_alternated(t);
        assert(all_reduced(at)) by {
            assert forall|i: int| 0 <= i < at.len() implies crate::polynomial::rat_reduced(#[trigger] at[i]) by {
                assert(crate::polynomial::rat_reduced(t[i]));
                assert(abs(-t[i].0) == abs(t[i].0));
            }
        }
        assert(a.drop_first() =~= at.map_values(|c: (int, nat)| rat_neg(c))) by {
            assert forall|i: int| 0 <= i < at.len() implies a.drop_first()[i] == rat_neg(at[i]) by {
                assert(a.drop_first()[i] == a[i + 1]);
                assert(t[i] == s[i + 1]);
                if (i + 1) % 2 == 0 {
                    assert(i % 2 == 1);
                } else {
                    assert(i % 2 == 0);
                }
            }
        }
        lemma_value_neg(at, rat_neg(x));
        lemma_value_reduced(t, x);
        let v = poly_value(t, x);
        lemma_neg_times_neg(v, x);
        assert(a[0] == s[0]);
    }
}

/// The reflected polynomial has at `-x` the value the polynomial has at
/// `x`: the negation of a root of `p` is a root of the reflection.
pub proof fn law_reflected_value(s: CoefficientsView, x: (int, nat))
    requires
        all_reduced(s),
        x.1 > 0,
    ensures
        poly_value(reflected(s), rat_neg(x)) == poly_value(s, x),
{
    let raw = alternating(s);
    lemma_zero_reduced(rat_zero());
    assert(all_reduced(raw)) by {
        assert forall|i: int| 0 <= i < raw.len() implies crate::polynomial::rat_reduced(#[trigger] raw[i]) by {
            let c = coefficient_at(s, i);
            assert(crate::polynomial::rat_reduced(c));
            assert(abs(-c.0) == abs(c.0));
        }
    }
    lemma_value_trim(raw, rat_neg(x));
    if s.len() == 0 {
        assert(raw.drop_first().len() == 0);
        assert(poly_value(raw.drop_first(), rat_neg(x)) == rat_zero());
        assert(raw[0] == rat_zero());
        crate::field::lemma_mul_zero(rat_neg(x), rat_zero());
        crate::polynomial::lemma_add_zero_left(rat_zero());
        assert(poly_value(raw, rat_neg(x)) == crate::rational::rat_add(rat_mul(rat_zero(), rat_neg(x)), rat_zero()));
    } else {
        assert(raw =~= signs_alternated(s));
        lemma_signs_alternated(s, x);
    }
}

/// The partial product after the rows of degree below `i` and the first
/// `j` terms of row `i`: `A_i * B + (a_i * x^i) * B_j`, where `A_i` and
/// `B_j` are the values of the first `i` and `j` coefficients.
spec fn partial_product(a: CoefficientsView, b: CoefficientsView, i: nat, j: nat, x: (int, nat)) -> (int, nat) {
    rat_add(
        rat_mul(poly_value(prefix(a, i), x), poly_value(b, x)),
        rat_mul(rat_mul(coefficient_at(a, i as int), rat_pow(x, i)), poly_value(prefix(b, j), x)),
    )
}

/// Everything a partial product is made of is in lowest terms.
proof fn lemma_partial_reduced(a: CoefficientsView, b: CoefficientsView, i: nat, j: nat, x: (int, nat))
    requires
        all_reduced(a),
        all_reduced(b),
        x.1 > 0,
    ensures
        rat_reduced(poly_value(prefix(a, i), x)),
        rat_reduced(poly_value(prefix(b, j), x)),
        rat_reduced(poly_value(b, x)),
        rat_reduced(coefficient_at(a, i as int)),
        rat_reduced(coefficient_at(b, j as int)),
        rat_reduced(rat_pow(x, i)),
        rat_reduced(rat_pow(x, j)),
        rat_reduced(partial_product(a, b, i, j, x)),
{
    lemma_prefix_reduced(a, i);
    lemma_prefix_reduced(b, j);
    lemma_value_reduced(prefix(a, i), x);
    lemma_value_reduced(prefix(b, j), x);
    lemma_value_reduced(b, x);
    lemma_zero_reduced(rat_zero());
    lemma_pow_reduced(x, i);
    lemma_pow_reduced(x, j);
    let m = rat_mul(coefficient_at(a, i as int), rat_pow(x, i));
    lemma_mul_value(coefficient_at(a, i as int), rat_pow(x, i));
    lemma_mul_value(m, poly_value(prefix(b, j), x));
    lemma_mul_value(poly_value(prefix(a, i), x), poly_value(b, x));
    lemma_add_value(
        rat_mul(poly_value(prefix(a, i), x), poly_value(b, x)),
        rat_mul(m, poly_value(prefix(b, j), x)),
    );
}

/// Before any term of row `i` the partial product is `A_i * B`.
proof fn lemma_partial_start(a: CoefficientsView, b: CoefficientsView, i: nat, x: (int, nat))
    requires
        all_reduced(a),
        all_reduced(b),
        x.1 > 0,
    ensures
        partial_product(a, b, i, 0, x) == rat_mul(poly_value(prefix(a, i), x), poly_value(b, x)),
{
    lemma_partial_reduced(a, b, i, 0, x);
    let m = rat_mul(coefficient_at(a, i as int), rat_pow(x, i));
    lemma_mul_value(coefficient_at(a, i as int), rat_pow(x, i));
    assert(poly_value(prefix(b, 0), x) == rat_zero());
    lemma_mul_zero(m, rat_zero());
    lemma_mul_value(poly_value(prefix(a, i), x), poly_value(b, x));
    lemma_add_zero_right(rat_mul(poly_value(prefix(a, i), x), poly_value(b, x)));
}

/// Adding `a_i * b_j` to the coefficient of degree `i + j` takes in the
/// next term of row `i`.
proof fn lemma_partial_step(
    a: CoefficientsView,
    b: CoefficientsView,
    cv: CoefficientsView,
    i: nat,
    j: nat,
    x: (int, nat),
)
    requires
        all_reduced(a),
        all_reduced(b),
        all_reduced(cv),
        x.1 > 0,
        i + j < cv.len(),
        poly_value(cv, x) == partial_product(a, b, i, j, x),
    ensures
        poly_value(
            cv.update(
                (i + j) as int,
                rat_add(cv[(i + j) as int], rat_mul(coefficient_at(a, i as int), coefficient_at(b, j as int))),
            ),
            x,
        ) == partial_product(a, b, i, j + 1, x),
{
    let ai = coefficient_at(a, i as int);
    let bj = coefficient_at(b, j as int);
    let xi = rat_pow(x, i);
    let xj = rat_pow(x, j);
    let bv = poly_value(b, x);
    let av = poly_value(prefix(a, i), x);
    let bprev = poly_value(prefix(b, j), x);
    lemma_partial_reduced(a, b, i, j, x);
    lemma_mul_value(ai, bj);
    lemma_value_accumulate(cv, (i + j) as int, rat_mul(ai, bj), x);
    lemma_prefix_step(b, j, x);
    let m = rat_mul(ai, xi);
    let t = rat_mul(bj, xj);
    lemma_mul_value(ai, xi);
    lemma_mul_value(bj, xj);
    // m * (bprev + t) == m * bprev + m * t
    lemma_mul_commutative(m, rat_add(bprev, t));
    lemma_distributive(bprev, t, m);
    lemma_mul_commutative(bprev, m);
    lemma_mul_commutative(t, m);
    // m * t == (ai * bj) * x^(i + j)
    lemma_mul_regroup(ai, xi, bj, xj);
    lemma_pow_add(x, i, j);
    // (av * bv + m * bprev) + m * t
    lemma_mul_value(av, bv);
    lemma_mul_value(m, bprev);
    lemma_mul_value(m, t);
    lemma_add_associative(rat_mul(av, bv), rat_mul(m, bprev), rat_mul(m, t));
}

/// A complete row `i` turns `A_i * B` into `A_(i + 1) * B`.
proof fn lemma_partial_row(a: CoefficientsView, b: CoefficientsView, i: nat, n: nat, x: (int, nat))
    requires
        all_reduced(a),
        all_reduced(b),
        x.1 > 0,
        n >= b.len(),
    ensures
        partial_product(a, b, i, n, x) == rat_mul(poly_value(prefix(a, i + 1), x), poly_value(b, x)),
{
    lemma_partial_reduced(a, b, i, n, x);
    lemma_prefix_full(b, n, x);
    lemma_prefix_step(a, i, x);
    let m = rat_mul(coefficient_at(a, i as int), rat_pow(x, i));
    lemma_mul_value(coefficient_at(a, i as int), rat_pow(x, i));
    lemma_distributive(poly_value(prefix(a, i), x), m, poly_value(b, x));
}

/// The number of coefficients, one at least.
spec fn padded_length(s: CoefficientsView) -> nat {
    if s.len() == 0 {
        1
    } else {
        s.len()
    }
}

/// The product of two polynomials: its value at every point is the product
/// of their values.
fn multiply(left: &UnivariatePolynomial, right: &UnivariatePolynomial) -> (r: UnivariatePolynomial)
    requires
        left.wf(),
        right.wf(),
        left@.len() + right@.len() < usize::MAX,
    ensures
        r.wf(),
        forall|x: (int, nat)|
            x.1 > 0 ==> #[trigger] poly_value(r@, x) == rat_mul(poly_value(left@, x), poly_value(right@, x)),
        r@.len() + 1 <= padded_length(left@) + padded_length(right@),
{
    let ghost a = left@;
    let ghost b = right@;
    proof {
        left.lemma_reduced();
        right.lemma_reduced();
    }
    let dl = match left.degree() {
        Some(d) => d,
        None => 0,
    };
    let dr = match right.degree() {
        Some(d) => d,
        None => 0,
    };
    let n = dl + dr + 1;
    let mut coefficients: Vec<Rational> = Vec::new();
    while coefficients.len() < n
        invariant
            coefficients.len() <= n,
            all_rationals_wf(coefficients@),
            forall|k: int| 0 <= k < coefficients@.len() ==> (#[trigger] coefficients@[k])@ == rat_zero(),
        decreases n - coefficients.len(),
    {
        let zero = Rational::zero();
        proof {
            lemma_push_view(coefficients@, zero);
        }
        coefficients.push(zero);
    }
    proof {
        lemma_zero_reduced(rat_zero());
        assert forall|x: (int, nat)| x.1 > 0 implies #[trigger] poly_value(rationals_view(coefficients@), x)
            == rat_mul(poly_value(prefix(a, 0), x), poly_value(b, x)) by {
            let z = Seq::<(int, nat)>::empty();
            assert(rationals_view(coefficients@) =~= prefix(z, n as nat));
            lemma_prefix_full(z, n as nat, x);
            lemma_value_reduced(b, x);
            lemma_mul_zero(poly_value(b, x), rat_zero());
        }
    }
    let mut i: usize = 0;
    while i <= dl
        invariant
            left.wf(),
            right.wf(),
            a == left@,
            b == right@,
            all_reduced(a),
            all_reduced(b),
            dl as int == if a.len() == 0 { 0 } else { a.len() - 1 },
            dr as int == if b.len() == 0 { 0 } else { b.len() - 1 },
            n == dl + dr + 1,
            n < usize::MAX,
            i <= dl + 1,
            coefficients.len() == n,
            all_rationals_wf(coefficients@),
            forall|x: (int, nat)|
                x.1 > 0 ==> #[trigger] poly_value(rationals_view(coefficients@), x) == rat_mul(
                    poly_value(prefix(a, i as nat), x),
                    poly_value(b, x),
                ),
        decreases dl + 1 - i,
    {
        let left_coefficient = left.coefficient(i);
        proof {
            assert forall|x: (int, nat)| x.1 > 0 implies #[trigger] poly_value(rationals_view(coefficients@), x)
                == partial_product(a, b, i as nat, 0, x) by {
                lemma_partial_start(a, b, i as nat, x);
            }
        }
        let mut j: usize = 0;
        while j <= dr
            invariant
                left.wf(),
                right.wf(),
                a == left@,
                b == right@,
                all_reduced(a),
                all_reduced(b),
                dr as int == if b.len() == 0 { 0 } else { b.len() - 1 },
                n == dl + dr + 1,
                n < usize::MAX,
                i <= dl,
                j <= dr + 1,
                left_coefficient.wf(),
                left_coefficient@ == coefficient_at(a, i as int),
                coefficients.len() == n,
                all_rationals_wf(coefficients@),
                forall|x: (int, nat)|
                    x.1 > 0 ==> #[trigger] poly_value(rationals_view(coefficients@), x) == partial_product(
                        a,
                        b,
                        i as nat,
                        j as nat,
                        x,
                    ),
            decreases dr + 1 - j,
        {
            let right_coefficient = right.coefficient(j);
            let term = left_coefficient.mul(&right_coefficient);
            let k = i + j;
            let updated = coefficients[k].add(&term);
            let ghost cv = rationals_view(coefficients@);
            let ghost before = coefficients@;
            proof {
                assert(all_reduced(cv)) by {
                    assert forall|m: int| 0 <= m < cv.len() implies rat_reduced(#[trigger] cv[m]) by {
                        coefficients@[m].lemma_wf();
                    }
                }
            }
            coefficients.set(k, updated);
            proof {
                assert(rationals_view(coefficients@) =~= cv.update(k as int, updated@));
                assert forall|x: (int, nat)| x.1 > 0 implies #[trigger] poly_value(rationals_view(coefficients@), x)
                    == partial_product(a, b, i as nat, (j + 1) as nat, x) by {
                    lemma_partial_step(a, b, cv, i as nat, j as nat, x);
                }
                assert forall|m: int| 0 <= m < coefficients@.len() implies (#[trigger] coefficients@[m]).wf() by {
                    if m != k {
                        assert(coefficients@[m] == before[m]);
                    }
                }
            }
            j = j + 1;
        }
        proof {
            assert forall|x: (int, nat)| x.1 > 0 implies #[trigger] poly_value(rationals_view(coefficients@), x)
                == rat_mul(poly_value(prefix(a, (i + 1) as nat), x), poly_value(b, x)) by {
                lemma_partial_row(a, b, i as nat, (dr + 1) as nat, x);
            }
        }
        i = i + 1;
    }
    let r = UnivariatePolynomial::new(coefficients);
    proof {
        let cv = rationals_view(coefficients@);
        crate::algebra::univariate::lemma_trim(cv);
        assert(all_reduced(cv)) by {
            assert forall|m: int| 0 <= m < cv.len() implies rat_reduced(#[trigger] cv[m]) by {
                coefficients@[m].lemma_wf();
            }
        }
        assert forall|x: (int, nat)| x.1 > 0 implies #[trigger] poly_value(r@, x) == rat_mul(
            poly_value(a, x),
            poly_value(b, x),
        ) by {
            lemma_value_trim(cv, x);
            lemma_prefix_full(a, (dl + 1) as nat, x);
        }
    }
    r
}

/// `scale * y - shift`.
pub open spec fn affine_point(y: (int, nat), shift: (int, nat), scale: (int, nat)) -> (int, nat) {
    rat_sub(rat_mul(scale, y), shift)
}

/// The coefficients from degree `d` on, lowered by `d` degrees.
spec fn upper_part(s: CoefficientsView, d: int) -> CoefficientsView {
    if d >= s.len() {
        Seq::empty()
    } else {
        s.skip(d)
    }
}

/// The polynomial `y -> p(scale * y - shift)`, built by Horner's rule from
/// the highest degree down.
fn affine_transform(polynomial: &UnivariatePolynomial, shift: &Rational, scale: &Rational) -> (r:
    UnivariatePolynomial)
    requires
        polynomial.wf(),
        shift.wf(),
        scale.wf(),
        polynomial@.len() + 3 < usize::MAX,
    ensures
        r.wf(),
        forall|y: (int, nat)|
            y.1 > 0 ==> #[trigger] poly_value(r@, y) == poly_value(polynomial@, affine_point(y, shift@, scale@)),
{
    let ghost a = polynomial@;
    proof {
        polynomial.lemma_reduced();
        shift.lemma_wf();
        scale.lemma_wf();
    }
    let top = match polynomial.degree() {
        Some(d) => d,
        None => 0,
    };
    let mut result = UnivariatePolynomial::zero();
    let mut remaining: usize = top + 1;
    while remaining > 0
        invariant
            polynomial.wf(),
            shift.wf(),
            scale.wf(),
            a == polynomial@,
            all_reduced(a),
            rat_reduced(shift@),
            rat_reduced(scale@),
            top as int == if a.len() == 0 { 0 } else { a.len() - 1 },
            top + 3 < usize::MAX,
            remaining <= top + 1,
            result.wf(),
            result@.len() <= top + 2 - remaining,
            forall|y: (int, nat)|
                y.1 > 0 ==> #[trigger] poly_value(result@, y) == poly_value(
                    upper_part(a, remaining as int),
                    affine_point(y, shift@, scale@),
                ),
        decreases remaining,
    {
        let degree = remaining - 1;
        let mut linear: Vec<Rational> = Vec::new();
        linear.push(shift.negated());
        linear.push(scale.duplicate());
        let transformed = UnivariatePolynomial::new(linear);
        proof {
            crate::algebra::univariate::lemma_trim(rationals_view(linear@));
        }
        let product = multiply(&result, &transformed);
        let constant = UnivariatePolynomial::constant(polynomial.coefficient(degree));
        let next = product.plus(&constant);
        proof {
            let lv = rationals_view(linear@);
            let c = coefficient_at(a, degree as int);
            assert(lv =~= seq![rat_neg(shift@), scale@]);
            crate::algebra::univariate::lemma_trim(lv);
            crate::algebra::univariate::lemma_trim(seq![c]);
            product.lemma_reduced();
            constant.lemma_reduced();
            lemma_zero_reduced(rat_zero());
            let n = if product@.len() >= constant@.len() { product@.len() } else { constant@.len() };
            crate::algebra::univariate::lemma_trim(
                Seq::new(n, |i: int| rat_add(coefficient_at(product@, i), coefficient_at(constant@, i))),
            );
            assert(rat_reduced(c)) by {
                if 0 <= degree < a.len() {
                    assert(rat_reduced(a[degree as int]));
                }
            }
            assert(all_reduced(lv)) by {
                assert(abs(-shift@.0) == abs(shift@.0));
            }
            assert(all_reduced(seq![c]));
            assert forall|y: (int, nat)| y.1 > 0 implies #[trigger] poly_value(next@, y) == poly_value(
                upper_part(a, degree as int),
                affine_point(y, shift@, scale@),
            ) by {
                let t = affine_point(y, shift@, scale@);
                let prev = upper_part(a, remaining as int);
                // the value of the linear factor is `t`
                lemma_value_trim(lv, y);
                assert(lv.drop_first() =~= seq![scale@]);
                crate::algebra::horner::lemma_value_single(scale@, y);
                assert(poly_value(lv.drop_first(), y) == scale@);
                lemma_mul_commutative(scale@, y);
                crate::field::lemma_sub_as_add(rat_mul(scale@, y), shift@);
                assert(poly_value(transformed@, y) == t);
                // the value of the constant is `c`
                lemma_value_trim(seq![c], y);
                crate::algebra::horner::lemma_value_single(c, y);
                assert(poly_value(constant@, y) == c);
                crate::algebra::horner::law_value_sum(product@, constant@, y);
                lemma_mul_value(scale@, y);
                crate::field::lemma_add_value(rat_mul(scale@, y), rat_neg(shift@));
                if degree < a.len() {
                    assert(upper_part(a, degree as int).drop_first() =~= prev);
                    assert(upper_part(a, degree as int)[0] == c);
                } else {
                    assert(prev.len() == 0);
                    assert(upper_part(a, degree as int).len() == 0);
                    assert(c == rat_zero());
                    lemma_mul_zero(t, rat_zero());
                    lemma_add_zero_left(rat_zero());
                }
            }
        }
        result = next;
        remaining = degree;
    }
    proof {
        assert forall|y: (int, nat)| y.1 > 0 implies #[trigger] poly_value(result@, y) == poly_value(
            a,
            affine_point(y, shift@, scale@),
        ) by {
            if a.len() > 0 {
                assert(upper_part(a, 0) =~= a);
            } else {
                assert(upper_part(a, 0) =~= a);
            }
        }
    }
    result
}

/// `(a + v) - (b + v) == a - b`.
proof fn lemma_shift_difference(a: (int, nat), b: (int, nat), v: (int, nat))
    requires
        rat_reduced(a),
        rat_reduced(b),
        rat_reduced(v),
    ensures
        rat_sub(rat_add(a, v), rat_add(b, v)) == rat_sub(a, b),
{
    crate::field::lemma_sub_as_add(rat_add(a, v), rat_add(b, v));
    crate::field::lemma_sub_as_add(a, b);
    crate::field::lemma_neg_add(b, v);
    crate::algebra::horner::lemma_add_four(a, v, rat_neg(b), rat_neg(v));
    crate::field::lemma_add_neg_cancel(v);
    lemma_add_value(a, rat_neg(b));
    lemma_add_zero_right(rat_add(a, rat_neg(b)));
}

/// `u * v - l * v == (u - l) * v`.
proof fn lemma_scale_difference(u: (int, nat), l: (int, nat), v: (int, nat))
    requires
        rat_reduced(u),
        rat_reduced(l),
        rat_reduced(v),
    ensures
        rat_sub(rat_mul(u, v), rat_mul(l, v)) == rat_mul(rat_sub(u, l), v),
{
    crate::field::lemma_sub_as_add(rat_mul(u, v), rat_mul(l, v));
    crate::field::lemma_sub_as_add(u, l);
    lemma_neg_mul(l, v);
    lemma_distributive(u, rat_neg(l), v);
}

/// Scaling by a nonzero fraction keeps the order when it is positive and
/// reverses it when it is negative.
proof fn lemma_scale_order(l: (int, nat), u: (int, nat), v: (int, nat))
    requires
        rat_reduced(l),
        rat_reduced(u),
        rat_reduced(v),
        rat_lt(l, u),
        v.0 != 0,
    ensures
        v.0 > 0 ==> rat_lt(rat_mul(l, v), rat_mul(u, v)),
        v.0 < 0 ==> rat_lt(rat_mul(u, v), rat_mul(l, v)),
{
    lemma_scale_difference(u, l, v);
    crate::rational::lemma_sub_sign(u, l);
    let d = rat_sub(u, l);
    assert(u.1 * l.1 > 0) by (nonlinear_arith)
        requires
            u.1 > 0,
            l.1 > 0,
    ;
    crate::rational::lemma_normalize_value(u.0 * l.1 - l.0 * u.1, (u.1 * l.1) as int);
    assert(d.1 > 0);
    lemma_mul_value(l, v);
    lemma_mul_value(u, v);
    crate::rational::lemma_sub_sign(rat_mul(u, v), rat_mul(l, v));
    assert(d.1 * v.1 > 0) by (nonlinear_arith)
        requires
            d.1 > 0,
            v.1 > 0,
    ;
    crate::rational::lemma_normalize_sign(d.0 * v.0, (d.1 * v.1) as int);
    if v.0 > 0 {
        assert(d.0 * v.0 > 0) by (nonlinear_arith)
            requires
                d.0 > 0,
                v.0 > 0,
        ;
    } else {
        assert(d.0 * v.0 < 0) by (nonlinear_arith)
            requires
                d.0 > 0,
                v.0 < 0,
        ;
    }
}

/// The point of a transform with scale one is the difference.
proof fn lemma_unit_point(y: (int, nat), v: (int, nat))
    requires
        rat_reduced(y),
    ensures
        affine_point(y, v, rat_int(1)) == rat_sub(y, v),
{
    crate::field::lemma_mul_one(y);
}

/// The point of a transform with shift zero and scale `1 / v` is the
/// quotient by `v`.
proof fn lemma_scaled_point(y: (int, nat), v: (int, nat))
    requires
        rat_reduced(y),
        rat_reduced(v),
        v.0 != 0,
    ensures
        affine_point(y, rat_zero(), crate::rational::rat_div(rat_int(1), v)) == crate::rational::rat_div(y, v),
{
    let w = crate::rational::rat_div(rat_int(1), v);
    let q = crate::rational::rat_div(y, v);
    let z = rat_mul(w, y);
    crate::rational::lemma_normalize_value((1 * v.1) as int, 1 * v.0);
    assert(y.1 * v.0 != 0) by (nonlinear_arith)
        requires
            y.1 > 0,
            v.0 != 0,
    ;
    crate::rational::lemma_normalize_value(y.0 * v.1, y.1 * v.0);
    crate::rational::lemma_normalize_reduced(y.0 * v.1, y.1 * v.0);
    assert(w.0 * v.0 == v.1 * w.1);
    assert(q.0 * (y.1 * v.0) == (y.0 * v.1) * q.1);
    assert(q.0 * (w.1 * y.1) == (w.0 * y.0) * q.1) by (nonlinear_arith)
        requires
            w.0 * v.0 == v.1 * w.1,
            q.0 * (y.1 * v.0) == (y.0 * v.1) * q.1,
            v.0 != 0,
    {
        assert((q.0 * (w.1 * y.1)) * v.0 == w.1 * (q.0 * (y.1 * v.0)));
        assert((w.0 * y.0 * q.1) * v.0 == (y.0 * q.1) * (w.0 * v.0));
    }
    assert(w.1 * y.1 > 0) by (nonlinear_arith)
        requires
            w.1 > 0,
            y.1 > 0,
    ;
    crate::field::lemma_normalize_to(q, w.0 * y.0, (w.1 * y.1) as int);
    lemma_mul_value(w, y);
    crate::field::lemma_normalize_to(z, z.0 * 1 - 0 * z.1, (z.1 * 1) as int);
}

impl AlgebraicReal {
    /// The number plus `value`: the root of `p(y - value)` in the shifted
    /// interval.
    pub fn add_rational(&self, value: &Rational) -> (r: Self)
        requires
            self.polynomial.wf(),
            self.interval.lower.wf(),
            self.interval.upper.wf(),
            rat_lt(self.interval.lower@, self.interval.upper@),
            value.wf(),
            self.polynomial@.len() + 3 < usize::MAX,
        ensures
            r.polynomial.wf(),
            forall|y: (int, nat)|
                rat_reduced(y) ==> #[trigger] poly_value(r.polynomial@, y) == poly_value(
                    self.polynomial@,
                    rat_sub(y, value@),
                ),
            r.interval.lower@ == rat_add(self.interval.lower@, value@),
            r.interval.upper@ == rat_add(self.interval.upper@, value@),
    {
        let one = Rational::one();
        let transformed = affine_transform(&self.polynomial, value, &one);
        let lower = self.interval.lower.add(value);
        let upper = self.interval.upper.add(value);
        proof {
            let (l, u, v) = (self.interval.lower@, self.interval.upper@, value@);
            self.interval.lower.lemma_wf();
            self.interval.upper.lemma_wf();
            value.lemma_wf();
            assert forall|y: (int, nat)| rat_reduced(y) implies #[trigger] poly_value(transformed@, y)
                == poly_value(self.polynomial@, rat_sub(y, v)) by {
                lemma_unit_point(y, v);
            }
            lemma_shift_difference(l, u, v);
            crate::rational::lemma_sub_sign(l, u);
            lemma_add_value(l, v);
            lemma_add_value(u, v);
            crate::rational::lemma_sub_sign(rat_add(l, v), rat_add(u, v));
        }
        AlgebraicReal { polynomial: transformed, interval: RootInterval::new(lower, upper) }
    }

    /// The number times `value`: the root of `p(y / value)` in the scaled
    /// interval, ends ordered; `None` when `value` is zero.
    pub fn mul_rational(&self, value: &Rational) -> (r: Option<Self>)
        requires
            self.polynomial.wf(),
            self.interval.lower.wf(),
            self.interval.upper.wf(),
            rat_lt(self.interval.lower@, self.interval.upper@),
            value.wf(),
            self.polynomial@.len() + 3 < usize::MAX,
        ensures
            r is None <==> value@.0 == 0,
            r matches Some(m) ==> {
                &&& m.polynomial.wf()
                &&& forall|y: (int, nat)|
                    rat_reduced(y) ==> #[trigger] poly_value(m.polynomial@, y) == poly_value(
                        self.polynomial@,
                        crate::rational::rat_div(y, value@),
                    )
                &&& value@.0 > 0 ==> m.interval.lower@ == rat_mul(self.interval.lower@, value@)
                    && m.interval.upper@ == rat_mul(self.interval.upper@, value@)
                &&& value@.0 < 0 ==> m.interval.lower@ == rat_mul(self.interval.upper@, value@)
                    && m.interval.upper@ == rat_mul(self.interval.lower@, value@)
            },
    {
        if value.is_zero() {
            return None;
        }
        let one = Rational::one();
        let inverse = one.div(value);
        let zero = Rational::zero();
        let transformed = affine_transform(&self.polynomial, &zero, &inverse);
        let lower = self.interval.lower.mul(value);
        let upper = self.interval.upper.mul(value);
        proof {
            let (l, u, v) = (self.interval.lower@, self.interval.upper@, value@);
            self.interval.lower.lemma_wf();
            self.interval.upper.lemma_wf();
            value.lemma_wf();
            assert forall|y: (int, nat)| rat_reduced(y) implies #[trigger] poly_value(transformed@, y)
                == poly_value(self.polynomial@, crate::rational::rat_div(y, v)) by {
                lemma_scaled_point(y, v);
            }
            lemma_scale_order(l, u, v);
        }
        let interval = if lower.less_or_equal(&upper) {
            RootInterval::new(lower, upper)
        } else {
            RootInterval::new(upper, lower)
        };
        Some(AlgebraicReal { polynomial: transformed, interval })
    }
}

/// Shifting a point by `v` and back returns it: with the contract of
/// `add_rational`, a root `x` of the defining polynomial gives the root
/// `x + v` of the shifted one.
pub proof fn law_shift_round_trip(x: (int, nat), v: (int, nat))
    requires
        rat_reduced(x),
        rat_reduced(v),
    ensures
        rat_sub(rat_add(x, v), v) == x,
{
    crate::field::lemma_sub_as_add(rat_add(x, v), v);
    lemma_add_associative(x, v, rat_neg(v));
    crate::field::lemma_add_neg_cancel(v);
    lemma_add_zero_right(x);
}

/// Scaling a point by a nonzero `v` and back returns it: with the contract
/// of `mul_rational`, a root `x` of the defining polynomial gives the root
/// `x * v` of the scaled one.
pub proof fn law_scale_round_trip(x: (int, nat), v: (int, nat))
    requires
        rat_reduced(x),
        rat_reduced(v),
        v.0 != 0,
    ensures
        crate::rational::rat_div(rat_mul(x, v), v) == x,
{
    let m = rat_mul(x, v);
    lemma_mul_value(x, v);
    assert(m.0 * (x.1 * v.1) == (x.0 * v.0) * m.1);
    assert(m.1 * v.0 != 0) by (nonlinear_arith)
        requires
            m.1 > 0,
            v.0 != 0,
    ;
    let n = m.0 * v.1;
    let d = m.1 * v.0;
    assert(x.0 * d == n * x.1) by (nonlinear_arith)
        requires
            m.0 * (x.1 * v.1) == (x.0 * v.0) * m.1,
            n == m.0 * v.1,
            d == m.1 * v.0,
    ;
    if d > 0 {
        crate::field::lemma_normalize_to(x, n, d);
    } else {
        assert(d < 0);
        assert(x.0 * (-d) == (-n) * x.1) by (nonlinear_arith)
            requires
                x.0 * d == n * x.1,
        ;
        crate::field::lemma_normalize_to(x, -n, -d);
        assert(abs(-n) == abs(n));
        assert(abs(-d) == abs(d));
        assert(crate::rational::normalize(n, d) == crate::rational::normalize(-n, -d));
    }
}

} // verus!
