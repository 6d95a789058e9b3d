//! Univariate polynomials with rational coefficients: arithmetic, division
//! with remainder, and Sturm sequences.
//!
//! A polynomial is viewed as its coefficient list, lowest degree first,
//! without trailing zeros.
use crate::rational::{
    lemma_cancel_leading, lemma_normalize_value, rat_add, rat_div, rat_int, rat_mul, rat_neg, rat_sub,
    rat_zero, Rational,
};
use crate::polynomial::decimal_string;
use crate::rational::{abs, decimal, lemma_normalize_sign, rat_le, rat_lt, rat_sign, rat_text};
use vstd::prelude::*;

verus! {

/// Coefficients, lowest degree first.
pub type CoefficientsView = Seq<(int, nat)>;

/// The coefficients without trailing zeros.
pub open spec fn trim(s: CoefficientsView) -> CoefficientsView
    decreases s.len(),
{
    if s.len() > 0 && s.last().0 == 0 {
        trim(s.drop_last())
    } else {
        s
    }
}

/// The coefficient of degree `d` (zero beyond the list).
pub open spec fn coefficient_at(s: CoefficientsView, d: int) -> (int, nat) {
    if 0 <= d < s.len() {
        s[d]
    } else {
        rat_zero()
    }
}

/// No trailing zero.
pub open spec fn trimmed(s: CoefficientsView) -> bool {
    s.len() > 0 ==> s.last().0 != 0
}

/// The value at `x`, by Horner's rule from the highest degree down.
pub open spec fn poly_value(s: CoefficientsView, x: (int, nat)) -> (int, nat)
    decreases s.len(),
{
    if s.len() == 0 {
        rat_zero()
    } else {
        rat_add(rat_mul(poly_value(s.drop_first(), x), x), s[0])
    }
}

/// The coefficients of the derivative.
pub open spec fn derivative_coefficients(s: CoefficientsView) -> CoefficientsView {
    if s.len() < 2 {
        Seq::empty()
    } else {
        trim(Seq::new((s.len() - 1) as nat, |i: int| rat_mul(s[i + 1], rat_int(i + 1))))
    }
}

/// The coefficients of a sum.
pub open spec fn sum_coefficients(a: CoefficientsView, b: CoefficientsView) -> CoefficientsView {
    let n = if a.len() >= b.len() {
        a.len()
    } else {
        b.len()
    };
    trim(Seq::new(n, |i: int| rat_add(coefficient_at(a, i), coefficient_at(b, i))))
}

/// The coefficients of a difference.
pub open spec fn difference_coefficients(a: CoefficientsView, b: CoefficientsView) -> CoefficientsView {
    let n = if a.len() >= b.len() {
        a.len()
    } else {
        b.len()
    };
    trim(Seq::new(n, |i: int| rat_sub(coefficient_at(a, i), coefficient_at(b, i))))
}

/// The coefficients of the negation.
pub open spec fn negated_coefficients(a: CoefficientsView) -> CoefficientsView {
    trim(a.map_values(|c: (int, nat)| rat_neg(c)))
}

/// A univariate polynomial with rational coefficients.
#[derive(Clone, Debug, PartialEq, Eq)]
pub struct UnivariatePolynomial {
    coefficients: Vec<Rational>,
}

impl View for UnivariatePolynomial {
    type V = CoefficientsView;

    closed spec fn view(&self) -> CoefficientsView {
        self.coefficients@.map_values(|c: Rational| c@)
    }
}

/// Every coefficient is well formed.
pub open spec fn all_rationals_wf(cs: Seq<Rational>) -> bool {
    forall|i: int| 0 <= i < cs.len() ==> (#[trigger] cs[i]).wf()
}

/// The views of a list of coefficients.
pub open spec fn rationals_view(cs: Seq<Rational>) -> CoefficientsView {
    cs.map_values(|c: Rational| c@)
}

/// The view of a list grown by one coefficient.
pub proof fn lemma_push_view(cs: Seq<Rational>, c: Rational)
    ensures
        rationals_view(cs.push(c)) == rationals_view(cs).push(c@),
        all_rationals_wf(cs) && c.wf() ==> all_rationals_wf(cs.push(c)),
{
    assert(rationals_view(cs.push(c)) =~= rationals_view(cs).push(c@));
    if all_rationals_wf(cs) && c.wf() {
        assert forall|k: int| 0 <= k < cs.push(c).len() implies (#[trigger] cs.push(c)[k]).wf() by {
            if k < cs.len() {
                assert(cs.push(c)[k] == cs[k]);
            }
        }
    }
}

impl UnivariatePolynomial {
    /// Well-formed coefficients without trailing zeros.
    pub closed spec fn wf(&self) -> bool {
        &&& all_rationals_wf(self.coefficients@)
        &&& trimmed(self@)
    }

    /// What well-formedness says of the view: every coefficient has a
    /// positive denominator, and the last one is nonzero.
    pub proof fn lemma_wf(&self)
        requires
            self.wf(),
        ensures
            trimmed(self@),
            forall|i: int| 0 <= i < self@.len() ==> (#[trigger] self@[i]).1 > 0,
    {
        assert forall|i: int| 0 <= i < self@.len() implies (#[trigger] self@[i]).1 > 0 by {
            self.coefficients@[i].lemma_wf();
        }
    }

    /// Every coefficient of a well-formed polynomial is in lowest terms.
    pub proof fn lemma_reduced(&self)
        requires
            self.wf(),
        ensures
            forall|i: int| 0 <= i < self@.len() ==> crate::polynomial::rat_reduced(#[trigger] self@[i]),
    {
        assert forall|i: int| 0 <= i < self@.len() implies crate::polynomial::rat_reduced(#[trigger] self@[i]) by {
            self.coefficients@[i].lemma_wf();
        }
    }

    /// The polynomial with these coefficients, lowest degree first, with
    /// trailing zeros dropped.
    pub fn new(coefficients: Vec<Rational>) -> (p: Self)
        requires
            all_rationals_wf(coefficients@),
        ensures
            p.wf(),
            p@ == trim(rationals_view(coefficients@)),
    {
        let ghost original = rationals_view(coefficients@);
        let mut coefficients = coefficients;
        while coefficients.len() > 0 && coefficients[coefficients.len() - 1].is_zero()
            invariant
                all_rationals_wf(coefficients@),
                trim(rationals_view(coefficients@)) == trim(original),
            decreases coefficients@.len(),
        {
            let ghost before = coefficients@;
            proof {
                assert(rationals_view(before).last().0 == 0);
            }
            coefficients.pop();
            proof {
                assert(rationals_view(coefficients@) =~= rationals_view(before).drop_last());
                assert(all_rationals_wf(coefficients@)) by {
                    assert forall|i: int| 0 <= i < coefficients@.len() implies (
                    #[trigger] coefficients@[i]).wf() by {
                        assert(coefficients@[i] == before[i]);
                    }
                }
            }
        }
        let p = UnivariatePolynomial { coefficients };
        proof {
            assert(p@ == rationals_view(p.coefficients@));
            assert(trim(p@) == p@);
        }
        p
    }
}


impl UnivariatePolynomial {
    /// The zero polynomial.
    pub fn zero() -> (p: Self)
        ensures
            p.wf(),
            p@ == Seq::<(int, nat)>::empty(),
    {
        let p = UnivariatePolynomial { coefficients: Vec::new() };
        assert(p@ =~= Seq::<(int, nat)>::empty());
        p
    }

    /// The constant `value`.
    pub fn constant(value: Rational) -> (p: Self)
        requires
            value.wf(),
        ensures
            p.wf(),
            p@ == trim(seq![value@]),
    {
        let mut coefficients: Vec<Rational> = Vec::new();
        coefficients.push(value);
        let p = Self::new(coefficients);
        proof {
            assert(rationals_view(coefficients@) =~= seq![value@]);
        }
        p
    }

    /// The polynomial with these integer coefficients, lowest degree first.
    pub fn from_integers(coefficients: &[i64]) -> (p: Self)
        ensures
            p.wf(),
            p@ == trim(coefficients@.map_values(|c: i64| rat_int(c as int))),
    {
        let mut values: Vec<Rational> = Vec::new();
        let mut i: usize = 0;
        while i < coefficients.len()
            invariant
                i <= coefficients@.len(),
                all_rationals_wf(values@),
                rationals_view(values@) == coefficients@.take(i as int).map_values(
                    |c: i64| rat_int(c as int),
                ),
            decreases coefficients@.len() - i,
        {
            let ghost before = values@;
            let c = Rational::from_i64(coefficients[i]);
            let ghost gc = c;
            values.push(c);
            proof {
                lemma_push_view(before, gc);
                assert(rationals_view(values@) =~= coefficients@.take(i + 1).map_values(
                    |c: i64| rat_int(c as int),
                ));
                assert forall|k: int| 0 <= k < values@.len() implies (#[trigger] values@[k]).wf() by {
                    if k < before.len() {
                        assert(values@[k] == before[k]);
                    }
                }
            }
            i = i + 1;
        }
        proof {
            assert(coefficients@.take(i as int) =~= coefficients@);
        }
        Self::new(values)
    }

    /// An exact copy.
    pub fn duplicate(&self) -> (p: Self)
        requires
            self.wf(),
        ensures
            p.wf(),
            p@ == self@,
    {
        let mut values: Vec<Rational> = Vec::new();
        let mut i: usize = 0;
        while i < self.coefficients.len()
            invariant
                self.wf(),
                i <= self@.len(),
                all_rationals_wf(values@),
                rationals_view(values@) == self@.take(i as int),
            decreases self@.len() - i,
        {
            let ghost before = values@;
            let c = self.coefficients[i].duplicate();
            let ghost gc = c;
            values.push(c);
            proof {
                lemma_push_view(before, gc);
                assert(rationals_view(values@) =~= self@.take(i + 1));
            }
            i = i + 1;
        }
        proof {
            assert(self@.take(i as int) =~= self@);
        }
        let p = UnivariatePolynomial { coefficients: values };
        proof {
            assert(p@ == rationals_view(values@));
        }
        p
    }

    /// Whether this is the zero polynomial.
    pub fn is_zero(&self) -> (b: bool)
        ensures
            b == (self@.len() == 0),
    {
        self.coefficients.len() == 0
    }

    /// The degree; `None` for zero.
    pub fn degree(&self) -> (d: Option<usize>)
        ensures
            self@.len() <= usize::MAX,
            d == if self@.len() == 0 {
                None::<usize>
            } else {
                Some((self@.len() - 1) as usize)
            },
    {
        if self.coefficients.len() == 0 {
            None
        } else {
            Some(self.coefficients.len() - 1)
        }
    }

    /// The coefficient of the highest degree; `None` for zero.
    pub fn leading_coefficient(&self) -> (c: Option<&Rational>)
        requires
            self.wf(),
        ensures
            self@.len() == 0 ==> c is None,
            self@.len() > 0 ==> (c matches Some(x) && x@ == self@.last() && x.wf()),
    {
        let n = self.coefficients.len();
        if n == 0 {
            None
        } else {
            Some(&self.coefficients[n - 1])
        }
    }

    /// The coefficient of `x ^ degree` (zero beyond the degree).
    pub fn coefficient(&self, degree: usize) -> (c: Rational)
        requires
            self.wf(),
        ensures
            c.wf(),
            c@ == coefficient_at(self@, degree as int),
    {
        if degree < self.coefficients.len() {
            self.coefficients[degree].duplicate()
        } else {
            Rational::zero()
        }
    }

    /// The value at `value`, by Horner's rule.
    pub fn evaluate(&self, value: &Rational) -> (r: Rational)
        requires
            self.wf(),
            value.wf(),
        ensures
            r.wf(),
            r@ == poly_value(self@, value@),
    {
        let mut result = Rational::zero();
        let mut i = self.coefficients.len();
        proof {
            assert(self@.skip(i as int) =~= Seq::<(int, nat)>::empty());
        }
        while i > 0
            invariant
                self.wf(),
                value.wf(),
                result.wf(),
                i <= self@.len(),
                result@ == poly_value(self@.skip(i as int), value@),
            decreases i,
        {
            i = i - 1;
            proof {
                assert(self@.skip(i as int).drop_first() =~= self@.skip(i + 1));
                assert(self@.skip(i as int)[0] == self.coefficients@[i as int]@);
            }
            let scaled = result.mul(value);
            result = scaled.add(&self.coefficients[i]);
        }
        proof {
            assert(self@.skip(0) =~= self@);
        }
        result
    }

    /// The derivative.
    pub fn derivative(&self) -> (d: Self)
        requires
            self.wf(),
        ensures
            d.wf(),
            d@ == derivative_coefficients(self@),
    {
        let n = self.coefficients.len();
        if n < 2 {
            return Self::zero();
        }
        let mut values: Vec<Rational> = Vec::new();
        let mut degree: usize = 1;
        while degree < n
            invariant
                self.wf(),
                n == self@.len(),
                1 <= degree <= n,
                all_rationals_wf(values@),
                rationals_view(values@) == Seq::new(
                    (degree - 1) as nat,
                    |i: int| rat_mul(self@[i + 1], rat_int(i + 1)),
                ),
            decreases n - degree,
        {
            let ghost before = values@;
            let c = self.coefficients[degree].mul_integer(degree);
            let ghost gc = c;
            proof {
                assert(self@[degree as int] == self.coefficients@[degree as int]@);
            }
            values.push(c);
            proof {
                lemma_push_view(before, gc);
                assert(rationals_view(values@) =~= Seq::new(
                    degree as nat,
                    |i: int| rat_mul(self@[i + 1], rat_int(i + 1)),
                ));
                assert forall|k: int| 0 <= k < values@.len() implies (#[trigger] values@[k]).wf() by {
                    if k < before.len() {
                        assert(values@[k] == before[k]);
                    }
                }
            }
            degree = degree + 1;
        }
        Self::new(values)
    }

    /// The sum.
    pub fn plus(&self, rhs: &Self) -> (r: Self)
        requires
            self.wf(),
            rhs.wf(),
        ensures
            r.wf(),
            r@ == sum_coefficients(self@, rhs@),
    {
        let n = if self.coefficients.len() >= rhs.coefficients.len() {
            self.coefficients.len()
        } else {
            rhs.coefficients.len()
        };
        let mut values: Vec<Rational> = Vec::new();
        let mut i: usize = 0;
        while i < n
            invariant
                self.wf(),
                rhs.wf(),
                n == if self@.len() >= rhs@.len() {
                    self@.len()
                } else {
                    rhs@.len()
                },
                i <= n,
                all_rationals_wf(values@),
                rationals_view(values@) == Seq::new(
                    i as nat,
                    |k: int| rat_add(coefficient_at(self@, k), coefficient_at(rhs@, k)),
                ),
            decreases n - i,
        {
            let ghost before = values@;
            let a = self.coefficient(i);
            let b = rhs.coefficient(i);
            let c = a.add(&b);
            let ghost gc = c;
            values.push(c);
            proof {
                lemma_push_view(before, gc);
                assert(rationals_view(values@) =~= Seq::new(
                    (i + 1) as nat,
                    |k: int| rat_add(coefficient_at(self@, k), coefficient_at(rhs@, k)),
                ));
                assert forall|k: int| 0 <= k < values@.len() implies (#[trigger] values@[k]).wf() by {
                    if k < before.len() {
                        assert(values@[k] == before[k]);
                    }
                }
            }
            i = i + 1;
        }
        Self::new(values)
    }

    /// The difference.
    pub fn minus(&self, rhs: &Self) -> (r: Self)
        requires
            self.wf(),
            rhs.wf(),
        ensures
            r.wf(),
            r@ == difference_coefficients(self@, rhs@),
    {
        let n = if self.coefficients.len() >= rhs.coefficients.len() {
            self.coefficients.len()
        } else {
            rhs.coefficients.len()
        };
        let mut values: Vec<Rational> = Vec::new();
        let mut i: usize = 0;
        while i < n
            invariant
                self.wf(),
                rhs.wf(),
                n == if self@.len() >= rhs@.len() {
                    self@.len()
                } else {
                    rhs@.len()
                },
                i <= n,
                all_rationals_wf(values@),
                rationals_view(values@) == Seq::new(
                    i as nat,
                    |k: int| rat_sub(coefficient_at(self@, k), coefficient_at(rhs@, k)),
                ),
            decreases n - i,
        {
            let ghost before = values@;
            let a = self.coefficient(i);
            let b = rhs.coefficient(i);
            let c = a.sub(&b);
            let ghost gc = c;
            values.push(c);
            proof {
                lemma_push_view(before, gc);
                assert(rationals_view(values@) =~= Seq::new(
                    (i + 1) as nat,
                    |k: int| rat_sub(coefficient_at(self@, k), coefficient_at(rhs@, k)),
                ));
                assert forall|k: int| 0 <= k < values@.len() implies (#[trigger] values@[k]).wf() by {
                    if k < before.len() {
                        assert(values@[k] == before[k]);
                    }
                }
            }
            i = i + 1;
        }
        Self::new(values)
    }

    /// The negation.
    pub fn negated(&self) -> (r: Self)
        requires
            self.wf(),
        ensures
            r.wf(),
            r@ == negated_coefficients(self@),
    {
        let mut values: Vec<Rational> = Vec::new();
        let mut i: usize = 0;
        while i < self.coefficients.len()
            invariant
                self.wf(),
                i <= self@.len(),
                all_rationals_wf(values@),
                rationals_view(values@) == self@.take(i as int).map_values(|c: (int, nat)| rat_neg(c)),
            decreases self@.len() - i,
        {
            let ghost before = values@;
            let c = self.coefficients[i].negated();
            let ghost gc = c;
            values.push(c);
            proof {
                lemma_push_view(before, gc);
                assert(self@[i as int] == self.coefficients@[i as int]@);
                assert(rationals_view(values@) =~= self@.take(i + 1).map_values(
                    |c: (int, nat)| rat_neg(c),
                ));
                assert forall|k: int| 0 <= k < values@.len() implies (#[trigger] values@[k]).wf() by {
                    if k < before.len() {
                        assert(values@[k] == before[k]);
                    }
                }
            }
            i = i + 1;
        }
        proof {
            assert(self@.take(i as int) =~= self@);
        }
        Self::new(values)
    }
}


/// The term of one step of long division of `r` by `b`: the degree `k` and
/// coefficient `c` of `c * x^k * b`, whose leading coefficient is the one
/// of `r`, and the remainder after subtracting it.
pub open spec fn division_step(r: CoefficientsView, b: CoefficientsView) -> (int, (int, nat), CoefficientsView) {
    let k = r.len() - b.len();
    let c = rat_div(r.last(), b.last());
    let term = trim(
        Seq::new(k as nat, |i: int| rat_zero()) + b.map_values(|v: (int, nat)| rat_mul(v, c)),
    );
    (k, c, difference_coefficients(r, term))
}

/// Long division of `r` by `b`, recording quotient coefficients in `q`:
/// while the remainder is at least as long as `b`, cancel its leading term.
pub open spec fn long_division(q: CoefficientsView, r: CoefficientsView, b: CoefficientsView) -> (
    CoefficientsView,
    CoefficientsView,
)
    decreases r.len(),
{
    if b.len() == 0 || r.len() == 0 || r.len() < b.len() {
        (q, r)
    } else {
        let (k, c, r2) = division_step(r, b);
        if r2.len() < r.len() {
            long_division(q.update(k, c), r2, b)
        } else {
            (q, r)
        }
    }
}

/// The number of quotient coefficients set aside for dividing `a` by `b`.
pub open spec fn quotient_length(a: CoefficientsView, b: CoefficientsView) -> nat {
    let n: int = if a.len() == 0 {
        0
    } else {
        a.len() - 1
    };
    let m: int = b.len() - 1;
    (if n >= m {
        n - m
    } else {
        0
    } + 1) as nat
}

/// The quotient and remainder of `a` by a nonzero `b`.
pub open spec fn quotient_remainder(a: CoefficientsView, b: CoefficientsView) -> (
    CoefficientsView,
    CoefficientsView,
) {
    let (q, r) = long_division(
        Seq::new(quotient_length(a, b), |i: int| rat_zero()),
        a,
        b,
    );
    (trim(q), r)
}

/// Trimming keeps a prefix and leaves no trailing zero.
pub proof fn lemma_trim(s: CoefficientsView)
    ensures
        trim(s).len() <= s.len(),
        trimmed(trim(s)),
        forall|i: int| 0 <= i < trim(s).len() ==> #[trigger] trim(s)[i] == s[i],
        s.len() > 0 && s.last().0 == 0 ==> trim(s).len() < s.len(),
        trimmed(s) ==> trim(s) == s,
    decreases s.len(),
{
    if s.len() > 0 && s.last().0 == 0 {
        lemma_trim(s.drop_last());
    }
}

/// One step of long division shortens the remainder.
pub proof fn lemma_division_step(r: CoefficientsView, b: CoefficientsView)
    requires
        trimmed(r),
        trimmed(b),
        b.len() > 0,
        r.len() >= b.len(),
        forall|i: int| 0 <= i < r.len() ==> (#[trigger] r[i]).1 > 0,
        forall|i: int| 0 <= i < b.len() ==> (#[trigger] b[i]).1 > 0,
    ensures
        division_step(r, b).2.len() < r.len(),
        division_step(r, b).1.0 != 0,
        division_step(r, b).1.1 > 0,
{
    let k = r.len() - b.len();
    let rl = r.last();
    let bl = b.last();
    assert(r[r.len() - 1].1 > 0);
    assert(b[b.len() - 1].1 > 0);
    lemma_cancel_leading(rl, bl);
    let c = rat_div(rl, bl);
    assert(rl.1 * bl.0 != 0) by (nonlinear_arith)
        requires
            rl.1 > 0,
            bl.0 != 0,
    ;
    lemma_normalize_value(rl.0 * bl.1, rl.1 * bl.0);
    let raw = Seq::new(k as nat, |i: int| rat_zero()) + b.map_values(|v: (int, nat)| rat_mul(v, c));
    assert(raw.len() == r.len());
    assert(raw.last() == rat_mul(bl, c));
    assert(bl.0 * c.0 != 0) by (nonlinear_arith)
        requires
            bl.0 != 0,
            c.0 != 0,
    ;
    assert(bl.1 * c.1 > 0) by (nonlinear_arith)
        requires
            bl.1 > 0,
            c.1 > 0,
    ;
    lemma_normalize_value(bl.0 * c.0, (bl.1 * c.1) as int);
    lemma_trim(raw);
    let term = trim(raw);
    assert(term == raw);
    let n = r.len();
    let diff = Seq::new(n, |i: int| rat_sub(coefficient_at(r, i), coefficient_at(term, i)));
    assert(diff.last() == rat_sub(rl, rat_mul(bl, c)));
    lemma_trim(diff);
}


impl UnivariatePolynomial {
    /// Division with remainder by a nonzero polynomial, by long division:
    /// the remainder is shorter than the divisor.
    pub fn div_rem(&self, divisor: &Self) -> (r: (Self, Self))
        requires
            self.wf(),
            divisor.wf(),
            divisor@.len() > 0,
        ensures
            r.0.wf(),
            r.1.wf(),
            (r.0@, r.1@) == quotient_remainder(self@, divisor@),
            r.1@.len() < divisor@.len(),
    {
        let divisor_degree = divisor.coefficients.len() - 1;
        let self_degree = if self.coefficients.len() == 0 {
            0
        } else {
            self.coefficients.len() - 1
        };
        let quotient_len = if self_degree >= divisor_degree {
            self_degree - divisor_degree
        } else {
            0
        } + 1;
        let mut quotient: Vec<Rational> = Vec::new();
        let mut i: usize = 0;
        while i < quotient_len
            invariant
                i <= quotient_len,
                all_rationals_wf(quotient@),
                rationals_view(quotient@) == Seq::new(i as nat, |j: int| rat_zero()),
            decreases quotient_len - i,
        {
            let ghost before = quotient@;
            let z = Rational::zero();
            let ghost gz = z;
            quotient.push(z);
            proof {
                lemma_push_view(before, gz);
                assert(rationals_view(quotient@) =~= Seq::new((i + 1) as nat, |j: int| rat_zero()));
            }
            i = i + 1;
        }
        let ghost b = divisor@;
        let ghost target = long_division(rationals_view(quotient@), self@, b);
        proof {
            assert(quotient_len == quotient_length(self@, b));
            divisor.lemma_wf();
        }
        let mut remainder = self.duplicate();
        while remainder.coefficients.len() > 0 && remainder.coefficients.len()
            >= divisor.coefficients.len()
            invariant
                divisor.wf(),
                b == divisor@,
                b.len() > 0,
                trimmed(b),
                forall|j: int| 0 <= j < b.len() ==> (#[trigger] b[j]).1 > 0,
                remainder.wf(),
                remainder@.len() <= self@.len(),
                quotient@.len() == quotient_len,
                quotient_len == quotient_length(self@, b),
                all_rationals_wf(quotient@),
                target == long_division(rationals_view(quotient@), remainder@, b),
            decreases remainder@.len(),
        {
            proof {
                remainder.lemma_wf();
                lemma_division_step(remainder@, b);
            }
            let n = remainder.coefficients.len();
            let degree = n - divisor.coefficients.len();
            let coefficient = remainder.coefficients[n - 1].div(
                &divisor.coefficients[divisor.coefficients.len() - 1],
            );
            let mut term: Vec<Rational> = Vec::new();
            let mut j: usize = 0;
            while j < degree
                invariant
                    j <= degree,
                    all_rationals_wf(term@),
                    rationals_view(term@) == Seq::new(j as nat, |t: int| rat_zero()),
                decreases degree - j,
            {
                let ghost before = term@;
                let z = Rational::zero();
                let ghost gz = z;
                term.push(z);
                proof {
                    lemma_push_view(before, gz);
                    assert(rationals_view(term@) =~= Seq::new((j + 1) as nat, |t: int| rat_zero()));
                }
                j = j + 1;
            }
            let ghost zeros = rationals_view(term@);
            let mut t: usize = 0;
            while t < divisor.coefficients.len()
                invariant
                    divisor.wf(),
                    b == divisor@,
                    coefficient.wf(),
                    t <= b.len(),
                    all_rationals_wf(term@),
                    rationals_view(term@) == zeros + b.take(t as int).map_values(
                        |v: (int, nat)| rat_mul(v, coefficient@),
                    ),
                decreases b.len() - t,
            {
                let ghost before = term@;
                let c = divisor.coefficients[t].mul(&coefficient);
                let ghost gc = c;
                term.push(c);
                proof {
                    lemma_push_view(before, gc);
                    assert(b[t as int] == divisor.coefficients@[t as int]@);
                    assert(rationals_view(term@) =~= zeros + b.take(t + 1).map_values(
                        |v: (int, nat)| rat_mul(v, coefficient@),
                    ));
                }
                t = t + 1;
            }
            proof {
                assert(b.take(b.len() as int) =~= b);
                assert(remainder@.last() == remainder.coefficients@[n - 1]@);
                assert(b.last() == divisor.coefficients@[b.len() - 1]@);
            }
            let term_polynomial = Self::new(term);
            let next = remainder.minus(&term_polynomial);
            let ghost qv = rationals_view(quotient@);
            let ghost qs = quotient@;
            quotient.set(degree, coefficient);
            proof {
                assert(rationals_view(quotient@) =~= qv.update(degree as int, coefficient@));
                assert forall|k: int| 0 <= k < quotient@.len() implies (#[trigger] quotient@[k]).wf() by {
                    if k != degree {
                        assert(quotient@[k] == qs[k]);
                    }
                }
            }
            remainder = next;
        }
        (Self::new(quotient), remainder)
    }
}


/// The Sturm sequence after `a` and `b`: the negated remainder of `a` by
/// `b`, then the sequence after `b` and it, until a remainder is zero.
pub open spec fn sturm_rest(a: CoefficientsView, b: CoefficientsView) -> Seq<CoefficientsView>
    decreases b.len(),
{
    if b.len() == 0 {
        Seq::empty()
    } else {
        let r = quotient_remainder(a, b).1;
        let n = negated_coefficients(r);
        if r.len() == 0 || n.len() >= b.len() {
            Seq::empty()
        } else {
            seq![n] + sturm_rest(b, n)
        }
    }
}

/// The Sturm sequence of `p`: `p`, its derivative, then the negated
/// remainders; just `p` when the derivative is zero, nothing for zero.
pub open spec fn sturm(p: CoefficientsView) -> Seq<CoefficientsView> {
    if p.len() == 0 {
        Seq::empty()
    } else {
        let d = derivative_coefficients(p);
        if d.len() == 0 {
            seq![p]
        } else {
            seq![p, d] + sturm_rest(p, d)
        }
    }
}

/// The views of a list of polynomials.
pub open spec fn univariate_views(ps: Seq<UnivariatePolynomial>) -> Seq<CoefficientsView> {
    ps.map_values(|p: UnivariatePolynomial| p@)
}

/// Every polynomial of the list is well formed.
pub open spec fn all_univariate_wf(ps: Seq<UnivariatePolynomial>) -> bool {
    forall|i: int| 0 <= i < ps.len() ==> (#[trigger] ps[i]).wf()
}

impl UnivariatePolynomial {
    /// The Sturm sequence beginning with this polynomial and its derivative.
    pub fn sturm_sequence(&self) -> (s: Vec<Self>)
        requires
            self.wf(),
        ensures
            all_univariate_wf(s@),
            univariate_views(s@) == sturm(self@),
    {
        if self.is_zero() {
            let empty: Vec<Self> = Vec::new();
            proof {
                assert(univariate_views(empty@) =~= Seq::<CoefficientsView>::empty());
            }
            return empty;
        }
        let first = self.duplicate();
        let derivative = self.derivative();
        if derivative.is_zero() {
            let mut single: Vec<Self> = Vec::new();
            single.push(first);
            proof {
                assert(univariate_views(single@) =~= seq![self@]);
            }
            return single;
        }
        let mut sequence: Vec<Self> = Vec::new();
        sequence.push(first);
        sequence.push(derivative);
        let ghost target = sturm(self@);
        proof {
            assert(univariate_views(sequence@) =~= seq![self@, derivative_coefficients(self@)]);
        }
        loop
            invariant
                sequence@.len() >= 2,
                all_univariate_wf(sequence@),
                sequence@.last()@.len() > 0,
                univariate_views(sequence@) + sturm_rest(
                    sequence@[sequence@.len() - 2]@,
                    sequence@.last()@,
                ) == target,
            ensures
                all_univariate_wf(sequence@),
                univariate_views(sequence@) == target,
            decreases sequence@.last()@.len(),
        {
            let n = sequence.len();
            let ghost a = sequence@[n - 2]@;
            let ghost b = sequence@[n - 1]@;
            proof {
                assert(sequence@[n - 2].wf());
                assert(sequence@[n - 1].wf());
            }
            let (_, remainder) = sequence[n - 2].div_rem(&sequence[n - 1]);
            if remainder.is_zero() {
                proof {
                    assert(sturm_rest(a, b) == Seq::<CoefficientsView>::empty());
                    assert(univariate_views(sequence@) + Seq::<CoefficientsView>::empty() =~= univariate_views(
                        sequence@,
                    ));
                }
                break;
            }
            let next = remainder.negated();
            proof {
                lemma_trim(remainder@.map_values(|c: (int, nat)| rat_neg(c)));
                assert(next@.len() < b.len());
                assert(sturm_rest(a, b) == seq![next@] + sturm_rest(b, next@));
            }
            let ghost before = sequence@;
            let ghost gn = next;
            sequence.push(next);
            proof {
                assert(univariate_views(sequence@) =~= univariate_views(before).push(gn@));
                assert(univariate_views(before) + (seq![gn@] + sturm_rest(b, gn@)) =~= univariate_views(
                    before,
                ).push(gn@) + sturm_rest(b, gn@));
                assert forall|k: int| 0 <= k < sequence@.len() implies (#[trigger] sequence@[k]).wf() by {
                    if k < before.len() {
                        assert(sequence@[k] == before[k]);
                    }
                }
            }
        }
        sequence
    }
}


/// The text of the term of degree `i`: nothing for a zero coefficient; a
/// sign (` + ` or ` - `, or `-` for the leading term); the magnitude unless
/// it is one on a power of `x`; then `x` and `^i` above degree one.
pub open spec fn term_text(s: CoefficientsView, i: int) -> Seq<char> {
    let c = s[i];
    if c.0 == 0 {
        Seq::empty()
    } else {
        let sign = if i != s.len() - 1 {
            if c.0 < 0 {
                " - "@
            } else {
                " + "@
            }
        } else if c.0 < 0 {
            "-"@
        } else {
            Seq::empty()
        };
        let magnitude = (abs(c.0) as int, c.1);
        let number = if i == 0 || magnitude != (1int, 1nat) {
            rat_text(magnitude)
        } else {
            Seq::empty()
        };
        let power = if i > 0 {
            "x"@ + if i > 1 {
                "^"@ + decimal(i as nat)
            } else {
                Seq::empty()
            }
        } else {
            Seq::empty()
        };
        sign + number + power
    }
}

/// The text of the terms of degree `i` and above, highest first.
pub open spec fn terms_from(s: CoefficientsView, i: int) -> Seq<char>
    decreases s.len() - i,
{
    if i < 0 || i >= s.len() {
        Seq::empty()
    } else {
        terms_from(s, i + 1) + term_text(s, i)
    }
}

/// The text of a polynomial in `x`, highest degree first; `0` for zero.
pub open spec fn univariate_text(s: CoefficientsView) -> Seq<char> {
    if s.len() == 0 {
        "0"@
    } else {
        terms_from(s, 0)
    }
}

impl UnivariatePolynomial {
    /// The text of the term of degree `i`.
    fn term_string(&self, i: usize) -> (text: String)
        requires
            self.wf(),
            i < self@.len(),
        ensures
            text@ == term_text(self@, i as int),
    {
        let n = self.coefficients.len();
        let coefficient = &self.coefficients[i];
        proof {
            assert(self@[i as int] == coefficient@);
            assert(coefficient.wf());
        }
        let mut out = String::new();
        if !coefficient.is_zero() {
            if i != n - 1 {
                if coefficient.is_negative() {
                    out.append(" - ");
                } else {
                    out.append(" + ");
                }
            } else if coefficient.is_negative() {
                out.append("-");
            }
            let magnitude = coefficient.magnitude();
            let one = Rational::one();
            if i == 0 || !magnitude.equals(&one) {
                let digits = magnitude.to_text();
                out.append(digits.as_str());
            }
            if i > 0 {
                out.append("x");
                if i > 1 {
                    out.append("^");
                    let digits = decimal_string(i);
                    out.append(digits.as_str());
                }
            }
        }
        proof {
            assert(out@ =~= term_text(self@, i as int));
        }
        out
    }

    /// The text of the polynomial in `x`, highest degree first.
    pub fn to_string(&self) -> (text: String)
        requires
            self.wf(),
        ensures
            text@ == univariate_text(self@),
    {
        let n = self.coefficients.len();
        if n == 0 {
            return String::from_str("0");
        }
        let mut out = String::new();
        let mut i = n;
        proof {
            assert(terms_from(self@, n as int) == Seq::<char>::empty());
        }
        while i > 0
            invariant
                self.wf(),
                n == self@.len(),
                i <= n,
                out@ == terms_from(self@, i as int),
            decreases i,
        {
            i = i - 1;
            let ghost before = out@;
            let term = self.term_string(i);
            out.append(term.as_str());
            proof {
                assert(out@ =~= before + term_text(self@, i as int));
            }
        }
        out
    }
}

impl core::ops::Add for UnivariatePolynomial {
    type Output = UnivariatePolynomial;

    /// The sum; see [`UnivariatePolynomial::plus`].
    fn add(self, rhs: UnivariatePolynomial) -> (r: UnivariatePolynomial)
        ensures
            r.wf(),
            r@ == sum_coefficients(self@, rhs@),
    {
        self.plus(&rhs)
    }
}

impl vstd::std_specs::ops::AddSpecImpl for UnivariatePolynomial {
    open spec fn obeys_add_spec() -> bool {
        false
    }

    open spec fn add_req(self, rhs: UnivariatePolynomial) -> bool {
        self.wf() && rhs.wf()
    }

    open spec fn add_spec(self, rhs: UnivariatePolynomial) -> UnivariatePolynomial {
        self
    }
}

impl core::ops::Sub for UnivariatePolynomial {
    type Output = UnivariatePolynomial;

    /// The difference; see [`UnivariatePolynomial::minus`].
    fn sub(self, rhs: UnivariatePolynomial) -> (r: UnivariatePolynomial)
        ensures
            r.wf(),
            r@ == difference_coefficients(self@, rhs@),
    {
        self.minus(&rhs)
    }
}

impl vstd::std_specs::ops::SubSpecImpl for UnivariatePolynomial {
    open spec fn obeys_sub_spec() -> bool {
        false
    }

    open spec fn sub_req(self, rhs: UnivariatePolynomial) -> bool {
        self.wf() && rhs.wf()
    }

    open spec fn sub_spec(self, rhs: UnivariatePolynomial) -> UnivariatePolynomial {
        self
    }
}

impl core::ops::Neg for UnivariatePolynomial {
    type Output = UnivariatePolynomial;

    /// The negation; see [`UnivariatePolynomial::negated`].
    fn neg(self) -> (r: UnivariatePolynomial)
        ensures
            r.wf(),
            r@ == negated_coefficients(self@),
    {
        self.negated()
    }
}

impl vstd::std_specs::ops::NegSpecImpl for UnivariatePolynomial {
    open spec fn obeys_neg_spec() -> bool {
        false
    }

    open spec fn neg_req(self) -> bool {
        self.wf()
    }

    open spec fn neg_spec(self) -> UnivariatePolynomial {
        self
    }
}


/// An interval `(lower, upper)` of positive width holding a root.
#[derive(Clone, Debug, PartialEq, Eq)]
pub struct RootInterval {
    pub lower: Rational,
    pub upper: Rational,
}

impl RootInterval {
    /// The interval from `lower` to `upper`, which must be above it.
    pub fn new(lower: Rational, upper: Rational) -> (r: Self)
        requires
            lower.wf(),
            upper.wf(),
            rat_lt(lower@, upper@),
        ensures
            r.lower@ == lower@,
            r.upper@ == upper@,
            r.lower.wf(),
            r.upper.wf(),
    {
        RootInterval { lower, upper }
    }
}

/// The nonzero signs of the values of the polynomials at `x`, in order.
pub open spec fn nonzero_signs(ps: Seq<CoefficientsView>, x: (int, nat)) -> Seq<int>
    decreases ps.len(),
{
    if ps.len() == 0 {
        Seq::empty()
    } else {
        let prev = nonzero_signs(ps.drop_last(), x);
        let sign = rat_sign(poly_value(ps.last(), x));
        if sign != 0 {
            prev.push(sign)
        } else {
            prev
        }
    }
}

/// The number of neighbours with different signs.
pub open spec fn sign_changes(s: Seq<int>) -> nat
    decreases s.len(),
{
    if s.len() < 2 {
        0
    } else {
        sign_changes(s.drop_last()) + if s[s.len() - 2] != s.last() {
            1nat
        } else {
            0nat
        }
    }
}

/// There are fewer changes than signs.
proof fn lemma_sign_changes_bound(s: Seq<int>)
    ensures
        sign_changes(s) <= s.len(),
    decreases s.len(),
{
    if s.len() >= 2 {
        lemma_sign_changes_bound(s.drop_last());
    }
}

/// The nonzero signs are at most as many as the polynomials.
proof fn lemma_nonzero_signs_bound(ps: Seq<CoefficientsView>, x: (int, nat))
    ensures
        nonzero_signs(ps, x).len() <= ps.len(),
    decreases ps.len(),
{
    if ps.len() > 0 {
        lemma_nonzero_signs_bound(ps.drop_last(), x);
    }
}

/// The ratio of a coefficient's magnitude to the leading coefficient's.
pub open spec fn magnitude_ratio(c: (int, nat), lead: (int, nat)) -> (int, nat) {
    rat_div((abs(c.0) as int, c.1), (abs(lead.0) as int, lead.1))
}

/// The largest ratio over the coefficients (zero for none).
pub open spec fn largest_ratio(cs: CoefficientsView, lead: (int, nat)) -> (int, nat)
    decreases cs.len(),
{
    if cs.len() == 0 {
        rat_zero()
    } else {
        let best = largest_ratio(cs.drop_last(), lead);
        let x = magnitude_ratio(cs.last(), lead);
        if rat_lt(best, x) {
            x
        } else {
            best
        }
    }
}

/// Cauchy's bound on the roots: one more than the largest ratio of a lower
/// coefficient's magnitude to the leading coefficient's.
pub open spec fn root_bound_of(s: CoefficientsView) -> (int, nat) {
    rat_add(largest_ratio(s.drop_last(), s.last()), rat_int(1))
}

impl UnivariatePolynomial {
    /// The number of sign changes of the Sturm sequence at `point`,
    /// ignoring zeros.
    pub fn variations_at(sequence: &[Self], point: &Rational) -> (n: usize)
        requires
            all_univariate_wf(sequence@),
            point.wf(),
        ensures
            n == sign_changes(nonzero_signs(univariate_views(sequence@), point@)),
    {
        let ghost ps = univariate_views(sequence@);
        let mut count: usize = 0;
        let mut last: i8 = 0;
        let mut i: usize = 0;
        proof {
            assert(ps.take(0) =~= Seq::<CoefficientsView>::empty());
        }
        while i < sequence.len()
            invariant
                ps == univariate_views(sequence@),
                all_univariate_wf(sequence@),
                point.wf(),
                i <= sequence@.len(),
                count == sign_changes(nonzero_signs(ps.take(i as int), point@)),
                count <= i,
                nonzero_signs(ps.take(i as int), point@).len() > 0 ==> last != 0,
                last == if nonzero_signs(ps.take(i as int), point@).len() == 0 {
                    0int
                } else {
                    nonzero_signs(ps.take(i as int), point@).last()
                },
            decreases sequence@.len() - i,
        {
            proof {
                assert(sequence@[i as int].wf());
                let t1 = ps.take(i + 1);
                assert(t1.drop_last() =~= ps.take(i as int));
                assert(t1.last() == sequence@[i as int]@);
                lemma_nonzero_signs_bound(ps.take(i as int), point@);
            }
            let value = sequence[i].evaluate(point);
            let sign = value.signum();
            let ghost prevs = nonzero_signs(ps.take(i as int), point@);
            proof {
                assert(prevs.push(sign as int).drop_last() =~= prevs);
                lemma_sign_changes_bound(prevs);
                if prevs.len() > 0 {
                    assert(prevs.push(sign as int)[prevs.len() - 1] == prevs.last());
                }
            }
            if sign != 0 {
                if last != 0 && sign != last {
                    count = count + 1;
                }
                last = sign;
            }
            proof {
                let t1 = ps.take(i + 1);
                assert(nonzero_signs(t1, point@) == if sign != 0 {
                    prevs.push(sign as int)
                } else {
                    prevs
                });
                if sign != 0 {
                    let np = prevs.push(sign as int);
                    assert(sign_changes(np) == sign_changes(prevs) + if prevs.len() >= 1 && prevs.last()
                        != sign {
                        1nat
                    } else {
                        0nat
                    });
                }
            }
            i = i + 1;
        }
        proof {
            assert(ps.take(i as int) =~= ps);
        }
        count
    }

    /// Cauchy's bound on the magnitude of every root.
    pub fn root_bound(&self) -> (b: Rational)
        requires
            self.wf(),
            self@.len() > 0,
        ensures
            b.wf(),
            b@ == root_bound_of(self@),
    {
        let n = self.coefficients.len();
        proof {
            self.lemma_wf();
        }
        let leading = self.coefficients[n - 1].magnitude();
        let mut best = Rational::zero();
        let mut i: usize = 0;
        let ghost cs = self@.drop_last();
        proof {
            assert(cs.take(0) =~= Seq::<(int, nat)>::empty());
            assert(self@.last() == self.coefficients@[n - 1]@);
        }
        while i < n - 1
            invariant
                self.wf(),
                n == self@.len(),
                n > 0,
                cs == self@.drop_last(),
                leading.wf(),
                leading@ == (abs(self@.last().0) as int, self@.last().1),
                leading@.0 != 0,
                best.wf(),
                i <= n - 1,
                best@ == largest_ratio(cs.take(i as int), self@.last()),
            decreases n - 1 - i,
        {
            proof {
                let t1 = cs.take(i + 1);
                assert(t1.drop_last() =~= cs.take(i as int));
                assert(t1.last() == self.coefficients@[i as int]@);
            }
            let magnitude = self.coefficients[i].magnitude();
            let ratio = magnitude.div(&leading);
            if best.less_than(&ratio) {
                best = ratio;
            }
            i = i + 1;
        }
        proof {
            assert(cs.take(i as int) =~= cs);
        }
        best.add(&Rational::one())
    }
}


/// The number of sign changes of a list of polynomials at `x`.
pub open spec fn variations(ps: Seq<CoefficientsView>, x: (int, nat)) -> nat {
    sign_changes(nonzero_signs(ps, x))
}

/// The two ends of each interval.
pub open spec fn intervals_view(rs: Seq<RootInterval>) -> Seq<((int, nat), (int, nat))> {
    rs.map_values(|r: RootInterval| (r.lower@, r.upper@))
}

/// Both ends of every interval are well formed.
pub open spec fn intervals_wf(rs: Seq<RootInterval>) -> bool {
    forall|i: int| 0 <= i < rs.len() ==> (#[trigger] rs[i]).lower.wf() && rs[i].upper.wf()
}

/// Every interval lies within `[lower, upper]`, has positive width and
/// positive denominators, and the variation count of `ps` drops across it.
pub open spec fn intervals_inside(
    ps: Seq<CoefficientsView>,
    lower: (int, nat),
    upper: (int, nat),
    out: Seq<((int, nat), (int, nat))>,
) -> bool {
    forall|i: int|
        0 <= i < out.len() ==> {
            &&& rat_le(lower, #[trigger] out[i].0)
            &&& rat_lt(out[i].0, out[i].1)
            &&& rat_le(out[i].1, upper)
            &&& out[i].0.1 > 0
            &&& out[i].1.1 > 0
            &&& variations(ps, out[i].0) > variations(ps, out[i].1)
        }
}

/// Each interval ends at or before the start of every later one.
pub open spec fn intervals_ordered(out: Seq<((int, nat), (int, nat))>) -> bool {
    forall|i: int, j: int| 0 <= i < j < out.len() ==> rat_le(#[trigger] out[i].1, #[trigger] out[j].0)
}

/// The variation count of `ps` does not drop across the stretches of
/// `[lower, upper]` before, between and after the intervals.
pub open spec fn gaps_steady(
    ps: Seq<CoefficientsView>,
    lower: (int, nat),
    upper: (int, nat),
    out: Seq<((int, nat), (int, nat))>,
) -> bool {
    if out.len() == 0 {
        variations(ps, lower) <= variations(ps, upper)
    } else {
        &&& variations(ps, lower) <= variations(ps, out[0].0)
        &&& variations(ps, out.last().1) <= variations(ps, upper)
        &&& forall|k: int|
            0 <= k < out.len() - 1 ==> variations(ps, #[trigger] out[k].1) <= variations(
                ps,
                out[k + 1].0,
            )
    }
}

/// The intervals `out` isolate the drops of the variation count of `ps`
/// on `[lower, upper]`: they lie inside it from left to right, the count
/// drops across each of them, and it does not drop anywhere else.
pub open spec fn isolates(
    ps: Seq<CoefficientsView>,
    lower: (int, nat),
    upper: (int, nat),
    out: Seq<((int, nat), (int, nat))>,
) -> bool {
    &&& intervals_inside(ps, lower, upper, out)
    &&& intervals_ordered(out)
    &&& gaps_steady(ps, lower, upper, out)
}

/// `<=` on fractions with positive denominators is transitive.
pub proof fn lemma_rat_le_trans(a: (int, nat), b: (int, nat), c: (int, nat))
    requires
        a.1 > 0,
        b.1 > 0,
        c.1 > 0,
        rat_le(a, b),
        rat_le(b, c),
    ensures
        rat_le(a, c),
{
    let (a0, a1, b0, b1, c0, c1) = (a.0, a.1 as int, b.0, b.1 as int, c.0, c.1 as int);
    assert(a0 * c1 * b1 <= c0 * a1 * b1) by (nonlinear_arith)
        requires
            a0 * b1 <= b0 * a1,
            b0 * c1 <= c0 * b1,
            a1 > 0,
            c1 > 0,
    ;
    assert(a0 * c1 <= c0 * a1) by (nonlinear_arith)
        requires
            a0 * c1 * b1 <= c0 * a1 * b1,
            b1 > 0,
    ;
}

/// Intervals inside `[lower, middle]` and inside `[middle, upper]` are
/// together inside `[lower, upper]`.
proof fn lemma_inside_join(
    ps: Seq<CoefficientsView>,
    lower: (int, nat),
    middle: (int, nat),
    upper: (int, nat),
    a: Seq<((int, nat), (int, nat))>,
    b: Seq<((int, nat), (int, nat))>,
)
    requires
        lower.1 > 0,
        middle.1 > 0,
        upper.1 > 0,
        rat_lt(lower, middle),
        rat_lt(middle, upper),
        intervals_inside(ps, lower, middle, a),
        intervals_inside(ps, middle, upper, b),
    ensures
        intervals_inside(ps, lower, upper, a + b),
{
    let s = a + b;
    let n = a.len();
    assert forall|i: int| 0 <= i < s.len() implies {
        &&& rat_le(lower, #[trigger] s[i].0)
        &&& rat_lt(s[i].0, s[i].1)
        &&& rat_le(s[i].1, upper)
        &&& s[i].0.1 > 0
        &&& s[i].1.1 > 0
        &&& variations(ps, s[i].0) > variations(ps, s[i].1)
    } by {
        if i < n {
            assert(s[i] == a[i]);
            assert(rat_le(lower, a[i].0));
            lemma_rat_le_trans(a[i].1, middle, upper);
        } else {
            assert(s[i] == b[i - n]);
            assert(rat_le(middle, b[i - n].0));
            lemma_rat_le_trans(lower, middle, b[i - n].0);
        }
    }
}

/// Ordered intervals up to `middle` followed by ordered intervals from
/// `middle` on stay ordered.
proof fn lemma_ordered_join(
    ps: Seq<CoefficientsView>,
    lower: (int, nat),
    middle: (int, nat),
    upper: (int, nat),
    a: Seq<((int, nat), (int, nat))>,
    b: Seq<((int, nat), (int, nat))>,
)
    requires
        middle.1 > 0,
        intervals_inside(ps, lower, middle, a),
        intervals_inside(ps, middle, upper, b),
        intervals_ordered(a),
        intervals_ordered(b),
    ensures
        intervals_ordered(a + b),
{
    let s = a + b;
    let n = a.len();
    assert forall|i: int, j: int| 0 <= i < j < s.len() implies rat_le(#[trigger] s[i].1, #[trigger] s[j].0) by {
        if j < n {
            assert(s[i] == a[i] && s[j] == a[j]);
            assert(rat_le(a[i].1, a[j].0));
        } else if i >= n {
            assert(s[i] == b[i - n] && s[j] == b[j - n]);
            assert(rat_le(b[i - n].1, b[j - n].0));
        } else {
            assert(s[i] == a[i] && s[j] == b[j - n]);
            assert(rat_le(lower, a[i].0));
            assert(rat_le(a[i].1, middle) && a[i].1.1 > 0);
            assert(rat_le(middle, b[j - n].0) && b[j - n].0.1 > 0);
            lemma_rat_le_trans(a[i].1, middle, b[j - n].0);
        }
    }
}

/// Steady stretches on `[lower, middle]` and on `[middle, upper]` give
/// steady stretches on `[lower, upper]`.
proof fn lemma_gaps_join(
    ps: Seq<CoefficientsView>,
    lower: (int, nat),
    middle: (int, nat),
    upper: (int, nat),
    a: Seq<((int, nat), (int, nat))>,
    b: Seq<((int, nat), (int, nat))>,
)
    requires
        gaps_steady(ps, lower, middle, a),
        gaps_steady(ps, middle, upper, b),
    ensures
        gaps_steady(ps, lower, upper, a + b),
{
    let s = a + b;
    let n = a.len();
    if s.len() > 0 {
        assert(variations(ps, lower) <= variations(ps, s[0].0)) by {
            if n > 0 {
                assert(s[0] == a[0]);
            } else {
                assert(s[0] == b[0]);
            }
        }
        assert(variations(ps, s.last().1) <= variations(ps, upper)) by {
            if b.len() > 0 {
                assert(s.last() == b.last());
            } else {
                assert(s.last() == a.last());
            }
        }
        assert forall|k: int| 0 <= k < s.len() - 1 implies variations(ps, #[trigger] s[k].1) <= variations(
            ps,
            s[k + 1].0,
        ) by {
            if k + 1 < n {
                assert(s[k] == a[k] && s[k + 1] == a[k + 1]);
            } else if k >= n {
                assert(s[k] == b[k - n] && s[k + 1] == b[k + 1 - n]);
            } else {
                assert(s[k] == a.last() && s[k + 1] == b[0]);
            }
        }
    }
}

/// Two runs of isolating intervals, on `[lower, middle]` and on
/// `[middle, upper]`, together isolate on `[lower, upper]`.
pub proof fn lemma_isolates_join(
    ps: Seq<CoefficientsView>,
    lower: (int, nat),
    middle: (int, nat),
    upper: (int, nat),
    a: Seq<((int, nat), (int, nat))>,
    b: Seq<((int, nat), (int, nat))>,
)
    requires
        lower.1 > 0,
        middle.1 > 0,
        upper.1 > 0,
        rat_lt(lower, middle),
        rat_lt(middle, upper),
        isolates(ps, lower, middle, a),
        isolates(ps, middle, upper, b),
    ensures
        isolates(ps, lower, upper, a + b),
{
    lemma_inside_join(ps, lower, middle, upper, a, b);
    lemma_ordered_join(ps, lower, middle, upper, a, b);
    lemma_gaps_join(ps, lower, middle, upper, a, b);
}

/// The views of two runs of intervals put together.
proof fn lemma_intervals_concat(a: Seq<RootInterval>, b: Seq<RootInterval>)
    ensures
        intervals_view(a + b) == intervals_view(a) + intervals_view(b),
        intervals_wf(a) && intervals_wf(b) ==> intervals_wf(a + b),
{
    assert(intervals_view(a + b) =~= intervals_view(a) + intervals_view(b));
    if intervals_wf(a) && intervals_wf(b) {
        assert forall|i: int| 0 <= i < (a + b).len() implies (#[trigger] (a + b)[i]).lower.wf() && (a
            + b)[i].upper.wf() by {
            if i < a.len() {
                assert((a + b)[i] == a[i]);
            } else {
                assert((a + b)[i] == b[i - a.len()]);
            }
        }
    }
}

/// The largest ratio is a nonnegative fraction with a positive denominator.
proof fn lemma_largest_ratio_nonnegative(cs: CoefficientsView, lead: (int, nat))
    requires
        lead.0 != 0,
        lead.1 > 0,
        forall|i: int| 0 <= i < cs.len() ==> (#[trigger] cs[i]).1 > 0,
    ensures
        largest_ratio(cs, lead).0 >= 0,
        largest_ratio(cs, lead).1 > 0,
    decreases cs.len(),
{
    if cs.len() > 0 {
        let c = cs.last();
        assert(c.1 > 0);
        lemma_largest_ratio_nonnegative(cs.drop_last(), lead);
        let n = abs(c.0) as int * lead.1;
        let d = c.1 * abs(lead.0) as int;
        assert(n >= 0) by (nonlinear_arith)
            requires
                n == abs(c.0) as int * lead.1,
        ;
        assert(d > 0) by (nonlinear_arith)
            requires
                d == c.1 * abs(lead.0) as int,
                c.1 > 0,
                abs(lead.0) > 0,
        ;
        lemma_normalize_sign(n, d);
    }
}

/// The variation count drops by exactly one across the interval, or the
/// interval is `w` halved 256 times.
pub open spec fn narrow_or_single(
    ps: Seq<CoefficientsView>,
    interval: ((int, nat), (int, nat)),
    w: (int, nat),
) -> bool {
    variations(ps, interval.0) == variations(ps, interval.1) + 1 || rat_sub(interval.1, interval.0)
        == halved(w, 256)
}

/// Every interval isolates a single drop of the count, or is as narrow as
/// 256 halvings of `w` make it.
pub open spec fn isolated_or_narrow(
    ps: Seq<CoefficientsView>,
    out: Seq<((int, nat), (int, nat))>,
    w: (int, nat),
) -> bool {
    forall|i: int| 0 <= i < out.len() ==> #[trigger] narrow_or_single(ps, out[i], w)
}

/// Intervals that each isolate one drop or are narrow stay so together.
proof fn lemma_narrow_join(
    ps: Seq<CoefficientsView>,
    va: Seq<((int, nat), (int, nat))>,
    vb: Seq<((int, nat), (int, nat))>,
    w: (int, nat),
)
    requires
        isolated_or_narrow(ps, va, w),
        isolated_or_narrow(ps, vb, w),
    ensures
        isolated_or_narrow(ps, va + vb, w),
{
    assert forall|i: int| 0 <= i < (va + vb).len() implies #[trigger] narrow_or_single(ps, (va + vb)[i], w) by {
        if i < va.len() {
            assert((va + vb)[i] == va[i]);
        } else {
            assert((va + vb)[i] == vb[i - va.len()]);
        }
    }
}

/// The midpoint of an interval `k` halvings of `w` wide lies strictly
/// inside it, half as wide from either end.
proof fn lemma_split_point(l: (int, nat), u: (int, nat), m: (int, nat), w: (int, nat), k: nat)
    requires
        crate::polynomial::rat_reduced(l),
        crate::polynomial::rat_reduced(u),
        m.1 > 0,
        m == rat_div(rat_add(l, u), rat_int(2)),
        w.0 > 0,
        w.1 > 0,
        rat_sub(u, l) == halved(w, k),
    ensures
        rat_lt(l, m),
        rat_lt(m, u),
        rat_sub(m, l) == halved(w, k + 1),
        rat_sub(u, m) == halved(w, k + 1),
{
    assert(m == rat_mul(rat_add(l, u), half()));
    lemma_midpoint_halves(l, u);
    lemma_halved_step(w, k);
    lemma_halved_step(w, k + 1);
    crate::rational::lemma_sub_sign(m, l);
    crate::rational::lemma_sub_sign(u, m);
}

/// One half.
pub open spec fn half() -> (int, nat) {
    (1, 2)
}

/// The width of the span searched after `k` halvings of `w`.
pub open spec fn halved(w: (int, nat), k: nat) -> (int, nat) {
    rat_mul(w, crate::rational::rat_pow(half(), k))
}

/// A negated fraction in lowest terms stays in lowest terms.
proof fn lemma_neg_reduced(a: (int, nat))
    requires
        crate::polynomial::rat_reduced(a),
    ensures
        crate::polynomial::rat_reduced(rat_neg(a)),
{
    assert(abs(-a.0) == abs(a.0));
}

/// Results of sums and products of fractions with positive denominators
/// are in lowest terms.
proof fn lemma_ops_reduced(a: (int, nat), b: (int, nat))
    requires
        a.1 > 0,
        b.1 > 0,
    ensures
        crate::polynomial::rat_reduced(rat_add(a, b)),
        crate::polynomial::rat_reduced(rat_mul(a, b)),
{
    crate::field::lemma_add_value(a, b);
    crate::field::lemma_mul_value(a, b);
}

/// Half plus half is one.
proof fn lemma_halves()
    ensures
        rat_add(half(), half()) == (1int, 1nat),
        crate::polynomial::rat_reduced(half()),
{
    assert(crate::rational::gcd(1, 1) == 1) by {
        reveal_with_fuel(crate::rational::gcd, 3);
    }
    assert(crate::rational::gcd(1, 2) == 1) by {
        reveal_with_fuel(crate::rational::gcd, 3);
    }
    crate::field::lemma_normalize_to((1int, 1nat), 4int, 4int);
}

/// The midpoint `(l + u) / 2` lies half the width from either end:
/// `m - l == u - m == (u - l) / 2`.
pub proof fn lemma_midpoint_halves(l: (int, nat), u: (int, nat))
    requires
        crate::polynomial::rat_reduced(l),
        crate::polynomial::rat_reduced(u),
    ensures
        rat_sub(rat_mul(rat_add(l, u), half()), l) == rat_mul(rat_sub(u, l), half()),
        rat_sub(u, rat_mul(rat_add(l, u), half())) == rat_mul(rat_sub(u, l), half()),
{
    let h = half();
    lemma_halves();
    let lh = rat_mul(l, h);
    let uh = rat_mul(u, h);
    lemma_ops_reduced(l, h);
    lemma_ops_reduced(u, h);
    lemma_neg_reduced(lh);
    lemma_neg_reduced(uh);
    lemma_neg_reduced(l);
    let nl = rat_neg(lh);
    let nu = rat_neg(uh);
    let m = rat_mul(rat_add(l, u), h);
    crate::field::lemma_distributive(l, u, h);
    assert(m == rat_add(lh, uh));
    // l == lh + lh and u == uh + uh
    crate::field::lemma_mul_one(l);
    crate::field::lemma_mul_one(u);
    crate::field::lemma_mul_commutative(l, rat_add(h, h));
    crate::field::lemma_mul_commutative(u, rat_add(h, h));
    crate::field::lemma_distributive(h, h, l);
    crate::field::lemma_distributive(h, h, u);
    crate::field::lemma_mul_commutative(h, l);
    crate::field::lemma_mul_commutative(h, u);
    assert(l == rat_add(lh, lh));
    assert(u == rat_add(uh, uh));
    // the target: (u - l) h == uh - lh
    crate::field::lemma_sub_as_add(u, l);
    crate::field::lemma_distributive(u, rat_neg(l), h);
    crate::field::lemma_neg_mul(l, h);
    let target = rat_add(uh, nl);
    assert(rat_mul(rat_sub(u, l), h) == target);
    lemma_ops_reduced(uh, nl);
    // m - l == (lh + uh) + (-lh + -lh)
    crate::field::lemma_sub_as_add(m, l);
    crate::field::lemma_neg_add(lh, lh);
    lemma_ops_reduced(nl, nl);
    lemma_ops_reduced(lh, uh);
    lemma_ops_reduced(uh, rat_add(nl, nl));
    crate::field::lemma_add_associative(lh, uh, rat_add(nl, nl));
    crate::field::lemma_add_associative(uh, nl, nl);
    lemma_ops_reduced(target, nl);
    crate::polynomial::lemma_rat_add_commutes(target, nl);
    crate::field::lemma_add_associative(lh, nl, target);
    crate::field::lemma_add_neg_cancel(lh);
    crate::polynomial::lemma_add_zero_left(target);
    assert(rat_sub(m, l) == target);
    // u - m == (uh + uh) + (-lh + -uh)
    crate::field::lemma_sub_as_add(u, m);
    crate::field::lemma_neg_add(lh, uh);
    crate::polynomial::lemma_rat_add_commutes(nl, nu);
    lemma_ops_reduced(nu, nl);
    crate::field::lemma_add_associative(uh, uh, rat_add(nu, nl));
    crate::field::lemma_add_associative(uh, nu, nl);
    crate::field::lemma_add_neg_cancel(uh);
    crate::polynomial::lemma_add_zero_left(nl);
    crate::field::lemma_zero_reduced(nl);
    assert(rat_sub(u, m) == target);
}

/// Halving the width once more.
proof fn lemma_halved_step(w: (int, nat), k: nat)
    requires
        w.1 > 0,
    ensures
        rat_mul(halved(w, k), half()) == halved(w, k + 1),
        halved(w, k).1 > 0,
        w.0 > 0 ==> halved(w, k).0 > 0,
    decreases k,
{
    let h = half();
    lemma_halves();
    if k > 0 {
        lemma_halved_step(w, (k - 1) as nat);
    }
    lemma_pow_positive(k);
    crate::field::lemma_mul_associative(w, crate::rational::rat_pow(h, k), h);
    let p = crate::rational::rat_pow(h, k);
    crate::field::lemma_mul_value(w, p);
    assert(w.1 * p.1 > 0) by (nonlinear_arith)
        requires
            w.1 > 0,
            p.1 > 0,
    ;
    lemma_normalize_sign(w.0 * p.0, (w.1 * p.1) as int);
    if w.0 > 0 {
        assert(w.0 * p.0 > 0) by (nonlinear_arith)
            requires
                w.0 > 0,
                p.0 > 0,
        ;
    }
}

/// The powers of one half are positive.
proof fn lemma_pow_positive(k: nat)
    ensures
        crate::rational::rat_pow(half(), k).0 > 0,
        crate::rational::rat_pow(half(), k).1 > 0,
    decreases k,
{
    if k > 0 {
        lemma_pow_positive((k - 1) as nat);
        let p = crate::rational::rat_pow(half(), (k - 1) as nat);
        assert(p.1 * 2 > 0 && p.0 * 1 > 0) by (nonlinear_arith)
            requires
                p.1 > 0,
                p.0 > 0,
        ;
        lemma_normalize_sign(p.0 * 1, (p.1 * 2) as int);
    }
}

impl UnivariatePolynomial {
    /// Bisect `(lower, upper]`: a piece across which the variation count of
    /// `sequence` does not drop is left out, one across which it drops by
    /// one is kept, and any other is halved at its midpoint and both halves
    /// are searched, left first. After `depth` halvings a piece is kept as
    /// it is.
    fn split_roots(
        &self,
        sequence: &[Self],
        lower: Rational,
        upper: Rational,
        depth: u32,
        Ghost(w): Ghost<(int, nat)>,
    ) -> (r: Vec<RootInterval>)
        requires
            all_univariate_wf(sequence@),
            lower.wf(),
            upper.wf(),
            rat_lt(lower@, upper@),
            depth <= 256,
            w.0 > 0,
            w.1 > 0,
            rat_sub(upper@, lower@) == halved(w, (256 - depth) as nat),
        ensures
            intervals_wf(r@),
            isolates(univariate_views(sequence@), lower@, upper@, intervals_view(r@)),
            isolated_or_narrow(univariate_views(sequence@), intervals_view(r@), w),
        decreases depth,
    {
        let ghost ps = univariate_views(sequence@);
        proof {
            lower.lemma_wf();
            upper.lemma_wf();
        }
        let at_lower = Self::variations_at(sequence, &lower);
        let at_upper = Self::variations_at(sequence, &upper);
        let count: usize = if at_lower >= at_upper {
            at_lower - at_upper
        } else {
            0
        };
        if count == 0 {
            let none: Vec<RootInterval> = Vec::new();
            proof {
                assert(intervals_view(none@) =~= Seq::<((int, nat), (int, nat))>::empty());
            }
            return none;
        }
        let ghost k: nat = (256 - depth) as nat;
        proof {
            lemma_halved_step(w, k);
        }
        if count == 1 || depth == 0 {
            let ghost (l, u) = (lower@, upper@);
            let mut one: Vec<RootInterval> = Vec::new();
            one.push(RootInterval::new(lower, upper));
            proof {
                assert(intervals_view(one@) =~= seq![(l, u)]);
                assert(rat_le(l, l) && rat_le(u, u));
            }
            return one;
        }
        let two = Rational::from_i64(2);
        let midpoint = lower.add(&upper).div(&two);
        proof {
            midpoint.lemma_wf();
            lemma_split_point(lower@, upper@, midpoint@, w, k);
        }
        if !lower.less_than(&midpoint) || !midpoint.less_than(&upper) {
            let ghost (l, u) = (lower@, upper@);
            let mut one: Vec<RootInterval> = Vec::new();
            one.push(RootInterval::new(lower, upper));
            proof {
                assert(intervals_view(one@) =~= seq![(l, u)]);
                assert(rat_le(l, l) && rat_le(u, u));
            }
            return one;
        }
        let ghost (l, m, u) = (lower@, midpoint@, upper@);
        proof {
            midpoint.lemma_wf();
        }
        let mut left = self.split_roots(sequence, lower, midpoint.duplicate(), depth - 1, Ghost(w));
        let mut right = self.split_roots(sequence, midpoint, upper, depth - 1, Ghost(w));
        let ghost (a, b) = (left@, right@);
        left.append(&mut right);
        proof {
            lemma_intervals_concat(a, b);
            assert(left@ == a + b);
            lemma_isolates_join(ps, l, m, u, intervals_view(a), intervals_view(b));
            lemma_narrow_join(ps, intervals_view(a), intervals_view(b), w);
        }
        left
    }

    /// Isolate the real roots by Sturm variation counts: bisect the span
    /// within Cauchy's bound into intervals across each of which the count
    /// drops, from left to right. A zero or constant polynomial has none.
    pub fn isolate_real_roots(&self) -> (r: Vec<RootInterval>)
        requires
            self.wf(),
        ensures
            intervals_wf(r@),
            self@.len() <= 1 ==> r@.len() == 0,
            self@.len() > 1 ==> isolates(
                sturm(self@),
                rat_neg(root_bound_of(self@)),
                root_bound_of(self@),
                intervals_view(r@),
            ),
            self@.len() > 1 ==> isolated_or_narrow(
                sturm(self@),
                intervals_view(r@),
                rat_sub(root_bound_of(self@), rat_neg(root_bound_of(self@))),
            ),
    {
        if self.is_zero() || self.coefficients.len() == 1 {
            let none: Vec<RootInterval> = Vec::new();
            return none;
        }
        let sequence = self.sturm_sequence();
        let bound = self.root_bound();
        proof {
            self.lemma_wf();
            let cs = self@.drop_last();
            assert forall|i: int| 0 <= i < cs.len() implies (#[trigger] cs[i]).1 > 0 by {
                assert(cs[i] == self@[i]);
            }
            assert(self@.last().1 > 0);
            lemma_largest_ratio_nonnegative(cs, self@.last());
            let x = largest_ratio(cs, self@.last());
            let one = rat_int(1);
            assert(x.0 >= 0 && x.1 > 0);
            assert(one.0 == 1 && one.1 == 1);
            assert(x.0 * one.1 + one.0 * x.1 == x.0 + x.1 && x.1 * one.1 == x.1) by (nonlinear_arith)
                requires
                    one.0 == 1,
                    one.1 == 1,
            ;
            lemma_normalize_sign(x.0 * one.1 + one.0 * x.1, (x.1 * one.1) as int);
            assert(root_bound_of(self@) == rat_add(x, one));
            assert(rat_add(x, one).0 > 0);
            bound.lemma_wf();
            let (n, d) = (bound@.0, bound@.1 as int);
            assert(-n * d < n * d) by (nonlinear_arith)
                requires
                    n > 0,
                    d > 0,
            ;
        }
        let lower = bound.negated();
        let ghost w = rat_sub(bound@, lower@);
        proof {
            let b = bound@;
            crate::field::lemma_sub_as_add(b, rat_neg(b));
            crate::field::lemma_add_value(b, b);
            crate::rational::lemma_sub_sign(b, rat_neg(b));
            crate::field::lemma_mul_one(w);
            assert(halved(w, 0) == w);
        }
        self.split_roots(sequence.as_slice(), lower, bound, 256, Ghost(w))
    }
}

} // verus!
