//! Exact rational numbers.
//!
//! A [`Rational`] holds a fraction in lowest terms as plain base-2^32 digit
//! vectors; its mathematical value is the pair `(numerator, denominator)`
//! returned by `view`.  Arithmetic is delegated to `num_rational`, whose
//! results are always reduced, and every such call states the exact reduced
//! fraction it returns.
use num_bigint::{BigInt, Sign};
use num_rational::BigRational;
use vstd::arithmetic::div_mod::lemma_fundamental_div_mod_converse;
use vstd::prelude::*;

verus! {

/// The radix of the digit vectors.
pub open spec fn radix() -> int {
    0x1_0000_0000
}

/// Value of a little-endian base-2^32 digit sequence.
pub open spec fn digits_value(digits: Seq<u32>) -> nat
    decreases digits.len(),
{
    if digits.len() == 0 {
        0
    } else {
        (digits_value(digits.drop_first()) * 0x1_0000_0000 + digits[0]) as nat
    }
}

/// A digit sequence without leading (most significant) zero digits.
pub open spec fn digits_normalized(digits: Seq<u32>) -> bool {
    digits.len() == 0 || digits.last() != 0
}

/// Greatest common divisor, by Euclid's algorithm.
pub open spec fn gcd(a: nat, b: nat) -> nat
    decreases b,
{
    if b == 0 {
        a
    } else {
        gcd(b, a % b)
    }
}

/// Absolute value.
pub open spec fn abs(x: int) -> nat {
    if x < 0 {
        (-x) as nat
    } else {
        x as nat
    }
}

/// The fraction `n / d` in lowest terms with a positive denominator
/// (`d != 0`).
pub open spec fn normalize(n: int, d: int) -> (int, nat) {
    let g = gcd(abs(n), abs(d)) as int;
    if d > 0 {
        (n / g, (d / g) as nat)
    } else {
        ((-n) / g, ((-d) / g) as nat)
    }
}

/// Sum of two fractions, in lowest terms.
pub open spec fn rat_add(a: (int, nat), b: (int, nat)) -> (int, nat) {
    normalize(a.0 * b.1 + b.0 * a.1, (a.1 * b.1) as int)
}

/// Difference of two fractions, in lowest terms.
pub open spec fn rat_sub(a: (int, nat), b: (int, nat)) -> (int, nat) {
    normalize(a.0 * b.1 - b.0 * a.1, (a.1 * b.1) as int)
}

/// Product of two fractions, in lowest terms.
pub open spec fn rat_mul(a: (int, nat), b: (int, nat)) -> (int, nat) {
    normalize(a.0 * b.0, (a.1 * b.1) as int)
}

/// Quotient of two fractions (the divisor is nonzero), in lowest terms.
pub open spec fn rat_div(a: (int, nat), b: (int, nat)) -> (int, nat) {
    normalize(a.0 * b.1, a.1 * b.0)
}

/// Negation of a fraction.
pub open spec fn rat_neg(a: (int, nat)) -> (int, nat) {
    (-a.0, a.1)
}

/// The fraction zero.
pub open spec fn rat_zero() -> (int, nat) {
    (0, 1)
}

/// The fraction `n / 1`.
pub open spec fn rat_int(n: int) -> (int, nat) {
    (n, 1)
}

/// `a ^ e` for a natural exponent, in lowest terms.
pub open spec fn rat_pow(a: (int, nat), e: nat) -> (int, nat)
    decreases e,
{
    if e == 0 {
        (1, 1)
    } else {
        rat_mul(rat_pow(a, (e - 1) as nat), a)
    }
}

/// Sign of a fraction with positive denominator: -1, 0 or 1.
pub open spec fn rat_sign(a: (int, nat)) -> int {
    if a.0 < 0 {
        -1
    } else if a.0 == 0 {
        0
    } else {
        1
    }
}

/// `a < b` for fractions with positive denominators.
pub open spec fn rat_lt(a: (int, nat), b: (int, nat)) -> bool {
    a.0 * b.1 < b.0 * a.1
}

/// `a <= b` for fractions with positive denominators.
pub open spec fn rat_le(a: (int, nat), b: (int, nat)) -> bool {
    a.0 * b.1 <= b.0 * a.1
}

/// The decimal digit character for `d < 10`.
pub open spec fn digit_char(d: nat) -> char {
    if d == 0 {
        '0'
    } else if d == 1 {
        '1'
    } else if d == 2 {
        '2'
    } else if d == 3 {
        '3'
    } else if d == 4 {
        '4'
    } else if d == 5 {
        '5'
    } else if d == 6 {
        '6'
    } else if d == 7 {
        '7'
    } else if d == 8 {
        '8'
    } else {
        '9'
    }
}

/// Decimal text of a natural number, without leading zeros.
pub open spec fn decimal(n: nat) -> Seq<char>
    decreases n,
{
    if n < 10 {
        seq![digit_char(n)]
    } else {
        decimal(n / 10).push(digit_char(n % 10))
    }
}

/// Decimal text of an integer, with a leading `-` when negative.
pub open spec fn int_text(n: int) -> Seq<char> {
    if n < 0 {
        seq!['-'] + decimal(abs(n))
    } else {
        decimal(abs(n))
    }
}

/// Text of a fraction: the numerator alone when the denominator is one,
/// else `numerator/denominator`.
pub open spec fn rat_text(a: (int, nat)) -> Seq<char> {
    if a.1 == 1 {
        int_text(a.0)
    } else {
        int_text(a.0) + seq!['/'] + decimal(a.1)
    }
}

/// An exact rational number in lowest terms.
#[derive(Clone, Debug, PartialEq, Eq)]
pub struct Rational {
    negative: bool,
    numerator: Vec<u32>,
    denominator: Vec<u32>,
}

impl View for Rational {
    type V = (int, nat);

    /// The pair `(numerator, denominator)`.
    closed spec fn view(&self) -> (int, nat) {
        (
            if self.negative {
                -digits_value(self.numerator@)
            } else {
                digits_value(self.numerator@) as int
            },
            digits_value(self.denominator@),
        )
    }
}

impl Rational {
    /// Well-formedness: normalized digits, a positive denominator, a nonzero
    /// numerator when negative, and a fraction in lowest terms.
    pub closed spec fn wf(&self) -> bool {
        &&& digits_normalized(self.numerator@)
        &&& digits_normalized(self.denominator@)
        &&& self.denominator@.len() > 0
        &&& (self.negative ==> self.numerator@.len() > 0)
        &&& gcd(abs(self@.0), self@.1) == 1
    }

    /// A well-formed value has a positive denominator and is in lowest terms.
    pub proof fn lemma_wf(&self)
        requires
            self.wf(),
        ensures
            self@.1 > 0,
            gcd(abs(self@.0), self@.1) == 1,
    {
        lemma_digits_positive(self.denominator@);
    }

    /// Zero.
    pub fn zero() -> (r: Self)
        ensures
            r.wf(),
            r@ == rat_zero(),
    {
        let r = Rational { negative: false, numerator: Vec::new(), denominator: vec![1u32] };
        proof {
            reveal_with_fuel(digits_value, 2);
            reveal_with_fuel(gcd, 3);
            assert(r.denominator@.drop_first() =~= Seq::<u32>::empty());
        }
        r
    }

    /// One.
    pub fn one() -> (r: Self)
        ensures
            r.wf(),
            r@ == rat_int(1),
    {
        let r = Rational { negative: false, numerator: vec![1u32], denominator: vec![1u32] };
        proof {
            reveal_with_fuel(digits_value, 2);
            reveal_with_fuel(gcd, 3);
            assert(r.denominator@.drop_first() =~= Seq::<u32>::empty());
            assert(r.numerator@.drop_first() =~= Seq::<u32>::empty());
        }
        r
    }

    /// An exact copy.
    pub fn duplicate(&self) -> (r: Self)
        ensures
            r@ == self@,
            self.wf() ==> r.wf(),
    {
        let numerator = self.numerator.clone();
        let denominator = self.denominator.clone();
        assert(numerator@ =~= self.numerator@);
        assert(denominator@ =~= self.denominator@);
        Rational { negative: self.negative, numerator, denominator }
    }

    /// Whether the value is zero.
    pub fn is_zero(&self) -> (b: bool)
        requires
            self.wf(),
        ensures
            b == (self@.0 == 0),
    {
        proof {
            lemma_digits_positive(self.numerator@);
        }
        self.numerator.len() == 0
    }

    /// Whether the value is below zero.
    pub fn is_negative(&self) -> (b: bool)
        requires
            self.wf(),
        ensures
            b == (self@.0 < 0),
    {
        proof {
            lemma_digits_positive(self.numerator@);
        }
        self.negative
    }

    /// Whether the value is above zero.
    pub fn is_positive(&self) -> (b: bool)
        requires
            self.wf(),
        ensures
            b == (self@.0 > 0),
    {
        proof {
            lemma_digits_positive(self.numerator@);
        }
        !self.negative && self.numerator.len() > 0
    }

    /// The sign: -1, 0 or 1.
    pub fn signum(&self) -> (s: i8)
        requires
            self.wf(),
        ensures
            s == rat_sign(self@),
    {
        proof {
            lemma_digits_positive(self.numerator@);
        }
        if self.negative {
            -1
        } else if self.numerator.len() == 0 {
            0
        } else {
            1
        }
    }

    /// The negated value.
    pub fn negated(&self) -> (r: Self)
        requires
            self.wf(),
        ensures
            r.wf(),
            r@ == rat_neg(self@),
    {
        proof {
            lemma_digits_positive(self.numerator@);
        }
        let numerator = self.numerator.clone();
        let denominator = self.denominator.clone();
        assert(numerator@ =~= self.numerator@);
        assert(denominator@ =~= self.denominator@);
        let negative = if self.numerator.len() == 0 {
            false
        } else {
            !self.negative
        };
        let r = Rational { negative, numerator, denominator };
        assert(abs(r@.0) == abs(self@.0));
        r
    }

    /// The absolute value.
    pub fn magnitude(&self) -> (r: Self)
        requires
            self.wf(),
        ensures
            r.wf(),
            r@ == (abs(self@.0) as int, self@.1),
    {
        let numerator = self.numerator.clone();
        let denominator = self.denominator.clone();
        assert(numerator@ =~= self.numerator@);
        assert(denominator@ =~= self.denominator@);
        Rational { negative: false, numerator, denominator }
    }

    /// Exact equality of values.
    pub fn equals(&self, other: &Self) -> (b: bool)
        requires
            self.wf(),
            other.wf(),
        ensures
            b == (self@ == other@),
    {
        if self.negative != other.negative {
            proof {
                lemma_digits_positive(self.numerator@);
                lemma_digits_positive(other.numerator@);
            }
            return false;
        }
        let same_numerator = digits_equal(&self.numerator, &other.numerator);
        let same_denominator = digits_equal(&self.denominator, &other.denominator);
        proof {
            if !same_numerator && digits_value(self.numerator@) == digits_value(other.numerator@) {
                lemma_digits_injective(self.numerator@, other.numerator@);
            }
            if !same_denominator && digits_value(self.denominator@) == digits_value(
                other.denominator@,
            ) {
                lemma_digits_injective(self.denominator@, other.denominator@);
            }
        }
        same_numerator && same_denominator
    }

    /// Whether `self < other`.
    pub fn less_than(&self, other: &Self) -> (b: bool)
        requires
            self.wf(),
            other.wf(),
        ensures
            b == rat_lt(self@, other@),
    {
        let difference = self.sub(other);
        proof {
            self.lemma_wf();
            other.lemma_wf();
            lemma_sub_sign(self@, other@);
        }
        difference.is_negative()
    }

    /// Whether `self <= other`.
    pub fn less_or_equal(&self, other: &Self) -> (b: bool)
        requires
            self.wf(),
            other.wf(),
        ensures
            b == rat_le(self@, other@),
    {
        let difference = self.sub(other);
        proof {
            self.lemma_wf();
            other.lemma_wf();
            lemma_sub_sign(self@, other@);
        }
        !difference.is_positive()
    }

    /// The integer `value`.
    #[verifier::external_body]
    pub fn from_i64(value: i64) -> (r: Self)
        ensures
            r.wf(),
            r@ == rat_int(value as int),
    {
        Self::from_big(&BigRational::from_integer(BigInt::from(value)))
    }

    /// `num_rational` addition.
    #[verifier::external_body]
    pub fn add(&self, other: &Self) -> (r: Self)
        requires
            self.wf(),
            other.wf(),
        ensures
            r.wf(),
            r@ == rat_add(self@, other@),
    {
        Self::from_big(&(self.to_big() + other.to_big()))
    }

    /// `num_rational` subtraction.
    #[verifier::external_body]
    pub fn sub(&self, other: &Self) -> (r: Self)
        requires
            self.wf(),
            other.wf(),
        ensures
            r.wf(),
            r@ == rat_sub(self@, other@),
    {
        Self::from_big(&(self.to_big() - other.to_big()))
    }

    /// `num_rational` multiplication.
    #[verifier::external_body]
    pub fn mul(&self, other: &Self) -> (r: Self)
        requires
            self.wf(),
            other.wf(),
        ensures
            r.wf(),
            r@ == rat_mul(self@, other@),
    {
        Self::from_big(&(self.to_big() * other.to_big()))
    }

    /// `num_rational` division by a nonzero value.
    #[verifier::external_body]
    pub fn div(&self, other: &Self) -> (r: Self)
        requires
            self.wf(),
            other.wf(),
            other@.0 != 0,
        ensures
            r.wf(),
            r@ == rat_div(self@, other@),
    {
        Self::from_big(&(self.to_big() / other.to_big()))
    }

    /// `num_rational` multiplication by an integer.
    #[verifier::external_body]
    pub fn mul_integer(&self, k: usize) -> (r: Self)
        requires
            self.wf(),
        ensures
            r.wf(),
            r@ == rat_mul(self@, rat_int(k as int)),
    {
        Self::from_big(&(self.to_big() * BigInt::from(k)))
    }

    /// `num_rational`'s `pow` for a nonnegative exponent: numerator and
    /// denominator raised to the power, which stays in lowest terms.
    #[verifier::external_body]
    pub fn pow(&self, exponent: i32) -> (r: Self)
        requires
            self.wf(),
            exponent >= 0,
        ensures
            r.wf(),
            r@ == rat_pow(self@, exponent as nat),
    {
        Self::from_big(&self.to_big().pow(exponent))
    }

    /// `num_rational`'s `Display`: the numerator alone when the denominator
    /// is one, else `numerator/denominator`, in decimal.
    #[verifier::external_body]
    pub fn to_text(&self) -> (s: String)
        requires
            self.wf(),
        ensures
            s@ == rat_text(self@),
    {
        self.to_big().to_string()
    }

    /// Conversion into `num_rational`: no arithmetic, digits are carried over.
    #[verifier::external_body]
    fn to_big(&self) -> BigRational {
        let sign = if self.negative { Sign::Minus } else { Sign::Plus };
        BigRational::new_raw(
            BigInt::from_slice(sign, &self.numerator),
            BigInt::from_slice(Sign::Plus, &self.denominator),
        )
    }

    /// Conversion out of `num_rational`: no arithmetic, digits are carried over.
    #[verifier::external_body]
    fn from_big(value: &BigRational) -> Self {
        let (sign, numerator) = value.numer().to_u32_digits();
        let (_, denominator) = value.denom().to_u32_digits();
        Rational { negative: sign == Sign::Minus, numerator, denominator }
    }
}

#[verifier::external_type_specification]
#[verifier::external_body]
#[verifier::reject_recursive_types(T)]
pub struct ExRatio<T>(num_rational::Ratio<T>);

#[verifier::external_type_specification]
#[verifier::external_body]
pub struct ExBigInt(num_bigint::BigInt);

/// Digit-wise equality of two digit vectors.
fn digits_equal(a: &Vec<u32>, b: &Vec<u32>) -> (r: bool)
    ensures
        r == (a@ == b@),
{
    if a.len() != b.len() {
        return false;
    }
    let mut i: usize = 0;
    while i < a.len()
        invariant
            a.len() == b.len(),
            i <= a.len(),
            forall|j: int| 0 <= j < i ==> a@[j] == b@[j],
        decreases a.len() - i,
    {
        if a[i] != b[i] {
            return false;
        }
        i = i + 1;
    }
    assert(a@ =~= b@);
    true
}

/// A normalized nonempty digit sequence has a positive value.
pub proof fn lemma_digits_positive(digits: Seq<u32>)
    requires
        digits_normalized(digits),
    ensures
        digits.len() > 0 <==> digits_value(digits) > 0,
    decreases digits.len(),
{
    if digits.len() > 1 {
        let rest = digits.drop_first();
        assert(rest.last() == digits.last());
        lemma_digits_positive(rest);
    } else if digits.len() == 1 {
        assert(digits.drop_first().len() == 0);
    }
}

/// Normalized digit sequences with equal values are equal.
pub proof fn lemma_digits_injective(a: Seq<u32>, b: Seq<u32>)
    requires
        digits_normalized(a),
        digits_normalized(b),
        digits_value(a) == digits_value(b),
    ensures
        a == b,
    decreases a.len(),
{
    lemma_digits_positive(a);
    lemma_digits_positive(b);
    if a.len() == 0 {
        assert(b.len() == 0);
        assert(a =~= b);
    } else {
        let ra = a.drop_first();
        let rb = b.drop_first();
        let v = digits_value(a) as int;
        lemma_fundamental_div_mod_converse(v, radix(), digits_value(ra) as int, a[0] as int);
        lemma_fundamental_div_mod_converse(v, radix(), digits_value(rb) as int, b[0] as int);
        if ra.len() > 0 {
            assert(ra.last() == a.last());
        }
        if rb.len() > 0 {
            assert(rb.last() == b.last());
        }
        lemma_digits_injective(ra, rb);
        assert(a =~= seq![a[0]] + ra);
        assert(b =~= seq![b[0]] + rb);
    }
}

/// The sign of a difference decides the order.
pub proof fn lemma_sub_sign(a: (int, nat), b: (int, nat))
    requires
        a.1 > 0,
        b.1 > 0,
    ensures
        (rat_sub(a, b).0 < 0) == rat_lt(a, b),
        (rat_sub(a, b).0 > 0) == rat_lt(b, a),
{
    let n = a.0 * b.1 - b.0 * a.1;
    let d: int = (a.1 * b.1) as int;
    assert(d > 0) by (nonlinear_arith)
        requires
            a.1 > 0,
            b.1 > 0,
            d == a.1 * b.1,
    ;
    lemma_normalize_sign(n, d);
}

/// Normalizing keeps the sign of the numerator when the denominator is
/// positive, and yields a positive denominator.
pub proof fn lemma_normalize_sign(n: int, d: int)
    requires
        d > 0,
    ensures
        (normalize(n, d).0 < 0) == (n < 0),
        (normalize(n, d).0 > 0) == (n > 0),
        (normalize(n, d).0 == 0) == (n == 0),
        normalize(n, d).1 > 0,
{
    let g = gcd(abs(n), abs(d));
    lemma_gcd_divides(abs(n), abs(d));
    lemma_gcd_positive(abs(n), abs(d));
    let gi = g as int;
    assert(g <= abs(d)) by {
        lemma_divisor_bounded(abs(d), g);
    }
    // n = (n / g) * g exactly
    assert(n % gi == 0) by {
        lemma_abs_divisible(n, g);
    }
    vstd::arithmetic::div_mod::lemma_fundamental_div_mod(n, gi);
    vstd::arithmetic::div_mod::lemma_fundamental_div_mod(d, gi);
    let q = n / gi;
    let e = d / gi;
    assert(n == gi * q);
    assert(d == gi * e);
    assert(q < 0 <==> n < 0) by (nonlinear_arith)
        requires
            n == gi * q,
            gi > 0,
    ;
    assert(q > 0 <==> n > 0) by (nonlinear_arith)
        requires
            n == gi * q,
            gi > 0,
    ;
    assert(e > 0) by (nonlinear_arith)
        requires
            d == gi * e,
            gi > 0,
            d > 0,
    ;
}

/// Scaling both arguments scales the `gcd`.
pub proof fn lemma_gcd_scale(a: nat, b: nat, k: nat)
    requires
        k > 0,
    ensures
        gcd(k * a, k * b) == k * gcd(a, b),
    decreases b,
{
    if b == 0 {
        assert(k * b == 0) by (nonlinear_arith)
            requires
                b == 0,
        ;
    } else {
        let q = (a / b) as int;
        let r = (a % b) as int;
        vstd::arithmetic::div_mod::lemma_fundamental_div_mod(a as int, b as int);
        let ka = (k * a) as int;
        let kb = (k * b) as int;
        let kr = k * r;
        assert(ka == kb * q + kr && 0 <= kr < kb) by (nonlinear_arith)
            requires
                a as int == b * q + r,
                0 <= r < b,
                k > 0,
                ka == k * a,
                kb == k * b,
                kr == k * r,
        ;
        lemma_fundamental_div_mod_converse(ka, kb, q, kr);
        assert(kb > 0);
        assert((k * a) % (k * b) == kr);
        lemma_gcd_scale(b, r as nat, k);
        assert(gcd(k * a, k * b) == gcd(k * b, (k * r) as nat));
    }
}

/// A fraction normalizes to lowest terms with a positive denominator.
pub proof fn lemma_normalize_reduced(n: int, d: int)
    requires
        d != 0,
    ensures
        normalize(n, d).1 > 0,
        gcd(abs(normalize(n, d).0), normalize(n, d).1) == 1,
{
    let g = gcd(abs(n), abs(d));
    lemma_gcd_divides(abs(n), abs(d));
    lemma_gcd_positive(abs(n), abs(d));
    let gi = g as int;
    assert(n % gi == 0) by {
        lemma_abs_divisible(n, g);
    }
    assert(d % gi == 0) by {
        lemma_abs_divisible(d, g);
    }
    vstd::arithmetic::div_mod::lemma_fundamental_div_mod(n, gi);
    vstd::arithmetic::div_mod::lemma_fundamental_div_mod(d, gi);
    let q = n / gi;
    let e = d / gi;
    assert(n == gi * q);
    assert(d == gi * e);
    assert(abs(n) == g * abs(q) && abs(d) == g * abs(e)) by (nonlinear_arith)
        requires
            n == gi * q,
            d == gi * e,
            gi > 0,
            gi == g,
            abs(n) == if n < 0 { -n } else { n },
            abs(d) == if d < 0 { -d } else { d },
            abs(q) == if q < 0 { -q } else { q },
            abs(e) == if e < 0 { -e } else { e },
    ;
    lemma_gcd_scale(abs(q), abs(e), g);
    assert(g * gcd(abs(q), abs(e)) == g * 1);
    assert(gcd(abs(q), abs(e)) == 1) by (nonlinear_arith)
        requires
            g * gcd(abs(q), abs(e)) == g * 1,
            g > 0,
    ;
    if d > 0 {
        assert(e > 0) by (nonlinear_arith)
            requires
                d == gi * e,
                gi > 0,
                d > 0,
        ;
    } else {
        assert(-n == gi * (-q)) by (nonlinear_arith)
            requires
                n == gi * q,
        ;
        assert(-d == gi * (-e)) by (nonlinear_arith)
            requires
                d == gi * e,
        ;
        lemma_fundamental_div_mod_converse(-n, gi, -q, 0);
        lemma_fundamental_div_mod_converse(-d, gi, -e, 0);
        assert(-e > 0) by (nonlinear_arith)
            requires
                d == gi * e,
                gi > 0,
                d < 0,
        ;
        assert(abs(-q) == abs(q));
    }
}

/// `gcd` divides both arguments.
pub proof fn lemma_gcd_divides(a: nat, b: nat)
    ensures
        gcd(a, b) == 0 || (a % gcd(a, b) == 0 && b % gcd(a, b) == 0),
    decreases b,
{
    if b == 0 {
        if a > 0 {
            vstd::arithmetic::div_mod::lemma_mod_self_0(a as int);
            vstd::arithmetic::div_mod::lemma_small_mod(0, a);
        }
    } else {
        let r = a % b;
        lemma_gcd_divides(b, r);
        let g = gcd(b, r);
        if g > 0 {
            vstd::arithmetic::div_mod::lemma_fundamental_div_mod(a as int, b as int);
            let q = a / b;
            // a = b * q + r, g | b, g | r
            vstd::arithmetic::div_mod::lemma_fundamental_div_mod(b as int, g as int);
            vstd::arithmetic::div_mod::lemma_fundamental_div_mod(r as int, g as int);
            let kb = b as int / g as int;
            let kr = r as int / g as int;
            assert(a as int == g as int * (kb * q + kr)) by (nonlinear_arith)
                requires
                    a as int == b as int * q + r as int,
                    b as int == g as int * kb,
                    r as int == g as int * kr,
            ;
            vstd::arithmetic::div_mod::lemma_mod_multiples_basic(kb * q + kr, g as int);
            vstd::arithmetic::mul::lemma_mul_is_commutative(g as int, kb * q + kr);
        }
    }
}

/// `gcd` is positive when either argument is.
pub proof fn lemma_gcd_positive(a: nat, b: nat)
    ensures
        (a > 0 || b > 0) ==> gcd(a, b) > 0,
    decreases b,
{
    if b > 0 {
        lemma_gcd_positive(b, a % b);
    }
}

/// A positive divisor of a positive number is at most that number.
pub proof fn lemma_divisor_bounded(n: nat, g: nat)
    requires
        n > 0,
        g > 0,
        n % g == 0,
    ensures
        g <= n,
{
    vstd::arithmetic::div_mod::lemma_fundamental_div_mod(n as int, g as int);
    let q = n as int / g as int;
    assert(n as int == g as int * q);
    assert(g <= n) by (nonlinear_arith)
        requires
            n as int == g as int * q,
            n > 0,
            g > 0,
    ;
}

/// A divisor of `abs(n)` divides `n`.
pub proof fn lemma_abs_divisible(n: int, g: nat)
    requires
        g > 0,
        abs(n) % g == 0,
    ensures
        n % (g as int) == 0,
{
    if n < 0 {
        vstd::arithmetic::div_mod::lemma_fundamental_div_mod(abs(n) as int, g as int);
        let q = abs(n) as int / g as int;
        assert(n == (-q) * g) by (nonlinear_arith)
            requires
                abs(n) as int == g * q,
                n == -(abs(n) as int),
        ;
        vstd::arithmetic::div_mod::lemma_mod_multiples_basic(-q, g as int);
    }
}


/// A normalized fraction has the value of the fraction it came from, and
/// is zero exactly when its numerator was.
pub proof fn lemma_normalize_value(n: int, d: int)
    requires
        d != 0,
    ensures
        normalize(n, d).1 > 0,
        normalize(n, d).0 * d == n * normalize(n, d).1,
        (normalize(n, d).0 == 0) == (n == 0),
{
    let g = gcd(abs(n), abs(d));
    lemma_gcd_divides(abs(n), abs(d));
    lemma_gcd_positive(abs(n), abs(d));
    lemma_normalize_reduced(n, d);
    let gi = g as int;
    assert(n % gi == 0) by {
        lemma_abs_divisible(n, g);
    }
    assert(d % gi == 0) by {
        lemma_abs_divisible(d, g);
    }
    vstd::arithmetic::div_mod::lemma_fundamental_div_mod(n, gi);
    vstd::arithmetic::div_mod::lemma_fundamental_div_mod(d, gi);
    let q = n / gi;
    let e = d / gi;
    assert(n == gi * q);
    assert(d == gi * e);
    if d > 0 {
        assert(q * d == n * e) by (nonlinear_arith)
            requires
                n == gi * q,
                d == gi * e,
        ;
        assert((q == 0) == (n == 0)) by (nonlinear_arith)
            requires
                n == gi * q,
                gi > 0,
        ;
    } else {
        assert(-n == gi * (-q)) by (nonlinear_arith)
            requires
                n == gi * q,
        ;
        assert(-d == gi * (-e)) by (nonlinear_arith)
            requires
                d == gi * e,
        ;
        lemma_fundamental_div_mod_converse(-n, gi, -q, 0);
        lemma_fundamental_div_mod_converse(-d, gi, -e, 0);
        assert((-q) * d == n * (-e)) by (nonlinear_arith)
            requires
                n == gi * q,
                d == gi * e,
        ;
        assert((-q == 0) == (n == 0)) by (nonlinear_arith)
            requires
                n == gi * q,
                gi > 0,
        ;
    }
}

/// Subtracting `b * (a / b)` from `a` leaves zero.
pub proof fn lemma_cancel_leading(a: (int, nat), b: (int, nat))
    requires
        a.1 > 0,
        b.1 > 0,
        b.0 != 0,
    ensures
        rat_div(a, b).0 != 0 <==> a.0 != 0,
        rat_sub(a, rat_mul(b, rat_div(a, b))).0 == 0,
{
    let n1 = a.0 * b.1;
    let d1 = a.1 * b.0;
    assert(d1 != 0) by (nonlinear_arith)
        requires
            a.1 > 0,
            b.0 != 0,
            d1 == a.1 * b.0,
    ;
    assert((n1 == 0) == (a.0 == 0)) by (nonlinear_arith)
        requires
            b.1 > 0,
            n1 == a.0 * b.1,
    ;
    lemma_normalize_value(n1, d1);
    let c = rat_div(a, b);
    let p = c.0;
    let q = c.1 as int;
    let n2 = b.0 * p;
    let d2 = (b.1 * c.1) as int;
    assert(d2 > 0) by (nonlinear_arith)
        requires
            b.1 > 0,
            c.1 > 0,
            d2 == b.1 * c.1,
    ;
    lemma_normalize_value(n2, d2);
    let m = rat_mul(b, c);
    let m0 = m.0;
    let m1 = m.1 as int;
    let ra = a.0;
    let rb = a.1 as int;
    let bb0 = b.0;
    let bb1 = b.1 as int;
    // p * (rb * bb0) == (ra * bb1) * q  and  m0 * (bb1 * q) == (bb0 * p) * m1
    assert(p * (rb * bb0) == (ra * bb1) * q);
    assert(m0 * (bb1 * q) == (bb0 * p) * m1);
    assert(m0 * rb * (bb1 * q) == ra * m1 * (bb1 * q)) by (nonlinear_arith)
        requires
            p * (rb * bb0) == (ra * bb1) * q,
            m0 * (bb1 * q) == (bb0 * p) * m1,
    ;
    assert(bb1 * q > 0) by (nonlinear_arith)
        requires
            bb1 > 0,
            q > 0,
    ;
    assert(m0 * rb == ra * m1) by (nonlinear_arith)
        requires
            m0 * rb * (bb1 * q) == ra * m1 * (bb1 * q),
            bb1 * q > 0,
    ;
    let n3 = ra * m1 - m0 * rb;
    let d3 = (a.1 * m.1) as int;
    assert(d3 > 0) by (nonlinear_arith)
        requires
            a.1 > 0,
            m.1 > 0,
            d3 == a.1 * m.1,
    ;
    lemma_normalize_value(n3, d3);
}

} // verus!
