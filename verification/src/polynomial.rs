//! Canonical multivariate polynomials with exact rational coefficients.
//!
//! A polynomial keeps its terms sorted by strictly increasing monomial (in the
//! order of [`mono_lt`]), every coefficient reduced and nonzero.  Two equal
//! polynomials therefore have equal term lists.  Every operation is stated
//! over the term list that it builds; the coefficient of each monomial in the
//! result is stated besides.
use crate::monomial::{
    lemma_mono_lt_asymmetric, lemma_mono_lt_irreflexive, lemma_mono_lt_total,
    lemma_mono_lt_transitive, lemma_mono_mul_bounded, lemma_power_max_bounds, mono_lt, mono_mul,
    exponent_of, lemma_power_max_le, lemma_set_exponent_bounded, mono_mul_fits, power_max,
    powers_bounded, powers_wf, set_exponent, Monomial,
};
use crate::monomial::Variable;
use crate::rational::{
    abs, decimal, digit_char, gcd, lemma_normalize_sign, normalize, rat_add, rat_int, rat_mul, rat_neg,
    rat_pow, rat_sub, rat_text, rat_zero, Rational,
};
use std::collections::BTreeMap;
use vstd::prelude::*;
use vstd::string::StringExecFns;

verus! {

/// Why a polynomial could not be evaluated.
#[derive(Clone, Copy, Debug, PartialEq, Eq, Structural)]
pub enum PolynomialEvaluationError {
    /// A variable of the polynomial has no value.
    MissingVariable(Variable),
    /// Exact arithmetic on the values failed.
    Arithmetic(crate::algebra::coefficient::ExactRealError),
}


broadcast use {vstd::laws_cmp::group_laws_cmp, vstd::std_specs::btree::group_btree_axioms};

/// A term of a polynomial's view: a power list and a reduced fraction.
pub type TermView = (Seq<(usize, usize)>, (int, nat));

/// A fraction in lowest terms with a positive denominator.
pub open spec fn rat_reduced(c: (int, nat)) -> bool {
    c.1 > 0 && gcd(abs(c.0), c.1) == 1
}

/// Terms sorted by strictly increasing monomial.
pub open spec fn terms_sorted(s: Seq<TermView>) -> bool {
    forall|i: int, j: int| 0 <= i < j < s.len() ==> mono_lt(s[i].0, s[j].0)
}

/// The coefficient of `m` (zero when `m` has no term).
pub open spec fn coefficient_of(s: Seq<TermView>, m: Seq<(usize, usize)>) -> (int, nat) {
    if exists|i: int| 0 <= i < s.len() && s[i].0 == m {
        s[choose|i: int| 0 <= i < s.len() && s[i].0 == m].1
    } else {
        rat_zero()
    }
}

/// The number of terms whose monomial comes before `m`, for sorted terms.
pub open spec fn position_of(s: Seq<TermView>, m: Seq<(usize, usize)>) -> nat
    decreases s.len(),
{
    if s.len() == 0 {
        0
    } else if mono_lt(s.last().0, m) {
        s.len()
    } else {
        position_of(s.drop_last(), m)
    }
}

/// The terms after adding `c * m`: the terms below `m`, then `m` with its new
/// coefficient when that is nonzero, then the terms above `m`.
pub open spec fn insert_term(s: Seq<TermView>, m: Seq<(usize, usize)>, c: (int, nat)) -> Seq<
    TermView,
> {
    let i = position_of(s, m) as int;
    let v = rat_add(coefficient_of(s, m), c);
    let rest = if i < s.len() && s[i].0 == m {
        s.skip(i + 1)
    } else {
        s.skip(i)
    };
    let middle = if v.0 == 0 {
        Seq::<TermView>::empty()
    } else {
        seq![(m, v)]
    };
    s.take(i) + middle + rest
}

/// The terms of `a + b`: the terms of `b` added to `a` one by one, in order.
pub open spec fn add_terms(a: Seq<TermView>, b: Seq<TermView>) -> Seq<TermView>
    decreases b.len(),
{
    if b.len() == 0 {
        a
    } else {
        insert_term(add_terms(a, b.drop_last()), b.last().0, b.last().1)
    }
}

/// The terms of `-p`: every coefficient negated.
pub open spec fn negate_terms(s: Seq<TermView>) -> Seq<TermView> {
    s.map_values(|t: TermView| (t.0, rat_neg(t.1)))
}

/// Canonical terms: sorted, well-formed monomials, reduced nonzero
/// coefficients.
pub open spec fn terms_canonical(s: Seq<TermView>) -> bool {
    &&& terms_sorted(s)
    &&& forall|i: int|
        0 <= i < s.len() ==> {
            &&& powers_wf((#[trigger] s[i]).0)
            &&& rat_reduced(s[i].1)
            &&& s[i].1.0 != 0
        }
}

/// The terms after adding `t * u` to `acc` for every term `u` of `b`, in order.
pub open spec fn add_row(acc: Seq<TermView>, t: TermView, b: Seq<TermView>) -> Seq<TermView>
    decreases b.len(),
{
    if b.len() == 0 {
        acc
    } else {
        insert_term(
            add_row(acc, t, b.drop_last()),
            mono_mul(t.0, b.last().0),
            rat_mul(t.1, b.last().1),
        )
    }
}

/// The terms of `a * b`: the products of all pairs of terms, added up row by
/// row.
pub open spec fn mul_terms(a: Seq<TermView>, b: Seq<TermView>) -> Seq<TermView>
    decreases a.len(),
{
    if a.len() == 0 {
        Seq::<TermView>::empty()
    } else {
        add_row(mul_terms(a.drop_last(), b), a.last(), b)
    }
}

/// The terms of the constant one.
pub open spec fn one_terms() -> Seq<TermView> {
    seq![(Seq::<(usize, usize)>::empty(), (1int, 1nat))]
}

/// The terms of `s ^ e`: one, multiplied by `s` again and again.
pub open spec fn pow_terms(s: Seq<TermView>, e: nat) -> Seq<TermView>
    decreases e,
{
    if e == 0 {
        one_terms()
    } else {
        mul_terms(pow_terms(s, (e - 1) as nat), s)
    }
}

/// One step of a product coefficient: the pair's product counts when its
/// monomials multiply to `m`.
pub open spec fn product_step(x: (int, nat), ta: TermView, tb: TermView, m: Seq<(usize, usize)>) -> (
    int,
    nat,
) {
    if mono_mul(ta.0, tb.0) == m {
        rat_add(x, rat_mul(ta.1, tb.1))
    } else {
        x
    }
}

/// `x` plus the products of `t` with the terms of `b` that land on `m`.
pub open spec fn row_coefficient(
    x: (int, nat),
    t: TermView,
    b: Seq<TermView>,
    m: Seq<(usize, usize)>,
) -> (int, nat)
    decreases b.len(),
{
    if b.len() == 0 {
        x
    } else {
        product_step(row_coefficient(x, t, b.drop_last(), m), t, b.last(), m)
    }
}

/// The coefficient of `m` in `a * b`: the sum, over every pair of terms
/// whose monomials multiply to `m`, of the product of their coefficients.
pub open spec fn product_coefficient(
    a: Seq<TermView>,
    b: Seq<TermView>,
    m: Seq<(usize, usize)>,
) -> (int, nat)
    decreases a.len(),
{
    if a.len() == 0 {
        rat_zero()
    } else {
        row_coefficient(product_coefficient(a.drop_last(), b, m), a.last(), b, m)
    }
}

/// Every exponent of every term is at most `k`.
pub open spec fn exponents_bounded(s: Seq<TermView>, k: nat) -> bool {
    forall|i: int| 0 <= i < s.len() ==> powers_bounded((#[trigger] s[i]).0, k)
}

/// The largest exponent in any term (zero for constants).
pub open spec fn max_exponent(s: Seq<TermView>) -> nat
    decreases s.len(),
{
    if s.len() == 0 {
        0
    } else {
        let r = max_exponent(s.drop_last());
        let e = power_max(s.last().0);
        if e > r {
            e
        } else {
            r
        }
    }
}

/// Every pair of monomials of `a` and `b` multiplies without exponent
/// overflow.
pub open spec fn mul_fits(a: Seq<TermView>, b: Seq<TermView>) -> bool {
    forall|i: int, j: int|
        0 <= i < a.len() && 0 <= j < b.len() ==> mono_mul_fits((#[trigger] a[i]).0, (#[trigger] b[j]).0)
}

/// The terms of the coefficient of `x_v ^ d`: every term whose exponent of
/// `v` is `d`, with `v` removed from its monomial, added up in order.
pub open spec fn coefficient_in_terms(s: Seq<TermView>, v: usize, d: usize) -> Seq<TermView>
    decreases s.len(),
{
    if s.len() == 0 {
        Seq::<TermView>::empty()
    } else {
        let r = coefficient_in_terms(s.drop_last(), v, d);
        let t = s.last();
        if exponent_of(t.0, v) == d {
            insert_term(r, set_exponent(t.0, v, 0), t.1)
        } else {
            r
        }
    }
}

/// The terms of the partial derivative in `v`: every term with a positive
/// exponent `e` of `v` becomes `e * c` times its monomial with that exponent
/// lowered by one, added up in order.
pub open spec fn derivative_terms(s: Seq<TermView>, v: usize) -> Seq<TermView>
    decreases s.len(),
{
    if s.len() == 0 {
        Seq::<TermView>::empty()
    } else {
        let r = derivative_terms(s.drop_last(), v);
        let t = s.last();
        let e = exponent_of(t.0, v);
        if e == 0 {
            r
        } else {
            insert_term(r, set_exponent(t.0, v, (e - 1) as usize), rat_mul(t.1, rat_int(e as int)))
        }
    }
}

/// A monomial with `old` renamed to `new`: the exponent of `old` moves onto
/// `new`, adding to the exponent `new` already has.
pub open spec fn rename_powers(p: Seq<(usize, usize)>, old: usize, new: usize) -> Seq<(usize, usize)> {
    let e = exponent_of(p, old);
    if e == 0 {
        p
    } else {
        let q = set_exponent(p, old, 0);
        set_exponent(q, new, (exponent_of(q, new) + e) as usize)
    }
}

/// Renaming `old` to `new` in a monomial does not overflow an exponent.
pub open spec fn rename_fits_powers(p: Seq<(usize, usize)>, old: usize, new: usize) -> bool {
    exponent_of(set_exponent(p, old, 0), new) + exponent_of(p, old) <= usize::MAX
}

/// Renaming `old` to `new` overflows no exponent of any term.
pub open spec fn rename_fits(s: Seq<TermView>, old: usize, new: usize) -> bool {
    forall|i: int| 0 <= i < s.len() ==> rename_fits_powers((#[trigger] s[i]).0, old, new)
}

/// The terms with `old` renamed to `new`, added up in order.
pub open spec fn rename_terms(s: Seq<TermView>, old: usize, new: usize) -> Seq<TermView>
    decreases s.len(),
{
    if s.len() == 0 {
        Seq::<TermView>::empty()
    } else {
        insert_term(rename_terms(s.drop_last(), old, new), rename_powers(s.last().0, old, new), s.last().1)
    }
}

/// The largest exponent of `v` in any term.
pub open spec fn degree_of(s: Seq<TermView>, v: usize) -> nat
    decreases s.len(),
{
    if s.len() == 0 {
        0
    } else {
        let r = degree_of(s.drop_last(), v);
        let e = exponent_of(s.last().0, v);
        if e > r {
            e
        } else {
            r
        }
    }
}

/// Whether `v` occurs in some term.
pub open spec fn has_variable(s: Seq<TermView>, v: usize) -> bool {
    exists|i: int, k: int| 0 <= i < s.len() && 0 <= k < s[i].0.len() && (#[trigger] s[i].0[k]).0 == v
}

/// Strictly increasing.
pub open spec fn strictly_increasing(v: Seq<usize>) -> bool {
    forall|i: int, j: int| 0 <= i < j < v.len() ==> v[i] < v[j]
}

/// The value assigned to `v` (zero when unassigned).
pub open spec fn value_of(values: Map<usize, (int, nat)>, v: usize) -> (int, nat) {
    if values.contains_key(v) {
        values[v]
    } else {
        rat_zero()
    }
}

/// `c` times the value of every factor of `p`, factor by factor.
pub open spec fn monomial_value(c: (int, nat), p: Seq<(usize, usize)>, values: Map<usize, (int, nat)>) -> (
    int,
    nat,
)
    decreases p.len(),
{
    if p.len() == 0 {
        c
    } else {
        rat_mul(
            monomial_value(c, p.drop_last(), values),
            rat_pow(value_of(values, p.last().0), p.last().1 as nat),
        )
    }
}

/// The value of the terms: the sum of the term values, term by term.
pub open spec fn evaluate_terms(s: Seq<TermView>, values: Map<usize, (int, nat)>) -> (int, nat)
    decreases s.len(),
{
    if s.len() == 0 {
        rat_zero()
    } else {
        rat_add(evaluate_terms(s.drop_last(), values), monomial_value(s.last().1, s.last().0, values))
    }
}

/// The name of `v`: its given name, else `x` and its index.
pub open spec fn name_text(names: Map<usize, Seq<char>>, v: usize) -> Seq<char> {
    if names.contains_key(v) {
        names[v]
    } else {
        seq!['x'] + decimal(v as nat)
    }
}

/// A factor: the variable's name, then `^` and the exponent when above one.
pub open spec fn factor_text(names: Map<usize, Seq<char>>, x: (usize, usize)) -> Seq<char> {
    name_text(names, x.0) + if x.1 > 1 {
        seq!['^'] + decimal(x.1 as nat)
    } else {
        Seq::<char>::empty()
    }
}

/// The factors of a monomial joined by `*`.
pub open spec fn factors_text(names: Map<usize, Seq<char>>, p: Seq<(usize, usize)>) -> Seq<char>
    decreases p.len(),
{
    if p.len() == 0 {
        Seq::<char>::empty()
    } else if p.len() == 1 {
        factor_text(names, p[0])
    } else {
        factors_text(names, p.drop_last()) + seq!['*'] + factor_text(names, p.last())
    }
}

/// The sign in front of a term: none for a leading positive term, `-` for a
/// leading negative one, else ` + ` or ` - `.
pub open spec fn sign_text(first: bool, c: (int, nat)) -> Seq<char> {
    if !first && c.0 > 0 {
        seq![' ', '+', ' ']
    } else if c.0 < 0 {
        if first {
            seq!['-']
        } else {
            seq![' ', '-', ' ']
        }
    } else {
        Seq::<char>::empty()
    }
}

/// The magnitude of a coefficient, written unless it is one in front of a
/// non-constant monomial; a `*` follows it before a monomial.
pub open spec fn coefficient_text(t: TermView) -> Seq<char> {
    let magnitude = (abs(t.1.0) as int, t.1.1);
    if t.0.len() == 0 || magnitude != (1int, 1nat) {
        rat_text(magnitude) + if t.0.len() != 0 {
            seq!['*']
        } else {
            Seq::<char>::empty()
        }
    } else {
        Seq::<char>::empty()
    }
}

/// The text of the terms, one after the other.
pub open spec fn terms_text(names: Map<usize, Seq<char>>, s: Seq<TermView>) -> Seq<char>
    decreases s.len(),
{
    if s.len() == 0 {
        Seq::<char>::empty()
    } else {
        let t = s.last();
        terms_text(names, s.drop_last()) + sign_text(s.len() == 1, t.1) + coefficient_text(t)
            + factors_text(names, t.0)
    }
}

/// The text of a polynomial: `0`, or its terms.
pub open spec fn polynomial_text(names: Map<usize, Seq<char>>, s: Seq<TermView>) -> Seq<char> {
    if s.len() == 0 {
        seq!['0']
    } else {
        terms_text(names, s)
    }
}

/// Display names for variables.
#[derive(Clone, Debug, PartialEq, Eq)]
pub struct VariableNames {
    names: BTreeMap<Variable, String>,
}

impl View for VariableNames {
    type V = Map<usize, Seq<char>>;

    closed spec fn view(&self) -> Map<usize, Seq<char>> {
        self.names@.map_values(|s: String| s@)
    }
}

impl Default for VariableNames {
    /// No names given; the same as [`VariableNames::new`].
    fn default() -> (n: Self)
        ensures
            n@ == Map::<usize, Seq<char>>::empty(),
    {
        Self::new()
    }
}

impl Default for Polynomial {
    /// The zero polynomial; the same as [`Polynomial::zero`].
    fn default() -> (p: Self)
        ensures
            p.wf(),
            p@ == Seq::<TermView>::empty(),
    {
        Self::zero()
    }
}

impl VariableNames {
    /// No names given.
    pub fn new() -> (n: Self)
        ensures
            n@ == Map::<usize, Seq<char>>::empty(),
    {
        let n = VariableNames { names: BTreeMap::new() };
        assert(n@ =~= Map::<usize, Seq<char>>::empty());
        n
    }

    /// Names `variable`.
    pub fn insert(&mut self, variable: Variable, name: &str)
        ensures
            final(self)@ == old(self)@.insert(variable, name@),
    {
        self.names.insert(variable, name.to_owned());
        assert(self@ =~= old(self)@.insert(variable, name@));
    }

    /// These names with `variable` named `name`.
    pub fn with(self, variable: Variable, name: &str) -> (n: Self)
        ensures
            n@ == self@.insert(variable, name@),
    {
        let mut n = self;
        n.insert(variable, name);
        n
    }

    /// The name of `variable`: its given name, else `x` and its index.
    pub fn name(&self, variable: Variable) -> (s: String)
        ensures
            s@ == name_text(self@, variable),
    {
        match self.names.get(&variable) {
            Some(name) => name.clone(),
            None => {
                let mut s = String::from_str("x");
                proof {
                    reveal_strlit("x");
                }
                let digits = decimal_string(variable);
                s.append(digits.as_str());
                s
            },
        }
    }
}

/// A polynomial with rational coefficients in canonical form.
#[derive(Clone, Debug, PartialEq, Eq)]
pub struct Polynomial {
    terms: Vec<(Monomial, Rational)>,
}

impl View for Polynomial {
    type V = Seq<TermView>;

    closed spec fn view(&self) -> Seq<TermView> {
        self.terms@.map_values(|t: (Monomial, Rational)| (t.0@, t.1@))
    }
}

impl Polynomial {
    /// Canonical form: sorted monomials, each well formed, each coefficient
    /// reduced and nonzero.
    pub closed spec fn wf(&self) -> bool {
        &&& terms_sorted(self@)
        &&& forall|i: int|
            0 <= i < self.terms@.len() ==> {
                &&& (#[trigger] self.terms@[i]).0.wf()
                &&& self.terms@[i].1.wf()
                &&& self.terms@[i].1@.0 != 0
            }
    }

    /// What canonical form says of the view.
    pub proof fn lemma_wf(&self)
        requires
            self.wf(),
        ensures
            terms_canonical(self@),
    {
        assert forall|i: int| 0 <= i < self@.len() implies {
            &&& powers_wf((#[trigger] self@[i]).0)
            &&& rat_reduced(self@[i].1)
            &&& self@[i].1.0 != 0
        } by {
            assert(self@[i] == (self.terms@[i].0@, self.terms@[i].1@));
            assert(self.terms@[i].0.wf());
            self.terms@[i].1.lemma_wf();
        }
    }

    /// The zero polynomial.
    pub fn zero() -> (p: Self)
        ensures
            p.wf(),
            p@ == Seq::<TermView>::empty(),
    {
        let p = Polynomial { terms: Vec::new() };
        assert(p@ =~= Seq::<TermView>::empty());
        p
    }

    /// The constant `value`.
    pub fn constant(value: Rational) -> (p: Self)
        requires
            value.wf(),
        ensures
            p.wf(),
            p@ == if value@.0 == 0 {
                Seq::<TermView>::empty()
            } else {
                seq![(Seq::<(usize, usize)>::empty(), value@)]
            },
    {
        if value.is_zero() {
            return Self::zero();
        }
        let mut terms: Vec<(Monomial, Rational)> = Vec::new();
        terms.push((Monomial::one(), value));
        let p = Polynomial { terms };
        assert(p@ =~= seq![(Seq::<(usize, usize)>::empty(), value@)]);
        p
    }

    /// The constant one.
    pub fn one() -> (p: Self)
        ensures
            p.wf(),
            p@ == seq![(Seq::<(usize, usize)>::empty(), (1int, 1nat))],
    {
        Self::constant(Rational::one())
    }

    /// The integer constant `value`.
    pub fn integer(value: i64) -> (p: Self)
        ensures
            p.wf(),
            p@ == if value == 0 {
                Seq::<TermView>::empty()
            } else {
                seq![(Seq::<(usize, usize)>::empty(), (value as int, 1nat))]
            },
    {
        Self::constant(Rational::from_i64(value))
    }

    /// The polynomial `x_variable`.
    pub fn variable(variable: Variable) -> (p: Self)
        ensures
            p.wf(),
            p@ == seq![(seq![(variable, 1usize)], (1int, 1nat))],
    {
        let mut terms: Vec<(Monomial, Rational)> = Vec::new();
        terms.push((Monomial::variable(variable), Rational::one()));
        let p = Polynomial { terms };
        assert(p@ =~= seq![(seq![(variable, 1usize)], (1int, 1nat))]);
        p
    }

    /// An exact copy.
    pub fn duplicate(&self) -> (p: Self)
        requires
            self.wf(),
        ensures
            p.wf(),
            p@ == self@,
    {
        let mut terms: Vec<(Monomial, Rational)> = Vec::new();
        let mut i: usize = 0;
        while i < self.terms.len()
            invariant
                self.wf(),
                i <= self.terms@.len(),
                terms@.len() == i,
                forall|k: int|
                    0 <= k < i ==> {
                        &&& (#[trigger] terms@[k]).0@ == self.terms@[k].0@
                        &&& terms@[k].1@ == self.terms@[k].1@
                        &&& terms@[k].1.wf()
                    },
            decreases self.terms@.len() - i,
        {
            let m = self.terms[i].0.duplicate();
            let c = self.terms[i].1.duplicate();
            terms.push((m, c));
            i = i + 1;
        }
        let p = Polynomial { terms };
        assert(p@ =~= self@);
        p
    }

    /// Whether this is the zero polynomial.
    pub fn is_zero(&self) -> (b: bool)
        ensures
            b == (self@.len() == 0),
    {
        self.terms.len() == 0
    }

    /// Whether both polynomials have the same terms.
    pub fn equals(&self, other: &Self) -> (b: bool)
        requires
            self.wf(),
            other.wf(),
        ensures
            b == (self@ == other@),
    {
        if self.terms.len() != other.terms.len() {
            return false;
        }
        let mut i: usize = 0;
        while i < self.terms.len()
            invariant
                self.wf(),
                other.wf(),
                self.terms@.len() == other.terms@.len(),
                i <= self.terms@.len(),
                forall|k: int| 0 <= k < i ==> self@[k] == other@[k],
            decreases self.terms@.len() - i,
        {
            let same_monomial = self.terms[i].0.order(&other.terms[i].0) == 0;
            let same_coefficient = self.terms[i].1.equals(&other.terms[i].1);
            proof {
                assert(self@[i as int] == (self.terms@[i as int].0@, self.terms@[i as int].1@));
                assert(other@[i as int] == (other.terms@[i as int].0@, other.terms@[i as int].1@));
            }
            if !same_monomial || !same_coefficient {
                return false;
            }
            i = i + 1;
        }
        assert(self@ =~= other@);
        true
    }

    /// The sum `self + rhs`.
    pub fn plus(&self, rhs: &Self) -> (r: Self)
        requires
            self.wf(),
            rhs.wf(),
        ensures
            r.wf(),
            r@ == add_terms(self@, rhs@),
            forall|m: Seq<(usize, usize)>|
                #[trigger] coefficient_of(r@, m) == rat_add(
                    coefficient_of(self@, m),
                    coefficient_of(rhs@, m),
                ),
    {
        let mut result = self.duplicate();
        let mut j: usize = 0;
        proof {
            self.lemma_wf();
            rhs.lemma_wf();
            assert(rhs@.take(0) =~= Seq::<TermView>::empty());
            assert forall|m: Seq<(usize, usize)>|
                #[trigger] coefficient_of(result@, m) == rat_add(
                    coefficient_of(self@, m),
                    coefficient_of(rhs@.take(0), m),
                ) by {
                lemma_coefficient_reduced(self@, m);
                lemma_add_zero_right(coefficient_of(self@, m));
            }
        }
        while j < rhs.terms.len()
            invariant
                self.wf(),
                rhs.wf(),
                terms_canonical(self@),
                terms_canonical(rhs@),
                result.wf(),
                j <= rhs@.len(),
                result@ == add_terms(self@, rhs@.take(j as int)),
                forall|m: Seq<(usize, usize)>|
                    #[trigger] coefficient_of(result@, m) == rat_add(
                        coefficient_of(self@, m),
                        coefficient_of(rhs@.take(j as int), m),
                    ),
            decreases rhs@.len() - j,
        {
            let m = rhs.terms[j].0.duplicate();
            let c = rhs.terms[j].1.duplicate();
            let ghost before = result@;
            let ghost t = rhs@[j as int];
            proof {
                result.lemma_wf();
            }
            result.add_term(m, c);
            proof {
                let tj = rhs@.take(j as int);
                let tj1 = rhs@.take(j + 1);
                assert(tj1.drop_last() =~= tj);
                assert(tj1 =~= tj.push(t));
                lemma_sorted_prefix(rhs@, j + 1);
                assert forall|mm: Seq<(usize, usize)>|
                    #[trigger] coefficient_of(result@, mm) == rat_add(
                        coefficient_of(self@, mm),
                        coefficient_of(tj1, mm),
                    ) by {
                    lemma_insert_coefficient(before, t.0, t.1, mm);
                    if mm == t.0 {
                        lemma_coefficient_at(tj1, j as int);
                        assert forall|k: int| 0 <= k < tj.len() implies tj[k].0 != mm by {
                            assert(mono_lt(rhs@[k].0, rhs@[j as int].0));
                            lemma_mono_lt_irreflexive(mm);
                        }
                        lemma_coefficient_reduced(self@, mm);
                        lemma_add_zero_right(coefficient_of(self@, mm));
                    } else {
                        lemma_coefficient_push(tj, t, mm);
                    }
                }
            }
            j = j + 1;
        }
        proof {
            assert(rhs@.take(j as int) =~= rhs@);
        }
        result
    }

    /// The negation `-self`.
    pub fn negated(&self) -> (r: Self)
        requires
            self.wf(),
        ensures
            r.wf(),
            r@ == negate_terms(self@),
    {
        let mut terms: Vec<(Monomial, Rational)> = Vec::new();
        let mut i: usize = 0;
        while i < self.terms.len()
            invariant
                self.wf(),
                i <= self.terms@.len(),
                terms@.len() == i,
                forall|k: int|
                    0 <= k < i ==> {
                        &&& (#[trigger] terms@[k]).0@ == self.terms@[k].0@
                        &&& terms@[k].1@ == rat_neg(self.terms@[k].1@)
                        &&& terms@[k].1.wf()
                    },
            decreases self.terms@.len() - i,
        {
            let m = self.terms[i].0.duplicate();
            let c = self.terms[i].1.negated();
            terms.push((m, c));
            i = i + 1;
        }
        let p = Polynomial { terms };
        assert(p@ =~= negate_terms(self@));
        p
    }

    /// The difference `self - rhs`, as `self + (-rhs)`.
    pub fn minus(&self, rhs: &Self) -> (r: Self)
        requires
            self.wf(),
            rhs.wf(),
        ensures
            r.wf(),
            r@ == add_terms(self@, negate_terms(rhs@)),
            forall|m: Seq<(usize, usize)>|
                #[trigger] coefficient_of(r@, m) == rat_sub(
                    coefficient_of(self@, m),
                    coefficient_of(rhs@, m),
                ),
    {
        let negative = rhs.negated();
        let r = self.plus(&negative);
        proof {
            assert forall|m: Seq<(usize, usize)>|
                #[trigger] coefficient_of(r@, m) == rat_sub(
                    coefficient_of(self@, m),
                    coefficient_of(rhs@, m),
                ) by {
                rhs.lemma_wf();
                lemma_coefficient_negated(rhs@, m);
                lemma_add_neg(coefficient_of(self@, m), coefficient_of(rhs@, m));
            }
        }
        r
    }

    /// The product `self * rhs`.
    pub fn times(&self, rhs: &Self) -> (r: Self)
        requires
            self.wf(),
            rhs.wf(),
            mul_fits(self@, rhs@),
        ensures
            r.wf(),
            r@ == mul_terms(self@, rhs@),
            forall|m: Seq<(usize, usize)>|
                #[trigger] coefficient_of(r@, m) == product_coefficient(self@, rhs@, m),
    {
        let mut result = Self::zero();
        let mut i: usize = 0;
        proof {
            assert(self@.take(0) =~= Seq::<TermView>::empty());
        }
        while i < self.terms.len()
            invariant
                self.wf(),
                rhs.wf(),
                mul_fits(self@, rhs@),
                result.wf(),
                i <= self@.len(),
                result@ == mul_terms(self@.take(i as int), rhs@),
                forall|m: Seq<(usize, usize)>|
                    #[trigger] coefficient_of(result@, m) == product_coefficient(
                        self@.take(i as int),
                        rhs@,
                        m,
                    ),
            decreases self@.len() - i,
        {
            let ghost row_start = result@;
            let ghost t = self@[i as int];
            let mut j: usize = 0;
            proof {
                assert(rhs@.take(0) =~= Seq::<TermView>::empty());
            }
            while j < rhs.terms.len()
                invariant
                    self.wf(),
                    rhs.wf(),
                    mul_fits(self@, rhs@),
                    result.wf(),
                    i < self@.len(),
                    j <= rhs@.len(),
                    t == self@[i as int],
                    row_start == mul_terms(self@.take(i as int), rhs@),
                    result@ == add_row(row_start, t, rhs@.take(j as int)),
                    forall|m: Seq<(usize, usize)>|
                        #[trigger] coefficient_of(result@, m) == row_coefficient(
                            product_coefficient(self@.take(i as int), rhs@, m),
                            t,
                            rhs@.take(j as int),
                            m,
                        ),
                decreases rhs@.len() - j,
            {
                let ghost before = result@;
                let ghost u = rhs@[j as int];
                proof {
                    assert(self@[i as int] == (self.terms@[i as int].0@, self.terms@[i as int].1@));
                    assert(rhs@[j as int] == (rhs.terms@[j as int].0@, rhs.terms@[j as int].1@));
                    assert(mono_mul_fits(self@[i as int].0, rhs@[j as int].0));
                }
                let mm = self.terms[i].0.multiplied(&rhs.terms[j].0);
                let cc = self.terms[i].1.mul(&rhs.terms[j].1);
                proof {
                    result.lemma_wf();
                    cc.lemma_wf();
                }
                result.add_term(mm, cc);
                proof {
                    let tj = rhs@.take(j as int);
                    let tj1 = rhs@.take(j + 1);
                    assert(tj1.drop_last() =~= tj);
                    assert(tj1.last() == u);
                    assert forall|m: Seq<(usize, usize)>|
                        #[trigger] coefficient_of(result@, m) == row_coefficient(
                            product_coefficient(self@.take(i as int), rhs@, m),
                            t,
                            tj1,
                            m,
                        ) by {
                        lemma_insert_coefficient(before, mono_mul(t.0, u.0), rat_mul(t.1, u.1), m);
                    }
                }
                j = j + 1;
            }
            proof {
                assert(rhs@.take(j as int) =~= rhs@);
                let ti = self@.take(i as int);
                let ti1 = self@.take(i + 1);
                assert(ti1.drop_last() =~= ti);
                assert(ti1.last() == t);
            }
            i = i + 1;
        }
        proof {
            assert(self@.take(i as int) =~= self@);
        }
        result
    }

    /// The power `self ^ exponent`, by repeated multiplication.
    pub fn pow(&self, exponent: usize) -> (r: Self)
        requires
            self.wf(),
            max_exponent(self@) * exponent <= usize::MAX,
        ensures
            r.wf(),
            r@ == pow_terms(self@, exponent as nat),
    {
        let mut result = Self::one();
        let mut k: usize = 0;
        let ghost bound = max_exponent(self@);
        proof {
            lemma_max_exponent_bounds(self@);
            assert(exponents_bounded(result@, 0)) by {
                assert forall|i: int| 0 <= i < result@.len() implies powers_bounded(
                    (#[trigger] result@[i]).0,
                    0,
                ) by {
                    assert(result@[i].0.len() == 0);
                }
            }
        }
        while k < exponent
            invariant
                self.wf(),
                result.wf(),
                k <= exponent,
                bound == max_exponent(self@),
                bound * exponent <= usize::MAX,
                exponents_bounded(self@, bound),
                exponents_bounded(result@, (k * bound) as nat),
                result@ == pow_terms(self@, k as nat),
            decreases exponent - k,
        {
            proof {
                assert(k * bound + bound <= usize::MAX) by (nonlinear_arith)
                    requires
                        k < exponent,
                        bound * exponent <= usize::MAX,
                ;
                lemma_bounded_mul_fits(result@, self@, (k * bound) as nat, bound);
                result.lemma_wf();
                self.lemma_wf();
                lemma_mul_terms_bounded(result@, self@, (k * bound) as nat, bound);
                assert((k + 1) * bound == k * bound + bound) by (nonlinear_arith);
            }
            result = result.times(self);
            k = k + 1;
        }
        result
    }

    /// The largest exponent in any term.
    pub fn max_exponent(&self) -> (e: usize)
        ensures
            e == max_exponent(self@),
    {
        let mut best: usize = 0;
        let mut i: usize = 0;
        proof {
            assert(self@.take(0) =~= Seq::<TermView>::empty());
        }
        while i < self.terms.len()
            invariant
                i <= self@.len(),
                best == max_exponent(self@.take(i as int)),
            decreases self@.len() - i,
        {
            let powers = self.terms[i].0.powers();
            let mut top: usize = 0;
            let mut j: usize = 0;
            proof {
                assert(self@[i as int].0 == powers@);
                assert(powers@.take(0) =~= Seq::<(usize, usize)>::empty());
            }
            while j < powers.len()
                invariant
                    j <= powers@.len(),
                    top == power_max(powers@.take(j as int)),
                decreases powers@.len() - j,
            {
                if powers[j].1 > top {
                    top = powers[j].1;
                }
                j = j + 1;
                proof {
                    assert(powers@.take(j as int).drop_last() =~= powers@.take(j - 1));
                }
            }
            proof {
                assert(powers@.take(j as int) =~= powers@);
                assert(self@.take(i + 1).drop_last() =~= self@.take(i as int));
                assert(self@.take(i + 1).last() == self@[i as int]);
            }
            if top > best {
                best = top;
            }
            i = i + 1;
        }
        proof {
            assert(self@.take(i as int) =~= self@);
        }
        best
    }

    /// The terms, in increasing monomial order: each monomial with its
    /// nonzero coefficient.
    pub fn terms(&self) -> (ts: Vec<(Monomial, Rational)>)
        requires
            self.wf(),
        ensures
            ts@.len() == self@.len(),
            forall|i: int|
                0 <= i < ts@.len() ==> {
                    &&& (#[trigger] ts@[i]).0@ == self@[i].0
                    &&& ts@[i].1@ == self@[i].1
                    &&& ts@[i].0.wf()
                    &&& ts@[i].1.wf()
                },
    {
        let mut ts: Vec<(Monomial, Rational)> = Vec::new();
        let mut i: usize = 0;
        while i < self.terms.len()
            invariant
                self.wf(),
                i <= self@.len(),
                ts@.len() == i,
                forall|k: int|
                    0 <= k < i ==> {
                        &&& (#[trigger] ts@[k]).0@ == self@[k].0
                        &&& ts@[k].1@ == self@[k].1
                        &&& ts@[k].0.wf()
                        &&& ts@[k].1.wf()
                    },
            decreases self@.len() - i,
        {
            proof {
                assert(self.terms@[i as int].0.wf());
                assert(self@[i as int] == (self.terms@[i as int].0@, self.terms@[i as int].1@));
            }
            ts.push((self.terms[i].0.duplicate(), self.terms[i].1.duplicate()));
            i = i + 1;
        }
        ts
    }

    /// The coefficient of `monomial` (zero when it has no term).
    pub fn coefficient(&self, monomial: &Monomial) -> (c: Rational)
        requires
            self.wf(),
        ensures
            c.wf(),
            c@ == coefficient_of(self@, monomial@),
    {
        let mut i: usize = 0;
        proof {
            self.lemma_wf();
        }
        while i < self.terms.len()
            invariant
                self.wf(),
                terms_canonical(self@),
                i <= self@.len(),
                forall|k: int| 0 <= k < i ==> self@[k].0 != monomial@,
            decreases self@.len() - i,
        {
            if self.terms[i].0.order(monomial) == 0 {
                proof {
                    lemma_coefficient_at(self@, i as int);
                }
                return self.terms[i].1.duplicate();
            }
            i = i + 1;
        }
        Rational::zero()
    }

    /// The variables that occur, in increasing order.
    pub fn variables(&self) -> (vs: Vec<Variable>)
        ensures
            strictly_increasing(vs@),
            forall|v: usize| vs@.contains(v) <==> has_variable(self@, v),
    {
        let mut vs: Vec<Variable> = Vec::new();
        let mut i: usize = 0;
        while i < self.terms.len()
            invariant
                i <= self@.len(),
                strictly_increasing(vs@),
                forall|v: usize|
                    vs@.contains(v) <==> exists|a: int, k: int|
                        0 <= a < i && 0 <= k < self@[a].0.len() && (#[trigger] self@[a].0[k]).0 == v,
            decreases self@.len() - i,
        {
            let powers = self.terms[i].0.powers();
            let mut j: usize = 0;
            proof {
                assert(powers@ == self@[i as int].0);
            }
            while j < powers.len()
                invariant
                    i < self@.len(),
                    powers@ == self@[i as int].0,
                    j <= powers@.len(),
                    strictly_increasing(vs@),
                    forall|v: usize|
                        vs@.contains(v) <==> (exists|a: int, k: int|
                            0 <= a < i && 0 <= k < self@[a].0.len() && (#[trigger] self@[a].0[k]).0
                                == v) || (exists|k: int| 0 <= k < j && (#[trigger] powers@[k]).0 == v),
                decreases powers@.len() - j,
            {
                insert_sorted_unique(&mut vs, powers[j].0);
                proof {
                    assert forall|v: usize|
                        vs@.contains(v) <==> (exists|a: int, k: int|
                            0 <= a < i && 0 <= k < self@[a].0.len() && (#[trigger] self@[a].0[k]).0
                                == v) || (exists|k: int| 0 <= k < j + 1 && (#[trigger] powers@[k]).0
                            == v) by {
                        if v == powers@[j as int].0 {
                            assert(exists|k: int| 0 <= k < j + 1 && (#[trigger] powers@[k]).0 == v);
                        }
                    }
                }
                j = j + 1;
            }
            proof {
                assert forall|v: usize|
                    vs@.contains(v) <==> exists|a: int, k: int|
                        0 <= a < i + 1 && 0 <= k < self@[a].0.len() && (#[trigger] self@[a].0[k]).0
                            == v by {
                    if exists|k: int| 0 <= k < j && (#[trigger] powers@[k]).0 == v {
                        let k = choose|k: int| 0 <= k < j && (#[trigger] powers@[k]).0 == v;
                        assert(self@[i as int].0[k].0 == v);
                    }
                    if exists|a: int, k: int|
                        0 <= a < i + 1 && 0 <= k < self@[a].0.len() && (#[trigger] self@[a].0[k]).0
                            == v {
                        let (a, k) = choose|a: int, k: int|
                            0 <= a < i + 1 && 0 <= k < self@[a].0.len() && (#[trigger] self@[a].0[
                                k
                            ]).0 == v;
                        if a == i {
                            assert(powers@[k].0 == v);
                        }
                    }
                }
            }
            i = i + 1;
        }
        vs
    }

    /// The largest exponent of `variable` in any term.
    pub fn degree(&self, variable: Variable) -> (d: usize)
        ensures
            d == degree_of(self@, variable),
    {
        let mut best: usize = 0;
        let mut i: usize = 0;
        proof {
            assert(self@.take(0) =~= Seq::<TermView>::empty());
        }
        while i < self.terms.len()
            invariant
                i <= self@.len(),
                best == degree_of(self@.take(i as int), variable),
            decreases self@.len() - i,
        {
            let e = self.terms[i].0.exponent(variable);
            proof {
                assert(self@.take(i + 1).drop_last() =~= self@.take(i as int));
                assert(self@.take(i + 1).last() == self@[i as int]);
            }
            if e > best {
                best = e;
            }
            i = i + 1;
        }
        proof {
            assert(self@.take(i as int) =~= self@);
        }
        best
    }

    /// The coefficient of `x_variable ^ degree`, as a polynomial in the other
    /// variables.
    pub fn coefficient_in(&self, variable: Variable, degree: usize) -> (r: Self)
        requires
            self.wf(),
        ensures
            r.wf(),
            r@ == coefficient_in_terms(self@, variable, degree),
    {
        let mut result = Self::zero();
        let mut i: usize = 0;
        proof {
            assert(self@.take(0) =~= Seq::<TermView>::empty());
        }
        while i < self.terms.len()
            invariant
                self.wf(),
                result.wf(),
                i <= self@.len(),
                result@ == coefficient_in_terms(self@.take(i as int), variable, degree),
            decreases self@.len() - i,
        {
            proof {
                assert(self@.take(i + 1).drop_last() =~= self@.take(i as int));
                assert(self@.take(i + 1).last() == self@[i as int]);
                assert(self@[i as int] == (self.terms@[i as int].0@, self.terms@[i as int].1@));
            }
            if self.terms[i].0.exponent(variable) == degree {
                let m = self.terms[i].0.with_exponent(variable, 0);
                let c = self.terms[i].1.duplicate();
                result.add_term(m, c);
            }
            i = i + 1;
        }
        proof {
            assert(self@.take(i as int) =~= self@);
        }
        result
    }

    /// The partial derivative in `variable`.
    pub fn derivative(&self, variable: Variable) -> (r: Self)
        requires
            self.wf(),
        ensures
            r.wf(),
            r@ == derivative_terms(self@, variable),
    {
        let mut result = Self::zero();
        let mut i: usize = 0;
        proof {
            assert(self@.take(0) =~= Seq::<TermView>::empty());
        }
        while i < self.terms.len()
            invariant
                self.wf(),
                result.wf(),
                i <= self@.len(),
                result@ == derivative_terms(self@.take(i as int), variable),
            decreases self@.len() - i,
        {
            proof {
                assert(self@.take(i + 1).drop_last() =~= self@.take(i as int));
                assert(self@.take(i + 1).last() == self@[i as int]);
                assert(self@[i as int] == (self.terms@[i as int].0@, self.terms@[i as int].1@));
            }
            let e = self.terms[i].0.exponent(variable);
            if e > 0 {
                let m = self.terms[i].0.with_exponent(variable, e - 1);
                let c = self.terms[i].1.mul_integer(e);
                result.add_term(m, c);
            }
            i = i + 1;
        }
        proof {
            assert(self@.take(i as int) =~= self@);
        }
        result
    }

    /// The polynomial with `old` renamed to `new`.
    pub fn rename_variable(&self, old: Variable, new: Variable) -> (r: Self)
        requires
            self.wf(),
            rename_fits(self@, old, new),
        ensures
            r.wf(),
            r@ == rename_terms(self@, old, new),
    {
        let mut result = Self::zero();
        let mut i: usize = 0;
        proof {
            assert(self@.take(0) =~= Seq::<TermView>::empty());
        }
        while i < self.terms.len()
            invariant
                self.wf(),
                rename_fits(self@, old, new),
                result.wf(),
                i <= self@.len(),
                result@ == rename_terms(self@.take(i as int), old, new),
            decreases self@.len() - i,
        {
            proof {
                assert(self@.take(i + 1).drop_last() =~= self@.take(i as int));
                assert(self@.take(i + 1).last() == self@[i as int]);
                assert(self@[i as int] == (self.terms@[i as int].0@, self.terms@[i as int].1@));
                assert(rename_fits_powers(self@[i as int].0, old, new));
            }
            let mono = &self.terms[i].0;
            let e = mono.exponent(old);
            let m = if e == 0 {
                mono.duplicate()
            } else {
                let q = mono.with_exponent(old, 0);
                let f = q.exponent(new);
                q.with_exponent(new, f + e)
            };
            let c = self.terms[i].1.duplicate();
            result.add_term(m, c);
            i = i + 1;
        }
        proof {
            assert(self@.take(i as int) =~= self@);
        }
        result
    }

    /// The value at `values`; an unassigned variable counts as zero.
    pub fn evaluate(&self, values: &BTreeMap<Variable, Rational>) -> (r: Rational)
        requires
            self.wf(),
            forall|k: usize| values@.contains_key(k) ==> (#[trigger] values@[k]).wf(),
            exponents_bounded(self@, i32::MAX as nat),
        ensures
            r.wf(),
            r@ == evaluate_terms(self@, values@.map_values(|q: Rational| q@)),
    {
        let ghost vals = values@.map_values(|q: Rational| q@);
        let mut sum = Rational::zero();
        let mut i: usize = 0;
        proof {
            assert(self@.take(0) =~= Seq::<TermView>::empty());
        }
        while i < self.terms.len()
            invariant
                self.wf(),
                forall|k: usize| values@.contains_key(k) ==> (#[trigger] values@[k]).wf(),
                exponents_bounded(self@, i32::MAX as nat),
                vals == values@.map_values(|q: Rational| q@),
                sum.wf(),
                i <= self@.len(),
                sum@ == evaluate_terms(self@.take(i as int), vals),
            decreases self@.len() - i,
        {
            let powers = self.terms[i].0.powers();
            let mut term = self.terms[i].1.duplicate();
            let mut j: usize = 0;
            proof {
                assert(self@[i as int] == (self.terms@[i as int].0@, self.terms@[i as int].1@));
                assert(powers@.take(0) =~= Seq::<(usize, usize)>::empty());
                assert(powers_bounded(self@[i as int].0, i32::MAX as nat));
            }
            while j < powers.len()
                invariant
                    i < self@.len(),
                    powers@ == self@[i as int].0,
                    powers_bounded(powers@, i32::MAX as nat),
                    forall|k: usize| values@.contains_key(k) ==> (#[trigger] values@[k]).wf(),
                    vals == values@.map_values(|q: Rational| q@),
                    term.wf(),
                    j <= powers@.len(),
                    term@ == monomial_value(self@[i as int].1, powers@.take(j as int), vals),
                decreases powers@.len() - j,
            {
                let (variable, exponent) = powers[j];
                let value = match values.get(&variable) {
                    Some(v) => v.duplicate(),
                    None => Rational::zero(),
                };
                proof {
                    assert(powers@[j as int].1 <= i32::MAX);
                    assert(value@ == value_of(vals, variable));
                }
                let raised = value.pow(exponent as i32);
                term = term.mul(&raised);
                j = j + 1;
                proof {
                    assert(powers@.take(j as int).drop_last() =~= powers@.take(j - 1));
                }
            }
            proof {
                assert(powers@.take(j as int) =~= powers@);
            }
            sum = sum.add(&term);
            proof {
                assert(self@.take(i + 1).drop_last() =~= self@.take(i as int));
                assert(self@.take(i + 1).last() == self@[i as int]);
            }
            i = i + 1;
        }
        proof {
            assert(self@.take(i as int) =~= self@);
        }
        sum
    }

    /// The value at `values` when every variable that occurs is assigned.
    pub fn try_evaluate(&self, values: &BTreeMap<Variable, Rational>) -> (r: Option<Rational>)
        requires
            self.wf(),
            forall|k: usize| values@.contains_key(k) ==> (#[trigger] values@[k]).wf(),
            exponents_bounded(self@, i32::MAX as nat),
        ensures
            r is Some <==> (forall|v: usize| has_variable(self@, v) ==> values@.contains_key(v)),
            r matches Some(q) ==> q.wf() && q@ == evaluate_terms(
                self@,
                values@.map_values(|q: Rational| q@),
            ),
    {
        let vs = self.variables();
        let mut i: usize = 0;
        while i < vs.len()
            invariant
                i <= vs@.len(),
                forall|v: usize| vs@.contains(v) <==> has_variable(self@, v),
                forall|k: int| 0 <= k < i ==> values@.contains_key(#[trigger] vs@[k]),
            decreases vs@.len() - i,
        {
            if !values.contains_key(&vs[i]) {
                proof {
                    assert(vs@.contains(vs@[i as int]));
                }
                return None;
            }
            i = i + 1;
        }
        proof {
            assert forall|v: usize| has_variable(self@, v) implies values@.contains_key(v) by {
                assert(vs@.contains(v));
                let k = choose|k: int| 0 <= k < vs@.len() && vs@[k] == v;
            }
        }
        Some(self.evaluate(values))
    }

    /// Text with the default names `x0`, `x1`, ...
    pub fn to_string(&self) -> (text: String)
        requires
            self.wf(),
        ensures
            text@ == polynomial_text(Map::<usize, Seq<char>>::empty(), self@),
    {
        self.to_string_with(&VariableNames::new())
    }

    /// Text with the given variable names, such as `-2 - 2*x0 + x0*x1`.
    pub fn to_string_with(&self, names: &VariableNames) -> (text: String)
        requires
            self.wf(),
        ensures
            text@ == polynomial_text(names@, self@),
    {
        if self.terms.len() == 0 {
            let zero = String::from_str("0");
            proof {
                reveal_strlit("0");
            }
            return zero;
        }
        let mut out = String::new();
        let mut i: usize = 0;
        proof {
            assert(self@.take(0) =~= Seq::<TermView>::empty());
            reveal_strlit(" + ");
            reveal_strlit(" - ");
            reveal_strlit("-");
            reveal_strlit("*");
            reveal_strlit("^");
        }
        while i < self.terms.len()
            invariant
                self.wf(),
                i <= self@.len(),
                out@ == terms_text(names@, self@.take(i as int)),
                " + "@ == seq![' ', '+', ' '],
                " - "@ == seq![' ', '-', ' '],
                "-"@ == seq!['-'],
                "*"@ == seq!['*'],
                "^"@ == seq!['^'],
            decreases self@.len() - i,
        {
            let ghost before = out@;
            let ghost t = self@[i as int];
            proof {
                assert(t == (self.terms@[i as int].0@, self.terms@[i as int].1@));
                self.terms@[i as int].1.lemma_wf();
            }
            let monomial = &self.terms[i].0;
            let coefficient = &self.terms[i].1;
            if i > 0 && coefficient.is_positive() {
                out.append(" + ");
            } else if coefficient.is_negative() {
                if i == 0 {
                    out.append("-");
                } else {
                    out.append(" - ");
                }
            }
            proof {
                assert(out@ == before + sign_text(i == 0, t.1));
            }
            let ghost signed = out@;
            let magnitude = coefficient.magnitude();
            let one = Rational::one();
            let constant = monomial.is_one();
            if constant || !magnitude.equals(&one) {
                let digits = magnitude.to_text();
                out.append(digits.as_str());
                if !constant {
                    out.append("*");
                }
            }
            proof {
                assert(out@ == signed + coefficient_text(t));
            }
            let ghost coefficient_done = out@;
            let powers = monomial.powers();
            let mut j: usize = 0;
            proof {
                assert(powers@.take(0) =~= Seq::<(usize, usize)>::empty());
            }
            while j < powers.len()
                invariant
                    j <= powers@.len(),
                    out@ == coefficient_done + factors_text(names@, powers@.take(j as int)),
                    "*"@ == seq!['*'],
                    "^"@ == seq!['^'],
                decreases powers@.len() - j,
            {
                let ghost prefix = out@;
                if j > 0 {
                    out.append("*");
                }
                let (variable, exponent) = powers[j];
                let name = names.name(variable);
                out.append(name.as_str());
                if exponent > 1 {
                    out.append("^");
                    let digits = decimal_string(exponent);
                    out.append(digits.as_str());
                }
                proof {
                    let p1 = powers@.take(j + 1);
                    assert(p1.drop_last() =~= powers@.take(j as int));
                    assert(p1.last() == powers@[j as int]);
                    if j == 0 {
                        assert(p1.len() == 1);
                        assert(p1[0] == powers@[0]);
                    }
                    assert(out@ =~= coefficient_done + factors_text(names@, p1));
                }
                j = j + 1;
            }
            proof {
                assert(powers@.take(j as int) =~= powers@);
                let s1 = self@.take(i + 1);
                assert(s1.drop_last() =~= self@.take(i as int));
                assert(s1.last() == t);
                assert(out@ =~= terms_text(names@, s1));
            }
            i = i + 1;
        }
        proof {
            assert(self@.take(i as int) =~= self@);
        }
        out
    }

    /// Adds `c * m` in place.
    fn add_term(&mut self, m: Monomial, c: Rational)
        requires
            old(self).wf(),
            m.wf(),
            c.wf(),
        ensures
            final(self).wf(),
            final(self)@ == insert_term(old(self)@, m@, c@),
    {
        let ghost s = self@;
        let n = self.terms.len();
        let mut i: usize = 0;
        loop
            invariant
                i <= n,
                n == self.terms@.len(),
                self@ == s,
                self.wf(),
                forall|k: int| 0 <= k < i ==> mono_lt(s[k].0, m@),
            ensures
                i <= n,
                i == n || !mono_lt(s[i as int].0, m@),
            decreases n - i,
        {
            if i == n {
                break ;
            }
            if self.terms[i].0.order(&m) != -1 {
                break ;
            }
            i = i + 1;
        }
        proof {
            lemma_position(s, m@, i as int);
        }
        let found = i < n && self.terms[i].0.order(&m) == 0;
        if found {
            proof {
                lemma_coefficient_at(s, i as int);
            }
            let v = self.terms[i].1.add(&c);
            if v.is_zero() {
                self.terms.remove(i);
                assert(self@ =~= insert_term(s, m@, c@));
            } else {
                self.terms.set(i, (m, v));
                assert(self@ =~= insert_term(s, m@, c@));
            }
        } else {
            proof {
                assert forall|k: int| 0 <= k < s.len() implies s[k].0 != m@ by {
                    if k < i {
                        lemma_mono_lt_irreflexive(m@);
                    } else {
                        if s[k].0 == m@ {
                            if k > i {
                                assert(mono_lt(s[i as int].0, s[k].0));
                                lemma_mono_lt_asymmetric(s[i as int].0, m@);
                            }
                        }
                    }
                }
                c.lemma_wf();
                lemma_add_zero_left(c@);
            }
            if !c.is_zero() {
                self.terms.insert(i, (m, c));
            }
            assert(self@ =~= insert_term(s, m@, c@));
        }
        proof {
            lemma_insert_sorted(s, m@, c@);
        }
    }
}

/// The position never exceeds the length.
pub proof fn lemma_position_of_bound(s: Seq<TermView>, m: Seq<(usize, usize)>)
    ensures
        position_of(s, m) <= s.len(),
    decreases s.len(),
{
    if s.len() > 0 {
        lemma_position_of_bound(s.drop_last(), m);
    }
}

impl core::ops::Add for Polynomial {
    type Output = Polynomial;

    /// The sum; see [`Polynomial::plus`].
    fn add(self, rhs: Polynomial) -> (r: Polynomial)
        ensures
            r.wf(),
            r@ == add_terms(self@, rhs@),
    {
        self.plus(&rhs)
    }
}

impl vstd::std_specs::ops::AddSpecImpl for Polynomial {
    open spec fn obeys_add_spec() -> bool {
        false
    }

    open spec fn add_req(self, rhs: Polynomial) -> bool {
        self.wf() && rhs.wf()
    }

    open spec fn add_spec(self, rhs: Polynomial) -> Polynomial {
        self
    }
}

impl core::ops::Sub for Polynomial {
    type Output = Polynomial;

    /// The difference; see [`Polynomial::minus`].
    fn sub(self, rhs: Polynomial) -> (r: Polynomial)
        ensures
            r.wf(),
            r@ == add_terms(self@, negate_terms(rhs@)),
    {
        self.minus(&rhs)
    }
}

impl vstd::std_specs::ops::SubSpecImpl for Polynomial {
    open spec fn obeys_sub_spec() -> bool {
        false
    }

    open spec fn sub_req(self, rhs: Polynomial) -> bool {
        self.wf() && rhs.wf()
    }

    open spec fn sub_spec(self, rhs: Polynomial) -> Polynomial {
        self
    }
}

impl core::ops::Mul for Polynomial {
    type Output = Polynomial;

    /// The product; see [`Polynomial::times`].
    fn mul(self, rhs: Polynomial) -> (r: Polynomial)
        ensures
            r.wf(),
            r@ == mul_terms(self@, rhs@),
    {
        self.times(&rhs)
    }
}

impl vstd::std_specs::ops::MulSpecImpl for Polynomial {
    open spec fn obeys_mul_spec() -> bool {
        false
    }

    open spec fn mul_req(self, rhs: Polynomial) -> bool {
        self.wf() && rhs.wf() && mul_fits(self@, rhs@)
    }

    open spec fn mul_spec(self, rhs: Polynomial) -> Polynomial {
        self
    }
}

impl core::ops::Neg for Polynomial {
    type Output = Polynomial;

    /// The negation; see [`Polynomial::negated`].
    fn neg(self) -> (r: Polynomial)
        ensures
            r.wf(),
            r@ == negate_terms(self@),
    {
        self.negated()
    }
}

impl vstd::std_specs::ops::NegSpecImpl for Polynomial {
    open spec fn obeys_neg_spec() -> bool {
        false
    }

    open spec fn neg_req(self) -> bool {
        self.wf()
    }

    open spec fn neg_spec(self) -> Polynomial {
        self
    }
}

/// What the position of `m` says of sorted terms: every term before it comes
/// before `m`, no term from it on does, and only the term at the position can
/// have the monomial `m`.
pub proof fn lemma_position_facts(s: Seq<TermView>, m: Seq<(usize, usize)>)
    requires
        terms_sorted(s),
    ensures
        position_of(s, m) <= s.len(),
        forall|k: int| 0 <= k < position_of(s, m) ==> mono_lt(#[trigger] s[k].0, m),
        forall|k: int|
            position_of(s, m) <= k < s.len() ==> !mono_lt(#[trigger] s[k].0, m),
        forall|k: int|
            position_of(s, m) <= k < s.len() && s[k].0 != m ==> mono_lt(m, #[trigger] s[k].0),
        forall|k: int| position_of(s, m) < k < s.len() ==> #[trigger] s[k].0 != m,
    decreases s.len(),
{
    if s.len() > 0 {
        let last = s.len() - 1;
        if mono_lt(s.last().0, m) {
            assert forall|k: int| 0 <= k < position_of(s, m) implies mono_lt(#[trigger] s[k].0, m) by {
                if k < last {
                    lemma_mono_lt_transitive(s[k].0, s[last].0, m);
                }
            }
        } else {
            let t = s.drop_last();
            assert forall|a: int, b: int| 0 <= a < b < t.len() implies mono_lt(t[a].0, t[b].0) by {
                assert(t[a] == s[a] && t[b] == s[b]);
            }
            lemma_position_facts(t, m);
            assert forall|k: int| 0 <= k < position_of(s, m) implies mono_lt(#[trigger] s[k].0, m) by {
                assert(t[k] == s[k]);
            }
            assert forall|k: int| position_of(s, m) <= k < s.len() implies !mono_lt(#[trigger] s[k].0, m) by {
                if k < last {
                    assert(t[k] == s[k]);
                }
            }
        }
    }
    let p = position_of(s, m) as int;
    assert forall|k: int| p <= k < s.len() && s[k].0 != m implies mono_lt(m, #[trigger] s[k].0) by {
        lemma_mono_lt_total(s[k].0, m);
    }
    assert forall|k: int| p < k < s.len() implies #[trigger] s[k].0 != m by {
        if s[k].0 == m {
            assert(mono_lt(s[p].0, s[k].0));
        }
    }
}

/// Adding a term keeps the terms sorted.
pub proof fn lemma_insert_sorted(s: Seq<TermView>, m: Seq<(usize, usize)>, c: (int, nat))
    requires
        terms_sorted(s),
    ensures
        terms_sorted(insert_term(s, m, c)),
{
    lemma_position_facts(s, m);
    let i = position_of(s, m) as int;
    let r = insert_term(s, m, c);
    assert forall|a: int, b: int| 0 <= a < b < r.len() implies mono_lt(r[a].0, r[b].0) by {
        if a < i && b < i {
        } else if a < i {
            let mb = r[b].0;
            assert(mb == m || mono_lt(m, mb));
            if mb != m {
                lemma_mono_lt_transitive(s[a].0, m, mb);
            }
        } else {
            let ma = r[a].0;
            let mb = r[b].0;
            assert(ma == m || exists|k: int| i <= k < s.len() && s[k] == r[a] && k < s.len());
            if ma == m {
                assert(mono_lt(m, mb));
            } else {
                assert(exists|k1: int, k2: int|
                    i <= k1 < k2 < s.len() && s[k1] == r[a] && s[k2] == r[b]);
            }
        }
    }
}

/// The coefficients after adding a term: that of `m` grows by `c`, the
/// others stay.
pub proof fn lemma_insert_coefficient(
    s: Seq<TermView>,
    m: Seq<(usize, usize)>,
    c: (int, nat),
    m2: Seq<(usize, usize)>,
)
    requires
        terms_sorted(s),
        forall|k: int| 0 <= k < s.len() ==> (#[trigger] s[k]).1.1 > 0,
        c.1 > 0,
    ensures
        coefficient_of(insert_term(s, m, c), m2) == if m2 == m {
            rat_add(coefficient_of(s, m), c)
        } else {
            coefficient_of(s, m2)
        },
{
    lemma_position_facts(s, m);
    lemma_insert_sorted(s, m, c);
    let i = position_of(s, m) as int;
    let r = insert_term(s, m, c);
    let found = i < s.len() && s[i].0 == m;
    let v = rat_add(coefficient_of(s, m), c);
    let j0 = if found {
        i + 1
    } else {
        i
    };
    let mid: int = if v.0 == 0 {
        0
    } else {
        1
    };
    assert(r.len() == i + mid + (s.len() - j0));
    assert forall|k: int| 0 <= k < i implies r[k] == s[k] by {}
    assert forall|k: int| j0 <= k < s.len() implies r[i + mid + (k - j0)] == s[k] by {}
    assert forall|k: int| 0 <= k < s.len() && s[k].0 != m implies k < i || j0 <= k by {
        if k == i && !found {
        }
    }
    if m2 == m {
        if v.0 == 0 {
            assert forall|k: int| 0 <= k < r.len() implies r[k].0 != m by {
                if k < i {
                    lemma_mono_lt_irreflexive(m);
                } else {
                    let kk = k - i + j0;
                    assert(r[k] == s[kk]);
                }
            }
            let cs = coefficient_of(s, m);
            if found {
                lemma_coefficient_at(s, i);
            }
            assert(cs.1 > 0);
            let d: int = (cs.1 * c.1) as int;
            assert(d > 0) by (nonlinear_arith)
                requires
                    cs.1 > 0,
                    c.1 > 0,
                    d == cs.1 * c.1,
            ;
            lemma_normalize_sign(cs.0 * c.1 + c.0 * cs.1, d);
            lemma_normalize_zero(d);
        } else {
            assert(r[i] == (m, v));
            lemma_coefficient_at(r, i);
        }
    } else {
        if exists|k: int| 0 <= k < s.len() && s[k].0 == m2 {
            let k = choose|k: int| 0 <= k < s.len() && s[k].0 == m2;
            lemma_coefficient_at(s, k);
            if k < i {
                lemma_coefficient_at(r, k);
            } else {
                lemma_coefficient_at(r, i + mid + (k - j0));
            }
        } else {
            assert forall|k: int| 0 <= k < r.len() implies r[k].0 != m2 by {
                if k < i {
                } else if k < i + mid {
                } else {
                    let kk = k - i - mid + j0;
                    assert(r[k] == s[kk]);
                }
            }
        }
    }
}

/// A zero numerator normalizes to the fraction zero.
pub proof fn lemma_normalize_zero(d: int)
    requires
        d > 0,
    ensures
        normalize(0, d) == rat_zero(),
{
    assert(gcd(d as nat, 0) == d);
    assert(gcd(0, d as nat) == d);
    assert(abs(0) == 0);
    assert(abs(d) == d);
    assert(d / d == 1) by (nonlinear_arith)
        requires
            d > 0,
    ;
    assert(0int / d == 0) by (nonlinear_arith)
        requires
            d > 0,
    ;
}

/// The decimal digit `d < 10` as text.
fn digit_text(d: usize) -> (s: &'static str)
    requires
        d < 10,
    ensures
        s@ == seq![digit_char(d as nat)],
{
    proof {
        reveal_strlit("0");
        reveal_strlit("1");
        reveal_strlit("2");
        reveal_strlit("3");
        reveal_strlit("4");
        reveal_strlit("5");
        reveal_strlit("6");
        reveal_strlit("7");
        reveal_strlit("8");
        reveal_strlit("9");
    }
    if d == 0 {
        "0"
    } else if d == 1 {
        "1"
    } else if d == 2 {
        "2"
    } else if d == 3 {
        "3"
    } else if d == 4 {
        "4"
    } else if d == 5 {
        "5"
    } else if d == 6 {
        "6"
    } else if d == 7 {
        "7"
    } else if d == 8 {
        "8"
    } else {
        "9"
    }
}

/// The decimal text of `n`.
pub fn decimal_string(n: usize) -> (s: String)
    ensures
        s@ == decimal(n as nat),
    decreases n,
{
    if n < 10 {
        String::from_str(digit_text(n))
    } else {
        let mut s = decimal_string(n / 10);
        s.append(digit_text(n % 10));
        s
    }
}

/// Inserts `x` into a strictly increasing list unless it is already there.
#[verifier::spinoff_prover]
pub(crate) fn insert_sorted_unique(vs: &mut Vec<usize>, x: usize)
    requires
        strictly_increasing(old(vs)@),
    ensures
        strictly_increasing(final(vs)@),
        forall|v: usize| final(vs)@.contains(v) <==> (old(vs)@.contains(v) || v == x),
{
    let mut i: usize = 0;
    while i < vs.len() && vs[i] < x
        invariant
            vs@ == old(vs)@,
            strictly_increasing(vs@),
            i <= vs@.len(),
            forall|k: int| 0 <= k < i ==> vs@[k] < x,
        decreases vs@.len() - i,
    {
        i = i + 1;
    }
    if i < vs.len() && vs[i] == x {
        assert(vs@[i as int] == x);
        assert(vs@.contains(x));
        return;
    }
    let ghost before = vs@;
    assert(before == old(vs)@);
    vs.insert(i, x);
    proof {
        assert(vs@ == before.insert(i as int, x));
        assert forall|a: int, b: int| 0 <= a < b < vs@.len() implies vs@[a] < vs@[b] by {
            if b < i {
            } else if a < i && b == i {
            } else if a < i {
                assert(vs@[b] == before[b - 1]);
                if i < before.len() {
                    assert(before[i as int] > x);
                }
            } else if a == i {
                assert(vs@[b] == before[b - 1]);
                assert(before[i as int] > x);
                if b - 1 > i {
                    assert(before[i as int] < before[b - 1]);
                }
            } else {
                assert(vs@[a] == before[a - 1] && vs@[b] == before[b - 1]);
            }
        }
        assert forall|v: usize| vs@.contains(v) <==> (before.contains(v) || v == x) by {
            if before.contains(v) {
                let k = choose|k: int| 0 <= k < before.len() && before[k] == v;
                if k < i {
                    assert(vs@[k] == v);
                } else {
                    assert(vs@[k + 1] == v);
                }
                assert(vs@.contains(v));
            }
            if v == x {
                assert(vs@[i as int] == x);
                assert(vs@.contains(v));
            }
            if vs@.contains(v) {
                let k = choose|k: int| 0 <= k < vs@.len() && vs@[k] == v;
                if k < i {
                    assert(before[k] == v);
                    assert(before.contains(v));
                } else if k > i {
                    assert(before[k - 1] == v);
                    assert(before.contains(v));
                }
            }
        }
    }
}

/// The largest exponent bounds every exponent of every term.
pub proof fn lemma_max_exponent_bounds(s: Seq<TermView>)
    ensures
        exponents_bounded(s, max_exponent(s)),
    decreases s.len(),
{
    if s.len() > 0 {
        let t = s.drop_last();
        lemma_max_exponent_bounds(t);
        lemma_power_max_bounds(s.last().0);
        assert forall|i: int| 0 <= i < s.len() implies powers_bounded(
            (#[trigger] s[i]).0,
            max_exponent(s),
        ) by {
            if i < s.len() - 1 {
                assert(t[i] == s[i]);
                assert(powers_bounded(t[i].0, max_exponent(t)));
            }
        }
    }
}

/// Bounds on the exponents whose sum fits make a product fit.
pub proof fn lemma_bounded_mul_fits(a: Seq<TermView>, b: Seq<TermView>, ka: nat, kb: nat)
    requires
        exponents_bounded(a, ka),
        exponents_bounded(b, kb),
        ka + kb <= usize::MAX,
    ensures
        mul_fits(a, b),
{
    assert forall|i: int, j: int| 0 <= i < a.len() && 0 <= j < b.len() implies mono_mul_fits(
        (#[trigger] a[i]).0,
        (#[trigger] b[j]).0,
    ) by {
        let x = a[i].0;
        let y = b[j].0;
        assert(powers_bounded(x, ka));
        assert(powers_bounded(y, kb));
        assert forall|p: int, q: int|
            0 <= p < x.len() && 0 <= q < y.len() && #[trigger] x[p].0 == #[trigger] y[q].0 implies x[p].1
            + y[q].1 <= usize::MAX by {
            assert(x[p].1 <= ka);
            assert(y[q].1 <= kb);
        }
    }
}

/// Adding a term with bounded exponents keeps the terms bounded.
pub proof fn lemma_insert_bounded(s: Seq<TermView>, m: Seq<(usize, usize)>, c: (int, nat), k: nat)
    requires
        exponents_bounded(s, k),
        powers_bounded(m, k),
    ensures
        exponents_bounded(insert_term(s, m, c), k),
{
    let r = insert_term(s, m, c);
    let i = position_of(s, m) as int;
    lemma_position_of_bound(s, m);
    let found = i < s.len() && s[i].0 == m;
    let v = rat_add(coefficient_of(s, m), c);
    let j0 = if found {
        i + 1
    } else {
        i
    };
    let mid: int = if v.0 == 0 {
        0
    } else {
        1
    };
    assert forall|a: int| 0 <= a < r.len() implies powers_bounded((#[trigger] r[a]).0, k) by {
        if a < i {
            assert(r[a] == s[a]);
        } else if a >= i + mid {
            assert(r[a] == s[a - i - mid + j0]);
        }
    }
}

/// A product of terms bounded by `ka` and `kb` is bounded by `ka + kb`.
pub proof fn lemma_mul_terms_bounded(a: Seq<TermView>, b: Seq<TermView>, ka: nat, kb: nat)
    requires
        exponents_bounded(a, ka),
        exponents_bounded(b, kb),
        mul_fits(a, b),
    ensures
        exponents_bounded(mul_terms(a, b), ka + kb),
    decreases a.len(),
{
    if a.len() > 0 {
        let a1 = a.drop_last();
        assert(exponents_bounded(a1, ka)) by {
            assert forall|i: int| 0 <= i < a1.len() implies powers_bounded((#[trigger] a1[i]).0, ka) by {
                assert(a1[i] == a[i]);
            }
        }
        assert(mul_fits(a1, b)) by {
            assert forall|i: int, j: int| 0 <= i < a1.len() && 0 <= j < b.len() implies mono_mul_fits(
                (#[trigger] a1[i]).0,
                (#[trigger] b[j]).0,
            ) by {
                assert(a1[i] == a[i]);
            }
        }
        lemma_mul_terms_bounded(a1, b, ka, kb);
        lemma_add_row_bounded(mul_terms(a1, b), a.last(), b, ka, kb);
    }
}

/// Adding the products of one term with another list keeps a bound.
pub proof fn lemma_add_row_bounded(
    acc: Seq<TermView>,
    t: TermView,
    b: Seq<TermView>,
    ka: nat,
    kb: nat,
)
    requires
        exponents_bounded(acc, ka + kb),
        powers_bounded(t.0, ka),
        exponents_bounded(b, kb),
        forall|j: int| 0 <= j < b.len() ==> mono_mul_fits(t.0, (#[trigger] b[j]).0),
    ensures
        exponents_bounded(add_row(acc, t, b), ka + kb),
    decreases b.len(),
{
    if b.len() > 0 {
        let b1 = b.drop_last();
        assert(exponents_bounded(b1, kb)) by {
            assert forall|i: int| 0 <= i < b1.len() implies powers_bounded((#[trigger] b1[i]).0, kb) by {
                assert(b1[i] == b[i]);
            }
        }
        assert forall|j: int| 0 <= j < b1.len() implies mono_mul_fits(t.0, (#[trigger] b1[j]).0) by {
            assert(b1[j] == b[j]);
        }
        lemma_add_row_bounded(acc, t, b1, ka, kb);
        let u = b.last();
        assert(mono_mul_fits(t.0, b[b.len() - 1].0));
        lemma_mono_mul_bounded(t.0, u.0, ka, kb);
        lemma_insert_bounded(
            add_row(acc, t, b1),
            mono_mul(t.0, u.0),
            rat_mul(t.1, u.1),
            ka + kb,
        );
    }
}

/// Adding a well-formed term with a reduced coefficient keeps terms
/// canonical.
pub proof fn lemma_insert_canonical(s: Seq<TermView>, m: Seq<(usize, usize)>, c: (int, nat))
    requires
        terms_canonical(s),
        powers_wf(m),
        rat_reduced(c),
    ensures
        terms_canonical(insert_term(s, m, c)),
{
    lemma_insert_sorted(s, m, c);
    lemma_position_of_bound(s, m);
    let r = insert_term(s, m, c);
    let i = position_of(s, m) as int;
    let found = i < s.len() && s[i].0 == m;
    let cs = coefficient_of(s, m);
    lemma_coefficient_reduced(s, m);
    let v = rat_add(cs, c);
    let d: int = (cs.1 * c.1) as int;
    assert(d > 0) by (nonlinear_arith)
        requires
            cs.1 > 0,
            c.1 > 0,
            d == cs.1 * c.1,
    ;
    crate::rational::lemma_normalize_reduced(cs.0 * c.1 + c.0 * cs.1, d);
    let j0 = if found {
        i + 1
    } else {
        i
    };
    let mid: int = if v.0 == 0 {
        0
    } else {
        1
    };
    assert forall|a: int| 0 <= a < r.len() implies {
        &&& powers_wf((#[trigger] r[a]).0)
        &&& rat_reduced(r[a].1)
        &&& r[a].1.0 != 0
    } by {
        if a < i {
            assert(r[a] == s[a]);
        } else if a < i + mid {
            assert(r[a] == (m, v));
        } else {
            assert(r[a] == s[a - i - mid + j0]);
        }
    }
}

/// The terms and coefficients of a sum of canonical terms.
pub proof fn lemma_add_terms(a: Seq<TermView>, b: Seq<TermView>)
    requires
        terms_canonical(a),
        terms_canonical(b),
    ensures
        terms_canonical(add_terms(a, b)),
        forall|m: Seq<(usize, usize)>|
            #[trigger] coefficient_of(add_terms(a, b), m) == rat_add(
                coefficient_of(a, m),
                coefficient_of(b, m),
            ),
    decreases b.len(),
{
    if b.len() == 0 {
        assert forall|m: Seq<(usize, usize)>|
            #[trigger] coefficient_of(add_terms(a, b), m) == rat_add(
                coefficient_of(a, m),
                coefficient_of(b, m),
            ) by {
            lemma_coefficient_reduced(a, m);
            lemma_add_zero_right(coefficient_of(a, m));
        }
    } else {
        let b1 = b.drop_last();
        let t = b.last();
        assert(b1.push(t) =~= b);
        assert(terms_canonical(b1)) by {
            lemma_sorted_prefix(b, b1.len() as int);
            assert(b.take(b1.len() as int) =~= b1);
            assert forall|i: int| 0 <= i < b1.len() implies {
                &&& powers_wf((#[trigger] b1[i]).0)
                &&& rat_reduced(b1[i].1)
                &&& b1[i].1.0 != 0
            } by {
                assert(b1[i] == b[i]);
            }
        }
        lemma_add_terms(a, b1);
        let prev = add_terms(a, b1);
        assert(b[b.len() - 1] == t);
        lemma_insert_canonical(prev, t.0, t.1);
        assert forall|m: Seq<(usize, usize)>|
            #[trigger] coefficient_of(add_terms(a, b), m) == rat_add(
                coefficient_of(a, m),
                coefficient_of(b, m),
            ) by {
            lemma_insert_coefficient(prev, t.0, t.1, m);
            if m == t.0 {
                lemma_coefficient_at(b, b.len() - 1);
                assert forall|k: int| 0 <= k < b1.len() implies b1[k].0 != m by {
                    assert(mono_lt(b[k].0, b[b.len() - 1].0));
                    lemma_mono_lt_irreflexive(m);
                }
                lemma_coefficient_reduced(a, m);
                lemma_add_zero_right(coefficient_of(a, m));
            } else {
                lemma_coefficient_push(b1, t, m);
            }
        }
    }
}

/// Canonical terms with the same coefficients are the same terms.
pub proof fn lemma_canonical_unique(s: Seq<TermView>, t: Seq<TermView>)
    requires
        terms_canonical(s),
        terms_canonical(t),
        forall|m: Seq<(usize, usize)>| #[trigger] coefficient_of(s, m) == coefficient_of(t, m),
    ensures
        s == t,
    decreases s.len() + t.len(),
{
    if s.len() == 0 && t.len() == 0 {
        assert(s =~= t);
    } else if s.len() == 0 {
        lemma_coefficient_at(t, 0);
        assert(coefficient_of(s, t[0].0) == coefficient_of(t, t[0].0));
    } else if t.len() == 0 {
        lemma_coefficient_at(s, 0);
        assert(coefficient_of(s, s[0].0) == coefficient_of(t, s[0].0));
    } else {
        let x = s[0].0;
        let y = t[0].0;
        lemma_coefficient_at(s, 0);
        lemma_coefficient_at(t, 0);
        assert(coefficient_of(s, x) == coefficient_of(t, x));
        assert(coefficient_of(s, y) == coefficient_of(t, y));
        assert(exists|k: int| 0 <= k < t.len() && t[k].0 == x);
        assert(exists|l: int| 0 <= l < s.len() && s[l].0 == y);
        let k = choose|k: int| 0 <= k < t.len() && t[k].0 == x;
        let l = choose|l: int| 0 <= l < s.len() && s[l].0 == y;
        if k > 0 {
            assert(mono_lt(y, x));
            if l > 0 {
                assert(mono_lt(x, y));
                lemma_mono_lt_asymmetric(x, y);
            } else {
                lemma_mono_lt_irreflexive(x);
            }
        }
        if l > 0 {
            assert(mono_lt(x, y));
            lemma_mono_lt_irreflexive(x);
        }
        assert(x == y);
        let s1 = s.drop_first();
        let t1 = t.drop_first();
        lemma_canonical_tail(s);
        lemma_canonical_tail(t);
        assert forall|m: Seq<(usize, usize)>| #[trigger] coefficient_of(s1, m) == coefficient_of(
            t1,
            m,
        ) by {
            lemma_coefficient_tail(s, m);
            lemma_coefficient_tail(t, m);
        }
        lemma_canonical_unique(s1, t1);
        assert(s =~= seq![s[0]] + s1);
        assert(t =~= seq![t[0]] + t1);
    }
}

/// The tail of canonical terms is canonical.
pub proof fn lemma_canonical_tail(s: Seq<TermView>)
    requires
        terms_canonical(s),
        s.len() > 0,
    ensures
        terms_canonical(s.drop_first()),
{
    let s1 = s.drop_first();
    assert forall|a: int, b: int| 0 <= a < b < s1.len() implies mono_lt(s1[a].0, s1[b].0) by {
        assert(s1[a] == s[a + 1] && s1[b] == s[b + 1]);
    }
    assert forall|i: int| 0 <= i < s1.len() implies {
        &&& powers_wf((#[trigger] s1[i]).0)
        &&& rat_reduced(s1[i].1)
        &&& s1[i].1.0 != 0
    } by {
        assert(s1[i] == s[i + 1]);
    }
}

/// The tail's coefficients: that of the first monomial is zero, the others
/// stay.
pub proof fn lemma_coefficient_tail(s: Seq<TermView>, m: Seq<(usize, usize)>)
    requires
        terms_canonical(s),
        s.len() > 0,
    ensures
        coefficient_of(s.drop_first(), m) == if m == s[0].0 {
            rat_zero()
        } else {
            coefficient_of(s, m)
        },
{
    let s1 = s.drop_first();
    lemma_canonical_tail(s);
    if m == s[0].0 {
        assert forall|k: int| 0 <= k < s1.len() implies s1[k].0 != m by {
            assert(s1[k] == s[k + 1]);
            assert(mono_lt(s[0].0, s[k + 1].0));
            lemma_mono_lt_irreflexive(m);
        }
    } else {
        if exists|k: int| 0 <= k < s.len() && s[k].0 == m {
            let k = choose|k: int| 0 <= k < s.len() && s[k].0 == m;
            lemma_coefficient_at(s, k);
            assert(s1[k - 1] == s[k]);
            lemma_coefficient_at(s1, k - 1);
        } else {
            assert forall|k: int| 0 <= k < s1.len() implies s1[k].0 != m by {
                assert(s1[k] == s[k + 1]);
            }
        }
    }
}

/// Sums of reduced fractions commute.
pub proof fn lemma_rat_add_commutes(x: (int, nat), y: (int, nat))
    ensures
        rat_add(x, y) == rat_add(y, x),
{
    assert(x.0 * y.1 + y.0 * x.1 == y.0 * x.1 + x.0 * y.1);
    assert(x.1 * y.1 == y.1 * x.1) by (nonlinear_arith);
}

/// Addition of polynomials is commutative: `a + b` and `b + a` have the same
/// terms.
pub proof fn law_add_commutative(a: Seq<TermView>, b: Seq<TermView>)
    requires
        terms_canonical(a),
        terms_canonical(b),
    ensures
        add_terms(a, b) == add_terms(b, a),
{
    lemma_add_terms(a, b);
    lemma_add_terms(b, a);
    assert forall|m: Seq<(usize, usize)>| #[trigger] coefficient_of(add_terms(a, b), m)
        == coefficient_of(add_terms(b, a), m) by {
        lemma_rat_add_commutes(coefficient_of(a, m), coefficient_of(b, m));
    }
    lemma_canonical_unique(add_terms(a, b), add_terms(b, a));
}

/// Zero is the identity of addition on either side.
pub proof fn law_add_zero(a: Seq<TermView>)
    requires
        terms_canonical(a),
    ensures
        add_terms(a, Seq::<TermView>::empty()) == a,
        add_terms(Seq::<TermView>::empty(), a) == a,
{
    let z = Seq::<TermView>::empty();
    lemma_add_terms(z, a);
    assert forall|m: Seq<(usize, usize)>| #[trigger] coefficient_of(add_terms(z, a), m)
        == coefficient_of(a, m) by {
        lemma_coefficient_reduced(a, m);
        lemma_add_zero_left(coefficient_of(a, m));
    }
    lemma_canonical_unique(add_terms(z, a), a);
}

/// A polynomial minus itself is zero: `a + (-a)` has no terms.
pub proof fn law_sub_self(a: Seq<TermView>)
    requires
        terms_canonical(a),
    ensures
        add_terms(a, negate_terms(a)) == Seq::<TermView>::empty(),
{
    let n = negate_terms(a);
    assert(terms_canonical(n)) by {
        assert forall|i: int| 0 <= i < n.len() implies {
            &&& powers_wf((#[trigger] n[i]).0)
            &&& rat_reduced(n[i].1)
            &&& n[i].1.0 != 0
        } by {
            assert(abs(-a[i].1.0) == abs(a[i].1.0));
        }
    }
    lemma_add_terms(a, n);
    let z = Seq::<TermView>::empty();
    assert forall|m: Seq<(usize, usize)>| #[trigger] coefficient_of(add_terms(a, n), m)
        == coefficient_of(z, m) by {
        lemma_coefficient_negated(a, m);
        let x = coefficient_of(a, m);
        lemma_coefficient_reduced(a, m);
        assert(x.0 * x.1 + (-x.0) * x.1 == 0) by (nonlinear_arith);
        let d: int = (x.1 * x.1) as int;
        assert(d > 0) by (nonlinear_arith)
            requires
                x.1 > 0,
                d == x.1 * x.1,
        ;
        lemma_normalize_zero(d);
    }
    lemma_canonical_unique(add_terms(a, n), z);
}

/// A sum of terms bounded by `k` is bounded by `k`.
pub proof fn lemma_add_terms_bounded(a: Seq<TermView>, b: Seq<TermView>, k: nat)
    requires
        exponents_bounded(a, k),
        exponents_bounded(b, k),
    ensures
        exponents_bounded(add_terms(a, b), k),
    decreases b.len(),
{
    if b.len() > 0 {
        let b1 = b.drop_last();
        assert(exponents_bounded(b1, k)) by {
            assert forall|i: int| 0 <= i < b1.len() implies powers_bounded((#[trigger] b1[i]).0, k) by {
                assert(b1[i] == b[i]);
            }
        }
        lemma_add_terms_bounded(a, b1, k);
        assert(powers_bounded(b[b.len() - 1].0, k));
        lemma_insert_bounded(add_terms(a, b1), b.last().0, b.last().1, k);
    }
}

/// Negating keeps every monomial.
pub proof fn lemma_negate_bounded(a: Seq<TermView>, k: nat)
    requires
        exponents_bounded(a, k),
    ensures
        exponents_bounded(negate_terms(a), k),
{
    let n = negate_terms(a);
    assert forall|i: int| 0 <= i < n.len() implies powers_bounded((#[trigger] n[i]).0, k) by {
        assert(n[i].0 == a[i].0);
    }
}

/// Coefficients in a variable keep a bound.
pub proof fn lemma_coefficient_in_bounded(s: Seq<TermView>, v: usize, d: usize, k: nat)
    requires
        exponents_bounded(s, k),
    ensures
        exponents_bounded(coefficient_in_terms(s, v, d), k),
    decreases s.len(),
{
    if s.len() > 0 {
        let s1 = s.drop_last();
        assert(exponents_bounded(s1, k)) by {
            assert forall|i: int| 0 <= i < s1.len() implies powers_bounded((#[trigger] s1[i]).0, k) by {
                assert(s1[i] == s[i]);
            }
        }
        lemma_coefficient_in_bounded(s1, v, d, k);
        assert(powers_bounded(s[s.len() - 1].0, k));
        lemma_set_exponent_bounded(s.last().0, v, 0, k);
        lemma_insert_bounded(
            coefficient_in_terms(s1, v, d),
            set_exponent(s.last().0, v, 0),
            s.last().1,
            k,
        );
    }
}

/// A derivative keeps a bound.
pub proof fn lemma_derivative_bounded(s: Seq<TermView>, v: usize, k: nat)
    requires
        exponents_bounded(s, k),
        forall|i: int| 0 <= i < s.len() ==> powers_wf((#[trigger] s[i]).0),
    ensures
        exponents_bounded(derivative_terms(s, v), k),
    decreases s.len(),
{
    if s.len() > 0 {
        let s1 = s.drop_last();
        assert(exponents_bounded(s1, k)) by {
            assert forall|i: int| 0 <= i < s1.len() implies powers_bounded((#[trigger] s1[i]).0, k) by {
                assert(s1[i] == s[i]);
            }
        }
        assert forall|i: int| 0 <= i < s1.len() implies powers_wf((#[trigger] s1[i]).0) by {
            assert(s1[i] == s[i]);
        }
        lemma_derivative_bounded(s1, v, k);
        let t = s.last();
        assert(powers_bounded(s[s.len() - 1].0, k));
        assert(powers_wf(s[s.len() - 1].0));
        let e = exponent_of(t.0, v);
        if e > 0 {
            lemma_exponent_bounded(t.0, v, k);
            lemma_set_exponent_bounded(t.0, v, (e - 1) as usize, k);
            lemma_insert_bounded(
                derivative_terms(s1, v),
                set_exponent(t.0, v, (e - 1) as usize),
                rat_mul(t.1, rat_int(e as int)),
                k,
            );
        }
    }
}

/// An exponent of a bounded power list is within the bound.
pub proof fn lemma_exponent_bounded(p: Seq<(usize, usize)>, v: usize, k: nat)
    requires
        powers_bounded(p, k),
    ensures
        exponent_of(p, v) <= k,
    decreases p.len(),
{
    if p.len() > 0 && p[0].0 != v {
        let q = p.drop_first();
        assert forall|i: int| 0 <= i < q.len() implies (#[trigger] q[i]).1 <= k by {
            assert(q[i] == p[i + 1]);
        }
        lemma_exponent_bounded(q, v, k);
    } else if p.len() > 0 {
        assert(p[0].1 <= k);
    }
}

/// A power of terms bounded by `k` is bounded by `e * k`, and every product
/// on the way fits.
pub proof fn lemma_pow_terms_bounded(s: Seq<TermView>, e: nat, k: nat)
    requires
        exponents_bounded(s, k),
        e * k <= usize::MAX,
    ensures
        exponents_bounded(pow_terms(s, e), e * k),
    decreases e,
{
    if e == 0 {
        assert(exponents_bounded(one_terms(), 0)) by {
            assert forall|i: int| 0 <= i < one_terms().len() implies powers_bounded(
                (#[trigger] one_terms()[i]).0,
                0,
            ) by {
                assert(one_terms()[i].0.len() == 0);
            }
        }
    } else {
        let e1 = (e - 1) as nat;
        assert(e1 * k <= e * k) by (nonlinear_arith)
            requires
                e1 + 1 == e,
        ;
        lemma_pow_terms_bounded(s, e1, k);
        assert(e1 * k + k == e * k) by (nonlinear_arith)
            requires
                e1 + 1 == e,
        ;
        lemma_bounded_mul_fits(pow_terms(s, e1), s, e1 * k, k);
        lemma_mul_terms_bounded(pow_terms(s, e1), s, e1 * k, k);
    }
}

/// A bound `k` implies every larger bound.
pub proof fn lemma_bounded_weaken(s: Seq<TermView>, k: nat, k2: nat)
    requires
        exponents_bounded(s, k),
        k <= k2,
    ensures
        exponents_bounded(s, k2),
{
    assert forall|i: int| 0 <= i < s.len() implies powers_bounded((#[trigger] s[i]).0, k2) by {
        let p = s[i].0;
        assert(powers_bounded(p, k));
        assert forall|j: int| 0 <= j < p.len() implies (#[trigger] p[j]).1 <= k2 by {
            assert(p[j].1 <= k);
        }
    }
}

/// The largest exponent is within any bound of the exponents.
pub proof fn lemma_max_exponent_le(s: Seq<TermView>, k: nat)
    requires
        exponents_bounded(s, k),
    ensures
        max_exponent(s) <= k,
    decreases s.len(),
{
    if s.len() > 0 {
        let s1 = s.drop_last();
        assert(exponents_bounded(s1, k)) by {
            assert forall|i: int| 0 <= i < s1.len() implies powers_bounded((#[trigger] s1[i]).0, k) by {
                assert(s1[i] == s[i]);
            }
        }
        lemma_max_exponent_le(s1, k);
        assert(powers_bounded(s[s.len() - 1].0, k));
        lemma_power_max_le(s.last().0, k);
    }
}

/// Every term's exponent of `v` is at most `d`.
pub open spec fn degree_bounded(s: Seq<TermView>, v: usize, d: nat) -> bool {
    forall|i: int| 0 <= i < s.len() ==> exponent_of((#[trigger] s[i]).0, v) <= d
}

/// The degree in `v` bounds every exponent of `v`, and is the least bound.
pub proof fn lemma_degree_of(s: Seq<TermView>, v: usize, d: nat)
    ensures
        degree_bounded(s, v, degree_of(s, v)),
        degree_bounded(s, v, d) ==> degree_of(s, v) <= d,
    decreases s.len(),
{
    if s.len() > 0 {
        let s1 = s.drop_last();
        lemma_degree_of(s1, v, d);
        assert forall|i: int| 0 <= i < s.len() implies exponent_of((#[trigger] s[i]).0, v)
            <= degree_of(s, v) by {
            if i < s.len() - 1 {
                assert(s1[i] == s[i]);
            }
        }
        if degree_bounded(s, v, d) {
            assert(degree_bounded(s1, v, d)) by {
                assert forall|i: int| 0 <= i < s1.len() implies exponent_of((#[trigger] s1[i]).0, v)
                    <= d by {
                    assert(s1[i] == s[i]);
                }
            }
            assert(exponent_of(s[s.len() - 1].0, v) <= d);
        }
    }
}

/// Adding a term whose exponent of `v` is at most `d` keeps that bound.
pub proof fn lemma_insert_degree(s: Seq<TermView>, m: Seq<(usize, usize)>, c: (int, nat), v: usize, d: nat)
    requires
        degree_bounded(s, v, d),
        exponent_of(m, v) <= d,
    ensures
        degree_bounded(insert_term(s, m, c), v, d),
{
    let r = insert_term(s, m, c);
    let i = position_of(s, m) as int;
    lemma_position_of_bound(s, m);
    let found = i < s.len() && s[i].0 == m;
    let vv = rat_add(coefficient_of(s, m), c);
    let j0 = if found {
        i + 1
    } else {
        i
    };
    let mid: int = if vv.0 == 0 {
        0
    } else {
        1
    };
    assert forall|a: int| 0 <= a < r.len() implies exponent_of((#[trigger] r[a]).0, v) <= d by {
        if a < i {
            assert(r[a] == s[a]);
        } else if a >= i + mid {
            assert(r[a] == s[a - i - mid + j0]);
        }
    }
}

/// A derivative has no higher degree in `v`.
pub proof fn lemma_derivative_degree(s: Seq<TermView>, v: usize, d: nat)
    requires
        degree_bounded(s, v, d),
        forall|i: int| 0 <= i < s.len() ==> powers_wf((#[trigger] s[i]).0),
    ensures
        degree_bounded(derivative_terms(s, v), v, d),
    decreases s.len(),
{
    if s.len() > 0 {
        let s1 = s.drop_last();
        assert(degree_bounded(s1, v, d)) by {
            assert forall|i: int| 0 <= i < s1.len() implies exponent_of((#[trigger] s1[i]).0, v)
                <= d by {
                assert(s1[i] == s[i]);
            }
        }
        assert forall|i: int| 0 <= i < s1.len() implies powers_wf((#[trigger] s1[i]).0) by {
            assert(s1[i] == s[i]);
        }
        lemma_derivative_degree(s1, v, d);
        let t = s.last();
        assert(powers_wf(s[s.len() - 1].0));
        assert(exponent_of(s[s.len() - 1].0, v) <= d);
        let e = exponent_of(t.0, v);
        if e > 0 {
            crate::monomial::lemma_set_exponent(t.0, v, (e - 1) as usize);
            lemma_insert_degree(
                derivative_terms(s1, v),
                set_exponent(t.0, v, (e - 1) as usize),
                rat_mul(t.1, rat_int(e as int)),
                v,
                d,
            );
        }
    }
}

/// Coefficients of canonical terms are reduced fractions.
pub proof fn lemma_coefficient_reduced(s: Seq<TermView>, m: Seq<(usize, usize)>)
    requires
        terms_canonical(s),
    ensures
        rat_reduced(coefficient_of(s, m)),
{
    if exists|i: int| 0 <= i < s.len() && s[i].0 == m {
        let i = choose|i: int| 0 <= i < s.len() && s[i].0 == m;
        lemma_coefficient_at(s, i);
    } else {
        assert(0nat % 1nat == 0);
        assert(gcd(1, 0) == 1);
        assert(gcd(0, 1) == 1);
    }
}

/// A prefix of sorted terms is sorted.
pub proof fn lemma_sorted_prefix(s: Seq<TermView>, n: int)
    requires
        terms_sorted(s),
        0 <= n <= s.len(),
    ensures
        terms_sorted(s.take(n)),
{
    assert forall|a: int, b: int| 0 <= a < b < s.take(n).len() implies mono_lt(
        s.take(n)[a].0,
        s.take(n)[b].0,
    ) by {
        assert(s.take(n)[a] == s[a] && s.take(n)[b] == s[b]);
    }
}

/// Appending a term of another monomial keeps a coefficient.
pub proof fn lemma_coefficient_push(s: Seq<TermView>, t: TermView, m: Seq<(usize, usize)>)
    requires
        terms_sorted(s.push(t)),
        t.0 != m,
    ensures
        coefficient_of(s.push(t), m) == coefficient_of(s, m),
{
    let u = s.push(t);
    assert(terms_sorted(s)) by {
        assert forall|a: int, b: int| 0 <= a < b < s.len() implies mono_lt(s[a].0, s[b].0) by {
            assert(u[a] == s[a] && u[b] == s[b]);
        }
    }
    if exists|i: int| 0 <= i < s.len() && s[i].0 == m {
        let i = choose|i: int| 0 <= i < s.len() && s[i].0 == m;
        lemma_coefficient_at(s, i);
        assert(u[i] == s[i]);
        lemma_coefficient_at(u, i);
    } else {
        assert forall|k: int| 0 <= k < u.len() implies u[k].0 != m by {
            if k < s.len() {
                assert(u[k] == s[k]);
            }
        }
    }
}

/// Negating the terms negates every coefficient.
pub proof fn lemma_coefficient_negated(s: Seq<TermView>, m: Seq<(usize, usize)>)
    requires
        terms_sorted(s),
    ensures
        coefficient_of(negate_terms(s), m) == rat_neg(coefficient_of(s, m)),
{
    let n = negate_terms(s);
    assert(terms_sorted(n));
    if exists|i: int| 0 <= i < s.len() && s[i].0 == m {
        let i = choose|i: int| 0 <= i < s.len() && s[i].0 == m;
        lemma_coefficient_at(s, i);
        lemma_coefficient_at(n, i);
    } else {
        assert forall|k: int| 0 <= k < n.len() implies n[k].0 != m by {}
    }
}

/// Adding a negated fraction subtracts it.
pub proof fn lemma_add_neg(a: (int, nat), b: (int, nat))
    ensures
        rat_add(a, rat_neg(b)) == rat_sub(a, b),
{
    assert((-b.0) * a.1 == -(b.0 * a.1)) by (nonlinear_arith);
}

/// In sorted terms, the coefficient of a present monomial is its term's.
pub proof fn lemma_coefficient_at(s: Seq<TermView>, i: int)
    requires
        terms_sorted(s),
        0 <= i < s.len(),
    ensures
        coefficient_of(s, s[i].0) == s[i].1,
{
    let j = choose|j: int| 0 <= j < s.len() && s[j].0 == s[i].0;
    assert(0 <= j < s.len() && s[j].0 == s[i].0);
    if j != i {
        lemma_mono_lt_irreflexive(s[i].0);
    }
}

/// The coefficient of a monomial without a term is zero.
pub proof fn lemma_coefficient_absent(s: Seq<TermView>, m: Seq<(usize, usize)>)
    requires
        forall|k: int| 0 <= k < s.len() ==> s[k].0 != m,
    ensures
        coefficient_of(s, m) == rat_zero(),
{
}

/// The index before which every monomial comes before `m` is its position.
pub proof fn lemma_position(s: Seq<TermView>, m: Seq<(usize, usize)>, i: int)
    requires
        terms_sorted(s),
        0 <= i <= s.len(),
        forall|k: int| 0 <= k < i ==> mono_lt(s[k].0, m),
        i == s.len() || !mono_lt(s[i].0, m),
    ensures
        position_of(s, m) == i,
    decreases s.len(),
{
    if s.len() == 0 {
    } else if i == s.len() {
        assert(mono_lt(s.last().0, m));
    } else {
        let last = s.len() - 1;
        if i < last {
            if mono_lt(s[last].0, m) {
                lemma_mono_lt_transitive(s[i].0, s[last].0, m);
            }
        }
        assert(!mono_lt(s.last().0, m));
        let t = s.drop_last();
        assert forall|a: int, b: int| 0 <= a < b < t.len() implies mono_lt(t[a].0, t[b].0) by {
            assert(t[a] == s[a] && t[b] == s[b]);
        }
        assert forall|k: int| 0 <= k < i implies mono_lt(t[k].0, m) by {
            assert(t[k] == s[k]);
        }
        if i < t.len() {
            assert(t[i] == s[i]);
        }
        lemma_position(t, m, i);
    }
}

/// Zero is a left identity of reduced fractions.
pub proof fn lemma_add_zero_left(c: (int, nat))
    requires
        rat_reduced(c),
    ensures
        rat_add(rat_zero(), c) == c,
{
    assert(0 * c.1 + c.0 * 1 == c.0);
    assert(1 * c.1 == c.1);
}

/// Zero is a right identity of reduced fractions.
pub proof fn lemma_add_zero_right(c: (int, nat))
    requires
        rat_reduced(c),
    ensures
        rat_add(c, rat_zero()) == c,
{
    assert(c.0 * 1 + 0 * c.1 == c.0);
    assert(c.1 * 1 == c.1);
}


/// The monomial `x_v ^ d` (the empty product for `d == 0`).
pub open spec fn power_of(v: usize, d: int) -> Seq<(usize, usize)> {
    if d == 0 {
        Seq::empty()
    } else {
        seq![(v, d as usize)]
    }
}

/// The terms of a univariate polynomial in `x_v`: `c * x_v ^ d` for every
/// nonzero coefficient `c` of degree `d`, by increasing degree.
pub open spec fn univariate_terms(s: Seq<(int, nat)>, v: usize) -> Seq<TermView>
    decreases s.len(),
{
    if s.len() == 0 {
        Seq::empty()
    } else {
        let prev = univariate_terms(s.drop_last(), v);
        if s.last().0 == 0 {
            prev
        } else {
            prev.push((power_of(v, s.len() - 1), s.last()))
        }
    }
}

/// The terms of a univariate polynomial have degrees below its length, in
/// increasing order.
proof fn lemma_univariate_terms(s: Seq<(int, nat)>, v: usize)
    requires
        s.len() <= usize::MAX,
    ensures
        forall|i: int|
            0 <= i < univariate_terms(s, v).len() ==> exists|d: int|
                0 <= d < s.len() && #[trigger] univariate_terms(s, v)[i] == (power_of(v, d), s[d])
                    && s[d].0 != 0,
        forall|i: int, j: int|
            0 <= i < j < univariate_terms(s, v).len() ==> mono_lt(
                univariate_terms(s, v)[i].0,
                univariate_terms(s, v)[j].0,
            ),
        forall|i: int|
            0 <= i < univariate_terms(s, v).len() ==> mono_lt(
                #[trigger] univariate_terms(s, v)[i].0,
                power_of(v, s.len() as int),
            ),
    decreases s.len(),
{
    if s.len() > 0 {
        let t = s.drop_last();
        lemma_univariate_terms(t, v);
        let prev = univariate_terms(t, v);
        let n = s.len() - 1;
        assert forall|i: int|
            0 <= i < univariate_terms(s, v).len() implies exists|d: int|
                0 <= d < s.len() && #[trigger] univariate_terms(s, v)[i] == (power_of(v, d), s[d])
                    && s[d].0 != 0 by {
            if i < prev.len() {
                let d = choose|d: int|
                    0 <= d < t.len() && #[trigger] prev[i] == (power_of(v, d), t[d]) && t[d].0 != 0;
                assert(univariate_terms(s, v)[i] == prev[i]);
                assert(s[d] == t[d]);
            } else {
                assert(univariate_terms(s, v)[i] == (power_of(v, n), s[n]));
            }
        }
        assert forall|i: int|
            0 <= i < univariate_terms(s, v).len() implies mono_lt(
            #[trigger] univariate_terms(s, v)[i].0,
            power_of(v, s.len() as int),
        ) by {
            let d = choose|d: int|
                0 <= d < s.len() && #[trigger] univariate_terms(s, v)[i] == (power_of(v, d), s[d])
                    && s[d].0 != 0;
            lemma_power_of_lt(v, d, s.len() as int);
        }
        assert forall|i: int, j: int|
            0 <= i < j < univariate_terms(s, v).len() implies mono_lt(
            univariate_terms(s, v)[i].0,
            univariate_terms(s, v)[j].0,
        ) by {
            if j < prev.len() {
                assert(univariate_terms(s, v)[i] == prev[i]);
                assert(univariate_terms(s, v)[j] == prev[j]);
            } else {
                assert(univariate_terms(s, v)[i] == prev[i]);
                assert(univariate_terms(s, v)[j].0 == power_of(v, n));
            }
        }
    }
}

/// Powers of one variable are ordered by their exponent.
proof fn lemma_power_of_lt(v: usize, d: int, e: int)
    requires
        0 <= d < e,
        e <= usize::MAX,
    ensures
        mono_lt(power_of(v, d), power_of(v, e)),
{
    if d > 0 {
        let a = power_of(v, d);
        let b = power_of(v, e);
        assert(a[0] != b[0]);
        assert(crate::monomial::pair_lt(a[0], b[0]));
    }
}

impl Polynomial {
    /// The univariate polynomial `p` as a polynomial in `x_variable`.
    pub fn from_univariate(variable: Variable, polynomial: &crate::algebra::univariate::UnivariatePolynomial) -> (r: Self)
        requires
            polynomial.wf(),
        ensures
            r.wf(),
            r@ == univariate_terms(polynomial@, variable),
    {
        let n = match polynomial.degree() {
            Some(d) => d + 1,
            None => 0,
        };
        let ghost s = polynomial@;
        let mut terms: Vec<(Monomial, Rational)> = Vec::new();
        let mut degree: usize = 0;
        proof {
            polynomial.lemma_wf();
            assert(s.take(0) =~= Seq::<(int, nat)>::empty());
            assert(terms@.map_values(|t: (Monomial, Rational)| (t.0@, t.1@)) =~= Seq::<TermView>::empty());
        }
        while degree < n
            invariant
                polynomial.wf(),
                s == polynomial@,
                n == s.len(),
                degree <= n,
                forall|i: int| 0 <= i < s.len() ==> (#[trigger] s[i]).1 > 0,
                terms@.map_values(|t: (Monomial, Rational)| (t.0@, t.1@)) == univariate_terms(
                    s.take(degree as int),
                    variable,
                ),
                forall|i: int|
                    0 <= i < terms@.len() ==> {
                        &&& (#[trigger] terms@[i]).0.wf()
                        &&& terms@[i].1.wf()
                        &&& terms@[i].1@.0 != 0
                    },
            decreases n - degree,
        {
            let coefficient = polynomial.coefficient(degree);
            let ghost before = terms@;
            proof {
                let t1 = s.take(degree + 1);
                assert(t1.drop_last() =~= s.take(degree as int));
                assert(t1.last() == s[degree as int]);
            }
            if !coefficient.is_zero() {
                let monomial = if degree == 0 {
                    Monomial::one()
                } else {
                    let mut powers: Vec<(usize, usize)> = Vec::new();
                    powers.push((variable, degree));
                    proof {
                        assert(powers@ == seq![(variable, degree)]);
                    }
                    Monomial::from_powers(powers)
                };
                proof {
                    assert(monomial@ == power_of(variable, degree as int));
                }
                terms.push((monomial, coefficient));
                proof {
                    assert(terms@.map_values(|t: (Monomial, Rational)| (t.0@, t.1@)) =~= before.map_values(
                        |t: (Monomial, Rational)| (t.0@, t.1@),
                    ).push((power_of(variable, degree as int), s[degree as int])));
                    assert forall|i: int| 0 <= i < terms@.len() implies {
                        &&& (#[trigger] terms@[i]).0.wf()
                        &&& terms@[i].1.wf()
                        &&& terms@[i].1@.0 != 0
                    } by {
                        if i < before.len() {
                            assert(terms@[i] == before[i]);
                        }
                    }
                }
            }
            degree = degree + 1;
        }
        proof {
            assert(s.take(n as int) =~= s);
            lemma_univariate_terms(s, variable);
        }
        let r = Polynomial { terms };
        proof {
            let v = univariate_terms(s, variable);
            assert(r@ == v);
            assert forall|i: int| 0 <= i < r.terms@.len() implies {
                &&& (#[trigger] r.terms@[i]).0.wf()
                &&& r.terms@[i].1.wf()
                &&& r.terms@[i].1@.0 != 0
            } by {}
        }
        r
    }
}

/// Every coefficient multiplied by `k`.
pub open spec fn scale_terms(s: Seq<TermView>, k: (int, nat)) -> Seq<TermView> {
    s.map_values(|t: TermView| (t.0, rat_mul(t.1, k)))
}

/// The terms other than the one in `m`.
pub open spec fn without_term(s: Seq<TermView>, m: Seq<(usize, usize)>) -> Seq<TermView> {
    s.filter(|t: TermView| t.0 != m)
}

impl Polynomial {
    /// Every coefficient multiplied by the nonzero `factor`.
    pub fn scaled(&self, factor: &Rational) -> (r: Self)
        requires
            self.wf(),
            factor.wf(),
            factor@.0 != 0,
        ensures
            r.wf(),
            r@ == scale_terms(self@, factor@),
    {
        let mut terms: Vec<(Monomial, Rational)> = Vec::new();
        let mut i: usize = 0;
        proof {
            factor.lemma_wf();
        }
        while i < self.terms.len()
            invariant
                self.wf(),
                factor.wf(),
                factor@.0 != 0,
                factor@.1 > 0,
                i <= self.terms@.len(),
                terms@.len() == i,
                forall|k: int|
                    0 <= k < i ==> {
                        &&& (#[trigger] terms@[k]).0@ == self.terms@[k].0@
                        &&& terms@[k].0.wf()
                        &&& terms@[k].1@ == rat_mul(self.terms@[k].1@, factor@)
                        &&& terms@[k].1.wf()
                        &&& terms@[k].1@.0 != 0
                    },
            decreases self.terms@.len() - i,
        {
            let m = self.terms[i].0.duplicate();
            let c = self.terms[i].1.mul(factor);
            proof {
                let a = self.terms@[i as int].1@;
                let b = factor@;
                self.terms@[i as int].1.lemma_wf();
                assert(a.0 * b.0 != 0) by (nonlinear_arith)
                    requires
                        a.0 != 0,
                        b.0 != 0,
                ;
                assert(a.1 * b.1 > 0) by (nonlinear_arith)
                    requires
                        a.1 > 0,
                        b.1 > 0,
                ;
                crate::rational::lemma_normalize_value(a.0 * b.0, (a.1 * b.1) as int);
            }
            terms.push((m, c));
            i = i + 1;
        }
        let p = Polynomial { terms };
        assert(p@ =~= scale_terms(self@, factor@));
        p
    }

    /// The polynomial without its term in `monomial`.
    pub fn without(&self, monomial: &Monomial) -> (r: Self)
        requires
            self.wf(),
        ensures
            r.wf(),
            r@ == without_term(self@, monomial@),
    {
        let mut terms: Vec<(Monomial, Rational)> = Vec::new();
        let mut i: usize = 0;
        let ghost s = self@;
        let ghost pred = |t: TermView| t.0 != monomial@;
        proof {
            reveal(Seq::filter);
            assert(s.take(0).filter(pred) =~= Seq::<TermView>::empty());
            assert(terms@.map_values(|t: (Monomial, Rational)| (t.0@, t.1@)) =~= Seq::<TermView>::empty());
        }
        while i < self.terms.len()
            invariant
                self.wf(),
                s == self@,
                pred == (|t: TermView| t.0 != monomial@),
                i <= self.terms@.len(),
                terms@.map_values(|t: (Monomial, Rational)| (t.0@, t.1@)) == s.take(i as int).filter(pred),
                terms_sorted(terms@.map_values(|t: (Monomial, Rational)| (t.0@, t.1@))),
                forall|j: int, k: int|
                    0 <= j < terms@.len() && i <= k < s.len() ==> mono_lt(
                        (#[trigger] terms@[j]).0@,
                        (#[trigger] s[k]).0,
                    ),
                forall|k: int|
                    0 <= k < terms@.len() ==> {
                        &&& (#[trigger] terms@[k]).0.wf()
                        &&& terms@[k].1.wf()
                        &&& terms@[k].1@.0 != 0
                    },
            decreases self.terms@.len() - i,
        {
            let ghost before = terms@;
            proof {
                reveal(Seq::filter);
                let t1 = s.take(i + 1);
                assert(t1.drop_last() =~= s.take(i as int));
                assert(t1.last() == s[i as int]);
                assert(t1.len() > 0);
                assert(t1.filter(pred) == (if pred(t1.last()) {
                    t1.drop_last().filter(pred).push(t1.last())
                } else {
                    t1.drop_last().filter(pred)
                }));
                assert(s[i as int] == (self.terms@[i as int].0@, self.terms@[i as int].1@));
            }
            if self.terms[i].0.order(monomial) != 0 {
                let m = self.terms[i].0.duplicate();
                let c = self.terms[i].1.duplicate();
                terms.push((m, c));
                proof {
                    assert(pred(s[i as int]));
                    assert(s.take(i + 1).filter(pred) == s.take(i as int).filter(pred).push(s[i as int]));
                    let view = terms@.map_values(|t: (Monomial, Rational)| (t.0@, t.1@));
                    assert(view =~= before.map_values(|t: (Monomial, Rational)| (t.0@, t.1@)).push(s[i as int]));
                    assert forall|j: int, k: int|
                        0 <= j < terms@.len() && i + 1 <= k < s.len() implies mono_lt(
                        (#[trigger] terms@[j]).0@,
                        (#[trigger] s[k]).0,
                    ) by {
                        if j < before.len() {
                            assert(terms@[j] == before[j]);
                        }
                    }
                    assert forall|j: int, k: int| 0 <= j < k < view.len() implies mono_lt(
                        view[j].0,
                        view[k].0,
                    ) by {
                        if k < before.len() {
                            assert(view[j] == before.map_values(|t: (Monomial, Rational)| (t.0@, t.1@))[j]);
                            assert(view[k] == before.map_values(|t: (Monomial, Rational)| (t.0@, t.1@))[k]);
                        } else {
                            assert(terms@[j] == before[j]);
                        }
                    }
                    assert forall|k: int| 0 <= k < terms@.len() implies {
                        &&& (#[trigger] terms@[k]).0.wf()
                        &&& terms@[k].1.wf()
                        &&& terms@[k].1@.0 != 0
                    } by {
                        if k < before.len() {
                            assert(terms@[k] == before[k]);
                        }
                    }
                }
            } else {
                proof {
                    assert(!pred(s[i as int]));
                    assert(s.take(i + 1).filter(pred) == s.take(i as int).filter(pred));
                    assert forall|j: int, k: int|
                        0 <= j < terms@.len() && i + 1 <= k < s.len() implies mono_lt(
                        (#[trigger] terms@[j]).0@,
                        (#[trigger] s[k]).0,
                    ) by {
                        assert(i <= k);
                    }
                }
            }
            i = i + 1;
        }
        proof {
            assert(s.take(i as int) =~= s);
        }
        let r = Polynomial { terms };
        r
    }
}

/// Each term kept by `without_term` is a term of the polynomial, and not
/// the one in `m`.
pub proof fn lemma_without_term_member(s: Seq<TermView>, m: Seq<(usize, usize)>, i: int)
    requires
        0 <= i < without_term(s, m).len(),
    ensures
        without_term(s, m)[i].0 != m,
        exists|k: int| 0 <= k < s.len() && s[k] == #[trigger] without_term(s, m)[i],
    decreases s.len(),
{
    reveal(Seq::filter);
    if s.len() > 0 {
        let rest = without_term(s.drop_last(), m);
        if i < rest.len() {
            lemma_without_term_member(s.drop_last(), m, i);
            let k = choose|k: int| 0 <= k < s.drop_last().len() && s.drop_last()[k] == rest[i];
            assert(s[k] == rest[i]);
            assert(without_term(s, m)[i] == rest[i]);
        } else {
            assert(without_term(s, m)[i] == s.last());
            assert(s[s.len() - 1] == s.last());
        }
    }
}

/// `p - q` is zero exactly when `p == q`.
pub proof fn law_sub_zero_iff_equal(a: Seq<TermView>, b: Seq<TermView>)
    requires
        terms_canonical(a),
        terms_canonical(b),
    ensures
        (add_terms(a, negate_terms(b)).len() == 0) <==> a == b,
{
    if a == b {
        law_sub_self(a);
    }
    if add_terms(a, negate_terms(b)).len() == 0 {
        let n = negate_terms(b);
        assert(terms_canonical(n)) by {
            assert forall|i: int| 0 <= i < n.len() implies {
                &&& powers_wf((#[trigger] n[i]).0)
                &&& rat_reduced(n[i].1)
                &&& n[i].1.0 != 0
            } by {
                assert(abs(-b[i].1.0) == abs(b[i].1.0));
            }
        }
        lemma_add_terms(a, n);
        assert forall|m: Seq<(usize, usize)>| #[trigger] coefficient_of(a, m) == coefficient_of(b, m) by {
            let x = coefficient_of(a, m);
            let y = coefficient_of(b, m);
            lemma_coefficient_negated(b, m);
            lemma_coefficient_reduced(a, m);
            lemma_coefficient_reduced(b, m);
            lemma_add_neg(x, y);
            let sum = add_terms(a, n);
            assert(!(exists|i: int| 0 <= i < sum.len() && sum[i].0 == m));
            assert(coefficient_of(sum, m) == rat_zero());
            assert(rat_sub(x, y) == rat_zero());
            crate::rational::lemma_sub_sign(x, y);
            assert(x.0 * y.1 == y.0 * x.1);
            crate::field::lemma_normalize_to(x, y.0, y.1 as int);
            crate::field::lemma_reduced_normalize(y);
        }
        lemma_canonical_unique(a, b);
    }
}

/// The names given by a sequence of `insert` (or `with`) calls on
/// `VariableNames::new()`.
pub open spec fn names_after(calls: Seq<(usize, Seq<char>)>) -> Map<usize, Seq<char>>
    decreases calls.len(),
{
    if calls.len() == 0 {
        Map::empty()
    } else {
        names_after(calls.drop_last()).insert(calls.last().0, calls.last().1)
    }
}

/// The name given to `v` by the last call that names it, if any.
pub open spec fn last_name(calls: Seq<(usize, Seq<char>)>, v: usize) -> Option<Seq<char>>
    decreases calls.len(),
{
    if calls.len() == 0 {
        None
    } else if calls.last().0 == v {
        Some(calls.last().1)
    } else {
        last_name(calls.drop_last(), v)
    }
}

/// After a sequence of `insert`/`with` calls, a variable's name is the one
/// its last call gave it, or `x` and its index when no call named it.
pub proof fn law_names_after_calls(calls: Seq<(usize, Seq<char>)>, v: usize)
    ensures
        name_text(names_after(calls), v) == match last_name(calls, v) {
            Some(n) => n,
            None => seq!['x'] + decimal(v as nat),
        },
    decreases calls.len(),
{
    if calls.len() > 0 {
        law_names_after_calls(calls.drop_last(), v);
    }
}

} // verus!
