//! Values of coefficient lists and the division identity: dividing `a` by
//! `b` gives a quotient `q` and a remainder `r` with `a = q * b + r` at
//! every point.  Sums, differences and negations of coefficient lists
//! have the sum, difference and negation of the values.
use crate::algebra::univariate::{
    coefficient_at, difference_coefficients, division_step, negated_coefficients, sum_coefficients, lemma_division_step, lemma_trim,
    long_division, poly_value, quotient_length, quotient_remainder, trim, trimmed, CoefficientsView,
};
use crate::field::{
    lemma_add_associative, lemma_add_neg_cancel, lemma_add_value, lemma_distributive,
    lemma_mul_associative, lemma_mul_commutative, lemma_mul_one, lemma_mul_value, lemma_mul_zero,
    lemma_neg_add, lemma_neg_mul, lemma_sub_as_add, lemma_zero_reduced,
};
use crate::polynomial::{lemma_add_zero_left, lemma_add_zero_right, lemma_rat_add_commutes, rat_reduced};
use crate::rational::{abs, rat_add, rat_div, rat_mul, rat_neg, rat_pow, rat_sub, rat_zero};
use vstd::prelude::*;

verus! {

/// Every coefficient is in lowest terms.
pub open spec fn all_reduced(s: CoefficientsView) -> bool {
    forall|i: int| 0 <= i < s.len() ==> rat_reduced(#[trigger] s[i])
}

/// The coefficients from degree one on, lowered by one degree.
pub open spec fn shifted(s: CoefficientsView) -> CoefficientsView {
    if s.len() > 0 {
        s.drop_first()
    } else {
        s
    }
}

/// `k` zero coefficients.
pub open spec fn zeros(k: nat) -> CoefficientsView {
    Seq::new(k, |i: int| rat_zero())
}

/// A coefficient of reduced coefficients is reduced.
proof fn lemma_coefficient_reduced(s: CoefficientsView, i: int)
    requires
        all_reduced(s),
    ensures
        rat_reduced(coefficient_at(s, i)),
{
    lemma_zero_reduced(rat_zero());
}

/// The value of reduced coefficients is in lowest terms.
pub proof fn lemma_value_reduced(s: CoefficientsView, x: (int, nat))
    requires
        all_reduced(s),
        x.1 > 0,
    ensures
        rat_reduced(poly_value(s, x)),
    decreases s.len(),
{
    lemma_zero_reduced(rat_zero());
    if s.len() > 0 {
        let t = s.drop_first();
        assert(all_reduced(t)) by {
            assert forall|i: int| 0 <= i < t.len() implies rat_reduced(#[trigger] t[i]) by {
                assert(t[i] == s[i + 1]);
            }
        }
        lemma_value_reduced(t, x);
        lemma_mul_value(poly_value(t, x), x);
        assert(rat_reduced(s[0]));
        lemma_add_value(rat_mul(poly_value(t, x), x), s[0]);
    }
}

/// Lowering by one degree keeps reduced coefficients and moves each
/// coefficient down.
proof fn lemma_shifted(s: CoefficientsView)
    requires
        all_reduced(s),
    ensures
        all_reduced(shifted(s)),
        shifted(s).len() == if s.len() > 0 {
            s.len() - 1
        } else {
            0
        },
        forall|i: int| i >= 0 ==> #[trigger] coefficient_at(shifted(s), i) == coefficient_at(s, i + 1),
{
    let t = shifted(s);
    if s.len() > 0 {
        assert forall|i: int| 0 <= i < t.len() implies rat_reduced(#[trigger] t[i]) by {
            assert(t[i] == s[i + 1]);
        }
    }
}

/// Horner's rule holds of every list, the empty one included.
proof fn lemma_horner(s: CoefficientsView, x: (int, nat))
    requires
        all_reduced(s),
        x.1 > 0,
    ensures
        poly_value(s, x) == rat_add(rat_mul(poly_value(shifted(s), x), x), coefficient_at(s, 0)),
{
    if s.len() == 0 {
        lemma_zero_reduced(rat_zero());
        lemma_mul_zero(x, rat_zero());
        lemma_add_zero_left(rat_zero());
    }
}

/// Rearranging a sum of four fractions with positive denominators.
pub proof fn lemma_add_four(u: (int, nat), v: (int, nat), r: (int, nat), s: (int, nat))
    requires
        u.1 > 0,
        v.1 > 0,
        r.1 > 0,
        s.1 > 0,
    ensures
        rat_add(rat_add(u, v), rat_add(r, s)) == rat_add(rat_add(u, r), rat_add(v, s)),
{
    lemma_add_value(u, v);
    lemma_add_value(r, s);
    lemma_add_value(v, r);
    lemma_add_value(r, v);
    lemma_add_value(v, s);
    lemma_add_value(u, r);
    lemma_add_associative(u, v, rat_add(r, s));
    lemma_add_associative(v, r, s);
    lemma_rat_add_commutes(v, r);
    lemma_add_associative(r, v, s);
    lemma_add_associative(u, r, rat_add(v, s));
}

/// The value of coefficientwise sums is the sum of the values.
pub proof fn lemma_value_pointwise_add(
    a: CoefficientsView,
    b: CoefficientsView,
    c: CoefficientsView,
    x: (int, nat),
)
    requires
        all_reduced(a),
        all_reduced(b),
        x.1 > 0,
        c.len() >= a.len(),
        c.len() >= b.len(),
        forall|i: int| 0 <= i < c.len() ==> #[trigger] c[i] == rat_add(coefficient_at(a, i), coefficient_at(b, i)),
    ensures
        poly_value(c, x) == rat_add(poly_value(a, x), poly_value(b, x)),
    decreases c.len(),
{
    lemma_zero_reduced(rat_zero());
    if c.len() == 0 {
        lemma_add_zero_left(rat_zero());
    } else {
        let a1 = shifted(a);
        let b1 = shifted(b);
        let c1 = c.drop_first();
        lemma_shifted(a);
        lemma_shifted(b);
        assert forall|i: int| 0 <= i < c1.len() implies #[trigger] c1[i] == rat_add(
            coefficient_at(a1, i),
            coefficient_at(b1, i),
        ) by {
            assert(c1[i] == c[i + 1]);
            assert(coefficient_at(a1, i) == coefficient_at(a, i + 1));
            assert(coefficient_at(b1, i) == coefficient_at(b, i + 1));
        }
        lemma_value_pointwise_add(a1, b1, c1, x);
        lemma_horner(a, x);
        lemma_horner(b, x);
        assert(c[0] == rat_add(coefficient_at(a, 0), coefficient_at(b, 0)));
        let pa = poly_value(a1, x);
        let pb = poly_value(b1, x);
        lemma_value_reduced(a1, x);
        lemma_value_reduced(b1, x);
        lemma_coefficient_reduced(a, 0);
        lemma_coefficient_reduced(b, 0);
        lemma_distributive(pa, pb, x);
        lemma_mul_value(pa, x);
        lemma_mul_value(pb, x);
        lemma_add_four(rat_mul(pa, x), rat_mul(pb, x), coefficient_at(a, 0), coefficient_at(b, 0));
    }
}

/// Trimming drops only zero coefficients.
proof fn lemma_trim_tail(s: CoefficientsView)
    ensures
        forall|i: int| trim(s).len() <= i < s.len() ==> (#[trigger] s[i]).0 == 0,
    decreases s.len(),
{
    if s.len() > 0 && s.last().0 == 0 {
        lemma_trim_tail(s.drop_last());
        assert forall|i: int| trim(s).len() <= i < s.len() implies (#[trigger] s[i]).0 == 0 by {
            if i < s.len() - 1 {
                assert(s.drop_last()[i] == s[i]);
            }
        }
    }
}

/// A list that agrees with the coefficients of `s` and has only zeros past
/// them has the value of `s`.
proof fn lemma_value_extends(t: CoefficientsView, s: CoefficientsView, x: (int, nat))
    requires
        all_reduced(s),
        x.1 > 0,
        t.len() >= s.len(),
        forall|i: int| 0 <= i < t.len() ==> #[trigger] t[i] == coefficient_at(s, i),
    ensures
        poly_value(t, x) == poly_value(s, x),
{
    let e = Seq::<(int, nat)>::empty();
    assert forall|i: int| 0 <= i < t.len() implies #[trigger] t[i] == rat_add(
        coefficient_at(s, i),
        coefficient_at(e, i),
    ) by {
        lemma_coefficient_reduced(s, i);
        lemma_add_zero_right(coefficient_at(s, i));
    }
    lemma_value_pointwise_add(s, e, t, x);
    lemma_value_reduced(s, x);
    lemma_add_zero_right(poly_value(s, x));
}

/// Trimming keeps the value.
pub proof fn lemma_value_trim(s: CoefficientsView, x: (int, nat))
    requires
        all_reduced(s),
        x.1 > 0,
    ensures
        poly_value(trim(s), x) == poly_value(s, x),
        all_reduced(trim(s)),
{
    let t = trim(s);
    lemma_trim(s);
    lemma_trim_tail(s);
    assert(all_reduced(t)) by {
        assert forall|i: int| 0 <= i < t.len() implies rat_reduced(#[trigger] t[i]) by {
            assert(t[i] == s[i]);
        }
    }
    assert forall|i: int| 0 <= i < s.len() implies #[trigger] s[i] == coefficient_at(t, i) by {
        if i >= t.len() {
            lemma_zero_reduced(s[i]);
        }
    }
    lemma_value_extends(s, t, x);
}

/// The value of negated coefficients is the negated value.
pub proof fn lemma_value_neg(s: CoefficientsView, x: (int, nat))
    requires
        all_reduced(s),
        x.1 > 0,
    ensures
        poly_value(s.map_values(|c: (int, nat)| rat_neg(c)), x) == rat_neg(poly_value(s, x)),
    decreases s.len(),
{
    let n = s.map_values(|c: (int, nat)| rat_neg(c));
    if s.len() > 0 {
        let t = s.drop_first();
        assert(all_reduced(t)) by {
            assert forall|i: int| 0 <= i < t.len() implies rat_reduced(#[trigger] t[i]) by {
                assert(t[i] == s[i + 1]);
            }
        }
        assert(n.drop_first() =~= t.map_values(|c: (int, nat)| rat_neg(c)));
        lemma_value_neg(t, x);
        lemma_value_reduced(t, x);
        let p = poly_value(t, x);
        lemma_neg_mul(p, x);
        lemma_mul_value(p, x);
        assert(rat_reduced(s[0]));
        lemma_neg_add(rat_mul(p, x), s[0]);
    }
}

/// The value of coefficientwise differences is the difference of the
/// values.
proof fn lemma_value_pointwise_sub(
    a: CoefficientsView,
    b: CoefficientsView,
    c: CoefficientsView,
    x: (int, nat),
)
    requires
        all_reduced(a),
        all_reduced(b),
        x.1 > 0,
        c.len() >= a.len(),
        c.len() >= b.len(),
        forall|i: int| 0 <= i < c.len() ==> #[trigger] c[i] == rat_sub(coefficient_at(a, i), coefficient_at(b, i)),
    ensures
        poly_value(c, x) == rat_sub(poly_value(a, x), poly_value(b, x)),
{
    let nb = b.map_values(|v: (int, nat)| rat_neg(v));
    assert(all_reduced(nb)) by {
        assert forall|i: int| 0 <= i < nb.len() implies rat_reduced(#[trigger] nb[i]) by {
            assert(rat_reduced(b[i]));
            assert(abs(-b[i].0) == abs(b[i].0));
        }
    }
    assert forall|i: int| 0 <= i < c.len() implies #[trigger] c[i] == rat_add(
        coefficient_at(a, i),
        coefficient_at(nb, i),
    ) by {
        lemma_sub_as_add(coefficient_at(a, i), coefficient_at(b, i));
    }
    lemma_value_pointwise_add(a, nb, c, x);
    lemma_value_neg(b, x);
    lemma_sub_as_add(poly_value(a, x), poly_value(b, x));
}

/// Scaling every coefficient scales the value.
proof fn lemma_value_scale(b: CoefficientsView, c: (int, nat), x: (int, nat))
    requires
        all_reduced(b),
        c.1 > 0,
        x.1 > 0,
    ensures
        poly_value(b.map_values(|v: (int, nat)| rat_mul(v, c)), x) == rat_mul(poly_value(b, x), c),
    decreases b.len(),
{
    let bc = b.map_values(|v: (int, nat)| rat_mul(v, c));
    lemma_zero_reduced(rat_zero());
    if b.len() == 0 {
        lemma_mul_zero(c, rat_zero());
    } else {
        let t = b.drop_first();
        assert(all_reduced(t)) by {
            assert forall|i: int| 0 <= i < t.len() implies rat_reduced(#[trigger] t[i]) by {
                assert(t[i] == b[i + 1]);
            }
        }
        assert(bc.drop_first() =~= t.map_values(|v: (int, nat)| rat_mul(v, c)));
        lemma_value_scale(t, c, x);
        let p = poly_value(t, x);
        lemma_value_reduced(t, x);
        assert(rat_reduced(b[0]));
        lemma_mul_associative(p, c, x);
        lemma_mul_commutative(c, x);
        lemma_mul_associative(p, x, c);
        lemma_mul_value(p, x);
        lemma_distributive(rat_mul(p, x), b[0], c);
    }
}

/// Raising every degree by `k` multiplies the value by `x ^ k`.
proof fn lemma_value_raise(s: CoefficientsView, k: nat, x: (int, nat))
    requires
        all_reduced(s),
        x.1 > 0,
    ensures
        poly_value(zeros(k) + s, x) == rat_mul(poly_value(s, x), rat_pow(x, k)),
    decreases k,
{
    lemma_value_reduced(s, x);
    if k == 0 {
        assert(zeros(k) + s =~= s);
        lemma_mul_one(poly_value(s, x));
    } else {
        let t = zeros(k) + s;
        assert(t.drop_first() =~= zeros((k - 1) as nat) + s);
        assert(t[0] == rat_zero());
        lemma_value_raise(s, (k - 1) as nat, x);
        let p = poly_value(s, x);
        let xk = rat_pow(x, (k - 1) as nat);
        crate::evaluation::lemma_pow_reduced(x, (k - 1) as nat);
        lemma_mul_value(p, xk);
        lemma_mul_value(rat_mul(p, xk), x);
        lemma_add_zero_right(rat_mul(rat_mul(p, xk), x));
        lemma_mul_associative(p, xk, x);
    }
}

/// Setting a zero coefficient of degree `k` to `c` adds `c * x ^ k`.
proof fn lemma_value_update(q: CoefficientsView, k: int, c: (int, nat), x: (int, nat))
    requires
        all_reduced(q),
        rat_reduced(c),
        0 <= k < q.len(),
        q[k] == rat_zero(),
        x.1 > 0,
    ensures
        poly_value(q.update(k, c), x) == rat_add(poly_value(q, x), rat_mul(c, rat_pow(x, k as nat))),
        all_reduced(q.update(k, c)),
{
    let single = seq![c];
    let e = zeros(k as nat) + single;
    let u = q.update(k, c);
    lemma_zero_reduced(rat_zero());
    assert(all_reduced(single));
    lemma_value_raise(single, k as nat, x);
    assert(single.drop_first() =~= Seq::<(int, nat)>::empty());
    lemma_mul_zero(x, rat_zero());
    lemma_add_zero_left(c);
    assert(poly_value(single.drop_first(), x) == rat_zero());
    assert(single[0] == c);
    assert(poly_value(single, x) == rat_add(rat_mul(rat_zero(), x), c));
    assert(poly_value(single, x) == c);
    assert(all_reduced(e)) by {
        assert forall|i: int| 0 <= i < e.len() implies rat_reduced(#[trigger] e[i]) by {
            if i < k {
                assert(e[i] == rat_zero());
            } else {
                assert(e[i] == c);
            }
        }
    }
    assert forall|i: int| 0 <= i < u.len() implies #[trigger] u[i] == rat_add(
        coefficient_at(q, i),
        coefficient_at(e, i),
    ) by {
        if i == k {
            assert(e[i] == c);
        } else {
            assert(rat_reduced(q[i]));
            if i < k {
                assert(e[i] == rat_zero());
            }
            lemma_add_zero_right(q[i]);
        }
    }
    lemma_value_pointwise_add(q, e, u, x);
    assert(all_reduced(u)) by {
        assert forall|i: int| 0 <= i < u.len() implies rat_reduced(#[trigger] u[i]) by {
            if i != k {
                assert(u[i] == q[i]);
            }
        }
    }
}

/// The value after one step of long division: the leading term `c * x^k * b`
/// is subtracted.
proof fn lemma_value_step(r: CoefficientsView, b: CoefficientsView, x: (int, nat))
    requires
        all_reduced(r),
        all_reduced(b),
        trimmed(r),
        trimmed(b),
        b.len() > 0,
        r.len() >= b.len(),
        x.1 > 0,
    ensures
        rat_reduced(division_step(r, b).1),
        all_reduced(division_step(r, b).2),
        trimmed(division_step(r, b).2),
        poly_value(division_step(r, b).2, x) == rat_sub(
            poly_value(r, x),
            rat_mul(rat_mul(poly_value(b, x), division_step(r, b).1), rat_pow(x, division_step(r, b).0 as nat)),
        ),
{
    assert forall|i: int| 0 <= i < r.len() implies (#[trigger] r[i]).1 > 0 by {
        assert(rat_reduced(r[i]));
    }
    assert forall|i: int| 0 <= i < b.len() implies (#[trigger] b[i]).1 > 0 by {
        assert(rat_reduced(b[i]));
    }
    lemma_division_step(r, b);
    let k = r.len() - b.len();
    let c = rat_div(r.last(), b.last());
    assert(rat_reduced(c)) by {
        assert(r[r.len() - 1].1 > 0);
        assert(b[b.len() - 1].1 > 0 && b[b.len() - 1].0 != 0);
        assert(r.last().1 * b.last().0 != 0) by (nonlinear_arith)
            requires
                r.last().1 > 0,
                b.last().0 != 0,
        ;
        crate::rational::lemma_normalize_reduced(r.last().0 * b.last().1, r.last().1 * b.last().0);
    }
    let bc = b.map_values(|v: (int, nat)| rat_mul(v, c));
    assert(all_reduced(bc)) by {
        assert forall|i: int| 0 <= i < bc.len() implies rat_reduced(#[trigger] bc[i]) by {
            assert(rat_reduced(b[i]));
            lemma_mul_value(b[i], c);
        }
    }
    let raw = zeros(k as nat) + bc;
    assert(all_reduced(raw)) by {
        lemma_zero_reduced(rat_zero());
        assert forall|i: int| 0 <= i < raw.len() implies rat_reduced(#[trigger] raw[i]) by {
            if i < k {
                assert(raw[i] == rat_zero());
            } else {
                assert(raw[i] == bc[i - k]);
            }
        }
    }
    let term = trim(raw);
    lemma_value_trim(raw, x);
    lemma_value_raise(bc, k as nat, x);
    lemma_value_scale(b, c, x);
    let n = if r.len() >= term.len() {
        r.len()
    } else {
        term.len()
    };
    let diff = Seq::new(n, |i: int| rat_sub(coefficient_at(r, i), coefficient_at(term, i)));
    assert(division_step(r, b).2 == trim(diff));
    assert(all_reduced(diff)) by {
        assert forall|i: int| 0 <= i < diff.len() implies rat_reduced(#[trigger] diff[i]) by {
            lemma_coefficient_reduced(r, i);
            lemma_coefficient_reduced(term, i);
            lemma_sub_as_add(coefficient_at(r, i), coefficient_at(term, i));
            lemma_add_value(coefficient_at(r, i), rat_neg(coefficient_at(term, i)));
        }
    }
    lemma_value_pointwise_sub(r, term, diff, x);
    lemma_value_trim(diff, x);
    lemma_trim(diff);
}

/// `(qb + u) + (r - u) == qb + r` for fractions with positive denominators.
proof fn lemma_add_cancel(qb: (int, nat), u: (int, nat), r: (int, nat))
    requires
        qb.1 > 0,
        u.1 > 0,
        rat_reduced(r),
    ensures
        rat_add(rat_add(qb, u), rat_sub(r, u)) == rat_add(qb, r),
{
    let nu = rat_neg(u);
    lemma_sub_as_add(r, u);
    lemma_add_value(r, nu);
    lemma_add_value(nu, r);
    lemma_add_value(u, nu);
    lemma_add_associative(qb, u, rat_add(r, nu));
    lemma_rat_add_commutes(r, nu);
    lemma_add_associative(u, nu, r);
    lemma_add_neg_cancel(u);
    lemma_add_zero_left(r);
}

/// Long division keeps `q * b + r` at every point.
proof fn lemma_long_division(q: CoefficientsView, r: CoefficientsView, b: CoefficientsView, x: (int, nat))
    requires
        all_reduced(q),
        all_reduced(r),
        all_reduced(b),
        trimmed(r),
        trimmed(b),
        b.len() > 0,
        x.1 > 0,
        r.len() >= b.len() ==> q.len() > r.len() - b.len(),
        r.len() >= b.len() ==> forall|j: int| 0 <= j <= r.len() - b.len() ==> #[trigger] q[j] == rat_zero(),
    ensures
        all_reduced(long_division(q, r, b).0),
        all_reduced(long_division(q, r, b).1),
        rat_add(rat_mul(poly_value(long_division(q, r, b).0, x), poly_value(b, x)), poly_value(
            long_division(q, r, b).1,
            x,
        )) == rat_add(rat_mul(poly_value(q, x), poly_value(b, x)), poly_value(r, x)),
    decreases r.len(),
{
    if !(b.len() == 0 || r.len() == 0 || r.len() < b.len()) {
        let (k, c, r2) = division_step(r, b);
        assert forall|i: int| 0 <= i < r.len() implies (#[trigger] r[i]).1 > 0 by {
            assert(rat_reduced(r[i]));
        }
        assert forall|i: int| 0 <= i < b.len() implies (#[trigger] b[i]).1 > 0 by {
            assert(rat_reduced(b[i]));
        }
        lemma_division_step(r, b);
        lemma_value_step(r, b, x);
        assert(q[k] == rat_zero());
        let q2 = q.update(k, c);
        lemma_value_update(q, k, c, x);
        assert(r2.len() >= b.len() ==> forall|j: int|
            0 <= j <= r2.len() - b.len() ==> #[trigger] q2[j] == rat_zero()) by {
            if r2.len() >= b.len() {
                assert forall|j: int| 0 <= j <= r2.len() - b.len() implies #[trigger] q2[j] == rat_zero() by {
                    assert(q2[j] == q[j]);
                }
            }
        }
        lemma_long_division(q2, r2, b, x);
        let pq = poly_value(q, x);
        let pb = poly_value(b, x);
        let pr = poly_value(r, x);
        let xk = rat_pow(x, k as nat);
        crate::evaluation::lemma_pow_reduced(x, k as nat);
        lemma_value_reduced(q, x);
        lemma_value_reduced(b, x);
        lemma_value_reduced(r, x);
        let t = rat_mul(c, xk);
        let u = rat_mul(rat_mul(pb, c), xk);
        lemma_mul_value(c, xk);
        lemma_mul_value(pb, c);
        lemma_mul_value(rat_mul(pb, c), xk);
        lemma_mul_value(pq, pb);
        lemma_mul_value(t, pb);
        lemma_distributive(pq, t, pb);
        lemma_mul_commutative(t, pb);
        lemma_mul_associative(pb, c, xk);
        lemma_add_cancel(rat_mul(pq, pb), rat_mul(t, pb), pr);
    }
}

/// The division identity: at every point, `a` has the value of
/// `quotient * b + remainder`, where `quotient` and `remainder` are those of
/// long division of `a` by a nonzero `b`.
pub proof fn law_division_identity(a: CoefficientsView, b: CoefficientsView, x: (int, nat))
    requires
        all_reduced(a),
        all_reduced(b),
        trimmed(a),
        trimmed(b),
        b.len() > 0,
        x.1 > 0,
    ensures
        poly_value(a, x) == rat_add(
            rat_mul(poly_value(quotient_remainder(a, b).0, x), poly_value(b, x)),
            poly_value(quotient_remainder(a, b).1, x),
        ),
{
    let q0 = Seq::new(quotient_length(a, b), |i: int| rat_zero());
    lemma_zero_reduced(rat_zero());
    assert(all_reduced(q0));
    lemma_long_division(q0, a, b, x);
    let (q, r) = long_division(q0, a, b);
    lemma_value_trim(q, x);
    lemma_value_extends(q0, Seq::<(int, nat)>::empty(), x);
    lemma_value_reduced(b, x);
    lemma_value_reduced(a, x);
    lemma_mul_zero(poly_value(b, x), rat_zero());
    lemma_add_zero_left(poly_value(a, x));
}

/// The value of a sum of univariate polynomials is the sum of their values.
pub proof fn law_value_sum(a: CoefficientsView, b: CoefficientsView, x: (int, nat))
    requires
        all_reduced(a),
        all_reduced(b),
        x.1 > 0,
    ensures
        poly_value(sum_coefficients(a, b), x) == rat_add(poly_value(a, x), poly_value(b, x)),
{
    let n = if a.len() >= b.len() {
        a.len()
    } else {
        b.len()
    };
    let raw = Seq::new(n, |i: int| rat_add(coefficient_at(a, i), coefficient_at(b, i)));
    assert(all_reduced(raw)) by {
        assert forall|i: int| 0 <= i < raw.len() implies rat_reduced(#[trigger] raw[i]) by {
            lemma_coefficient_reduced(a, i);
            lemma_coefficient_reduced(b, i);
            lemma_add_value(coefficient_at(a, i), coefficient_at(b, i));
        }
    }
    lemma_value_pointwise_add(a, b, raw, x);
    lemma_value_trim(raw, x);
}

/// The value of a difference of univariate polynomials is the difference
/// of their values.
pub proof fn law_value_difference(a: CoefficientsView, b: CoefficientsView, x: (int, nat))
    requires
        all_reduced(a),
        all_reduced(b),
        x.1 > 0,
    ensures
        poly_value(difference_coefficients(a, b), x) == rat_sub(poly_value(a, x), poly_value(b, x)),
{
    let n = if a.len() >= b.len() {
        a.len()
    } else {
        b.len()
    };
    let raw = Seq::new(n, |i: int| rat_sub(coefficient_at(a, i), coefficient_at(b, i)));
    assert(all_reduced(raw)) by {
        assert forall|i: int| 0 <= i < raw.len() implies rat_reduced(#[trigger] raw[i]) by {
            lemma_coefficient_reduced(a, i);
            lemma_coefficient_reduced(b, i);
            lemma_sub_as_add(coefficient_at(a, i), coefficient_at(b, i));
            lemma_add_value(coefficient_at(a, i), rat_neg(coefficient_at(b, i)));
        }
    }
    lemma_value_pointwise_sub(a, b, raw, x);
    lemma_value_trim(raw, x);
}

/// The value of a negated univariate polynomial is the negated value.
pub proof fn law_value_negated(a: CoefficientsView, x: (int, nat))
    requires
        all_reduced(a),
        x.1 > 0,
    ensures
        poly_value(negated_coefficients(a), x) == rat_neg(poly_value(a, x)),
{
    let n = a.map_values(|c: (int, nat)| rat_neg(c));
    assert(all_reduced(n)) by {
        assert forall|i: int| 0 <= i < n.len() implies rat_reduced(#[trigger] n[i]) by {
            assert(rat_reduced(a[i]));
            assert(abs(-a[i].0) == abs(a[i].0));
        }
    }
    lemma_value_neg(a, x);
    lemma_value_trim(n, x);
}

/// The first `n` coefficients, zeros past the end.
pub open spec fn prefix(s: CoefficientsView, n: nat) -> CoefficientsView {
    Seq::new(n, |k: int| coefficient_at(s, k))
}

/// Adding `c` to the coefficient of degree `k` adds `c * x ^ k`.
pub proof fn lemma_value_accumulate(q: CoefficientsView, k: int, c: (int, nat), x: (int, nat))
    requires
        all_reduced(q),
        rat_reduced(c),
        0 <= k < q.len(),
        x.1 > 0,
    ensures
        poly_value(q.update(k, rat_add(q[k], c)), x) == rat_add(
            poly_value(q, x),
            rat_mul(c, rat_pow(x, k as nat)),
        ),
        all_reduced(q.update(k, rat_add(q[k], c))),
{
    let single = seq![c];
    let e = zeros(k as nat) + single;
    let u = q.update(k, rat_add(q[k], c));
    lemma_zero_reduced(rat_zero());
    assert(all_reduced(single));
    lemma_value_raise(single, k as nat, x);
    assert(single.drop_first() =~= Seq::<(int, nat)>::empty());
    lemma_mul_zero(x, rat_zero());
    lemma_add_zero_left(c);
    assert(poly_value(single.drop_first(), x) == rat_zero());
    assert(single[0] == c);
    assert(poly_value(single, x) == rat_add(rat_mul(rat_zero(), x), c));
    assert(all_reduced(e)) by {
        assert forall|i: int| 0 <= i < e.len() implies rat_reduced(#[trigger] e[i]) by {
            if i < k {
                assert(e[i] == rat_zero());
            } else {
                assert(e[i] == c);
            }
        }
    }
    assert forall|i: int| 0 <= i < u.len() implies #[trigger] u[i] == rat_add(
        coefficient_at(q, i),
        coefficient_at(e, i),
    ) by {
        if i == k {
            assert(e[i] == c);
        } else {
            assert(rat_reduced(q[i]));
            if i < k {
                assert(e[i] == rat_zero());
            }
            lemma_add_zero_right(q[i]);
        }
    }
    lemma_value_pointwise_add(q, e, u, x);
    assert(all_reduced(u)) by {
        assert forall|i: int| 0 <= i < u.len() implies rat_reduced(#[trigger] u[i]) by {
            if i != k {
                assert(u[i] == q[i]);
            } else {
                lemma_add_value(q[k], c);
            }
        }
    }
}

/// Coefficients of reduced coefficients, taken with zeros past the end,
/// are reduced.
pub proof fn lemma_prefix_reduced(s: CoefficientsView, n: nat)
    requires
        all_reduced(s),
    ensures
        all_reduced(prefix(s, n)),
{
    assert forall|i: int| 0 <= i < n implies rat_reduced(#[trigger] prefix(s, n)[i]) by {
        lemma_coefficient_reduced(s, i);
    }
}

/// One more coefficient adds its term.
pub proof fn lemma_prefix_step(s: CoefficientsView, n: nat, x: (int, nat))
    requires
        all_reduced(s),
        x.1 > 0,
    ensures
        poly_value(prefix(s, n + 1), x) == rat_add(
            poly_value(prefix(s, n), x),
            rat_mul(coefficient_at(s, n as int), rat_pow(x, n)),
        ),
{
    let p = prefix(s, n);
    let q = p.push(rat_zero());
    let c = coefficient_at(s, n as int);
    lemma_prefix_reduced(s, n);
    lemma_zero_reduced(rat_zero());
    lemma_coefficient_reduced(s, n as int);
    assert forall|i: int| 0 <= i < q.len() implies #[trigger] q[i] == coefficient_at(p, i) by {}
    lemma_value_extends(q, p, x);
    assert(all_reduced(q)) by {
        assert forall|i: int| 0 <= i < q.len() implies rat_reduced(#[trigger] q[i]) by {
            if i < n {
                assert(q[i] == p[i]);
            }
        }
    }
    lemma_value_update(q, n as int, c, x);
    assert(q.update(n as int, c) =~= prefix(s, n + 1));
}

/// Enough coefficients give the whole value.
pub proof fn lemma_prefix_full(s: CoefficientsView, n: nat, x: (int, nat))
    requires
        all_reduced(s),
        x.1 > 0,
        n >= s.len(),
    ensures
        poly_value(prefix(s, n), x) == poly_value(s, x),
{
    lemma_value_extends(prefix(s, n), s, x);
}

/// No coefficient gives the value zero.
pub proof fn lemma_prefix_empty(s: CoefficientsView, x: (int, nat))
    ensures
        poly_value(prefix(s, 0), x) == rat_zero(),
{
}

/// A single coefficient is its own value.
pub proof fn lemma_value_single(c: (int, nat), x: (int, nat))
    requires
        rat_reduced(c),
        x.1 > 0,
    ensures
        poly_value(seq![c], x) == c,
{
    let single = seq![c];
    assert(single.drop_first() =~= Seq::<(int, nat)>::empty());
    assert(poly_value(single.drop_first(), x) == rat_zero());
    lemma_zero_reduced(rat_zero());
    lemma_mul_zero(x, rat_zero());
    lemma_add_zero_left(c);
}

} // verus!
