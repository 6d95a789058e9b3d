//! The laws of arithmetic on fractions in lowest terms: sums and products of
//! fractions with positive denominators are associative, commutative and
//! distributive, with zero and one as identities.
//!
//! Everything rests on one fact: scaling a numerator and its denominator by
//! the same positive factor does not change the fraction in lowest terms
//! ([`lemma_normalize_scale`]), so two fractions with equal cross products
//! reduce alike ([`lemma_normalize_eq`]).
use crate::polynomial::rat_reduced;
use crate::rational::{
    abs, gcd, lemma_abs_divisible, lemma_gcd_divides, lemma_gcd_positive, lemma_gcd_scale,
    lemma_normalize_reduced, lemma_normalize_value, normalize, rat_add, rat_mul, rat_neg, rat_sub,
    rat_zero,
};
use vstd::arithmetic::div_mod::{lemma_fundamental_div_mod, lemma_fundamental_div_mod_converse};
use vstd::prelude::*;

verus! {

/// `(p * q) * (r * t) == (p * r) * (q * t)`.
proof fn lemma_regroup(p: int, q: int, r: int, t: int)
    ensures
        (p * q) * (r * t) == (p * r) * (q * t),
        (p * q) * (r * t) == (p * t) * (q * r),
{
    assert((p * q) * (r * t) == (p * r) * (q * t)) by (nonlinear_arith);
    assert((p * q) * (r * t) == (p * t) * (q * r)) by (nonlinear_arith);
}

/// `(p * q) * r` regrouped.
proof fn lemma_assoc3(p: int, q: int, r: int)
    ensures
        (p * q) * r == p * (q * r),
        (p * q) * r == (p * r) * q,
{
    assert((p * q) * r == p * (q * r)) by (nonlinear_arith);
    assert((p * q) * r == (p * r) * q) by (nonlinear_arith);
}

/// `(p + q) * k == p * k + q * k`.
proof fn lemma_sum_times(p: int, q: int, k: int)
    ensures
        (p + q) * k == p * k + q * k,
{
    assert((p + q) * k == p * k + q * k) by (nonlinear_arith);
}

/// Scaling numerator and denominator alike leaves the fraction in lowest
/// terms unchanged.
pub proof fn lemma_normalize_scale(n: int, d: int, k: int)
    requires
        d > 0,
        k > 0,
    ensures
        normalize(n * k, d * k) == normalize(n, d),
{
    let an = abs(n);
    let dn = d as nat;
    let kn = k as nat;
    if n < 0 {
        assert(n * k < 0) by (nonlinear_arith)
            requires
                n < 0,
                k > 0,
        ;
        assert(-(n * k) == k * (-n)) by (nonlinear_arith);
    } else {
        assert(n * k >= 0) by (nonlinear_arith)
            requires
                n >= 0,
                k > 0,
        ;
        assert(n * k == k * n) by (nonlinear_arith);
    }
    assert(abs(n * k) == kn * an);
    assert(d * k > 0) by (nonlinear_arith)
        requires
            d > 0,
            k > 0,
    ;
    assert(d * k == k * d) by (nonlinear_arith);
    assert(abs(d * k) == kn * dn);
    lemma_gcd_scale(an, dn, kn);
    let g = gcd(an, dn);
    lemma_gcd_divides(an, dn);
    lemma_gcd_positive(an, dn);
    let gi = g as int;
    lemma_abs_divisible(n, g);
    lemma_fundamental_div_mod(n, gi);
    lemma_fundamental_div_mod(d, gi);
    let q = n / gi;
    let e = d / gi;
    assert(n == gi * q);
    assert(d == gi * e);
    let big = k * gi;
    assert(big > 0) by (nonlinear_arith)
        requires
            k > 0,
            gi > 0,
            big == k * gi,
    ;
    assert(n * k == q * big && d * k == e * big) by (nonlinear_arith)
        requires
            n == gi * q,
            d == gi * e,
            big == k * gi,
    ;
    lemma_fundamental_div_mod_converse(n * k, big, q, 0);
    lemma_fundamental_div_mod_converse(d * k, big, e, 0);
    assert(gcd(abs(n * k), abs(d * k)) as int == big);
}

/// Fractions with equal cross products reduce to the same lowest terms.
pub proof fn lemma_normalize_eq(n1: int, d1: int, n2: int, d2: int)
    requires
        d1 > 0,
        d2 > 0,
        n1 * d2 == n2 * d1,
    ensures
        normalize(n1, d1) == normalize(n2, d2),
{
    lemma_normalize_scale(n1, d1, d2);
    lemma_normalize_scale(n2, d2, d1);
    assert(d1 * d2 == d2 * d1) by (nonlinear_arith);
}

/// A fraction in lowest terms is its own reduction.
pub proof fn lemma_reduced_normalize(a: (int, nat))
    requires
        rat_reduced(a),
    ensures
        normalize(a.0, a.1 as int) == a,
{
    assert(abs(a.1 as int) == a.1);
}

/// A fraction in lowest terms with the value `n / d` is the reduction of
/// `n / d`.
pub proof fn lemma_normalize_to(x: (int, nat), n: int, d: int)
    requires
        rat_reduced(x),
        d > 0,
        x.0 * d == n * x.1,
    ensures
        normalize(n, d) == x,
{
    lemma_normalize_eq(n, d, x.0, x.1 as int);
    lemma_reduced_normalize(x);
}

/// A sum of fractions with positive denominators is in lowest terms and has
/// the value of the sum.
pub proof fn lemma_add_value(a: (int, nat), b: (int, nat))
    requires
        a.1 > 0,
        b.1 > 0,
    ensures
        rat_reduced(rat_add(a, b)),
        rat_add(a, b).0 * (a.1 * b.1) == (a.0 * b.1 + b.0 * a.1) * rat_add(a, b).1,
{
    assert(a.1 * b.1 > 0) by (nonlinear_arith)
        requires
            a.1 > 0,
            b.1 > 0,
    ;
    lemma_normalize_reduced(a.0 * b.1 + b.0 * a.1, (a.1 * b.1) as int);
    lemma_normalize_value(a.0 * b.1 + b.0 * a.1, (a.1 * b.1) as int);
}

/// A product of fractions with positive denominators is in lowest terms and
/// has the value of the product.
pub proof fn lemma_mul_value(a: (int, nat), b: (int, nat))
    requires
        a.1 > 0,
        b.1 > 0,
    ensures
        rat_reduced(rat_mul(a, b)),
        rat_mul(a, b).0 * (a.1 * b.1) == (a.0 * b.0) * rat_mul(a, b).1,
{
    assert(a.1 * b.1 > 0) by (nonlinear_arith)
        requires
            a.1 > 0,
            b.1 > 0,
    ;
    lemma_normalize_reduced(a.0 * b.0, (a.1 * b.1) as int);
    lemma_normalize_value(a.0 * b.0, (a.1 * b.1) as int);
}

/// Zero is in lowest terms, and a fraction in lowest terms with a zero
/// numerator is zero.
pub proof fn lemma_zero_reduced(a: (int, nat))
    ensures
        rat_reduced(rat_zero()),
        rat_reduced(a) && a.0 == 0 ==> a == rat_zero(),
{
    assert(gcd(0, 1) == gcd(1, 0));
    if rat_reduced(a) && a.0 == 0 {
        assert(gcd(0, a.1) == gcd(a.1, 0));
    }
}

/// Addition is associative.
pub proof fn lemma_add_associative(a: (int, nat), b: (int, nat), c: (int, nat))
    requires
        a.1 > 0,
        b.1 > 0,
        c.1 > 0,
    ensures
        rat_add(rat_add(a, b), c) == rat_add(a, rat_add(b, c)),
{
    let (a0, a1, b0, b1, c0, c1) = (a.0, a.1 as int, b.0, b.1 as int, c.0, c.1 as int);
    let x = rat_add(a, b);
    let y = rat_add(b, c);
    lemma_add_value(a, b);
    lemma_add_value(b, c);
    let (x0, x1, y0, y1) = (x.0, x.1 as int, y.0, y.1 as int);
    let s = a0 * b1 * c1 + b0 * a1 * c1 + c0 * a1 * b1;
    let d = a1 * b1 * c1;
    assert(d > 0 && x1 * c1 > 0 && a1 * y1 > 0) by (nonlinear_arith)
        requires
            a1 > 0,
            b1 > 0,
            c1 > 0,
            x1 > 0,
            y1 > 0,
            d == a1 * b1 * c1,
    ;
    let nx = a0 * b1 + b0 * a1;
    let ny = b0 * c1 + c0 * b1;
    let ab = a1 * b1;
    let bc = b1 * c1;
    assert(d == ab * c1 && d == a1 * bc) by (nonlinear_arith)
        requires
            d == a1 * b1 * c1,
            ab == a1 * b1,
            bc == b1 * c1,
    ;
    lemma_sum_times(a0 * b1, b0 * a1, c1);
    lemma_assoc3(c0, a1, b1);
    lemma_assoc3(a0, b1, c1);
    lemma_sum_times(b0 * c1, c0 * b1, a1);
    lemma_assoc3(b0, c1, a1);
    lemma_assoc3(b0, a1, c1);
    lemma_assoc3(c0, b1, a1);
    lemma_assoc3(c0, a1, b1);
    assert(nx * c1 + c0 * ab == s && a0 * bc + ny * a1 == s);
    let k = x1 * c1;
    lemma_regroup(x0, c1, ab, c1);
    assert(x0 * c1 * (ab * c1) == (x0 * ab) * (c1 * c1));
    assert((x0 * ab) * (c1 * c1) == (nx * x1) * (c1 * c1));
    lemma_regroup(nx, x1, c1, c1);
    lemma_regroup(c0, x1, ab, c1);
    lemma_sum_times(x0 * c1, c0 * x1, d);
    lemma_sum_times(nx * c1, c0 * ab, k);
    let m = a1 * y1;
    lemma_regroup(a0, y1, a1, bc);
    lemma_regroup(y0, a1, bc, a1);
    assert((y0 * bc) * (a1 * a1) == (ny * y1) * (a1 * a1));
    lemma_regroup(ny, y1, a1, a1);
    lemma_sum_times(a0 * y1, y0 * a1, d);
    lemma_sum_times(a0 * bc, ny * a1, m);
    assert((x0 * c1 + c0 * x1) * d == s * k);
    assert((a0 * y1 + y0 * a1) * d == s * m);
    lemma_normalize_eq(x0 * c1 + c0 * x1, x1 * c1, s, d);
    lemma_normalize_eq(a0 * y1 + y0 * a1, a1 * y1, s, d);
}

/// Multiplication is associative.
pub proof fn lemma_mul_associative(a: (int, nat), b: (int, nat), c: (int, nat))
    requires
        a.1 > 0,
        b.1 > 0,
        c.1 > 0,
    ensures
        rat_mul(rat_mul(a, b), c) == rat_mul(a, rat_mul(b, c)),
{
    let (a0, a1, b0, b1, c0, c1) = (a.0, a.1 as int, b.0, b.1 as int, c.0, c.1 as int);
    let x = rat_mul(a, b);
    let y = rat_mul(b, c);
    lemma_mul_value(a, b);
    lemma_mul_value(b, c);
    let (x0, x1, y0, y1) = (x.0, x.1 as int, y.0, y.1 as int);
    let s = a0 * b0 * c0;
    let d = a1 * b1 * c1;
    assert(d > 0 && x1 * c1 > 0 && a1 * y1 > 0) by (nonlinear_arith)
        requires
            a1 > 0,
            b1 > 0,
            c1 > 0,
            x1 > 0,
            y1 > 0,
            d == a1 * b1 * c1,
    ;
    let ab = a1 * b1;
    let bc = b1 * c1;
    lemma_assoc3(a1, b1, c1);
    lemma_regroup(x0, c0, ab, c1);
    assert(x0 * ab == (a0 * b0) * x1);
    lemma_regroup(a0 * b0, x1, c0, c1);
    assert((x0 * c0) * d == s * (x1 * c1));
    lemma_regroup(a0, y0, a1, bc);
    assert(y0 * bc == (b0 * c0) * y1);
    lemma_regroup(a0, a1, b0 * c0, y1);
    lemma_assoc3(a0, b0, c0);
    assert((a0 * y0) * d == s * (a1 * y1));
    lemma_normalize_eq(x0 * c0, x1 * c1, s, d);
    lemma_normalize_eq(a0 * y0, a1 * y1, s, d);
}

/// Multiplication is commutative.
pub proof fn lemma_mul_commutative(a: (int, nat), b: (int, nat))
    ensures
        rat_mul(a, b) == rat_mul(b, a),
{
    assert(a.0 * b.0 == b.0 * a.0) by (nonlinear_arith);
    assert(a.1 * b.1 == b.1 * a.1) by (nonlinear_arith);
}

/// One is an identity of multiplication.
pub proof fn lemma_mul_one(a: (int, nat))
    requires
        rat_reduced(a),
    ensures
        rat_mul(a, (1, 1)) == a,
        rat_mul((1, 1), a) == a,
{
    lemma_reduced_normalize(a);
    assert(a.0 * 1 == a.0 && 1 * a.0 == a.0);
    assert(a.1 * 1 == a.1 && 1 * a.1 == a.1);
}

/// A product with a zero factor is zero.
pub proof fn lemma_mul_zero(a: (int, nat), z: (int, nat))
    requires
        a.1 > 0,
        z.1 > 0,
        z.0 == 0,
    ensures
        rat_mul(a, z) == rat_zero(),
        rat_mul(z, a) == rat_zero(),
{
    lemma_zero_reduced(z);
    assert(a.0 * z.0 == 0 && z.0 * a.0 == 0) by (nonlinear_arith)
        requires
            z.0 == 0,
    ;
    assert(a.1 * z.1 > 0 && z.1 * a.1 > 0) by (nonlinear_arith)
        requires
            a.1 > 0,
            z.1 > 0,
    ;
    lemma_normalize_to(rat_zero(), 0, (a.1 * z.1) as int);
    lemma_normalize_to(rat_zero(), 0, (z.1 * a.1) as int);
}

/// Multiplication distributes over addition.
pub proof fn lemma_distributive(a: (int, nat), b: (int, nat), c: (int, nat))
    requires
        a.1 > 0,
        b.1 > 0,
        c.1 > 0,
    ensures
        rat_mul(rat_add(a, b), c) == rat_add(rat_mul(a, c), rat_mul(b, c)),
{
    let (a0, a1, b0, b1, c0, c1) = (a.0, a.1 as int, b.0, b.1 as int, c.0, c.1 as int);
    let x = rat_add(a, b);
    let u = rat_mul(a, c);
    let w = rat_mul(b, c);
    lemma_add_value(a, b);
    lemma_mul_value(a, c);
    lemma_mul_value(b, c);
    let (x0, x1, u0, u1, w0, w1) = (x.0, x.1 as int, u.0, u.1 as int, w.0, w.1 as int);
    let s = (a0 * b1 + b0 * a1) * c0;
    let d = a1 * b1 * c1;
    assert(d > 0 && x1 * c1 > 0 && u1 * w1 > 0) by (nonlinear_arith)
        requires
            a1 > 0,
            b1 > 0,
            c1 > 0,
            x1 > 0,
            u1 > 0,
            w1 > 0,
            d == a1 * b1 * c1,
    ;
    let nx = a0 * b1 + b0 * a1;
    let ab = a1 * b1;
    lemma_regroup(x0, c0, ab, c1);
    assert(x0 * ab == nx * x1);
    lemma_regroup(nx, x1, c0, c1);
    assert((x0 * c0) * d == s * (x1 * c1));
    let ac = a1 * c1;
    let bc = b1 * c1;
    lemma_assoc3(a1, b1, c1);
    lemma_assoc3(a1, c1, b1);
    lemma_assoc3(b1, c1, a1);
    assert(d == ac * b1 && d == bc * a1);
    lemma_regroup(u0, w1, ac, b1);
    lemma_regroup(w0, u1, bc, a1);
    assert((u0 * ac) * (w1 * b1) == ((a0 * c0) * u1) * (w1 * b1));
    assert((w0 * bc) * (u1 * a1) == ((b0 * c0) * w1) * (u1 * a1));
    lemma_regroup(a0 * c0, u1, w1, b1);
    lemma_regroup(b0 * c0, w1, u1, a1);
    assert(w1 * u1 == u1 * w1) by (nonlinear_arith);
    lemma_sum_times(u0 * w1, w0 * u1, d);
    lemma_sum_times((a0 * c0) * b1, (b0 * c0) * a1, u1 * w1);
    lemma_sum_times(a0 * b1, b0 * a1, c0);
    lemma_assoc3(a0, b1, c0);
    lemma_assoc3(b0, a1, c0);
    assert((u0 * w1 + w0 * u1) * d == s * (u1 * w1));
    lemma_normalize_eq(x0 * c0, x1 * c1, s, d);
    lemma_normalize_eq(u0 * w1 + w0 * u1, u1 * w1, s, d);
}

/// Negation distributes over addition.
pub proof fn lemma_neg_add(a: (int, nat), b: (int, nat))
    requires
        a.1 > 0,
        b.1 > 0,
    ensures
        rat_add(rat_neg(a), rat_neg(b)) == rat_neg(rat_add(a, b)),
{
    let x = rat_add(a, b);
    lemma_add_value(a, b);
    let n = a.0 * b.1 + b.0 * a.1;
    let d = (a.1 * b.1) as int;
    assert(d > 0) by (nonlinear_arith)
        requires
            a.1 > 0,
            b.1 > 0,
            d == a.1 * b.1,
    ;
    assert((-a.0) * b.1 + (-b.0) * a.1 == -n) by (nonlinear_arith)
        requires
            n == a.0 * b.1 + b.0 * a.1,
    ;
    assert(rat_reduced(rat_neg(x))) by {
        assert(abs(-x.0) == abs(x.0));
    }
    assert((-x.0) * d == (-n) * x.1) by (nonlinear_arith)
        requires
            x.0 * d == n * x.1,
    ;
    lemma_normalize_to(rat_neg(x), -n, d);
}

/// Negation moves out of a product.
pub proof fn lemma_neg_mul(a: (int, nat), b: (int, nat))
    requires
        a.1 > 0,
        b.1 > 0,
    ensures
        rat_mul(rat_neg(a), b) == rat_neg(rat_mul(a, b)),
{
    let x = rat_mul(a, b);
    lemma_mul_value(a, b);
    let n = a.0 * b.0;
    let d = (a.1 * b.1) as int;
    assert(d > 0) by (nonlinear_arith)
        requires
            a.1 > 0,
            b.1 > 0,
            d == a.1 * b.1,
    ;
    assert((-a.0) * b.0 == -n) by (nonlinear_arith)
        requires
            n == a.0 * b.0,
    ;
    assert(rat_reduced(rat_neg(x))) by {
        assert(abs(-x.0) == abs(x.0));
    }
    assert((-x.0) * d == (-n) * x.1) by (nonlinear_arith)
        requires
            x.0 * d == n * x.1,
    ;
    lemma_normalize_to(rat_neg(x), -n, d);
}

/// A difference is the sum with the negation.
pub proof fn lemma_sub_as_add(a: (int, nat), b: (int, nat))
    ensures
        rat_sub(a, b) == rat_add(a, rat_neg(b)),
{
    assert(a.0 * b.1 - b.0 * a.1 == a.0 * b.1 + (-b.0) * a.1) by (nonlinear_arith);
}

/// A fraction plus its negation is zero.
pub proof fn lemma_add_neg_cancel(a: (int, nat))
    requires
        a.1 > 0,
    ensures
        rat_add(a, rat_neg(a)) == rat_zero(),
{
    assert(a.0 * a.1 + (-a.0) * a.1 == 0) by (nonlinear_arith);
    assert(a.1 * a.1 > 0) by (nonlinear_arith)
        requires
            a.1 > 0,
    ;
    lemma_zero_reduced(rat_zero());
    lemma_normalize_to(rat_zero(), 0, (a.1 * a.1) as int);
}

} // verus!
