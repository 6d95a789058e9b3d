//! Exact real coefficients: the errors of exact arithmetic and binomial
//! coefficients.
use vstd::prelude::*;

verus! {

/// Why an exact real operation could not be carried out.
#[derive(Clone, Copy, Debug, PartialEq, Eq, Structural)]
pub enum ExactRealError {
    AlgebraicArithmeticNotImplemented,
    AlgebraicRootSampleComparisonUndecidable,
    InvalidAlgebraicRootSample,
}

/// The binomial coefficient `n` choose `k`, by Pascal's rule.
pub open spec fn binom(n: nat, k: nat) -> nat
    decreases n, k,
{
    if k == 0 {
        1
    } else if n == 0 {
        0
    } else {
        binom((n - 1) as nat, (k - 1) as nat) + binom((n - 1) as nat, k)
    }
}

/// The absorption identity `(k + 1) * C(n, k + 1) == (n - k) * C(n, k)`
/// for `k <= n`.
pub proof fn lemma_choose_step(n: nat, k: nat)
    requires
        k <= n,
    ensures
        (k + 1) * binom(n, k + 1) == (n - k) * binom(n, k),
    decreases n, k,
{
    if n == 0 {
        assert(binom(0, 1) == 0);
        assert((k + 1) * binom(n, k + 1) == (n - k) * binom(n, k)) by (nonlinear_arith)
            requires
                k == 0,
                n == 0,
                binom(0, 1) == 0,
        ;
    } else if k == 0 {
        let m = (n - 1) as nat;
        assert(binom(n, 1) == binom(m, 0) + binom(m, 1));
        lemma_choose_n_one(m);
        assert(binom(n, 1) == n);
        assert(binom(n, 0) == 1);
        assert((k + 1) * binom(n, k + 1) == (n - k) * binom(n, k)) by (nonlinear_arith)
            requires
                k == 0,
                binom(n, 1) == n,
                binom(n, 0) == 1,
        ;
    } else {
        let m = (n - 1) as nat;
        let j = (k - 1) as nat;
        // C(n, k+1) = C(m, k) + C(m, k+1);  C(n, k) = C(m, j) + C(m, k)
        assert(binom(n, k + 1) == binom(m, k) + binom(m, k + 1));
        assert(binom(n, k) == binom(m, j) + binom(m, k));
        if k < n {
            lemma_choose_step(m, k);
        } else {
            lemma_choose_zero_above(m, k + 1);
            lemma_choose_zero_above(m, k);
        }
        lemma_choose_step(m, j);
        let a = binom(m, j);
        let b = binom(m, k);
        let c = binom(m, k + 1);
        assert((k + 1) * (b + c) == (n - k) * (a + b)) by (nonlinear_arith)
            requires
                k >= 1,
                n == m + 1,
                j + 1 == k,
                k <= n,
                (j + 1) * b == (m - j) * a,
                k < n ==> (k + 1) * c == (m - k) * b,
                k == n ==> b == 0 && c == 0,
        ;
        assert((k + 1) * binom(n, k + 1) == (k + 1) * (b + c));
        assert((n - k) * binom(n, k) == (n - k) * (a + b));
    }
}

/// `C(n, 1) == n`.
proof fn lemma_choose_n_one(n: nat)
    ensures
        binom(n, 1) == n,
    decreases n,
{
    if n > 0 {
        lemma_choose_n_one((n - 1) as nat);
        assert(binom(n, 1) == binom((n - 1) as nat, 0) + binom((n - 1) as nat, 1));
    }
}

/// `C(n, k) >= 1` for `k <= n`.
proof fn lemma_choose_positive(n: nat, k: nat)
    requires
        k <= n,
    ensures
        binom(n, k) >= 1,
    decreases n, k,
{
    if k > 0 {
        lemma_choose_positive((n - 1) as nat, (k - 1) as nat);
    }
}

/// `C(n, k) == 0` for `k > n`.
proof fn lemma_choose_zero_above(n: nat, k: nat)
    requires
        k > n,
    ensures
        binom(n, k) == 0,
    decreases n, k,
{
    if n > 0 {
        lemma_choose_zero_above((n - 1) as nat, (k - 1) as nat);
        lemma_choose_zero_above((n - 1) as nat, k);
    }
}

/// The binomial coefficient `n` choose `k`, by the multiplicative formula
/// `C(n, i + 1) = C(n, i) * (n - i) / (i + 1)`; zero for `k == n + 1`.
pub fn binomial(n: usize, k: usize) -> (r: i64)
    requires
        k <= n + 1,
        forall|i: nat| i < k ==> #[trigger] binom(n as nat, i) * (n - i) <= i64::MAX,
    ensures
        r == binom(n as nat, k as nat),
{
    let mut value: i64 = 1;
    let mut index: usize = 0;
    while index < k
        invariant
            k <= n + 1,
            index <= k,
            forall|i: nat| i < k ==> #[trigger] binom(n as nat, i) * (n - i) <= i64::MAX,
            value == binom(n as nat, index as nat),
        decreases k - index,
    {
        if index == n {
            proof {
                lemma_choose_zero_above(n as nat, (index + 1) as nat);
            }
            value = 0;
            index = index + 1;
            continue;
        }
        let ghost c0 = binom(n as nat, index as nat);
        let ghost c1 = binom(n as nat, (index + 1) as nat);
        proof {
            lemma_choose_step(n as nat, index as nat);
            lemma_choose_positive(n as nat, index as nat);
            lemma_choose_positive(n as nat, (index + 1) as nat);
            assert(c0 * (n - index) <= i64::MAX);
            assert(n - index <= i64::MAX && index + 1 <= i64::MAX) by (nonlinear_arith)
                requires
                    c0 >= 1,
                    c1 >= 1,
                    c0 * (n - index) <= i64::MAX,
                    (index + 1) * c1 == (n - index) * c0,
                    index < n,
            ;
        }
        let factor: i64 = (n - index) as i64;
        let divisor: i64 = (index + 1) as i64;
        proof {
            assert(value * factor <= i64::MAX) by (nonlinear_arith)
                requires
                    value == c0,
                    factor == n - index,
                    c0 * (n - index) <= i64::MAX,
            ;
            assert(value * factor >= 0) by (nonlinear_arith)
                requires
                    value >= 1,
                    factor >= 0,
            ;
        }
        let product = value * factor;
        proof {
            assert(product == c1 * divisor) by (nonlinear_arith)
                requires
                    product == value * factor,
                    value == c0,
                    factor == n - index,
                    divisor == index + 1,
                    (index + 1) * c1 == (n - index) * c0,
            ;
            assert(product / divisor == c1) by (nonlinear_arith)
                requires
                    product == c1 * divisor,
                    divisor > 0,
            ;
        }
        value = product / divisor;
        index = index + 1;
    }
    value
}

} // verus!
