//! Monomials: products of variables raised to positive powers.
//!
//! A monomial is stored as the list of `(variable, exponent)` pairs sorted by
//! strictly increasing variable, with every exponent at least one.  Monomials
//! are ordered lexicographically over that list, pair by pair, which is the
//! order in which a polynomial keeps its terms.
use vstd::prelude::*;

verus! {

/// A variable index.
pub type Variable = usize;

/// Sorted by strictly increasing variable, every exponent positive.
pub open spec fn powers_wf(p: Seq<(usize, usize)>) -> bool {
    &&& forall|i: int, j: int| 0 <= i < j < p.len() ==> p[i].0 < p[j].0
    &&& forall|i: int| 0 <= i < p.len() ==> p[i].1 >= 1
}

/// The exponent of `v` in the power list (zero when absent).
pub open spec fn exponent_of(p: Seq<(usize, usize)>, v: usize) -> nat
    decreases p.len(),
{
    if p.len() == 0 {
        0
    } else if p[0].0 == v {
        p[0].1 as nat
    } else {
        exponent_of(p.drop_first(), v)
    }
}

/// The sum of the exponents.
pub open spec fn total_degree_of(p: Seq<(usize, usize)>) -> nat
    decreases p.len(),
{
    if p.len() == 0 {
        0
    } else {
        (p[0].1 + total_degree_of(p.drop_first())) as nat
    }
}

/// Order of two power pairs: by variable, then by exponent.
pub open spec fn pair_lt(a: (usize, usize), b: (usize, usize)) -> bool {
    a.0 < b.0 || (a.0 == b.0 && a.1 < b.1)
}

/// Lexicographic order of power lists (a proper prefix is smaller).
pub open spec fn mono_lt(a: Seq<(usize, usize)>, b: Seq<(usize, usize)>) -> bool
    decreases a.len(),
{
    if a.len() == 0 {
        b.len() > 0
    } else if b.len() == 0 {
        false
    } else if a[0] != b[0] {
        pair_lt(a[0], b[0])
    } else {
        mono_lt(a.drop_first(), b.drop_first())
    }
}

/// The product of two power lists: exponents of shared variables add up.
pub open spec fn mono_mul(a: Seq<(usize, usize)>, b: Seq<(usize, usize)>) -> Seq<(usize, usize)>
    decreases a.len() + b.len(),
{
    if a.len() == 0 {
        b
    } else if b.len() == 0 {
        a
    } else if a[0].0 < b[0].0 {
        seq![a[0]] + mono_mul(a.drop_first(), b)
    } else if b[0].0 < a[0].0 {
        seq![b[0]] + mono_mul(a, b.drop_first())
    } else {
        seq![(a[0].0, (a[0].1 + b[0].1) as usize)] + mono_mul(a.drop_first(), b.drop_first())
    }
}

/// Every exponent sum of a shared variable fits in a `usize`.
pub open spec fn mono_mul_fits(a: Seq<(usize, usize)>, b: Seq<(usize, usize)>) -> bool {
    forall|i: int, j: int|
        0 <= i < a.len() && 0 <= j < b.len() && #[trigger] a[i].0 == #[trigger] b[j].0 ==> a[i].1
            + b[j].1 <= usize::MAX
}

/// Every exponent is at most `k`.
pub open spec fn powers_bounded(p: Seq<(usize, usize)>, k: nat) -> bool {
    forall|i: int| 0 <= i < p.len() ==> (#[trigger] p[i]).1 <= k
}

/// The largest exponent (zero for the empty product).
pub open spec fn power_max(p: Seq<(usize, usize)>) -> nat
    decreases p.len(),
{
    if p.len() == 0 {
        0
    } else {
        let r = power_max(p.drop_last());
        if p.last().1 > r {
            p.last().1 as nat
        } else {
            r
        }
    }
}

/// The number of entries whose variable is below `v`.
pub open spec fn var_position(p: Seq<(usize, usize)>, v: usize) -> nat
    decreases p.len(),
{
    if p.len() == 0 {
        0
    } else if p.last().0 < v {
        p.len()
    } else {
        var_position(p.drop_last(), v)
    }
}

/// The power list with the exponent of `v` set to `e`; a zero exponent
/// removes `v`.
pub open spec fn set_exponent(p: Seq<(usize, usize)>, v: usize, e: usize) -> Seq<(usize, usize)> {
    let i = var_position(p, v) as int;
    let rest = if i < p.len() && p[i].0 == v {
        p.skip(i + 1)
    } else {
        p.skip(i)
    };
    let middle = if e == 0 {
        Seq::<(usize, usize)>::empty()
    } else {
        seq![(v, e)]
    };
    p.take(i) + middle + rest
}

/// A product of variables raised to positive powers.
#[derive(Clone, Debug, PartialEq, Eq, Hash, PartialOrd, Ord)]
pub struct Monomial {
    powers: Vec<(usize, usize)>,
}

impl View for Monomial {
    type V = Seq<(usize, usize)>;

    closed spec fn view(&self) -> Seq<(usize, usize)> {
        self.powers@
    }
}

impl Default for Monomial {
    /// The empty product; the same as [`Monomial::one`].
    fn default() -> (m: Self)
        ensures
            m.wf(),
            m@ == Seq::<(usize, usize)>::empty(),
    {
        Self::one()
    }
}

impl Monomial {
    /// Sorted variables, positive exponents.
    pub open spec fn wf(&self) -> bool {
        powers_wf(self@)
    }

    /// The empty product.
    pub fn one() -> (m: Self)
        ensures
            m.wf(),
            m@ == Seq::<(usize, usize)>::empty(),
    {
        Monomial { powers: Vec::new() }
    }

    /// The variable `variable` to the first power.
    pub fn variable(variable: Variable) -> (m: Self)
        ensures
            m.wf(),
            m@ == seq![(variable, 1usize)],
    {
        let m = Monomial { powers: vec![(variable, 1usize)] };
        assert(m@ =~= seq![(variable, 1usize)]);
        m
    }

    /// A monomial from a well-formed power list.
    pub(crate) fn from_powers(powers: Vec<(usize, usize)>) -> (m: Self)
        requires
            powers_wf(powers@),
        ensures
            m.wf(),
            m@ == powers@,
    {
        Monomial { powers }
    }

    /// The power list.
    pub(crate) fn powers(&self) -> (p: &Vec<(usize, usize)>)
        ensures
            p@ == self@,
    {
        &self.powers
    }

    /// The exponent of `variable` (zero when absent).
    pub fn exponent(&self, variable: Variable) -> (e: usize)
        ensures
            e == exponent_of(self@, variable),
    {
        let mut i: usize = 0;
        assert(self@.skip(0) =~= self@);
        while i < self.powers.len()
            invariant
                i <= self@.len(),
                exponent_of(self@, variable) == exponent_of(self@.skip(i as int), variable),
            decreases self@.len() - i,
        {
            proof {
                lemma_skip_unfold(self@, i as int);
            }
            if self.powers[i].0 == variable {
                return self.powers[i].1;
            }
            i = i + 1;
        }
        proof {
            assert(self@.skip(i as int).len() == 0);
        }
        0
    }

    /// The variables, in increasing order.
    pub fn variables(&self) -> (vs: Vec<Variable>)
        ensures
            vs@ == self@.map_values(|x: (usize, usize)| x.0),
    {
        let mut vs: Vec<Variable> = Vec::new();
        let mut i: usize = 0;
        assert(vs@ =~= self@.take(0).map_values(|x: (usize, usize)| x.0));
        while i < self.powers.len()
            invariant
                i <= self@.len(),
                vs@ == self@.take(i as int).map_values(|x: (usize, usize)| x.0),
            decreases self@.len() - i,
        {
            vs.push(self.powers[i].0);
            i = i + 1;
            assert(self@.take(i as int) =~= self@.take(i - 1).push(self@[i - 1]));
            assert(vs@ =~= self@.take(i as int).map_values(|x: (usize, usize)| x.0));
        }
        assert(self@.take(i as int) =~= self@);
        vs
    }

    /// The sum of the exponents.
    pub fn total_degree(&self) -> (d: usize)
        requires
            total_degree_of(self@) <= usize::MAX,
        ensures
            d == total_degree_of(self@),
    {
        let mut sum: usize = 0;
        let mut i: usize = self.powers.len();
        proof {
            assert(self@.skip(i as int).len() == 0);
        }
        while i > 0
            invariant
                i <= self@.len(),
                total_degree_of(self@) <= usize::MAX,
                sum == total_degree_of(self@.skip(i as int)),
            decreases i,
        {
            proof {
                lemma_skip_unfold(self@, i - 1);
                lemma_total_degree_suffix(self@, i - 1);
            }
            sum = sum + self.powers[i - 1].1;
            i = i - 1;
        }
        proof {
            assert(self@.skip(0) =~= self@);
        }
        sum
    }

    /// The product of two monomials.
    pub fn multiplied(&self, rhs: &Self) -> (m: Self)
        requires
            self.wf(),
            rhs.wf(),
            mono_mul_fits(self@, rhs@),
        ensures
            m.wf(),
            m@ == mono_mul(self@, rhs@),
    {
        let a = &self.powers;
        let b = &rhs.powers;
        let mut out: Vec<(usize, usize)> = Vec::new();
        let mut i: usize = 0;
        let mut j: usize = 0;
        proof {
            assert(a@.skip(0) =~= a@);
            assert(b@.skip(0) =~= b@);
        }
        while i < a.len() || j < b.len()
            invariant
                i <= a@.len(),
                j <= b@.len(),
                powers_wf(a@),
                powers_wf(b@),
                mono_mul_fits(a@, b@),
                out@ + mono_mul(a@.skip(i as int), b@.skip(j as int)) == mono_mul(a@, b@),
            decreases a@.len() + b@.len() - i - j,
        {
            let ghost sa = a@.skip(i as int);
            let ghost sb = b@.skip(j as int);
            proof {
                lemma_skip_unfold(a@, i as int);
                lemma_skip_unfold(b@, j as int);
            }
            if i == a.len() {
                proof {
                    assert(sa.len() == 0);
                    assert(mono_mul(sa, sb) == sb);
                }
                out.push(b[j]);
                j = j + 1;
                proof {
                    assert(sb =~= seq![sb[0]] + b@.skip(j as int));
                    assert(mono_mul(a@.skip(i as int), b@.skip(j as int)) == b@.skip(j as int));
                    assert(out@ + b@.skip(j as int) =~= out@.drop_last() + sb);
                }
            } else if j == b.len() {
                proof {
                    assert(sb.len() == 0);
                    assert(mono_mul(sa, sb) == sa);
                }
                out.push(a[i]);
                i = i + 1;
                proof {
                    assert(sa =~= seq![sa[0]] + a@.skip(i as int));
                    if a@.skip(i as int).len() > 0 {
                        assert(mono_mul(a@.skip(i as int), b@.skip(j as int)) == a@.skip(i as int));
                    }
                    assert(out@ + a@.skip(i as int) =~= out@.drop_last() + sa);
                }
            } else if a[i].0 < b[j].0 {
                out.push(a[i]);
                i = i + 1;
                proof {
                    assert(out@ + mono_mul(a@.skip(i as int), sb) =~= out@.drop_last() + (seq![
                        sa[0],
                    ] + mono_mul(sa.drop_first(), sb)));
                }
            } else if b[j].0 < a[i].0 {
                out.push(b[j]);
                j = j + 1;
                proof {
                    assert(out@ + mono_mul(sa, b@.skip(j as int)) =~= out@.drop_last() + (seq![
                        sb[0],
                    ] + mono_mul(sa, sb.drop_first())));
                }
            } else {
                proof {
                    assert(a@[i as int].0 == b@[j as int].0);
                }
                let sum = a[i].1 + b[j].1;
                out.push((a[i].0, sum));
                i = i + 1;
                j = j + 1;
                proof {
                    assert(out@ + mono_mul(a@.skip(i as int), b@.skip(j as int)) =~= out@.drop_last()
                        + (seq![(sa[0].0, (sa[0].1 + sb[0].1) as usize)] + mono_mul(
                        sa.drop_first(),
                        sb.drop_first(),
                    )));
                }
            }
        }
        proof {
            assert(a@.skip(i as int).len() == 0);
            assert(b@.skip(j as int).len() == 0);
            assert(out@ =~= mono_mul(a@, b@));
            lemma_mono_mul_wf(a@, b@);
        }
        Monomial { powers: out }
    }

    /// The monomial with the exponent of `variable` set to `e` (zero removes
    /// the variable).
    pub fn with_exponent(&self, variable: Variable, e: usize) -> (m: Self)
        requires
            self.wf(),
        ensures
            m.wf(),
            m@ == set_exponent(self@, variable, e),
            forall|u: usize|
                #[trigger] exponent_of(m@, u) == if u == variable {
                    e as nat
                } else {
                    exponent_of(self@, u)
                },
    {
        let p = &self.powers;
        let n = p.len();
        let mut out: Vec<(usize, usize)> = Vec::new();
        let mut i: usize = 0;
        while i < n && p[i].0 < variable
            invariant
                n == p@.len(),
                p@ == self@,
                i <= n,
                out@ == p@.take(i as int),
                forall|k: int| 0 <= k < i ==> (#[trigger] p@[k]).0 < variable,
            decreases n - i,
        {
            out.push(p[i]);
            i = i + 1;
            assert(out@ =~= p@.take(i as int));
        }
        proof {
            lemma_var_position(p@, variable, i as int);
        }
        if e > 0 {
            out.push((variable, e));
        }
        let mut j: usize = if i < n && p[i].0 == variable {
            i + 1
        } else {
            i
        };
        let ghost start = j;
        let ghost head = out@;
        while j < n
            invariant
                n == p@.len(),
                start <= j <= n,
                out@ == head + p@.subrange(start as int, j as int),
            decreases n - j,
        {
            out.push(p[j]);
            j = j + 1;
            assert(out@ =~= head + p@.subrange(start as int, j as int));
        }
        proof {
            assert(out@ =~= set_exponent(self@, variable, e));
            lemma_set_exponent(self@, variable, e);
        }
        Monomial { powers: out }
    }

    /// Whether this is the empty product.
    pub fn is_one(&self) -> (b: bool)
        ensures
            b == (self@.len() == 0),
    {
        self.powers.len() == 0
    }

    /// An exact copy.
    pub fn duplicate(&self) -> (m: Self)
        ensures
            m@ == self@,
    {
        Monomial { powers: copy_powers(&self.powers) }
    }

    /// The order of monomials: -1 when `self` comes first, 0 when equal,
    /// 1 when `other` comes first.
    pub fn order(&self, other: &Self) -> (r: i8)
        ensures
            r == -1 <==> mono_lt(self@, other@),
            r == 0 <==> self@ == other@,
            r == 1 <==> mono_lt(other@, self@),
            -1 <= r <= 1,
    {
        let a = &self.powers;
        let b = &other.powers;
        let mut i: usize = 0;
        proof {
            assert(a@.skip(0) =~= a@);
            assert(b@.skip(0) =~= b@);
            assert(a@.take(0) =~= b@.take(0));
            lemma_mono_lt_irreflexive(a@);
            lemma_mono_lt_asymmetric(a@, b@);
        }
        while i < a.len() && i < b.len()
            invariant
                i <= a@.len(),
                i <= b@.len(),
                a@ == self@,
                b@ == other@,
                a@.take(i as int) == b@.take(i as int),
                mono_lt(a@, b@) == mono_lt(a@.skip(i as int), b@.skip(i as int)),
                mono_lt(b@, a@) == mono_lt(b@.skip(i as int), a@.skip(i as int)),
            decreases a@.len() - i,
        {
            proof {
                lemma_skip_unfold(a@, i as int);
                lemma_skip_unfold(b@, i as int);
            }
            let x = a[i];
            let y = b[i];
            if x.0 < y.0 || (x.0 == y.0 && x.1 < y.1) {
                proof {
                    let sa = a@.skip(i as int);
                    let sb = b@.skip(i as int);
                    assert(sa[0] == x && sb[0] == y);
                    assert(sa[0] != sb[0]);
                    assert(mono_lt(sa, sb));
                    lemma_mono_lt_asymmetric(a@, b@);
                    assert(a@[i as int] != b@[i as int]);
                }
                return -1;
            }
            if y.0 < x.0 || (x.0 == y.0 && y.1 < x.1) {
                proof {
                    let sa = a@.skip(i as int);
                    let sb = b@.skip(i as int);
                    assert(sa[0] == x && sb[0] == y);
                    assert(sa[0] != sb[0]);
                    assert(mono_lt(sb, sa));
                    lemma_mono_lt_asymmetric(a@, b@);
                    assert(a@[i as int] != b@[i as int]);
                }
                return 1;
            }
            i = i + 1;
            proof {
                assert(a@.take(i as int) =~= a@.take(i - 1).push(a@[i - 1]));
                assert(b@.take(i as int) =~= b@.take(i - 1).push(b@[i - 1]));
            }
        }
        proof {
            lemma_skip_unfold(a@, i as int);
            lemma_skip_unfold(b@, i as int);
            lemma_mono_lt_asymmetric(a@, b@);
        }
        if a.len() == b.len() {
            proof {
                assert(a@ =~= a@.take(i as int));
                assert(b@ =~= b@.take(i as int));
                lemma_mono_lt_irreflexive(a@);
            }
            0
        } else if i == a.len() {
            proof {
                assert(a@.skip(i as int).len() == 0);
                assert(a@ != b@);
            }
            -1
        } else {
            proof {
                assert(b@.skip(i as int).len() == 0);
                assert(a@ != b@);
            }
            1
        }
    }
}

/// An element-by-element copy of a power list.
pub(crate) fn copy_powers(v: &Vec<(usize, usize)>) -> (r: Vec<(usize, usize)>)
    ensures
        r@ == v@,
{
    let mut r: Vec<(usize, usize)> = Vec::new();
    let mut i: usize = 0;
    while i < v.len()
        invariant
            i <= v@.len(),
            r@ == v@.take(i as int),
        decreases v@.len() - i,
    {
        r.push(v[i]);
        i = i + 1;
        assert(r@ =~= v@.take(i as int));
    }
    assert(v@.take(i as int) =~= v@);
    r
}

/// Skipping one more element drops the first of the remainder.
pub proof fn lemma_skip_unfold<T>(s: Seq<T>, i: int)
    requires
        0 <= i <= s.len(),
    ensures
        i < s.len() ==> s.skip(i).drop_first() == s.skip(i + 1),
        i < s.len() ==> s.skip(i)[0] == s[i],
        s.skip(i).len() == s.len() - i,
{
    if i < s.len() {
        assert(s.skip(i).drop_first() =~= s.skip(i + 1));
    }
}

/// The total degree of a suffix grows by the exponent in front of it.
proof fn lemma_total_degree_suffix(p: Seq<(usize, usize)>, i: int)
    requires
        0 <= i < p.len(),
    ensures
        total_degree_of(p.skip(i)) == p[i].1 + total_degree_of(p.skip(i + 1)),
        total_degree_of(p.skip(i)) <= total_degree_of(p),
    decreases i,
{
    lemma_skip_unfold(p, i);
    if i > 0 {
        lemma_total_degree_suffix(p, i - 1);
        lemma_skip_unfold(p, i - 1);
    } else {
        assert(p.skip(0) =~= p);
    }
}

/// `mono_lt` never relates a list to itself.
pub proof fn lemma_mono_lt_irreflexive(a: Seq<(usize, usize)>)
    ensures
        !mono_lt(a, a),
    decreases a.len(),
{
    if a.len() > 0 {
        lemma_mono_lt_irreflexive(a.drop_first());
    }
}

/// `mono_lt` is asymmetric, and distinct lists are related one way.
pub proof fn lemma_mono_lt_asymmetric(a: Seq<(usize, usize)>, b: Seq<(usize, usize)>)
    ensures
        !(mono_lt(a, b) && mono_lt(b, a)),
        a != b ==> (mono_lt(a, b) || mono_lt(b, a)),
    decreases a.len(),
{
    if a.len() > 0 && b.len() > 0 && a[0] == b[0] {
        lemma_mono_lt_asymmetric(a.drop_first(), b.drop_first());
        if a != b {
            assert(a =~= seq![a[0]] + a.drop_first());
            assert(b =~= seq![b[0]] + b.drop_first());
        }
    }
    if a.len() == 0 && b.len() == 0 {
        assert(a =~= b);
    }
}

/// `mono_lt` is transitive.
pub proof fn lemma_mono_lt_transitive(
    a: Seq<(usize, usize)>,
    b: Seq<(usize, usize)>,
    c: Seq<(usize, usize)>,
)
    requires
        mono_lt(a, b),
        mono_lt(b, c),
    ensures
        mono_lt(a, c),
    decreases a.len(),
{
    if a.len() > 0 && b.len() > 0 && c.len() > 0 && a[0] == b[0] && b[0] == c[0] {
        lemma_mono_lt_transitive(a.drop_first(), b.drop_first(), c.drop_first());
    }
}

/// In a well-formed list, the exponent of a listed variable is its entry's.
pub proof fn lemma_exponent_at(p: Seq<(usize, usize)>, k: int)
    requires
        powers_wf(p),
        0 <= k < p.len(),
    ensures
        exponent_of(p, p[k].0) == p[k].1,
    decreases k,
{
    if k > 0 {
        let q = p.drop_first();
        assert(p[0].0 < p[k].0);
        assert(q[k - 1] == p[k]);
        assert(powers_wf(q)) by {
            assert forall|i: int, j: int| 0 <= i < j < q.len() implies q[i].0 < q[j].0 by {
                assert(q[i] == p[i + 1] && q[j] == p[j + 1]);
            }
            assert forall|i: int| 0 <= i < q.len() implies q[i].1 >= 1 by {
                assert(q[i] == p[i + 1]);
            }
        }
        lemma_exponent_at(q, k - 1);
    }
}

/// The exponent of an unlisted variable is zero.
pub proof fn lemma_exponent_absent(p: Seq<(usize, usize)>, u: usize)
    requires
        forall|k: int| 0 <= k < p.len() ==> (#[trigger] p[k]).0 != u,
    ensures
        exponent_of(p, u) == 0,
    decreases p.len(),
{
    if p.len() > 0 {
        let q = p.drop_first();
        assert forall|k: int| 0 <= k < q.len() implies (#[trigger] q[k]).0 != u by {
            assert(q[k] == p[k + 1]);
        }
        lemma_exponent_absent(q, u);
    }
}

/// The index past the entries below `v` is its position.
pub proof fn lemma_var_position(p: Seq<(usize, usize)>, v: usize, i: int)
    requires
        powers_wf(p),
        0 <= i <= p.len(),
        forall|k: int| 0 <= k < i ==> (#[trigger] p[k]).0 < v,
        i == p.len() || p[i].0 >= v,
    ensures
        var_position(p, v) == i,
    decreases p.len(),
{
    if p.len() > 0 && i < p.len() {
        let q = p.drop_last();
        assert(!(p.last().0 < v));
        assert(powers_wf(q)) by {
            assert forall|a: int, b: int| 0 <= a < b < q.len() implies q[a].0 < q[b].0 by {
                assert(q[a] == p[a] && q[b] == p[b]);
            }
            assert forall|a: int| 0 <= a < q.len() implies q[a].1 >= 1 by {
                assert(q[a] == p[a]);
            }
        }
        assert forall|k: int| 0 <= k < i implies (#[trigger] q[k]).0 < v by {
            assert(q[k] == p[k]);
        }
        if i < q.len() {
            assert(q[i] == p[i]);
        }
        lemma_var_position(q, v, i);
    }
}

/// The position of `v` never exceeds the length.
pub proof fn lemma_var_position_bound(p: Seq<(usize, usize)>, v: usize)
    ensures
        var_position(p, v) <= p.len(),
        forall|k: int| 0 <= k < var_position(p, v) ==> (#[trigger] p[k]).0 < v || !powers_wf(p),
    decreases p.len(),
{
    if p.len() > 0 {
        lemma_var_position_bound(p.drop_last(), v);
        if p.last().0 < v {
            assert forall|k: int| 0 <= k < var_position(p, v) implies (#[trigger] p[k]).0 < v
                || !powers_wf(p) by {
                if powers_wf(p) && k < p.len() - 1 {
                    assert(p[k].0 < p[p.len() - 1].0);
                }
            }
        } else {
            assert forall|k: int| 0 <= k < var_position(p, v) implies (#[trigger] p[k]).0 < v
                || !powers_wf(p) by {
                assert(p.drop_last()[k] == p[k]);
                if powers_wf(p) {
                    let q = p.drop_last();
                    assert(powers_wf(q)) by {
                        assert forall|a: int, b: int| 0 <= a < b < q.len() implies q[a].0 < q[b].0 by {
                            assert(q[a] == p[a] && q[b] == p[b]);
                        }
                        assert forall|a: int| 0 <= a < q.len() implies q[a].1 >= 1 by {
                            assert(q[a] == p[a]);
                        }
                    }
                }
            }
        }
    }
}

/// Setting an exponent keeps the list well formed and changes that
/// exponent alone.
pub proof fn lemma_set_exponent(p: Seq<(usize, usize)>, v: usize, e: usize)
    requires
        powers_wf(p),
    ensures
        powers_wf(set_exponent(p, v, e)),
        forall|u: usize|
            #[trigger] exponent_of(set_exponent(p, v, e), u) == if u == v {
                e as nat
            } else {
                exponent_of(p, u)
            },
{
    lemma_var_position_bound(p, v);
    let i = var_position(p, v) as int;
    let r = set_exponent(p, v, e);
    let found = i < p.len() && p[i].0 == v;
    let j0 = if found {
        i + 1
    } else {
        i
    };
    let mid: int = if e == 0 {
        0
    } else {
        1
    };
    assert(r.len() == i + mid + (p.len() - j0));
    assert forall|k: int| 0 <= k < i implies r[k] == p[k] by {}
    assert forall|k: int| j0 <= k < p.len() implies r[i + mid + (k - j0)] == p[k] by {}
    assert forall|k: int| j0 <= k < p.len() implies p[k].0 > v by {
        if i < p.len() {
            assert(!(p[i].0 < v) || i >= p.len()) by {
                if p[i].0 < v {
                    lemma_var_position_after(p, v, i);
                }
            }
            if k > i {
                assert(p[i].0 < p[k].0);
            }
        }
    }
    assert forall|a: int, b: int| 0 <= a < b < r.len() implies r[a].0 < r[b].0 by {
        if b < i {
        } else if a < i {
            if b < i + mid {
            } else {
                let kb = b - i - mid + j0;
                assert(r[b] == p[kb]);
                if kb > a {
                    assert(p[a].0 < p[kb].0);
                }
            }
        } else if a < i + mid {
            let kb = b - i - mid + j0;
            assert(r[b] == p[kb]);
        } else {
            let ka = a - i - mid + j0;
            let kb = b - i - mid + j0;
            assert(r[a] == p[ka] && r[b] == p[kb]);
        }
    }
    assert forall|a: int| 0 <= a < r.len() implies r[a].1 >= 1 by {
        if a < i {
        } else if a < i + mid {
        } else {
            assert(r[a] == p[a - i - mid + j0]);
        }
    }
    assert forall|u: usize|
        #[trigger] exponent_of(r, u) == if u == v {
            e as nat
        } else {
            exponent_of(p, u)
        } by {
        if u == v {
            if e > 0 {
                assert(r[i] == (v, e));
                lemma_exponent_at(r, i);
            } else {
                assert forall|k: int| 0 <= k < r.len() implies (#[trigger] r[k]).0 != u by {
                    if k >= i {
                        assert(r[k] == p[k - i + j0]);
                    }
                }
                lemma_exponent_absent(r, u);
            }
        } else {
            if exists|k: int| 0 <= k < p.len() && p[k].0 == u {
                let k = choose|k: int| 0 <= k < p.len() && p[k].0 == u;
                lemma_exponent_at(p, k);
                if k < i {
                    lemma_exponent_at(r, k);
                } else {
                    assert(k >= j0);
                    lemma_exponent_at(r, i + mid + (k - j0));
                }
            } else {
                lemma_exponent_absent(p, u);
                assert forall|k: int| 0 <= k < r.len() implies (#[trigger] r[k]).0 != u by {
                    if k < i {
                    } else if k < i + mid {
                    } else {
                        assert(r[k] == p[k - i - mid + j0]);
                    }
                }
                lemma_exponent_absent(r, u);
            }
        }
    }
}

/// The largest exponent is within any bound of the exponents.
pub proof fn lemma_power_max_le(p: Seq<(usize, usize)>, k: nat)
    requires
        powers_bounded(p, k),
    ensures
        power_max(p) <= k,
    decreases p.len(),
{
    if p.len() > 0 {
        let q = p.drop_last();
        assert forall|i: int| 0 <= i < q.len() implies (#[trigger] q[i]).1 <= k by {
            assert(q[i] == p[i]);
        }
        lemma_power_max_le(q, k);
        assert(p[p.len() - 1].1 <= k);
    }
}

/// Setting an exponent to at most `k` keeps a bound of `k`.
pub proof fn lemma_set_exponent_bounded(p: Seq<(usize, usize)>, v: usize, e: usize, k: nat)
    requires
        powers_bounded(p, k),
        e <= k,
    ensures
        powers_bounded(set_exponent(p, v, e), k),
{
    lemma_var_position_bound(p, v);
    let i = var_position(p, v) as int;
    let r = set_exponent(p, v, e);
    let found = i < p.len() && p[i].0 == v;
    let j0 = if found {
        i + 1
    } else {
        i
    };
    let mid: int = if e == 0 {
        0
    } else {
        1
    };
    assert forall|a: int| 0 <= a < r.len() implies (#[trigger] r[a]).1 <= k by {
        if a < i {
            assert(r[a] == p[a]);
        } else if a < i + mid {
        } else {
            assert(r[a] == p[a - i - mid + j0]);
        }
    }
}

/// Entries at or past the position of `v` are not below `v`.
proof fn lemma_var_position_after(p: Seq<(usize, usize)>, v: usize, k: int)
    requires
        powers_wf(p),
        var_position(p, v) <= k < p.len(),
    ensures
        p[k].0 >= v,
    decreases p.len(),
{
    if !(p.last().0 < v) {
        let q = p.drop_last();
        if k < q.len() {
            assert(powers_wf(q)) by {
                assert forall|a: int, b: int| 0 <= a < b < q.len() implies q[a].0 < q[b].0 by {
                    assert(q[a] == p[a] && q[b] == p[b]);
                }
                assert forall|a: int| 0 <= a < q.len() implies q[a].1 >= 1 by {
                    assert(q[a] == p[a]);
                }
            }
            lemma_var_position_after(q, v, k);
            assert(q[k] == p[k]);
        }
    }
}

/// Any two distinct power lists are ordered one way or the other.
pub proof fn lemma_mono_lt_total(a: Seq<(usize, usize)>, b: Seq<(usize, usize)>)
    ensures
        a == b || mono_lt(a, b) || mono_lt(b, a),
    decreases a.len(),
{
    if a.len() == 0 {
        if b.len() == 0 {
            assert(a =~= b);
        }
    } else if b.len() == 0 {
    } else if a[0] != b[0] {
    } else {
        lemma_mono_lt_total(a.drop_first(), b.drop_first());
        if a.drop_first() == b.drop_first() {
            assert(a =~= seq![a[0]] + a.drop_first());
            assert(b =~= seq![b[0]] + b.drop_first());
        }
    }
}

/// The largest exponent bounds every exponent.
pub proof fn lemma_power_max_bounds(p: Seq<(usize, usize)>)
    ensures
        powers_bounded(p, power_max(p)),
    decreases p.len(),
{
    if p.len() > 0 {
        lemma_power_max_bounds(p.drop_last());
        assert forall|i: int| 0 <= i < p.len() implies (#[trigger] p[i]).1 <= power_max(p) by {
            if i < p.len() - 1 {
                assert(p.drop_last()[i] == p[i]);
            }
        }
    }
}

/// A bound of the factors' exponents, added up, bounds the product's.
pub proof fn lemma_mono_mul_bounded(a: Seq<(usize, usize)>, b: Seq<(usize, usize)>, ka: nat, kb: nat)
    requires
        powers_bounded(a, ka),
        powers_bounded(b, kb),
        mono_mul_fits(a, b),
    ensures
        powers_bounded(mono_mul(a, b), ka + kb),
    decreases a.len() + b.len(),
{
    let m = mono_mul(a, b);
    if a.len() == 0 || b.len() == 0 {
    } else {
        let a1 = a.drop_first();
        let b1 = b.drop_first();
        assert(powers_bounded(a1, ka)) by {
            assert forall|i: int| 0 <= i < a1.len() implies (#[trigger] a1[i]).1 <= ka by {
                assert(a1[i] == a[i + 1]);
            }
        }
        assert(powers_bounded(b1, kb)) by {
            assert forall|i: int| 0 <= i < b1.len() implies (#[trigger] b1[i]).1 <= kb by {
                assert(b1[i] == b[i + 1]);
            }
        }
        if a[0].0 < b[0].0 {
            assert(mono_mul_fits(a1, b)) by {
                assert forall|i: int, j: int|
                    0 <= i < a1.len() && 0 <= j < b.len() && #[trigger] a1[i].0 == #[trigger] b[j].0
                        implies a1[i].1 + b[j].1 <= usize::MAX by {
                    assert(a1[i] == a[i + 1]);
                }
            }
            lemma_mono_mul_bounded(a1, b, ka, kb);
            let r = mono_mul(a1, b);
            assert forall|i: int| 0 <= i < m.len() implies (#[trigger] m[i]).1 <= ka + kb by {
                if i > 0 {
                    assert(m[i] == r[i - 1]);
                }
            }
        } else if b[0].0 < a[0].0 {
            assert(mono_mul_fits(a, b1)) by {
                assert forall|i: int, j: int|
                    0 <= i < a.len() && 0 <= j < b1.len() && #[trigger] a[i].0 == #[trigger] b1[j].0
                        implies a[i].1 + b1[j].1 <= usize::MAX by {
                    assert(b1[j] == b[j + 1]);
                }
            }
            lemma_mono_mul_bounded(a, b1, ka, kb);
            let r = mono_mul(a, b1);
            assert forall|i: int| 0 <= i < m.len() implies (#[trigger] m[i]).1 <= ka + kb by {
                if i > 0 {
                    assert(m[i] == r[i - 1]);
                }
            }
        } else {
            assert(mono_mul_fits(a1, b1)) by {
                assert forall|i: int, j: int|
                    0 <= i < a1.len() && 0 <= j < b1.len() && #[trigger] a1[i].0
                        == #[trigger] b1[j].0 implies a1[i].1 + b1[j].1 <= usize::MAX by {
                    assert(a1[i] == a[i + 1]);
                    assert(b1[j] == b[j + 1]);
                }
            }
            lemma_mono_mul_bounded(a1, b1, ka, kb);
            let r = mono_mul(a1, b1);
            assert(a[0].0 == b[0].0);
            assert(a[0].1 + b[0].1 <= usize::MAX);
            assert forall|i: int| 0 <= i < m.len() implies (#[trigger] m[i]).1 <= ka + kb by {
                if i > 0 {
                    assert(m[i] == r[i - 1]);
                } else {
                    assert(a[0].1 <= ka);
                    assert(b[0].1 <= kb);
                }
            }
        }
    }
}

/// Every variable of a product comes from one of the factors.
pub proof fn lemma_mono_mul_vars(a: Seq<(usize, usize)>, b: Seq<(usize, usize)>, k: int)
    requires
        0 <= k < mono_mul(a, b).len(),
    ensures
        (exists|i: int| 0 <= i < a.len() && a[i].0 == mono_mul(a, b)[k].0) || (exists|j: int|
            0 <= j < b.len() && b[j].0 == mono_mul(a, b)[k].0),
    decreases a.len() + b.len(),
{
    let m = mono_mul(a, b);
    if a.len() == 0 {
        assert(b[k].0 == m[k].0);
    } else if b.len() == 0 {
        assert(a[k].0 == m[k].0);
    } else if a[0].0 < b[0].0 {
        if k == 0 {
            assert(a[0].0 == m[k].0);
        } else {
            lemma_mono_mul_vars(a.drop_first(), b, k - 1);
            let r = mono_mul(a.drop_first(), b);
            assert(m[k] == r[k - 1]);
            if exists|i: int| 0 <= i < a.drop_first().len() && a.drop_first()[i].0 == r[k - 1].0 {
                let i = choose|i: int|
                    0 <= i < a.drop_first().len() && a.drop_first()[i].0 == r[k - 1].0;
                assert(a[i + 1].0 == m[k].0);
            }
        }
    } else if b[0].0 < a[0].0 {
        if k == 0 {
            assert(b[0].0 == m[k].0);
        } else {
            lemma_mono_mul_vars(a, b.drop_first(), k - 1);
            let r = mono_mul(a, b.drop_first());
            assert(m[k] == r[k - 1]);
            if exists|j: int| 0 <= j < b.drop_first().len() && b.drop_first()[j].0 == r[k - 1].0 {
                let j = choose|j: int|
                    0 <= j < b.drop_first().len() && b.drop_first()[j].0 == r[k - 1].0;
                assert(b[j + 1].0 == m[k].0);
            }
        }
    } else {
        if k == 0 {
            assert(a[0].0 == m[k].0);
        } else {
            lemma_mono_mul_vars(a.drop_first(), b.drop_first(), k - 1);
            let r = mono_mul(a.drop_first(), b.drop_first());
            assert(m[k] == r[k - 1]);
            if exists|i: int| 0 <= i < a.drop_first().len() && a.drop_first()[i].0 == r[k - 1].0 {
                let i = choose|i: int|
                    0 <= i < a.drop_first().len() && a.drop_first()[i].0 == r[k - 1].0;
                assert(a[i + 1].0 == m[k].0);
            }
            if exists|j: int| 0 <= j < b.drop_first().len() && b.drop_first()[j].0 == r[k - 1].0 {
                let j = choose|j: int|
                    0 <= j < b.drop_first().len() && b.drop_first()[j].0 == r[k - 1].0;
                assert(b[j + 1].0 == m[k].0);
            }
        }
    }
}

/// The product of well-formed power lists is well formed.
pub proof fn lemma_mono_mul_wf(a: Seq<(usize, usize)>, b: Seq<(usize, usize)>)
    requires
        powers_wf(a),
        powers_wf(b),
        mono_mul_fits(a, b),
    ensures
        powers_wf(mono_mul(a, b)),
    decreases a.len() + b.len(),
{
    let m = mono_mul(a, b);
    if a.len() == 0 || b.len() == 0 {
    } else if a[0].0 < b[0].0 {
        let r = mono_mul(a.drop_first(), b);
        lemma_mono_mul_wf(a.drop_first(), b);
        assert forall|k: int| 0 <= k < r.len() implies r[k].0 > a[0].0 by {
            lemma_mono_mul_vars(a.drop_first(), b, k);
        }
        assert forall|i: int, j: int| 0 <= i < j < m.len() implies m[i].0 < m[j].0 by {
            if i > 0 {
                assert(m[i] == r[i - 1] && m[j] == r[j - 1]);
            } else {
                assert(m[j] == r[j - 1]);
            }
        }
        assert forall|i: int| 0 <= i < m.len() implies m[i].1 >= 1 by {
            if i > 0 {
                assert(m[i] == r[i - 1]);
            }
        }
    } else if b[0].0 < a[0].0 {
        let r = mono_mul(a, b.drop_first());
        lemma_mono_mul_wf(a, b.drop_first());
        assert forall|k: int| 0 <= k < r.len() implies r[k].0 > b[0].0 by {
            lemma_mono_mul_vars(a, b.drop_first(), k);
        }
        assert forall|i: int, j: int| 0 <= i < j < m.len() implies m[i].0 < m[j].0 by {
            if i > 0 {
                assert(m[i] == r[i - 1] && m[j] == r[j - 1]);
            } else {
                assert(m[j] == r[j - 1]);
            }
        }
        assert forall|i: int| 0 <= i < m.len() implies m[i].1 >= 1 by {
            if i > 0 {
                assert(m[i] == r[i - 1]);
            }
        }
    } else {
        let r = mono_mul(a.drop_first(), b.drop_first());
        assert(a[0].0 == b[0].0);
        assert(a[0].1 + b[0].1 <= usize::MAX);
        lemma_mono_mul_wf(a.drop_first(), b.drop_first());
        assert forall|k: int| 0 <= k < r.len() implies r[k].0 > a[0].0 by {
            lemma_mono_mul_vars(a.drop_first(), b.drop_first(), k);
        }
        assert forall|i: int, j: int| 0 <= i < j < m.len() implies m[i].0 < m[j].0 by {
            if i > 0 {
                assert(m[i] == r[i - 1] && m[j] == r[j - 1]);
            } else {
                assert(m[j] == r[j - 1]);
            }
        }
        assert forall|i: int| 0 <= i < m.len() implies m[i].1 >= 1 by {
            if i > 0 {
                assert(m[i] == r[i - 1]);
            }
        }
    }
}

/// The tail of a well-formed power list is well formed.
proof fn lemma_powers_tail(p: Seq<(usize, usize)>)
    requires
        powers_wf(p),
        p.len() > 0,
    ensures
        powers_wf(p.drop_first()),
        forall|k: int| 0 <= k < p.drop_first().len() ==> p[0].0 < (#[trigger] p.drop_first()[k]).0,
{
    let q = p.drop_first();
    assert forall|k: int| 0 <= k < q.len() implies p[0].0 < (#[trigger] q[k]).0 by {
        assert(q[k] == p[k + 1]);
    }
    assert forall|i: int, j: int| 0 <= i < j < q.len() implies q[i].0 < q[j].0 by {
        assert(q[i] == p[i + 1] && q[j] == p[j + 1]);
    }
    assert forall|i: int| 0 <= i < q.len() implies q[i].1 >= 1 by {
        assert(q[i] == p[i + 1]);
    }
}

/// Multiplying monomials adds their exponents: the exponent of every
/// variable in `a * b` is its exponent in `a` plus its exponent in `b`.
pub proof fn law_mono_mul_exponents(a: Seq<(usize, usize)>, b: Seq<(usize, usize)>, v: usize)
    requires
        powers_wf(a),
        powers_wf(b),
        mono_mul_fits(a, b),
    ensures
        exponent_of(mono_mul(a, b), v) == exponent_of(a, v) + exponent_of(b, v),
    decreases a.len() + b.len(),
{
    if a.len() == 0 {
    } else if b.len() == 0 {
    } else {
        let a1 = a.drop_first();
        let b1 = b.drop_first();
        lemma_powers_tail(a);
        lemma_powers_tail(b);
        if a[0].0 < b[0].0 {
            assert(mono_mul_fits(a1, b)) by {
                assert forall|i: int, j: int|
                    0 <= i < a1.len() && 0 <= j < b.len() && #[trigger] a1[i].0 == #[trigger] b[j].0 implies a1[i].1
                    + b[j].1 <= usize::MAX by {
                    assert(a1[i] == a[i + 1]);
                }
            }
            law_mono_mul_exponents(a1, b, v);
            let r = seq![a[0]] + mono_mul(a1, b);
            assert(r[0] == a[0]);
            assert(r.drop_first() =~= mono_mul(a1, b));
            if a[0].0 == v {
                assert forall|k: int| 0 <= k < b.len() implies (#[trigger] b[k]).0 != v by {
                    if k > 0 {
                        assert(b[k] == b1[k - 1]);
                    }
                }
                lemma_exponent_absent(b, v);
            }
        } else if b[0].0 < a[0].0 {
            assert(mono_mul_fits(a, b1)) by {
                assert forall|i: int, j: int|
                    0 <= i < a.len() && 0 <= j < b1.len() && #[trigger] a[i].0 == #[trigger] b1[j].0 implies a[i].1
                    + b1[j].1 <= usize::MAX by {
                    assert(b1[j] == b[j + 1]);
                }
            }
            law_mono_mul_exponents(a, b1, v);
            let r = seq![b[0]] + mono_mul(a, b1);
            assert(r[0] == b[0]);
            assert(r.drop_first() =~= mono_mul(a, b1));
            if b[0].0 == v {
                assert forall|k: int| 0 <= k < a.len() implies (#[trigger] a[k]).0 != v by {
                    if k > 0 {
                        assert(a[k] == a1[k - 1]);
                    }
                }
                lemma_exponent_absent(a, v);
            }
        } else {
            assert(mono_mul_fits(a1, b1)) by {
                assert forall|i: int, j: int|
                    0 <= i < a1.len() && 0 <= j < b1.len() && #[trigger] a1[i].0 == #[trigger] b1[j].0 implies a1[i].1
                    + b1[j].1 <= usize::MAX by {
                    assert(a1[i] == a[i + 1]);
                    assert(b1[j] == b[j + 1]);
                }
            }
            law_mono_mul_exponents(a1, b1, v);
            assert(a[0].0 == b[0].0);
            assert(a[0].1 + b[0].1 <= usize::MAX);
            let r = seq![(a[0].0, (a[0].1 + b[0].1) as usize)] + mono_mul(a1, b1);
            assert(r[0] == (a[0].0, (a[0].1 + b[0].1) as usize));
            assert(r.drop_first() =~= mono_mul(a1, b1));
            if a[0].0 == v {
                assert forall|k: int| 0 <= k < a1.len() implies (#[trigger] a1[k]).0 != v by {}
                assert forall|k: int| 0 <= k < b1.len() implies (#[trigger] b1[k]).0 != v by {}
                lemma_exponent_absent(a1, v);
                lemma_exponent_absent(b1, v);
            }
        }
    }
}

/// Well-formed monomials with the same exponent of every variable are
/// equal.
pub proof fn law_monomial_exponents_determine(a: Seq<(usize, usize)>, b: Seq<(usize, usize)>)
    requires
        powers_wf(a),
        powers_wf(b),
        forall|v: usize| #[trigger] exponent_of(a, v) == exponent_of(b, v),
    ensures
        a == b,
    decreases a.len() + b.len(),
{
    if a.len() == 0 && b.len() == 0 {
        assert(a =~= b);
    } else if a.len() == 0 {
        assert(exponent_of(b, b[0].0) == b[0].1);
        assert(exponent_of(a, b[0].0) == 0);
    } else if b.len() == 0 {
        assert(exponent_of(a, a[0].0) == a[0].1);
        assert(exponent_of(b, a[0].0) == 0);
    } else {
        let a1 = a.drop_first();
        let b1 = b.drop_first();
        lemma_powers_tail(a);
        lemma_powers_tail(b);
        if a[0].0 < b[0].0 {
            assert forall|k: int| 0 <= k < b.len() implies (#[trigger] b[k]).0 != a[0].0 by {
                if k > 0 {
                    assert(b[k] == b1[k - 1]);
                }
            }
            lemma_exponent_absent(b, a[0].0);
            assert(exponent_of(a, a[0].0) == a[0].1);
        } else if b[0].0 < a[0].0 {
            assert forall|k: int| 0 <= k < a.len() implies (#[trigger] a[k]).0 != b[0].0 by {
                if k > 0 {
                    assert(a[k] == a1[k - 1]);
                }
            }
            lemma_exponent_absent(a, b[0].0);
            assert(exponent_of(b, b[0].0) == b[0].1);
        } else {
            let u = a[0].0;
            assert(exponent_of(a, u) == a[0].1);
            assert(exponent_of(b, u) == b[0].1);
            assert forall|v: usize| #[trigger] exponent_of(a1, v) == exponent_of(b1, v) by {
                if v == u {
                    assert forall|k: int| 0 <= k < a1.len() implies (#[trigger] a1[k]).0 != v by {}
                    assert forall|k: int| 0 <= k < b1.len() implies (#[trigger] b1[k]).0 != v by {}
                    lemma_exponent_absent(a1, v);
                    lemma_exponent_absent(b1, v);
                } else {
                    assert(exponent_of(a, v) == exponent_of(a1, v));
                    assert(exponent_of(b, v) == exponent_of(b1, v));
                }
            }
            law_monomial_exponents_determine(a1, b1);
            assert(a =~= seq![a[0]] + a1);
            assert(b =~= seq![b[0]] + b1);
        }
    }
}

} // verus!
