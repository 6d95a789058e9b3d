//! The configuration of the special-purpose elimination rules, and the
//! recognition of the bindings they work on.
//!
//! A configuration is a small TOML-like text: a `[special-rules]` section of
//! `rule = true|false` lines, with `#` comments and blank lines allowed.
use crate::formula::{
    all_wf, formula_wf, lemma_all_wf_member, lemma_member_decreases, lemma_views_of, views_of, Atom,
    Formula, FormulaView, Relation,
};
use crate::polynomial::{
    add_terms, has_variable, mul_terms, negate_terms, strictly_increasing, Polynomial, TermView,
};
use crate::polynomial::decimal_string;
use crate::rational::decimal;
use vstd::prelude::*;
use vstd::string::StrSliceExecFns;
use vstd::string::StringExecFns;

verus! {

/// A special-purpose elimination rule.
#[derive(Clone, Debug, PartialEq, Eq, Structural)]
pub enum SpecialRule {
    /// Two witnesses bound only through their sum and product.
    SymmetricSumProduct,
}

/// Which special rules are enabled, in the order they were listed.
#[derive(Clone, Debug, PartialEq, Eq)]
pub struct SpecialHandlingConfig {
    pub enabled_rules: Vec<SpecialRule>,
}

/// White space in the sense of Unicode's `White_Space` property, which is
/// what `str::trim` removes.
pub open spec fn is_space(c: char) -> bool {
    let u = c as u32;
    (0x09 <= u <= 0x0d) || u == 0x20 || u == 0x85 || u == 0xa0 || u == 0x1680 || (0x2000 <= u
        <= 0x200a) || u == 0x2028 || u == 0x2029 || u == 0x202f || u == 0x205f || u == 0x3000
}

/// The text without leading white space.
pub open spec fn trim_start(s: Seq<char>) -> Seq<char>
    decreases s.len(),
{
    if s.len() > 0 && is_space(s[0]) {
        trim_start(s.drop_first())
    } else {
        s
    }
}

/// The text without trailing white space.
pub open spec fn trim_end(s: Seq<char>) -> Seq<char>
    decreases s.len(),
{
    if s.len() > 0 && is_space(s.last()) {
        trim_end(s.drop_last())
    } else {
        s
    }
}

/// The text without leading or trailing white space.
pub open spec fn trimmed(s: Seq<char>) -> Seq<char> {
    trim_end(trim_start(s))
}

/// The index of the first `c`, or the length when there is none.
pub open spec fn index_of(s: Seq<char>, c: char) -> nat
    decreases s.len(),
{
    if s.len() == 0 {
        0
    } else if s[0] == c {
        0
    } else {
        1 + index_of(s.drop_first(), c)
    }
}

/// What one line does to the state (in the section or not, rules so far),
/// or the error it raises; `number` is its 1-based line number.
pub open spec fn line_step(
    line: Seq<char>,
    number: nat,
    in_section: bool,
    rules: Seq<SpecialRule>,
) -> Result<(bool, Seq<SpecialRule>), Seq<char>> {
    let l = trimmed(line.subrange(0, index_of(line, '#') as int));
    if l.len() == 0 {
        Ok((in_section, rules))
    } else if l[0] == '[' && l.last() == ']' {
        if l.subrange(1, l.len() - 1) == "special-rules"@ {
            Ok((true, rules))
        } else {
            Err("unknown special-rules config section on line "@ + decimal(number))
        }
    } else if !in_section {
        Err("special-rules config entry appears outside [special-rules] on line "@ + decimal(number))
    } else {
        let eq = index_of(l, '=') as int;
        if eq >= l.len() {
            Err("expected rule = true|false on line "@ + decimal(number))
        } else {
            let name = trimmed(l.subrange(0, eq));
            let value = trimmed(l.subrange(eq + 1, l.len() as int));
            if name != "symmetric-sum-product"@ {
                Err("unknown special rule `"@ + name + "` on line "@ + decimal(number))
            } else if value == "true"@ {
                Ok((in_section, rules.push(SpecialRule::SymmetricSumProduct)))
            } else if value == "false"@ {
                Ok((in_section, rules))
            } else {
                Err("special rule `"@ + name + "` must be true or false on line "@ + decimal(number))
            }
        }
    }
}

/// The outcome of reading the lines that start at `start`, the first of
/// them numbered `number`: the enabled rules, or the first error.
pub open spec fn parse_from(
    s: Seq<char>,
    start: int,
    number: nat,
    in_section: bool,
    rules: Seq<SpecialRule>,
) -> Result<Seq<SpecialRule>, Seq<char>>
    decreases s.len() - start,
{
    if start < 0 || start > s.len() {
        Err(Seq::<char>::empty())
    } else {
        let end = start + index_of(s.subrange(start, s.len() as int), '\n');
        proof {
            lemma_index_of_bound(s.subrange(start, s.len() as int), '\n');
        }
        match line_step(s.subrange(start, end), number, in_section, rules) {
            Err(e) => Err(e),
            Ok(state) => if end >= s.len() {
                Ok(state.1)
            } else {
                parse_from(s, end + 1, number + 1, state.0, state.1)
            },
        }
    }
}

/// The outcome of reading a configuration text.
pub open spec fn config_result(s: Seq<char>) -> Result<Seq<SpecialRule>, Seq<char>> {
    parse_from(s, 0, 1, false, Seq::<SpecialRule>::empty())
}

/// The index of a character is within the text.
pub proof fn lemma_index_of_bound(s: Seq<char>, c: char)
    ensures
        index_of(s, c) <= s.len(),
        index_of(s, c) < s.len() ==> s[index_of(s, c) as int] == c,
        forall|k: int| 0 <= k < index_of(s, c) ==> s[k] != c,
    decreases s.len(),
{
    if s.len() > 0 && s[0] != c {
        lemma_index_of_bound(s.drop_first(), c);
        assert forall|k: int| 0 <= k < index_of(s, c) implies s[k] != c by {
            if k > 0 {
                assert(s.drop_first()[k - 1] == s[k]);
            }
        }
    }
}

/// Whether `c` is white space.
pub fn char_is_space(c: char) -> (b: bool)
    ensures
        b == is_space(c),
{
    let u = c as u32;
    (0x09 <= u && u <= 0x0d) || u == 0x20 || u == 0x85 || u == 0xa0 || u == 0x1680 || (0x2000
        <= u && u <= 0x200a) || u == 0x2028 || u == 0x2029 || u == 0x202f || u == 0x205f || u
        == 0x3000
}

/// The bounds of `s[from..to]` without leading and trailing white space.
fn trim_bounds(s: &Vec<char>, from: usize, to: usize) -> (r: (usize, usize))
    requires
        from <= to <= s@.len(),
    ensures
        from <= r.0 <= r.1 <= to,
        s@.subrange(r.0 as int, r.1 as int) == trimmed(s@.subrange(from as int, to as int)),
{
    let mut a = from;
    while a < to && char_is_space(s[a])
        invariant
            from <= a <= to <= s@.len(),
            trim_start(s@.subrange(from as int, to as int)) == trim_start(
                s@.subrange(a as int, to as int),
            ),
        decreases to - a,
    {
        assert(s@.subrange(a as int, to as int).drop_first() =~= s@.subrange(a + 1, to as int));
        a = a + 1;
    }
    let mut b = to;
    assert(trim_start(s@.subrange(a as int, to as int)) == s@.subrange(a as int, to as int));
    while b > a && char_is_space(s[b - 1])
        invariant
            a <= b <= to <= s@.len(),
            trim_end(s@.subrange(a as int, to as int)) == trim_end(s@.subrange(a as int, b as int)),
        decreases b - a,
    {
        assert(s@.subrange(a as int, b as int).drop_last() =~= s@.subrange(a as int, b - 1));
        b = b - 1;
    }
    (a, b)
}

/// The index of the first `c` in `s[from..to]`, counted from `from`.
fn find_char(s: &Vec<char>, from: usize, to: usize, c: char) -> (k: usize)
    requires
        from <= to <= s@.len(),
    ensures
        from <= k <= to,
        k - from == index_of(s@.subrange(from as int, to as int), c),
{
    let mut k = from;
    while k < to && s[k] != c
        invariant
            from <= k <= to <= s@.len(),
            index_of(s@.subrange(from as int, to as int), c) == (k - from) + index_of(
                s@.subrange(k as int, to as int),
                c,
            ),
        decreases to - k,
    {
        assert(s@.subrange(k as int, to as int).drop_first() =~= s@.subrange(k + 1, to as int));
        k = k + 1;
    }
    k
}

/// Whether `s[from..to]` is the text `lit`.
fn text_is(s: &Vec<char>, from: usize, to: usize, lit: &str) -> (b: bool)
    requires
        from <= to <= s@.len(),
    ensures
        b == (s@.subrange(from as int, to as int) == lit@),
{
    let n = lit.unicode_len();
    if to - from != n {
        return false;
    }
    let mut k: usize = 0;
    while k < n
        invariant
            n == lit@.len(),
            to - from == n,
            from <= to <= s@.len(),
            k <= n,
            forall|j: int| 0 <= j < k ==> s@[from + j] == lit@[j],
        decreases n - k,
    {
        if s[from + k] != lit.get_char(k) {
            proof {
                assert(s@.subrange(from as int, to as int)[k as int] != lit@[k as int]);
            }
            return false;
        }
        k = k + 1;
    }
    assert(s@.subrange(from as int, to as int) =~= lit@);
    true
}

/// An error text: `head`, then `s[from..to]`, then `tail`, then the line number.
fn message(head: &str, contents: &str, from: usize, to: usize, tail: &str, number: usize) -> (m:
    String)
    requires
        from <= to <= contents@.len(),
    ensures
        m@ == head@ + contents@.subrange(from as int, to as int) + tail@ + decimal(number as nat),
{
    let mut m = String::from_str(head);
    m.append(contents.substring_char(from, to));
    m.append(tail);
    let digits = decimal_string(number);
    m.append(digits.as_str());
    m
}

/// An error text: `head`, then the line number.
fn plain_message(head: &str, number: usize) -> (m: String)
    ensures
        m@ == head@ + decimal(number as nat),
{
    let mut m = String::from_str(head);
    let digits = decimal_string(number);
    m.append(digits.as_str());
    m
}

impl SpecialHandlingConfig {
    /// Reads a configuration text (see [`config_result`]).
    pub fn parse(contents: &str) -> (r: Result<Self, String>)
        ensures
            match r {
                Ok(config) => config_result(contents@) == Ok::<Seq<SpecialRule>, Seq<char>>(
                    config.enabled_rules@,
                ),
                Err(e) => config_result(contents@) == Err::<Seq<SpecialRule>, Seq<char>>(e@),
            },
    {
        let n = contents.unicode_len();
        let mut chars: Vec<char> = Vec::new();
        let mut i: usize = 0;
        while i < n
            invariant
                n == contents@.len(),
                i <= n,
                chars@ == contents@.take(i as int),
            decreases n - i,
        {
            chars.push(contents.get_char(i));
            i = i + 1;
            assert(chars@ =~= contents@.take(i as int));
        }
        assert(chars@ =~= contents@);
        let ghost s = contents@;
        let mut rules: Vec<SpecialRule> = Vec::new();
        let mut in_section = false;
        let mut start: usize = 0;
        let mut index: usize = 0;
        loop
            invariant
                chars@ == s,
                s == contents@,
                n == s.len(),
                start <= n,
                index <= start,
                config_result(s) == parse_from(s, start as int, index as nat + 1, in_section, rules@),
            decreases n - start,
        {
            let end = find_char(&chars, start, n, '\n');
            proof {
                assert(s.subrange(start as int, n as int) == s.subrange(start as int, s.len() as int));
                lemma_index_of_bound(s.subrange(start as int, s.len() as int), '\n');
            }
            let ghost line = s.subrange(start as int, end as int);
            let hash = find_char(&chars, start, end, '#');
            proof {
                assert(line.subrange(0, index_of(line, '#') as int) =~= s.subrange(
                    start as int,
                    hash as int,
                ));
            }
            let (a, b) = trim_bounds(&chars, start, hash);
            let ghost l = s.subrange(a as int, b as int);
            let ghost step = line_step(line, index as nat + 1, in_section, rules@);
            if a < b {
                // a nonempty line: its number fits
                let number = index + 1;
                if chars[a] == '[' && chars[b - 1] == ']' {
                    proof {
                        assert(l[0] == '[' && l.last() == ']');
                        assert(l.subrange(1, l.len() - 1) =~= s.subrange(a + 1, b - 1));
                    }
                    if text_is(&chars, a + 1, b - 1, "special-rules") {
                        in_section = true;
                    } else {
                        return Err(
                            plain_message("unknown special-rules config section on line ", number),
                        );
                    }
                } else if !in_section {
                    return Err(
                        plain_message("special-rules config entry appears outside [special-rules] on line ", number),
                    );
                } else {
                    let eq = find_char(&chars, a, b, '=');
                    if eq >= b {
                        return Err(
                            plain_message("expected rule = true|false on line ", number),
                        );
                    }
                    proof {
                        assert(l.subrange(0, (eq - a) as int) =~= s.subrange(a as int, eq as int));
                        assert(l.subrange((eq - a) + 1, l.len() as int) =~= s.subrange(
                            eq + 1,
                            b as int,
                        ));
                    }
                    let (na, nb) = trim_bounds(&chars, a, eq);
                    let (va, vb) = trim_bounds(&chars, eq + 1, b);
                    if !text_is(&chars, na, nb, "symmetric-sum-product") {
                        return Err(
                            message("unknown special rule `", contents, na, nb, "` on line ", number),
                        );
                    }
                    if text_is(&chars, va, vb, "true") {
                        rules.push(SpecialRule::SymmetricSumProduct);
                    } else if !text_is(&chars, va, vb, "false") {
                        return Err(
                            message(
                                "special rule `",
                                contents,
                                na,
                                nb,
                                "` must be true or false on line ",
                                number,
                            ),
                        );
                    }
                }
            }
            if end >= n {
                return Ok(SpecialHandlingConfig { enabled_rules: rules });
            }
            start = end + 1;
            index = index + 1;
        }
    }
}

impl Default for SpecialHandlingConfig {
    /// Every special rule enabled.
    fn default() -> (config: Self)
        ensures
            config.enabled_rules@ == seq![SpecialRule::SymmetricSumProduct],
    {
        let mut enabled_rules: Vec<SpecialRule> = Vec::new();
        enabled_rules.push(SpecialRule::SymmetricSumProduct);
        SpecialHandlingConfig { enabled_rules }
    }
}


/// The variables of a polynomial in increasing order.
pub open spec fn variable_list(p: Seq<TermView>) -> Seq<usize> {
    choose|s: Seq<usize>| strictly_increasing(s) && forall|v: usize| s.contains(v) <==> has_variable(p, v)
}

/// Every variable a formula mentions, bound ones included, in order of
/// appearance: each atom's variables in increasing order, and a binder's
/// variable before its body's.
pub open spec fn all_variables_view(f: FormulaView) -> Seq<usize>
    decreases f,
{
    match f {
        FormulaView::Atom(p, _) => variable_list(p),
        FormulaView::Not(b) => all_variables_view(*b),
        FormulaView::And(fs) => all_variables_list(fs),
        FormulaView::Or(fs) => all_variables_list(fs),
        FormulaView::Quantified(_, v, b) => seq![v] + all_variables_view(*b),
        _ => Seq::empty(),
    }
}

/// [`all_variables_view`] of the formulas of a list, one after another.
pub open spec fn all_variables_list(fs: Seq<FormulaView>) -> Seq<usize>
    decreases fs,
{
    if fs.len() == 0 {
        Seq::empty()
    } else {
        all_variables_list(fs.drop_last()) + all_variables_view(fs.last())
    }
}

/// Every variable of a formula, bound ones included.
pub fn all_variables(formula: &Formula) -> (vs: Vec<usize>)
    requires
        formula_wf(*formula),
    ensures
        vs@ == all_variables_view(formula@),
    decreases formula,
{
    match formula {
        Formula::True | Formula::False => Vec::new(),
        Formula::Atom(atom) => {
            let vs = atom.polynomial.variables();
            proof {
                let c = variable_list(atom.polynomial@);
                assert(strictly_increasing(vs@) && forall|v: usize|
                    vs@.contains(v) <==> has_variable(atom.polynomial@, v));
                crate::cli::lemma_increasing_unique(vs@, c);
            }
            vs
        },
        Formula::Not(body) => all_variables(body),
        Formula::And(formulas) => all_variables_of(formulas),
        Formula::Or(formulas) => all_variables_of(formulas),
        Formula::Quantified { variable, body, .. } => {
            let mut vs: Vec<usize> = Vec::new();
            vs.push(*variable);
            let mut rest = all_variables(body);
            let ghost first = vs@;
            let ghost tail = rest@;
            vs.append(&mut rest);
            proof {
                assert(vs@ =~= seq![*variable] + tail);
            }
            vs
        },
    }
}

/// [`all_variables`] of every formula of the list, one after another.
fn all_variables_of(formulas: &Vec<Formula>) -> (vs: Vec<usize>)
    requires
        all_wf(formulas@),
    ensures
        vs@ == all_variables_list(views_of(formulas@)),
    decreases formulas,
{
    let mut vs: Vec<usize> = Vec::new();
    let mut i: usize = 0;
    proof {
        assert(formulas@.take(0) =~= Seq::<Formula>::empty());
    }
    while i < formulas.len()
        invariant
            all_wf(formulas@),
            i <= formulas@.len(),
            vs@ == all_variables_list(views_of(formulas@.take(i as int))),
        decreases formulas@.len() - i,
    {
        proof {
            lemma_member_decreases(formulas, i as int);
            lemma_all_wf_member(formulas@, i as int);
            let t1 = formulas@.take(i + 1);
            assert(t1.drop_last() =~= formulas@.take(i as int));
            assert(views_of(t1).drop_last() =~= views_of(formulas@.take(i as int)));
            lemma_views_of(t1);
            assert(views_of(t1).last() == formulas@[i as int]@);
        }
        let mut more = all_variables(&formulas[i]);
        let ghost before = vs@;
        let ghost added = more@;
        vs.append(&mut more);
        proof {
            assert(vs@ =~= before + added);
        }
        i = i + 1;
    }
    proof {
        assert(formulas@.take(i as int) =~= formulas@);
    }
    vs
}

/// The largest variable of the list, when there is one.
pub open spec fn largest(vs: Seq<usize>) -> Option<usize>
    decreases vs.len(),
{
    if vs.len() == 0 {
        None
    } else {
        match largest(vs.drop_last()) {
            None => Some(vs.last()),
            Some(m) => Some(if vs.last() > m {
                vs.last()
            } else {
                m
            }),
        }
    }
}

/// A variable not used anywhere in the formula: one past the largest, zero
/// for a formula without variables.
pub fn next_variable(formula: &Formula) -> (v: usize)
    requires
        formula_wf(*formula),
        largest(all_variables_view(formula@)) matches Some(m) ==> m < usize::MAX,
    ensures
        v == match largest(all_variables_view(formula@)) {
            None => 0,
            Some(m) => m + 1,
        },
{
    let vs = all_variables(formula);
    let mut best: Option<usize> = None;
    let mut i: usize = 0;
    proof {
        assert(vs@.take(0) =~= Seq::<usize>::empty());
    }
    while i < vs.len()
        invariant
            i <= vs@.len(),
            best == largest(vs@.take(i as int)),
        decreases vs@.len() - i,
    {
        proof {
            let t1 = vs@.take(i + 1);
            assert(t1.drop_last() =~= vs@.take(i as int));
        }
        best = match best {
            None => Some(vs[i]),
            Some(m) => Some(if vs[i] > m {
                vs[i]
            } else {
                m
            }),
        };
        i = i + 1;
    }
    proof {
        assert(vs@.take(i as int) =~= vs@);
    }
    match best {
        None => 0,
        Some(m) => m + 1,
    }
}

/// The terms of `x_v`.
pub open spec fn variable_terms(v: usize) -> Seq<TermView> {
    seq![(seq![(v, 1usize)], (1int, 1nat))]
}

/// The polynomial `x_alias - x_left - x_right`.
pub open spec fn sum_binding_terms(left: usize, right: usize, alias: usize) -> Seq<TermView> {
    add_terms(
        add_terms(variable_terms(alias), negate_terms(variable_terms(left))),
        negate_terms(variable_terms(right)),
    )
}

/// The polynomial `x_alias - x_left * x_right`.
pub open spec fn product_binding_terms(left: usize, right: usize, alias: usize) -> Seq<TermView> {
    add_terms(variable_terms(alias), negate_terms(mul_terms(variable_terms(left), variable_terms(right))))
}

/// Whether the atom says `x_alias == x_left + x_right`, either way round.
pub fn is_sum_binding(atom: &Atom, left: usize, right: usize, alias: usize) -> (b: bool)
    requires
        atom.polynomial.wf(),
    ensures
        b == (atom.relation == Relation::Equal && (atom.polynomial@ == sum_binding_terms(
            left,
            right,
            alias,
        ) || atom.polynomial@ == negate_terms(sum_binding_terms(left, right, alias)))),
{
    if atom.relation != Relation::Equal {
        return false;
    }
    let expected = Polynomial::variable(alias).minus(&Polynomial::variable(left)).minus(
        &Polynomial::variable(right),
    );
    let negated = expected.negated();
    atom.polynomial.equals(&expected) || atom.polynomial.equals(&negated)
}

/// Whether the atom says `x_alias == x_left * x_right`, either way round.
pub fn is_product_binding(atom: &Atom, left: usize, right: usize, alias: usize) -> (b: bool)
    requires
        atom.polynomial.wf(),
    ensures
        b == (atom.relation == Relation::Equal && (atom.polynomial@ == product_binding_terms(
            left,
            right,
            alias,
        ) || atom.polynomial@ == negate_terms(product_binding_terms(left, right, alias)))),
{
    if atom.relation != Relation::Equal {
        return false;
    }
    let x_left = Polynomial::variable(left);
    let x_right = Polynomial::variable(right);
    proof {
        assert(crate::polynomial::exponents_bounded(x_left@, 1)) by {
            assert(crate::monomial::powers_bounded(x_left@[0].0, 1));
        }
        assert(crate::polynomial::exponents_bounded(x_right@, 1)) by {
            assert(crate::monomial::powers_bounded(x_right@[0].0, 1));
        }
        crate::polynomial::lemma_bounded_mul_fits(x_left@, x_right@, 1, 1);
    }
    let product = x_left.times(&x_right);
    let expected = Polynomial::variable(alias).minus(&product);
    let negated = expected.negated();
    atom.polynomial.equals(&expected) || atom.polynomial.equals(&negated)
}

} // verus!
