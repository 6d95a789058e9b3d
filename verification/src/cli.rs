//! The rules of the `qe` command line: its options, and the text it prints
//! for formulas and statistics.
use crate::formula::{
    all_wf, formula_wf, free_in, lemma_all_wf_member, lemma_member_decreases, views_of, Formula,
    FormulaView, Relation,
};
use crate::cad::projection::{find_duplicate, has_duplicate, occurs_twice};
use crate::parser::ParsedFormula;
use crate::polynomial::strictly_increasing;
use crate::qe::evaluate::EliminationStats;
use crate::polynomial::{decimal_string, name_text, polynomial_text, VariableNames};
use crate::rational::decimal;
use vstd::prelude::*;
use vstd::string::StrSliceExecFns;

verus! {

/// `s` begins with `prefix`.
pub open spec fn has_prefix(s: Seq<char>, prefix: Seq<char>) -> bool {
    prefix.len() <= s.len() && s.take(prefix.len() as int) == prefix
}

/// `s` without every leading copy of a nonempty `prefix`.
pub open spec fn strip_prefixes(s: Seq<char>, prefix: Seq<char>) -> Seq<char>
    decreases s.len(),
{
    if prefix.len() > 0 && has_prefix(s, prefix) {
        strip_prefixes(s.skip(prefix.len() as int), prefix)
    } else {
        s
    }
}

/// The index of the first argument from `i` on that begins with `prefix`.
pub open spec fn first_with_prefix(args: Seq<Seq<char>>, prefix: Seq<char>, i: int) -> Option<int>
    decreases args.len() - i,
{
    if i < 0 || i >= args.len() {
        None
    } else if has_prefix(args[i], prefix) {
        Some(i)
    } else {
        first_with_prefix(args, prefix, i + 1)
    }
}

/// The texts of the arguments.
pub open spec fn args_view(args: Seq<String>) -> Seq<Seq<char>> {
    args.map_values(|s: String| s@)
}

/// Whether `s` begins with `prefix`.
fn starts_with(s: &str, prefix: &str) -> (b: bool)
    ensures
        b == has_prefix(s@, prefix@),
{
    let n = s.unicode_len();
    let m = prefix.unicode_len();
    if m > n {
        return false;
    }
    let mut i: usize = 0;
    while i < m
        invariant
            m <= n,
            n == s@.len(),
            m == prefix@.len(),
            i <= m,
            forall|k: int| 0 <= k < i ==> s@[k] == prefix@[k],
        decreases m - i,
    {
        if s.get_char(i) != prefix.get_char(i) {
            proof {
                assert(s@.take(m as int)[i as int] != prefix@[i as int]);
            }
            return false;
        }
        i = i + 1;
    }
    proof {
        assert(s@.take(m as int) =~= prefix@);
    }
    true
}

/// `s` without every leading copy of a nonempty `prefix`.
fn strip_all_prefixes(s: &str, prefix: &str) -> (r: String)
    requires
        prefix@.len() > 0,
    ensures
        r@ == strip_prefixes(s@, prefix@),
{
    let n = s.unicode_len();
    let m = prefix.unicode_len();
    let mut start: usize = 0;
    let mut rest = s.substring_char(0, n);
    proof {
        assert(rest@ =~= s@.skip(0));
        assert(rest@ =~= s@);
    }
    while starts_with(rest, prefix)
        invariant
            n == s@.len(),
            m == prefix@.len(),
            m > 0,
            start <= n,
            rest@ == s@.skip(start as int),
            strip_prefixes(s@, prefix@) == strip_prefixes(rest@, prefix@),
        decreases n - start,
    {
        let ghost old_rest = rest@;
        proof {
            assert(has_prefix(old_rest, prefix@));
            assert(strip_prefixes(old_rest, prefix@) == strip_prefixes(old_rest.skip(m as int), prefix@));
        }
        start = start + m;
        rest = s.substring_char(start, n);
        proof {
            assert(rest@ =~= s@.skip(start as int));
            assert(old_rest.skip(m as int) =~= rest@);
        }
    }
    rest.to_owned()
}

/// The index of the first argument that begins with `prefix`.
fn find_with_prefix(arguments: &[String], prefix: &str) -> (r: Option<usize>)
    ensures
        r matches Some(i) ==> i < arguments@.len() && has_prefix(arguments@[i as int]@, prefix@)
            && first_with_prefix(args_view(arguments@), prefix@, 0) == Some(i as int),
        r is None ==> first_with_prefix(args_view(arguments@), prefix@, 0) is None,
{
    let mut i: usize = 0;
    while i < arguments.len()
        invariant
            i <= arguments@.len(),
            first_with_prefix(args_view(arguments@), prefix@, 0) == first_with_prefix(
                args_view(arguments@),
                prefix@,
                i as int,
            ),
        decreases arguments@.len() - i,
    {
        proof {
            assert(args_view(arguments@)[i as int] == arguments@[i as int]@);
        }
        if starts_with(arguments[i].as_str(), prefix) {
            return Some(i);
        }
        i = i + 1;
    }
    None
}

/// A decimal digit.
pub open spec fn is_digit(c: char) -> bool {
    '0' <= c <= '9'
}

/// The value of a string of decimal digits.
pub open spec fn digits_value(s: Seq<char>) -> nat
    decreases s.len(),
{
    if s.len() == 0 {
        0
    } else {
        digits_value(s.drop_last()) * 10 + (s.last() as nat - '0' as nat) as nat
    }
}

/// A count as `usize` reads it: an optional `+`, then one or more decimal
/// digits whose value fits.
pub open spec fn parsed_count(s: Seq<char>) -> Option<usize> {
    let d = count_digits(s);
    if d.len() > 0 && (forall|i: int| 0 <= i < d.len() ==> is_digit(#[trigger] d[i]))
        && digits_value(d) <= usize::MAX {
        Some(digits_value(d) as usize)
    } else {
        None
    }
}

/// A longer string of digits is worth at least as much as its prefix.
proof fn lemma_digits_prefix(s: Seq<char>, k: int)
    requires
        0 <= k <= s.len(),
        forall|i: int| 0 <= i < s.len() ==> is_digit(#[trigger] s[i]),
    ensures
        digits_value(s.take(k)) <= digits_value(s),
    decreases s.len(),
{
    if k < s.len() {
        let t = s.drop_last();
        assert(t.take(k) =~= s.take(k));
        assert forall|i: int| 0 <= i < t.len() implies is_digit(#[trigger] t[i]) by {
            assert(t[i] == s[i]);
        }
        lemma_digits_prefix(t, k);
        assert(digits_value(t) <= digits_value(t) * 10) by (nonlinear_arith);
    } else {
        assert(s.take(k) =~= s);
    }
}

/// The digits that a count is read from.
pub open spec fn count_digits(s: Seq<char>) -> Seq<char> {
    if s.len() > 0 && s[0] == '+' {
        s.skip(1)
    } else {
        s
    }
}

/// A count with a character other than a digit, or too large a value, is
/// not read.
proof fn lemma_count_rejected(s: Seq<char>)
    requires
        (exists|k: int| 0 <= k < count_digits(s).len() && !is_digit(#[trigger] count_digits(s)[k]))
            || digits_value(count_digits(s)) > usize::MAX,
    ensures
        parsed_count(s) is None,
{
}

/// Reads a count.
fn parse_count(text: &str) -> (r: Option<usize>)
    ensures
        r == parsed_count(text@),
{
    let n = text.unicode_len();
    let mut start: usize = 0;
    if n > 0 && text.get_char(0) == '+' {
        start = 1;
    }
    let ghost d = text@.skip(start as int);
    proof {
        assert(d =~= if text@.len() > 0 && text@[0] == '+' {
            text@.skip(1)
        } else {
            text@
        });
    }
    if start == n {
        return None;
    }
    let mut value: usize = 0;
    let mut i: usize = start;
    while i < n
        invariant
            n == text@.len(),
            start <= i <= n,
            start < n,
            d == text@.skip(start as int),
            d == count_digits(text@),
            forall|k: int| 0 <= k < i - start ==> is_digit(#[trigger] d[k]),
            value == digits_value(d.take(i - start)),
        decreases n - i,
    {
        let c = text.get_char(i);
        proof {
            assert(d[i - start] == c);
        }
        if c < '0' || c > '9' {
            proof {
                assert(!is_digit(d[i - start]));
                lemma_count_rejected(text@);
            }
            return None;
        }
        let digit = (c as u32 - '0' as u32) as usize;
        proof {
            let t1 = d.take(i - start + 1);
            assert(t1.drop_last() =~= d.take(i - start));
            assert(t1.last() == c);
            assert(digits_value(t1) == value * 10 + digit);
        }
        if value > (usize::MAX - digit) / 10 {
            proof {
                assert(value * 10 + digit > usize::MAX) by (nonlinear_arith)
                    requires
                        value > (usize::MAX - digit) / 10,
                        digit <= 9,
                ;
                let rest_ok = forall|k: int| 0 <= k < d.len() ==> is_digit(#[trigger] d[k]);
                if rest_ok {
                    lemma_digits_prefix(d, i - start + 1);
                } else {
                    let k = choose|k: int| 0 <= k < d.len() && !is_digit(#[trigger] d[k]);
                }
                lemma_count_rejected(text@);
            }
            return None;
        }
        proof {
            assert(value * 10 + digit <= usize::MAX) by (nonlinear_arith)
                requires
                    value <= (usize::MAX - digit) / 10,
                    digit <= 9,
            ;
        }
        value = value * 10 + digit;
        i = i + 1;
    }
    proof {
        assert(d.take(n - start) =~= d);
    }
    Some(value)
}

/// What `--max-cells=N` gives: 100 when absent, else the positive count
/// after the option's name.
pub open spec fn max_cells_result(args: Seq<Seq<char>>) -> Result<Option<usize>, Seq<char>> {
    match first_with_prefix(args, "--max-cells="@, 0) {
        None => Ok(Some(100)),
        Some(i) => match parsed_count(strip_prefixes(args[i], "--max-cells="@)) {
            Some(n) => if n == 0 {
                Err("--max-cells requires a positive integer"@)
            } else {
                Ok(Some(n))
            },
            None => Err("--max-cells requires a positive integer"@),
        },
    }
}

/// Reads `--max-cells=N`; 100 when the option is absent.
pub fn parse_max_cells(arguments: &[String]) -> (r: Result<Option<usize>, String>)
    ensures
        match r {
            Ok(x) => max_cells_result(args_view(arguments@)) == Ok::<Option<usize>, Seq<char>>(x),
            Err(e) => max_cells_result(args_view(arguments@)) == Err::<Option<usize>, Seq<char>>(
                e@,
            ),
        },
{
    let index = match find_with_prefix(arguments, "--max-cells=") {
        Some(i) => i,
        None => return Ok(Some(100)),
    };
    proof {
        reveal_strlit("--max-cells=");
        assert(args_view(arguments@)[index as int] == arguments@[index as int]@);
    }
    let value = strip_all_prefixes(arguments[index].as_str(), "--max-cells=");
    match parse_count(value.as_str()) {
        Some(limit) => {
            if limit == 0 {
                Err(String::from_str("--max-cells requires a positive integer"))
            } else {
                Ok(Some(limit))
            }
        },
        None => Err(String::from_str("--max-cells requires a positive integer")),
    }
}


/// The pieces of `s` between commas, as `split(',')` gives them.
pub open spec fn split_commas(s: Seq<char>) -> Seq<Seq<char>>
    decreases s.len(),
{
    if s.len() == 0 {
        seq![Seq::<char>::empty()]
    } else {
        let parts = split_commas(s.drop_last());
        if s.last() == ',' {
            parts.push(Seq::<char>::empty())
        } else {
            parts.update(parts.len() - 1, parts.last().push(s.last()))
        }
    }
}

/// There is always at least one piece.
proof fn lemma_split_nonempty(s: Seq<char>)
    ensures
        split_commas(s).len() >= 1,
    decreases s.len(),
{
    if s.len() > 0 {
        lemma_split_nonempty(s.drop_last());
    }
}

/// What `--variable-order=a,b,...` gives: the names, `None` when the
/// option is absent.
pub open spec fn variable_order_result(args: Seq<Seq<char>>) -> Result<
    Option<Seq<Seq<char>>>,
    Seq<char>,
> {
    match first_with_prefix(args, "--variable-order="@, 0) {
        None => Ok(None),
        Some(i) => {
            let value = strip_prefixes(args[i], "--variable-order="@);
            if value.len() == 0 {
                Err("--variable-order requires a comma-separated list"@)
            } else if exists|k: int|
                0 <= k < split_commas(value).len() && (#[trigger] split_commas(value)[k]).len() == 0 {
                Err("invalid empty variable in --variable-order"@)
            } else {
                Ok(Some(split_commas(value)))
            }
        },
    }
}

/// Reads `--variable-order=a,b,...`.
pub fn parse_variable_order(arguments: &[String]) -> (r: Result<Option<Vec<String>>, String>)
    ensures
        match r {
            Ok(None) => variable_order_result(args_view(arguments@)) == Ok::<
                Option<Seq<Seq<char>>>,
                Seq<char>,
            >(None),
            Ok(Some(names)) => variable_order_result(args_view(arguments@)) == Ok::<
                Option<Seq<Seq<char>>>,
                Seq<char>,
            >(Some(args_view(names@))),
            Err(e) => variable_order_result(args_view(arguments@)) == Err::<
                Option<Seq<Seq<char>>>,
                Seq<char>,
            >(e@),
        },
{
    let index = match find_with_prefix(arguments, "--variable-order=") {
        Some(i) => i,
        None => return Ok(None),
    };
    proof {
        reveal_strlit("--variable-order=");
        assert(args_view(arguments@)[index as int] == arguments@[index as int]@);
    }
    let value = strip_all_prefixes(arguments[index].as_str(), "--variable-order=");
    let text = value.as_str();
    let n = text.unicode_len();
    if n == 0 {
        return Err(String::from_str("--variable-order requires a comma-separated list"));
    }
    let mut parts: Vec<String> = Vec::new();
    parts.push(String::new());
    let mut start: usize = 0;
    let mut i: usize = 0;
    proof {
        assert(text@.take(0) =~= Seq::<char>::empty());
        assert(args_view(parts@) =~= seq![Seq::<char>::empty()]);
    }
    while i < n
        invariant
            n == text@.len(),
            start <= i <= n,
            parts@.len() >= 1,
            args_view(parts@) == split_commas(text@.take(i as int)),
            parts@.last()@ == text@.subrange(start as int, i as int),
        decreases n - i,
    {
        let c = text.get_char(i);
        let ghost before = args_view(parts@);
        proof {
            let t1 = text@.take(i + 1);
            assert(t1.drop_last() =~= text@.take(i as int));
            assert(t1.last() == c);
        }
        if c == ',' {
            parts.push(String::new());
            start = i + 1;
            proof {
                assert(args_view(parts@) =~= before.push(Seq::<char>::empty()));
                assert(text@.subrange(start as int, i + 1) =~= Seq::<char>::empty());
            }
        } else {
            let last = parts.len() - 1;
            let piece = text.substring_char(start, i + 1).to_owned();
            parts.set(last, piece);
            proof {
                assert(text@.subrange(start as int, i + 1) =~= text@.subrange(start as int, i as int).push(c));
                assert(args_view(parts@) =~= before.update(before.len() - 1, before.last().push(c)));
            }
        }
        i = i + 1;
    }
    proof {
        assert(text@.take(n as int) =~= text@);
    }
    let mut k: usize = 0;
    while k < parts.len()
        invariant
            k <= parts@.len(),
            args_view(parts@) == split_commas(text@),
            text@.len() > 0,
            index < arguments@.len(),
            text@ == strip_prefixes(args_view(arguments@)[index as int], "--variable-order="@),
            first_with_prefix(args_view(arguments@), "--variable-order="@, 0) == Some(index as int),
            forall|j: int| 0 <= j < k ==> (#[trigger] args_view(parts@)[j]).len() > 0,
        decreases parts@.len() - k,
    {
        proof {
            assert(args_view(parts@)[k as int] == parts@[k as int]@);
        }
        if parts[k].as_str().unicode_len() == 0 {
            proof {
                assert(split_commas(text@)[k as int].len() == 0);
            }
            return Err(String::from_str("invalid empty variable in --variable-order"));
        }
        k = k + 1;
    }
    Ok(Some(parts))
}

/// What `--special-rules=PATH` gives: the path, `None` when the option is
/// absent and the default rules apply.
pub open spec fn special_rules_result(args: Seq<Seq<char>>) -> Result<Option<Seq<char>>, Seq<char>> {
    match first_with_prefix(args, "--special-rules="@, 0) {
        None => Ok(None),
        Some(i) => {
            let path = strip_prefixes(args[i], "--special-rules="@);
            if path.len() == 0 {
                Err("--special-rules requires a file path"@)
            } else {
                Ok(Some(path))
            }
        },
    }
}

/// Reads `--special-rules=PATH`: the file to load the rules from, or `None`
/// for the default rules.
pub fn parse_special_rules(arguments: &[String]) -> (r: Result<Option<String>, String>)
    ensures
        match r {
            Ok(None) => special_rules_result(args_view(arguments@)) == Ok::<
                Option<Seq<char>>,
                Seq<char>,
            >(None),
            Ok(Some(path)) => special_rules_result(args_view(arguments@)) == Ok::<
                Option<Seq<char>>,
                Seq<char>,
            >(Some(path@)),
            Err(e) => special_rules_result(args_view(arguments@)) == Err::<
                Option<Seq<char>>,
                Seq<char>,
            >(e@),
        },
{
    let index = match find_with_prefix(arguments, "--special-rules=") {
        Some(i) => i,
        None => return Ok(None),
    };
    proof {
        reveal_strlit("--special-rules=");
        assert(args_view(arguments@)[index as int] == arguments@[index as int]@);
    }
    let path = strip_all_prefixes(arguments[index].as_str(), "--special-rules=");
    if path.as_str().unicode_len() == 0 {
        return Err(String::from_str("--special-rules requires a file path"));
    }
    Ok(Some(path))
}

/// The text of a relation.
pub open spec fn relation_text(relation: Relation) -> Seq<char> {
    match relation {
        Relation::Equal => seq!['='],
        Relation::NotEqual => seq!['!', '='],
        Relation::Less => seq!['<'],
        Relation::LessOrEqual => seq!['<', '='],
        Relation::Greater => seq!['>'],
        Relation::GreaterOrEqual => seq!['>', '='],
    }
}

/// The text of a relation.
pub fn format_relation(relation: Relation) -> (s: &'static str)
    ensures
        s@ == relation_text(relation),
{
    proof {
        reveal_strlit("=");
        reveal_strlit("!=");
        reveal_strlit("<");
        reveal_strlit("<=");
        reveal_strlit(">");
        reveal_strlit(">=");
    }
    match relation {
        Relation::Equal => "=",
        Relation::NotEqual => "!=",
        Relation::Less => "<",
        Relation::LessOrEqual => "<=",
        Relation::Greater => ">",
        Relation::GreaterOrEqual => ">=",
    }
}


/// The text of a formula without quantifiers: `true`, `false`, an atom as
/// `p relation 0`, `!(f)`, and members in parentheses joined by `&&` or
/// `||`.
pub open spec fn formula_text(names: Map<usize, Seq<char>>, f: FormulaView) -> Seq<char>
    decreases f,
{
    match f {
        FormulaView::True => "true"@,
        FormulaView::False => "false"@,
        FormulaView::Atom(p, r) => polynomial_text(names, p) + " "@ + relation_text(r) + " 0"@,
        FormulaView::Not(b) => "!("@ + formula_text(names, *b) + ")"@,
        FormulaView::And(fs) => members_text(names, fs, " && "@),
        FormulaView::Or(fs) => members_text(names, fs, " || "@),
        FormulaView::Quantified(..) => "<quantified>"@,
    }
}

/// The members, each in parentheses, joined by `separator`.
pub open spec fn members_text(names: Map<usize, Seq<char>>, fs: Seq<FormulaView>, separator: Seq<char>) -> Seq<
    char,
>
    decreases fs,
{
    if fs.len() == 0 {
        Seq::empty()
    } else {
        let item = "("@ + formula_text(names, fs.last()) + ")"@;
        if fs.len() == 1 {
            item
        } else {
            members_text(names, fs.drop_last(), separator) + separator + item
        }
    }
}

/// The text of a formula, with the given variable names.
pub fn format_formula(formula: &Formula, names: &VariableNames) -> (s: String)
    requires
        formula_wf(*formula),
    ensures
        s@ == formula_text(names@, formula@),
    decreases formula,
{
    match formula {
        Formula::True => String::from_str("true"),
        Formula::False => String::from_str("false"),
        Formula::Atom(atom) => {
            let mut s = atom.polynomial.to_string_with(names);
            s.append(" ");
            s.append(format_relation(atom.relation));
            s.append(" 0");
            s
        },
        Formula::Not(body) => {
            let mut s = String::from_str("!(");
            let inner = format_formula(body, names);
            s.append(inner.as_str());
            s.append(")");
            s
        },
        Formula::And(formulas) => format_members(formulas, names, " && "),
        Formula::Or(formulas) => format_members(formulas, names, " || "),
        Formula::Quantified { .. } => String::from_str("<quantified>"),
    }
}

/// The members, each in parentheses, joined by `separator`.
fn format_members(formulas: &Vec<Formula>, names: &VariableNames, separator: &str) -> (s: String)
    requires
        all_wf(formulas@),
    ensures
        s@ == members_text(names@, views_of(formulas@), separator@),
    decreases formulas,
{
    let mut s = String::new();
    let mut i: usize = 0;
    proof {
        assert(formulas@.take(0) =~= Seq::<Formula>::empty());
    }
    while i < formulas.len()
        invariant
            all_wf(formulas@),
            i <= formulas@.len(),
            s@ == members_text(names@, views_of(formulas@.take(i as int)), separator@),
        decreases formulas@.len() - i,
    {
        proof {
            lemma_member_decreases(formulas, i as int);
            lemma_all_wf_member(formulas@, i as int);
            let t1 = formulas@.take(i + 1);
            assert(t1.drop_last() =~= formulas@.take(i as int));
            assert(views_of(t1).drop_last() =~= views_of(formulas@.take(i as int)));
            crate::formula::lemma_views_of(t1);
            crate::formula::lemma_views_of(formulas@.take(i as int));
        }
        if i > 0 {
            s.append(separator);
        }
        s.append("(");
        let inner = format_formula(&formulas[i], names);
        s.append(inner.as_str());
        s.append(")");
        i = i + 1;
    }
    proof {
        assert(formulas@.take(i as int) =~= formulas@);
    }
    s
}

/// Variable names joined by ` -> `.
pub open spec fn order_text(names: Map<usize, Seq<char>>, vs: Seq<usize>) -> Seq<char>
    decreases vs.len(),
{
    if vs.len() == 0 {
        Seq::empty()
    } else if vs.len() == 1 {
        name_text(names, vs[0])
    } else {
        order_text(names, vs.drop_last()) + " -> "@ + name_text(names, vs.last())
    }
}

/// One line per lifting order, numbered from zero.
pub open spec fn order_lines(names: Map<usize, Seq<char>>, orders: Seq<Seq<usize>>) -> Seq<char>
    decreases orders.len(),
{
    if orders.len() == 0 {
        Seq::empty()
    } else {
        order_lines(names, orders.drop_last()) + "\n  lifting order "@ + decimal(
            (orders.len() - 1) as nat,
        ) + ": "@ + order_text(names, orders.last())
    }
}

/// The lifting orders' count and lines, nothing when there is none.
pub open spec fn lifting_text(names: Map<usize, Seq<char>>, orders: Seq<Seq<usize>>) -> Seq<char> {
    if orders.len() == 0 {
        Seq::empty()
    } else {
        "\n  lifting order count: "@ + decimal(orders.len()) + order_lines(names, orders)
    }
}

/// The lists of an elimination's lifting orders.
pub open spec fn orders_view(stats: EliminationStats) -> Seq<Seq<usize>> {
    stats.lifting_orders@.map_values(|v: Vec<usize>| v@)
}

/// The statistics report.
pub open spec fn stats_text(stats: EliminationStats, names: Map<usize, Seq<char>>) -> Seq<char> {
    "stats:"@ + "\n  quantifier calls: "@ + decimal(stats.quantifier_calls as nat)
        + "\n  cells constructed: "@ + decimal(stats.cells_constructed as nat)
        + "\n  leaf cells: "@ + decimal(stats.leaf_cells as nat) + "\n  sector cells: "@
        + decimal(stats.sector_cells as nat) + "\n  section cells: "@ + decimal(
        stats.section_cells as nat,
    ) + "\n  projection levels: "@ + decimal(stats.projection_levels as nat)
        + "\n  projection polynomials: "@ + decimal(stats.projection_polynomials as nat)
        + lifting_text(names, orders_view(stats))
}

/// Appends `text` and a count.
fn append_count(s: &mut String, text: &str, n: usize)
    ensures
        final(s)@ == old(s)@ + text@ + decimal(n as nat),
{
    s.append(text);
    let digits = decimal_string(n);
    s.append(digits.as_str());
}

/// The variable names of an order joined by ` -> `.
fn format_order(order: &Vec<usize>, names: &VariableNames) -> (s: String)
    ensures
        s@ == order_text(names@, order@),
{
    let mut s = String::new();
    let mut i: usize = 0;
    proof {
        assert(order@.take(0) =~= Seq::<usize>::empty());
    }
    while i < order.len()
        invariant
            i <= order@.len(),
            s@ == order_text(names@, order@.take(i as int)),
        decreases order@.len() - i,
    {
        proof {
            let t1 = order@.take(i + 1);
            assert(t1.drop_last() =~= order@.take(i as int));
        }
        if i > 0 {
            s.append(" -> ");
        }
        let name = names.name(order[i]);
        s.append(name.as_str());
        i = i + 1;
    }
    proof {
        assert(order@.take(i as int) =~= order@);
    }
    s
}

/// The statistics report printed by `--stats`.
pub fn format_stats(stats: &EliminationStats, names: &VariableNames) -> (s: String)
    ensures
        s@ == stats_text(*stats, names@),
{
    let mut s = String::from_str("stats:");
    append_count(&mut s, "\n  quantifier calls: ", stats.quantifier_calls);
    append_count(&mut s, "\n  cells constructed: ", stats.cells_constructed);
    append_count(&mut s, "\n  leaf cells: ", stats.leaf_cells);
    append_count(&mut s, "\n  sector cells: ", stats.sector_cells);
    append_count(&mut s, "\n  section cells: ", stats.section_cells);
    append_count(&mut s, "\n  projection levels: ", stats.projection_levels);
    append_count(&mut s, "\n  projection polynomials: ", stats.projection_polynomials);
    let ghost head = s@;
    let ghost orders = orders_view(*stats);
    let n = stats.lifting_orders.len();
    if n > 0 {
        append_count(&mut s, "\n  lifting order count: ", n);
        let ghost counted = s@;
        let mut i: usize = 0;
        proof {
            assert(orders.take(0) =~= Seq::<Seq<usize>>::empty());
        }
        while i < n
            invariant
                n == stats.lifting_orders@.len(),
                orders == orders_view(*stats),
                i <= n,
                s@ == counted + order_lines(names@, orders.take(i as int)),
            decreases n - i,
        {
            proof {
                let t1 = orders.take(i + 1);
                assert(t1.drop_last() =~= orders.take(i as int));
                assert(t1.last() == stats.lifting_orders@[i as int]@);
            }
            append_count(&mut s, "\n  lifting order ", i);
            s.append(": ");
            let line = format_order(&stats.lifting_orders[i], names);
            s.append(line.as_str());
            i = i + 1;
        }
        proof {
            assert(orders.take(n as int) =~= orders);
        }
    }
    proof {
        assert(s@ =~= stats_text(*stats, names@));
    }
    s
}


/// Two increasing lists with the same members are equal.
pub proof fn lemma_increasing_unique(s: Seq<usize>, t: Seq<usize>)
    requires
        strictly_increasing(s),
        strictly_increasing(t),
        forall|v: usize| s.contains(v) <==> t.contains(v),
    ensures
        s == t,
    decreases s.len(),
{
    if s.len() == 0 {
        if t.len() > 0 {
            assert(t.contains(t[0]));
        }
        assert(s =~= t);
    } else {
        assert(s.contains(s[0]));
        assert(t.len() > 0);
        assert(t.contains(t[0]));
        let ks = choose|k: int| 0 <= k < s.len() && s[k] == t[0];
        let kt = choose|k: int| 0 <= k < t.len() && t[k] == s[0];
        assert(s[0] <= t[0]);
        assert(t[0] <= s[0]);
        let s1 = s.drop_first();
        let t1 = t.drop_first();
        assert forall|v: usize| s1.contains(v) <==> t1.contains(v) by {
            if s1.contains(v) {
                let k = choose|k: int| 0 <= k < s1.len() && s1[k] == v;
                assert(s[k + 1] == v);
                assert(t.contains(v));
                let j = choose|j: int| 0 <= j < t.len() && t[j] == v;
                assert(j != 0);
                assert(t1[j - 1] == v);
            }
            if t1.contains(v) {
                let k = choose|k: int| 0 <= k < t1.len() && t1[k] == v;
                assert(t[k + 1] == v);
                assert(s.contains(v));
                let j = choose|j: int| 0 <= j < s.len() && s[j] == v;
                assert(j != 0);
                assert(s1[j - 1] == v);
            }
        }
        lemma_increasing_unique(s1, t1);
        assert(s =~= t) by {
            assert forall|k: int| 0 <= k < s.len() implies s[k] == t[k] by {
                if k > 0 {
                    assert(s1[k - 1] == t1[k - 1]);
                }
            }
        }
    }
}

/// The free variables of a formula in increasing order.
pub open spec fn free_list_view(f: FormulaView) -> Seq<usize> {
    choose|s: Seq<usize>| strictly_increasing(s) && forall|v: usize| s.contains(v) <==> free_in(f, v)
}

/// The free variables in increasing order, as a list.
fn free_variable_list(formula: &Formula) -> (vs: Vec<usize>)
    ensures
        vs@ == free_list_view(formula@),
{
    let vs = formula.free_list();
    proof {
        let c = free_list_view(formula@);
        assert(strictly_increasing(c) && forall|v: usize| c.contains(v) <==> free_in(formula@, v));
        lemma_increasing_unique(vs@, c);
    }
    vs
}

/// Variable names joined by `, `.
pub open spec fn names_text(names: Map<usize, Seq<char>>, vs: Seq<usize>) -> Seq<char>
    decreases vs.len(),
{
    if vs.len() == 0 {
        Seq::empty()
    } else if vs.len() == 1 {
        name_text(names, vs[0])
    } else {
        names_text(names, vs.drop_last()) + ", "@ + name_text(names, vs.last())
    }
}

/// Variable names joined by `, `.
fn format_names(vs: &Vec<usize>, names: &VariableNames) -> (s: String)
    ensures
        s@ == names_text(names@, vs@),
{
    let mut s = String::new();
    let mut i: usize = 0;
    proof {
        assert(vs@.take(0) =~= Seq::<usize>::empty());
    }
    while i < vs.len()
        invariant
            i <= vs@.len(),
            s@ == names_text(names@, vs@.take(i as int)),
        decreases vs@.len() - i,
    {
        proof {
            let t1 = vs@.take(i + 1);
            assert(t1.drop_last() =~= vs@.take(i as int));
        }
        if i > 0 {
            s.append(", ");
        }
        let name = names.name(vs[i]);
        s.append(name.as_str());
        i = i + 1;
    }
    proof {
        assert(vs@.take(i as int) =~= vs@);
    }
    s
}

/// The free variables called `name`.
pub open spec fn named(free: Seq<usize>, names: Map<usize, Seq<char>>, name: Seq<char>) -> Seq<usize> {
    free.filter(|v: usize| name_text(names, v) == name)
}

/// The variables of the named order, or the message of the first name that
/// is not exactly one free variable.
pub open spec fn resolved_order(
    order: Seq<Seq<char>>,
    free: Seq<usize>,
    names: Map<usize, Seq<char>>,
) -> Result<Seq<usize>, Seq<char>>
    decreases order.len(),
{
    if order.len() == 0 {
        Ok(Seq::empty())
    } else {
        match resolved_order(order.drop_last(), free, names) {
            Err(e) => Err(e),
            Ok(prev) => {
                let name = order.last();
                let m = named(free, names, name);
                if m.len() == 1 {
                    Ok(prev.push(m[0]))
                } else if m.len() == 0 {
                    Err(
                        "--variable-order must contain exactly the free variables: {"@ + names_text(
                            names,
                            free,
                        ) + "}; unknown or bound variable: "@ + name,
                    )
                } else {
                    Err("ambiguous variable in --variable-order: "@ + name)
                }
            },
        }
    }
}

/// A name that fails decides the result of every longer order.
proof fn lemma_resolved_error_sticks(
    order: Seq<Seq<char>>,
    k: int,
    free: Seq<usize>,
    names: Map<usize, Seq<char>>,
)
    requires
        0 <= k <= order.len(),
        resolved_order(order.take(k), free, names) is Err,
    ensures
        resolved_order(order, free, names) == resolved_order(order.take(k), free, names),
    decreases order.len(),
{
    if k < order.len() {
        assert(order.drop_last().take(k) =~= order.take(k));
        lemma_resolved_error_sticks(order.drop_last(), k, free, names);
    } else {
        assert(order.take(k) =~= order);
    }
}

/// The free variables of a parsed formula named by an order; `None` when
/// there is no order.
pub fn resolve_variable_order(order: Option<&Vec<String>>, parsed: &ParsedFormula) -> (r: Result<
    Option<Vec<usize>>,
    String,
>)
    ensures
        match order {
            None => r == Ok::<Option<Vec<usize>>, String>(None),
            Some(o) => match resolved_order(
                args_view(o@),
                free_list_view(parsed.formula@),
                parsed.names@,
            ) {
                Ok(vs) => r matches Ok(Some(x)) && x@ == vs,
                Err(e) => r matches Err(x) && x@ == e,
            },
        },
{
    let requested = match order {
        None => return Ok(None),
        Some(o) => o,
    };
    let free = free_variable_list(&parsed.formula);
    let ghost names = parsed.names@;
    let mut resolved: Vec<usize> = Vec::new();
    let mut i: usize = 0;
    proof {
        assert(args_view(requested@).take(0) =~= Seq::<Seq<char>>::empty());
    }
    while i < requested.len()
        invariant
            order == Some(requested),
            free@ == free_list_view(parsed.formula@),
            names == parsed.names@,
            i <= requested@.len(),
            resolved_order(args_view(requested@).take(i as int), free@, names) == Ok::<
                Seq<usize>,
                Seq<char>,
            >(resolved@),
        decreases requested@.len() - i,
    {
        let name = requested[i].as_str();
        let ghost prefix = args_view(requested@).take(i + 1);
        proof {
            assert(prefix.drop_last() =~= args_view(requested@).take(i as int));
            assert(prefix.last() == requested@[i as int]@);
        }
        let mut matches: Vec<usize> = Vec::new();
        let mut j: usize = 0;
        proof {
            reveal(Seq::filter);
            assert(free@.take(0).filter(|v: usize| name_text(names, v) == name@) =~= Seq::<
                usize,
            >::empty());
        }
        while j < free.len()
            invariant
                names == parsed.names@,
                j <= free@.len(),
                matches@ == free@.take(j as int).filter(|v: usize| name_text(names, v) == name@),
            decreases free@.len() - j,
        {
            let candidate = parsed.names.name(free[j]);
            let ghost before = matches@;
            let same = equal_text(candidate.as_str(), name);
            if same {
                matches.push(free[j]);
            }
            proof {
                let f = |v: usize| name_text(names, v) == name@;
                let t1 = free@.take(j + 1);
                assert(t1.drop_last() =~= free@.take(j as int));
                reveal(Seq::filter);
                assert(t1.last() == free@[j as int]);
                assert(t1.filter(f) == if f(t1.last()) {
                    t1.drop_last().filter(f).push(t1.last())
                } else {
                    t1.drop_last().filter(f)
                });
            }
            j = j + 1;
        }
        proof {
            assert(free@.take(j as int) =~= free@);
        }
        if matches.len() == 1 {
            resolved.push(matches[0]);
        } else if matches.len() == 0 {
            let mut message = String::from_str(
                "--variable-order must contain exactly the free variables: {",
            );
            let listed = format_names(&free, &parsed.names);
            message.append(listed.as_str());
            message.append("}; unknown or bound variable: ");
            message.append(name);
            proof {
                lemma_resolved_error_sticks(args_view(requested@), i + 1, free@, names);
            }
            return Err(message);
        } else {
            let mut message = String::from_str("ambiguous variable in --variable-order: ");
            message.append(name);
            proof {
                lemma_resolved_error_sticks(args_view(requested@), i + 1, free@, names);
            }
            return Err(message);
        }
        i = i + 1;
    }
    proof {
        assert(args_view(requested@).take(i as int) =~= args_view(requested@));
    }
    Ok(Some(resolved))
}

/// Whether two texts are equal.
fn equal_text(a: &str, b: &str) -> (r: bool)
    ensures
        r == (a@ == b@),
{
    let n = a.unicode_len();
    if n != b.unicode_len() {
        return false;
    }
    let mut i: usize = 0;
    while i < n
        invariant
            n == a@.len(),
            n == b@.len(),
            i <= n,
            forall|k: int| 0 <= k < i ==> a@[k] == b@[k],
        decreases n - i,
    {
        if a.get_char(i) != b.get_char(i) {
            return false;
        }
        i = i + 1;
    }
    proof {
        assert(a@ =~= b@);
    }
    true
}


/// The first index of the order whose variable occurs twice.
pub open spec fn first_repeated(order: Seq<usize>) -> int {
    choose|i: int|
        0 <= i < order.len() && occurs_twice(order, i) && forall|j: int|
            0 <= j < i ==> !#[trigger] occurs_twice(order, j)
}

/// What checking an order of variables against a formula's free variables
/// gives: `Ok` when it lists each free variable exactly once.
pub open spec fn order_check(order: Seq<usize>, free: Seq<usize>, names: Map<usize, Seq<char>>) -> Result<
    (),
    Seq<char>,
> {
    if order.len() != free.len() {
        Err(
            "--variable-order must list every free variable exactly once; expected {"@
                + names_text(names, free) + "}, got "@ + decimal(order.len()) + " entries"@,
        )
    } else if has_duplicate(order) {
        Err(
            "--variable-order contains duplicate variable: "@ + name_text(
                names,
                order[first_repeated(order)],
            ),
        )
    } else if order.to_set() != free.to_set() {
        Err(
            "--variable-order must contain exactly the free variables: {"@ + names_text(names, free)
                + "}"@,
        )
    } else {
        Ok(())
    }
}

/// Whether `v` is a member of the list.
fn list_contains(vs: &Vec<usize>, v: usize) -> (b: bool)
    ensures
        b == vs@.contains(v),
{
    let mut i: usize = 0;
    while i < vs.len()
        invariant
            i <= vs@.len(),
            forall|k: int| 0 <= k < i ==> vs@[k] != v,
        decreases vs@.len() - i,
    {
        if vs[i] == v {
            proof {
                assert(vs@[i as int] == v);
            }
            return true;
        }
        i = i + 1;
    }
    false
}

/// Whether two lists have the same members.
fn same_members(a: &Vec<usize>, b: &Vec<usize>) -> (r: bool)
    ensures
        r == (a@.to_set() == b@.to_set()),
{
    let mut i: usize = 0;
    while i < a.len()
        invariant
            i <= a@.len(),
            forall|k: int| 0 <= k < i ==> b@.contains(#[trigger] a@[k]),
        decreases a@.len() - i,
    {
        if !list_contains(b, a[i]) {
            proof {
                assert(a@.to_set().contains(a@[i as int]));
                assert(!b@.to_set().contains(a@[i as int]));
            }
            return false;
        }
        i = i + 1;
    }
    let mut j: usize = 0;
    while j < b.len()
        invariant
            i == a@.len(),
            forall|k: int| 0 <= k < a@.len() ==> b@.contains(#[trigger] a@[k]),
            j <= b@.len(),
            forall|k: int| 0 <= k < j ==> a@.contains(#[trigger] b@[k]),
        decreases b@.len() - j,
    {
        if !list_contains(a, b[j]) {
            proof {
                assert(b@.to_set().contains(b@[j as int]));
                assert(!a@.to_set().contains(b@[j as int]));
            }
            return false;
        }
        j = j + 1;
    }
    proof {
        assert forall|v: usize| a@.to_set().contains(v) <==> b@.to_set().contains(v) by {
            if a@.contains(v) {
                let k = choose|k: int| 0 <= k < a@.len() && a@[k] == v;
                assert(b@.contains(a@[k]));
            }
            if b@.contains(v) {
                let k = choose|k: int| 0 <= k < b@.len() && b@[k] == v;
                assert(a@.contains(b@[k]));
            }
        }
        assert(a@.to_set() =~= b@.to_set());
    }
    true
}

/// Checks that an order lists every free variable of the formula exactly
/// once; no order is always fine.
pub fn validate_variable_order(order: Option<&Vec<usize>>, formula: &Formula, names: &VariableNames) -> (r:
    Result<(), String>)
    ensures
        match order {
            None => r is Ok,
            Some(o) => match order_check(o@, free_list_view(formula@), names@) {
                Ok(_) => r is Ok,
                Err(e) => r matches Err(x) && x@ == e,
            },
        },
{
    let requested = match order {
        None => return Ok(()),
        Some(o) => o,
    };
    let free = free_variable_list(formula);
    if requested.len() != free.len() {
        let mut message = String::from_str(
            "--variable-order must list every free variable exactly once; expected {",
        );
        let listed = format_names(&free, names);
        message.append(listed.as_str());
        append_count(&mut message, "}, got ", requested.len());
        message.append(" entries");
        return Err(message);
    }
    if let Some(duplicate) = find_duplicate(requested.as_slice()) {
        proof {
            let o = requested@;
            let i = choose|i: int|
                0 <= i < o.len() && occurs_twice(o, i) && o[i] == duplicate && forall|j: int|
                    0 <= j < i ==> !#[trigger] occurs_twice(o, j);
            let f = first_repeated(o);
            assert(0 <= f < o.len() && occurs_twice(o, f) && forall|j: int|
                0 <= j < f ==> !#[trigger] occurs_twice(o, j));
            if f < i {
                assert(!occurs_twice(o, f));
            }
            if i < f {
                assert(!occurs_twice(o, i));
            }
            assert(f == i);
        }
        let mut message = String::from_str("--variable-order contains duplicate variable: ");
        let name = names.name(duplicate);
        message.append(name.as_str());
        return Err(message);
    }
    if !same_members(requested, &free) {
        let mut message = String::from_str(
            "--variable-order must contain exactly the free variables: {",
        );
        let listed = format_names(&free, names);
        message.append(listed.as_str());
        message.append("}");
        return Err(message);
    }
    Ok(())
}

/// The token kind of a relation.
pub open spec fn relation_kind(relation: Relation) -> crate::parser::KindView {
    match relation {
        Relation::Equal => crate::parser::KindView::Equal,
        Relation::NotEqual => crate::parser::KindView::NotEqual,
        Relation::Less => crate::parser::KindView::Less,
        Relation::LessOrEqual => crate::parser::KindView::LessOrEqual,
        Relation::Greater => crate::parser::KindView::Greater,
        Relation::GreaterOrEqual => crate::parser::KindView::GreaterOrEqual,
    }
}

/// A printed relation lexes back to its single token, which the parser
/// reads as the same relation.
pub proof fn law_relation_text_round_trip(relation: Relation)
    ensures
        crate::parser::lex(relation_text(relation)) == Ok::<Seq<crate::parser::TokenView>, crate::parser::ErrorView>(
            seq![(relation_kind(relation), 0nat)],
        ),
        crate::parser::p_relation(seq![(relation_kind(relation), 0nat)], 0) == Ok::<Relation, crate::parser::ErrorView>(
            relation,
        ),
{
    let s = relation_text(relation);
    let n = s.len() as int;
    assert(crate::parser::lex_from(s, n) == Ok::<Seq<crate::parser::TokenView>, crate::parser::ErrorView>(
        Seq::empty(),
    ));
    assert(seq![(relation_kind(relation), 0nat)] + Seq::<crate::parser::TokenView>::empty() =~= seq![
        (relation_kind(relation), 0nat),
    ]);
    assert(!crate::parser::is_blank(s[0]));
    assert(!crate::parser::is_digit(s[0]));
    assert(!crate::parser::is_ident_start(s[0]));
}

} // verus!
