//! The text syntax of formulas.
//!
//! Text is first cut into tokens ([`lex`]), then read by a recursive-descent
//! grammar ([`p_formula`]).  Positions in errors count the characters before
//! the offending one; every character before it is ASCII, so that is also its
//! byte offset.
use crate::formula::{
    all_wf, formula_view, formula_wf, lemma_views_of, views_of, Formula, FormulaView, Quantifier,
    Relation,
};
use crate::polynomial::{
    add_terms, decimal_string, lemma_bounded_mul_fits, lemma_max_exponent_bounds, max_exponent,
    mul_terms, negate_terms, pow_terms, Polynomial, TermView, VariableNames,
};
use crate::rational::decimal;
use vstd::prelude::*;
use vstd::string::StrSliceExecFns;
use vstd::string::StringExecFns;

verus! {

/// A parse error: where, and what was expected.
#[derive(Clone, Debug, PartialEq, Eq)]
pub struct ParseError {
    pub position: usize,
    pub message: String,
}

/// What a token is.
#[derive(Clone, Debug, PartialEq, Eq)]
pub enum TokenKind {
    Identifier(String),
    Integer(i64),
    Plus,
    Minus,
    Star,
    Caret,
    LParen,
    RParen,
    Dot,
    And,
    Or,
    Not,
    Equal,
    NotEqual,
    Less,
    LessOrEqual,
    Greater,
    GreaterOrEqual,
}

/// A token and the position of its first character.
#[derive(Clone, Debug, PartialEq, Eq)]
pub struct Token {
    pub kind: TokenKind,
    pub position: usize,
}

/// The content of a token kind.
pub enum KindView {
    Identifier(Seq<char>),
    Integer(int),
    Plus,
    Minus,
    Star,
    Caret,
    LParen,
    RParen,
    Dot,
    And,
    Or,
    Not,
    Equal,
    NotEqual,
    Less,
    LessOrEqual,
    Greater,
    GreaterOrEqual,
}

/// A token's kind and position.
pub type TokenView = (KindView, nat);

/// A parse error's position and message.
pub type ErrorView = (nat, Seq<char>);

impl View for TokenKind {
    type V = KindView;

    open spec fn view(&self) -> KindView {
        match self {
            TokenKind::Identifier(s) => KindView::Identifier(s@),
            TokenKind::Integer(v) => KindView::Integer(*v as int),
            TokenKind::Plus => KindView::Plus,
            TokenKind::Minus => KindView::Minus,
            TokenKind::Star => KindView::Star,
            TokenKind::Caret => KindView::Caret,
            TokenKind::LParen => KindView::LParen,
            TokenKind::RParen => KindView::RParen,
            TokenKind::Dot => KindView::Dot,
            TokenKind::And => KindView::And,
            TokenKind::Or => KindView::Or,
            TokenKind::Not => KindView::Not,
            TokenKind::Equal => KindView::Equal,
            TokenKind::NotEqual => KindView::NotEqual,
            TokenKind::Less => KindView::Less,
            TokenKind::LessOrEqual => KindView::LessOrEqual,
            TokenKind::Greater => KindView::Greater,
            TokenKind::GreaterOrEqual => KindView::GreaterOrEqual,
        }
    }
}

impl View for Token {
    type V = TokenView;

    open spec fn view(&self) -> TokenView {
        (self.kind@, self.position as nat)
    }
}

impl View for ParseError {
    type V = ErrorView;

    open spec fn view(&self) -> ErrorView {
        (self.position as nat, self.message@)
    }
}

/// The text of a `Debug`-formatted character, as `char`'s `Debug` writes it
/// (quoted, with escapes).
pub uninterp spec fn char_debug_text(c: char) -> Seq<char>;

/// ASCII white space: space, tab, line feed, form feed, carriage return.
pub open spec fn is_blank(c: char) -> bool {
    c == ' ' || c == '\t' || c == '\n' || c == '\x0C' || c == '\r'
}

/// An ASCII digit.
pub open spec fn is_digit(c: char) -> bool {
    '0' <= c <= '9'
}

/// A character that can start an identifier.
pub open spec fn is_ident_start(c: char) -> bool {
    ('a' <= c <= 'z') || ('A' <= c <= 'Z') || c == '_'
}

/// A character that can continue an identifier.
pub open spec fn is_ident_char(c: char) -> bool {
    is_ident_start(c) || is_digit(c)
}

/// The end of the run of digits that starts at `i`.
pub open spec fn digits_end(s: Seq<char>, i: int) -> int
    decreases s.len() - i,
{
    if 0 <= i < s.len() && is_digit(s[i]) {
        digits_end(s, i + 1)
    } else {
        i
    }
}

/// The end of the run of identifier characters that starts at `i`.
pub open spec fn ident_end(s: Seq<char>, i: int) -> int
    decreases s.len() - i,
{
    if 0 <= i < s.len() && is_ident_char(s[i]) {
        ident_end(s, i + 1)
    } else {
        i
    }
}

/// The value of the decimal digits `s[i..j]`.
pub open spec fn digits_value(s: Seq<char>, i: int, j: int) -> int
    decreases j - i,
{
    if j <= i {
        0
    } else {
        digits_value(s, i, j - 1) * 10 + (s[j - 1] as u32 - '0' as u32)
    }
}

/// The character at `i` followed by `c`.
pub open spec fn next_is(s: Seq<char>, i: int, c: char) -> bool {
    i + 1 < s.len() && s[i + 1] == c
}

/// The token that starts at `i` (not white space) and where it ends, or the
/// error it raises.
pub open spec fn token_at(s: Seq<char>, i: int) -> Result<(KindView, int), ErrorView> {
    let c = s[i];
    if is_digit(c) {
        let j = digits_end(s, i);
        let value = digits_value(s, i, j);
        if value > i64::MAX {
            Err((i as nat, "integer literal is too large"@))
        } else {
            Ok((KindView::Integer(value), j))
        }
    } else if is_ident_start(c) {
        let j = ident_end(s, i + 1);
        Ok((KindView::Identifier(s.subrange(i, j)), j))
    } else if c == '+' {
        Ok((KindView::Plus, i + 1))
    } else if c == '-' {
        Ok((KindView::Minus, i + 1))
    } else if c == '*' {
        Ok((KindView::Star, i + 1))
    } else if c == '^' {
        Ok((KindView::Caret, i + 1))
    } else if c == '(' {
        Ok((KindView::LParen, i + 1))
    } else if c == ')' {
        Ok((KindView::RParen, i + 1))
    } else if c == '.' {
        Ok((KindView::Dot, i + 1))
    } else if c == '!' && next_is(s, i, '=') {
        Ok((KindView::NotEqual, i + 2))
    } else if c == '!' {
        Ok((KindView::Not, i + 1))
    } else if c == '&' && next_is(s, i, '&') {
        Ok((KindView::And, i + 2))
    } else if c == '|' && next_is(s, i, '|') {
        Ok((KindView::Or, i + 2))
    } else if c == '=' {
        Ok((KindView::Equal, i + 1))
    } else if c == '<' && next_is(s, i, '=') {
        Ok((KindView::LessOrEqual, i + 2))
    } else if c == '<' {
        Ok((KindView::Less, i + 1))
    } else if c == '>' && next_is(s, i, '=') {
        Ok((KindView::GreaterOrEqual, i + 2))
    } else if c == '>' {
        Ok((KindView::Greater, i + 1))
    } else {
        Err((i as nat, "unexpected character "@ + char_debug_text(c)))
    }
}

/// The tokens of `s` from `i` on, or the first error.
pub open spec fn lex_from(s: Seq<char>, i: int) -> Result<Seq<TokenView>, ErrorView>
    decreases s.len() - i,
{
    if i < 0 || i >= s.len() {
        Ok(Seq::<TokenView>::empty())
    } else if is_blank(s[i]) {
        lex_from(s, i + 1)
    } else {
        match token_at(s, i) {
            Err(e) => Err(e),
            Ok((kind, j)) => if j <= i || j > s.len() {
                Err((i as nat, Seq::<char>::empty()))
            } else {
                match lex_from(s, j) {
                    Err(e) => Err(e),
                    Ok(rest) => Ok(seq![(kind, i as nat)] + rest),
                }
            },
        }
    }
}

/// The tokens of a text, or the first error.
pub open spec fn lex(s: Seq<char>) -> Result<Seq<TokenView>, ErrorView> {
    lex_from(s, 0)
}

/// `Debug` formatting of a character: quotes and escapes, as std writes it.
#[verifier::external_body]
fn debug_char(c: char) -> (text: String)
    ensures
        text@ == char_debug_text(c),
{
    format!("{:?}", c)
}

/// Tokens in front of the outcome of lexing the rest.
pub open spec fn prepend_tokens(
    tokens: Seq<TokenView>,
    rest: Result<Seq<TokenView>, ErrorView>,
) -> Result<Seq<TokenView>, ErrorView> {
    match rest {
        Ok(r) => Ok(tokens + r),
        Err(e) => Err(e),
    }
}

/// The views of a token list.
pub open spec fn token_views(tokens: Seq<Token>) -> Seq<TokenView> {
    tokens.map_values(|t: Token| t@)
}

/// Cuts a text into tokens (see [`lex`]).
pub fn tokenize(input: &str) -> (r: Result<Vec<Token>, ParseError>)
    ensures
        match r {
            Ok(tokens) => lex(input@) == Ok::<Seq<TokenView>, ErrorView>(token_views(tokens@))
                && forall|k: int|
                0 <= k < tokens@.len() ==> (#[trigger] tokens@[k]).position < usize::MAX,
            Err(e) => lex(input@) == Err::<Seq<TokenView>, ErrorView>(e@),
        },
{
    let n = input.unicode_len();
    let mut chars: Vec<char> = Vec::new();
    let mut k: usize = 0;
    while k < n
        invariant
            n == input@.len(),
            k <= n,
            chars@ == input@.take(k as int),
        decreases n - k,
    {
        chars.push(input.get_char(k));
        k = k + 1;
        assert(chars@ =~= input@.take(k as int));
    }
    assert(chars@ =~= input@);
    let ghost s = input@;
    let mut tokens: Vec<Token> = Vec::new();
    let mut index: usize = 0;
    while index < n
        invariant
            chars@ == s,
            s == input@,
            n == s.len(),
            index <= n,
            lex(s) == prepend_tokens(token_views(tokens@), lex_from(s, index as int)),
            forall|k: int| 0 <= k < tokens@.len() ==> (#[trigger] tokens@[k]).position < index,
        decreases n - index,
    {
        let c = chars[index];
        if c == ' ' || c == '\t' || c == '\n' || c == '\x0C' || c == '\r' {
            proof {
                assert(is_blank(s[index as int]));
                assert(lex_from(s, index as int) == lex_from(s, index + 1));
            }
            index = index + 1;
            continue;
        }
        proof {
            assert(!is_blank(s[index as int]));
        }
        let position = index;
        let ghost expected = token_at(s, index as int);
        let kind = if '0' <= c && c <= '9' {
            let mut value: i64 = 0;
            let mut overflow = false;
            index = index + 1;
            value = (c as u32 - '0' as u32) as i64;
            proof {
                assert(c == s[position as int]);
                assert(digits_value(s, position as int, position as int) == 0);
                assert(digits_value(s, position as int, position + 1) == value);
            }
            while index < n && '0' <= chars[index] && chars[index] <= '9'
                invariant
                    chars@ == s,
                    n == s.len(),
                    position < index <= n,
                    digits_end(s, position as int) == digits_end(s, index as int),
                    !overflow ==> value == digits_value(s, position as int, index as int),
                    overflow ==> digits_value(s, position as int, index as int) > i64::MAX,
                    0 <= value,
                    forall|k: int| position <= k < index ==> is_digit(#[trigger] s[k]),
                decreases n - index,
            {
                let d = (chars[index] as u32 - '0' as u32) as i64;
                proof {
                    lemma_digits_value_nonneg(s, position as int, index as int);
                }
                if !overflow {
                    if value > (i64::MAX - d) / 10 {
                        overflow = true;
                        proof {
                            assert(value * 10 + d > i64::MAX) by (nonlinear_arith)
                                requires
                                    value > (i64::MAX - d) / 10,
                                    0 <= d <= 9,
                            ;
                        }
                    } else {
                        proof {
                            assert(value * 10 + d <= i64::MAX) by (nonlinear_arith)
                                requires
                                    value <= (i64::MAX - d) / 10,
                                    0 <= d <= 9,
                                    0 <= value,
                            ;
                        }
                        value = value * 10 + d;
                    }
                } else {
                    proof {
                        let prev = digits_value(s, position as int, index as int);
                        assert(prev * 10 + d > i64::MAX) by (nonlinear_arith)
                            requires
                                prev > i64::MAX,
                                0 <= d,
                        ;
                    }
                }
                index = index + 1;
            }
            if overflow {
                let message = String::from_str("integer literal is too large");
                return Err(ParseError { position, message });
            }
            TokenKind::Integer(value)
        } else if ('a' <= c && c <= 'z') || ('A' <= c && c <= 'Z') || c == '_' {
            index = index + 1;
            while index < n && (('a' <= chars[index] && chars[index] <= 'z') || ('A' <= chars[index]
                && chars[index] <= 'Z') || chars[index] == '_' || ('0' <= chars[index]
                && chars[index] <= '9'))
                invariant
                    chars@ == s,
                    n == s.len(),
                    position < index <= n,
                    ident_end(s, position + 1) == ident_end(s, index as int),
                decreases n - index,
            {
                index = index + 1;
            }
            let name = input.substring_char(position, index);
            TokenKind::Identifier(name.to_owned())
        } else if c == '+' {
            index = index + 1;
            TokenKind::Plus
        } else if c == '-' {
            index = index + 1;
            TokenKind::Minus
        } else if c == '*' {
            index = index + 1;
            TokenKind::Star
        } else if c == '^' {
            index = index + 1;
            TokenKind::Caret
        } else if c == '(' {
            index = index + 1;
            TokenKind::LParen
        } else if c == ')' {
            index = index + 1;
            TokenKind::RParen
        } else if c == '.' {
            index = index + 1;
            TokenKind::Dot
        } else if c == '!' && index + 1 < n && chars[index + 1] == '=' {
            index = index + 2;
            TokenKind::NotEqual
        } else if c == '!' {
            index = index + 1;
            TokenKind::Not
        } else if c == '&' && index + 1 < n && chars[index + 1] == '&' {
            index = index + 2;
            TokenKind::And
        } else if c == '|' && index + 1 < n && chars[index + 1] == '|' {
            index = index + 2;
            TokenKind::Or
        } else if c == '=' {
            index = index + 1;
            TokenKind::Equal
        } else if c == '<' && index + 1 < n && chars[index + 1] == '=' {
            index = index + 2;
            TokenKind::LessOrEqual
        } else if c == '<' {
            index = index + 1;
            TokenKind::Less
        } else if c == '>' && index + 1 < n && chars[index + 1] == '=' {
            index = index + 2;
            TokenKind::GreaterOrEqual
        } else if c == '>' {
            index = index + 1;
            TokenKind::Greater
        } else {
            let mut message = String::from_str("unexpected character ");
            let shown = debug_char(c);
            message.append(shown.as_str());
            return Err(ParseError { position, message });
        };
        proof {
            assert(expected == Ok::<(KindView, int), ErrorView>((kind@, index as int)));
            assert(lex_from(s, position as int) == prepend_tokens(
                seq![(kind@, position as nat)],
                lex_from(s, index as int),
            ));
        }
        let ghost before = tokens@;
        tokens.push(Token { kind, position });
        proof {
            assert(token_views(tokens@) =~= token_views(before) + seq![(kind@, position as nat)]);
            match lex_from(s, index as int) {
                Ok(r) => {
                    assert(token_views(before) + (seq![(kind@, position as nat)] + r)
                        =~= token_views(tokens@) + r);
                },
                Err(_) => {},
            }
        }
    }
    proof {
        assert(token_views(tokens@) + Seq::<TokenView>::empty() =~= token_views(tokens@));
    }
    Ok(tokens)
}

/// What the parser knows besides the tokens: the next variable index for a
/// new name, the names bound by the quantifiers around (innermost last), the
/// free names met so far, and the display names given.
pub struct ParseState {
    pub next: usize,
    pub scopes: Seq<(Seq<char>, usize)>,
    pub free: Seq<(Seq<char>, usize)>,
    pub names: Map<usize, Seq<char>>,
}

/// An outcome: a value, the position after it and the state, or an error.
pub type Parsed<T> = Result<(T, int, ParseState), ErrorView>;

/// The state before the first token.
pub open spec fn initial_state() -> ParseState {
    ParseState {
        next: 0,
        scopes: Seq::empty(),
        free: Seq::empty(),
        names: Map::empty(),
    }
}

/// The position reported at the end of the tokens: one past the last token's
/// first character, or zero.
pub open spec fn end_position(t: Seq<TokenView>) -> nat {
    if t.len() == 0 {
        0
    } else {
        t.last().1 + 1
    }
}

/// The position of the token at `pos`, or the end position.
pub open spec fn position_at(t: Seq<TokenView>, pos: int) -> nat {
    if 0 <= pos < t.len() {
        t[pos].1
    } else {
        end_position(t)
    }
}

/// Whether the token at `pos` is the identifier `name`.
pub open spec fn is_identifier(t: Seq<TokenView>, pos: int, name: Seq<char>) -> bool {
    0 <= pos < t.len() && t[pos].0 == KindView::Identifier(name)
}

/// Whether the token at `pos` is of kind `k` (for kinds without content).
pub open spec fn is_kind(t: Seq<TokenView>, pos: int, k: KindView) -> bool {
    0 <= pos < t.len() && t[pos].0 == k
}

/// The index `x<digits>` names, or why it names none.
pub open spec fn variable_index(name: Seq<char>) -> Result<usize, Seq<char>> {
    if name.len() < 2 || name[0] != 'x' {
        Err("variables must use the form x0, x1, ..."@)
    } else if (forall|k: int| 1 <= k < name.len() ==> is_digit(#[trigger] name[k]))
        && digits_value(name, 1, name.len() as int) <= usize::MAX {
        Ok(digits_value(name, 1, name.len() as int) as usize)
    } else {
        Err("variable index is too large"@)
    }
}

/// The innermost binding of `name` among `scopes`.
pub open spec fn lookup(scopes: Seq<(Seq<char>, usize)>, name: Seq<char>) -> Option<usize>
    decreases scopes.len(),
{
    if scopes.len() == 0 {
        None
    } else if scopes.last().0 == name {
        Some(scopes.last().1)
    } else {
        lookup(scopes.drop_last(), name)
    }
}

/// The variable a name stands for in named mode: the innermost binder of
/// that name, else the free variable already given that name, else a new
/// free variable.
pub open spec fn resolve(st: ParseState, name: Seq<char>) -> (usize, ParseState) {
    match lookup(st.scopes, name) {
        Some(v) => (v, st),
        None => match lookup(st.free, name) {
            Some(v) => (v, st),
            None => (
                st.next,
                ParseState {
                    next: (st.next + 1) as usize,
                    free: st.free.push((name, st.next)),
                    names: st.names.insert(st.next, name),
                    ..st
                },
            ),
        },
    }
}

/// The terms of the integer constant `v`.
pub open spec fn integer_terms(v: int) -> Seq<TermView> {
    if v == 0 {
        Seq::<TermView>::empty()
    } else {
        seq![(Seq::<(usize, usize)>::empty(), (v, 1nat))]
    }
}

/// The terms of the variable `v`.
pub open spec fn variable_terms(v: usize) -> Seq<TermView> {
    seq![(seq![(v, 1usize)], (1int, 1nat))]
}

/// The relation of the token at `pos`.
pub open spec fn p_relation(t: Seq<TokenView>, pos: int) -> Result<Relation, ErrorView> {
    if !(0 <= pos < t.len()) {
        Err((end_position(t), "expected relation"@))
    } else {
        match t[pos].0 {
            KindView::Equal => Ok(Relation::Equal),
            KindView::NotEqual => Ok(Relation::NotEqual),
            KindView::Less => Ok(Relation::Less),
            KindView::LessOrEqual => Ok(Relation::LessOrEqual),
            KindView::Greater => Ok(Relation::Greater),
            KindView::GreaterOrEqual => Ok(Relation::GreaterOrEqual),
            _ => Err((t[pos].1, "expected a comparison relation"@)),
        }
    }
}

/// A disjunction of the members read, or the single member alone.
pub open spec fn wrap_or(r: Parsed<Seq<FormulaView>>) -> Parsed<FormulaView> {
    match r {
        Err(e) => Err(e),
        Ok((fs, p, st)) => Ok(
            (
                if fs.len() == 1 {
                    fs[0]
                } else {
                    FormulaView::Or(fs)
                },
                p,
                st,
            ),
        ),
    }
}

/// A conjunction of the members read, or the single member alone.
pub open spec fn wrap_and(r: Parsed<Seq<FormulaView>>) -> Parsed<FormulaView> {
    match r {
        Err(e) => Err(e),
        Ok((fs, p, st)) => Ok(
            (
                if fs.len() == 1 {
                    fs[0]
                } else {
                    FormulaView::And(fs)
                },
                p,
                st,
            ),
        ),
    }
}

/// `formula := and ('||' and)*`; a single member stands alone.
pub open spec fn p_or(t: Seq<TokenView>, named: bool, pos: int, st: ParseState) -> Parsed<
    FormulaView,
>
    decreases t.len() - pos, 20int,
{
    match p_and(t, named, pos, st) {
        Err(e) => Err(e),
        Ok((f, p2, st2)) => if p2 <= pos || p2 > t.len() {
            Err((0, Seq::empty()))
        } else {
            wrap_or(p_or_rest(t, named, seq![f], p2, st2))
        },
    }
}

/// The members after the first of a disjunction.
pub open spec fn p_or_rest(
    t: Seq<TokenView>,
    named: bool,
    acc: Seq<FormulaView>,
    pos: int,
    st: ParseState,
) -> Parsed<Seq<FormulaView>>
    decreases t.len() - pos, 19int,
{
    if !is_kind(t, pos, KindView::Or) {
        Ok((acc, pos, st))
    } else {
        match p_and(t, named, pos + 1, st) {
            Err(e) => Err(e),
            Ok((f, p2, st2)) => if p2 <= pos || p2 > t.len() {
                Err((0, Seq::empty()))
            } else {
                p_or_rest(t, named, acc.push(f), p2, st2)
            },
        }
    }
}

/// `and := unary ('&&' unary)*`; a single member stands alone.
pub open spec fn p_and(t: Seq<TokenView>, named: bool, pos: int, st: ParseState) -> Parsed<
    FormulaView,
>
    decreases t.len() - pos, 18int,
{
    match p_unary(t, named, pos, st) {
        Err(e) => Err(e),
        Ok((f, p2, st2)) => if p2 <= pos || p2 > t.len() {
            Err((0, Seq::empty()))
        } else {
            wrap_and(p_and_rest(t, named, seq![f], p2, st2))
        },
    }
}

/// The members after the first of a conjunction.
pub open spec fn p_and_rest(
    t: Seq<TokenView>,
    named: bool,
    acc: Seq<FormulaView>,
    pos: int,
    st: ParseState,
) -> Parsed<Seq<FormulaView>>
    decreases t.len() - pos, 17int,
{
    if !is_kind(t, pos, KindView::And) {
        Ok((acc, pos, st))
    } else {
        match p_unary(t, named, pos + 1, st) {
            Err(e) => Err(e),
            Ok((f, p2, st2)) => if p2 <= pos || p2 > t.len() {
                Err((0, Seq::empty()))
            } else {
                p_and_rest(t, named, acc.push(f), p2, st2)
            },
        }
    }
}

/// `unary := '!' unary | quantifier | '(' formula ')' | true | false
/// | polynomial relation polynomial`.
pub open spec fn p_unary(t: Seq<TokenView>, named: bool, pos: int, st: ParseState) -> Parsed<
    FormulaView,
>
    decreases t.len() - pos, 16int,
{
    if pos < 0 || pos > t.len() {
        Err((0, Seq::empty()))
    } else if is_kind(t, pos, KindView::Not) {
        match p_unary(t, named, pos + 1, st) {
            Err(e) => Err(e),
            Ok((f, p2, st2)) => Ok((FormulaView::Not(Box::new(f)), p2, st2)),
        }
    } else if is_identifier(t, pos, "exists"@) {
        p_quantified(t, named, Quantifier::Exists, pos + 1, st)
    } else if is_identifier(t, pos, "forall"@) {
        p_quantified(t, named, Quantifier::Forall, pos + 1, st)
    } else if is_kind(t, pos, KindView::LParen) {
        match p_or(t, named, pos + 1, st) {
            Err(e) => Err(e),
            Ok((f, p2, st2)) => if is_kind(t, p2, KindView::RParen) {
                Ok((f, p2 + 1, st2))
            } else {
                Err((position_at(t, p2), "expected ')' after formula"@))
            },
        }
    } else if is_identifier(t, pos, "true"@) {
        Ok((FormulaView::True, pos + 1, st))
    } else if is_identifier(t, pos, "false"@) {
        Ok((FormulaView::False, pos + 1, st))
    } else {
        match p_poly(t, named, pos, st) {
            Err(e) => Err(e),
            Ok((left, p2, st2)) => if p2 <= pos || p2 > t.len() {
                Err((0, Seq::empty()))
            } else {
                match p_relation(t, p2) {
                    Err(e) => Err(e),
                    Ok(relation) => match p_poly(t, named, p2 + 1, st2) {
                        Err(e) => Err(e),
                        Ok((right, p3, st3)) => Ok(
                            (
                                FormulaView::Atom(add_terms(left, negate_terms(right)), relation),
                                p3,
                                st3,
                            ),
                        ),
                    },
                }
            },
        }
    }
}

/// The words that cannot name a variable: `exists`, `forall`, `true` and
/// `false`.
pub open spec fn reserved_word(name: Seq<char>) -> bool {
    name == "exists"@ || name == "forall"@ || name == "true"@ || name == "false"@
}

/// Whether `name` is a reserved word.
fn is_reserved(name: &String) -> (b: bool)
    ensures
        b == reserved_word(name@),
{
    let exists_word = String::from_str("exists");
    let forall_word = String::from_str("forall");
    let true_word = String::from_str("true");
    let false_word = String::from_str("false");
    name.eq(&exists_word) || name.eq(&forall_word) || name.eq(&true_word) || name.eq(&false_word)
}

/// `quantified := variable '.' formula`, after the quantifier keyword.
pub open spec fn p_quantified(
    t: Seq<TokenView>,
    named: bool,
    q: Quantifier,
    pos: int,
    st: ParseState,
) -> Parsed<FormulaView>
    decreases t.len() - pos, 15int,
{
    if pos < 0 || pos >= t.len() {
        Err((end_position(t), "expected variable"@))
    } else {
        let bound: Result<(usize, ParseState), ErrorView> = match t[pos].0 {
            KindView::Identifier(name) => if named && reserved_word(name) {
                Err((t[pos].1, "a reserved word cannot name a variable"@))
            } else if named {
                Ok(
                    (
                        st.next,
                        ParseState {
                            next: (st.next + 1) as usize,
                            scopes: st.scopes.push((name, st.next)),
                            names: st.names.insert(st.next, name),
                            ..st
                        },
                    ),
                )
            } else {
                match variable_index(name) {
                    Ok(v) => Ok((v, st)),
                    Err(m) => Err((t[pos].1, m)),
                }
            },
            _ => Err((t[pos].1, "expected a variable such as x0"@)),
        };
        match bound {
            Err(e) => Err(e),
            Ok((v, st2)) => if !is_kind(t, pos + 1, KindView::Dot) {
                Err((position_at(t, pos + 1), "expected '.' after quantified variable"@))
            } else {
                match p_or(t, named, pos + 2, st2) {
                    Err(e) => Err(e),
                    Ok((body, p3, st3)) => Ok(
                        (
                            FormulaView::Quantified(q, v, Box::new(body)),
                            p3,
                            if named {
                                ParseState { scopes: st3.scopes.drop_last(), ..st3 }
                            } else {
                                st3
                            },
                        ),
                    ),
                }
            },
        }
    }
}

/// `polynomial := product (('+' | '-') product)*`.
pub open spec fn p_poly(t: Seq<TokenView>, named: bool, pos: int, st: ParseState) -> Parsed<
    Seq<TermView>,
>
    decreases t.len() - pos, 10int,
{
    match p_mul(t, named, pos, st) {
        Err(e) => Err(e),
        Ok((p, p2, st2)) => if p2 <= pos || p2 > t.len() {
            Err((0, Seq::empty()))
        } else {
            p_add_rest(t, named, p, p2, st2)
        },
    }
}

/// The sums and differences after the first product.
pub open spec fn p_add_rest(
    t: Seq<TokenView>,
    named: bool,
    acc: Seq<TermView>,
    pos: int,
    st: ParseState,
) -> Parsed<Seq<TermView>>
    decreases t.len() - pos, 9int,
{
    if is_kind(t, pos, KindView::Plus) || is_kind(t, pos, KindView::Minus) {
        match p_mul(t, named, pos + 1, st) {
            Err(e) => Err(e),
            Ok((p, p2, st2)) => if p2 <= pos || p2 > t.len() {
                Err((0, Seq::empty()))
            } else {
                p_add_rest(
                    t,
                    named,
                    if is_kind(t, pos, KindView::Plus) {
                        add_terms(acc, p)
                    } else {
                        add_terms(acc, negate_terms(p))
                    },
                    p2,
                    st2,
                )
            },
        }
    } else {
        Ok((acc, pos, st))
    }
}

/// `product := power ('*' power)*`; a product whose exponents could
/// overflow is an error.
pub open spec fn p_mul(t: Seq<TokenView>, named: bool, pos: int, st: ParseState) -> Parsed<
    Seq<TermView>,
>
    decreases t.len() - pos, 8int,
{
    match p_power(t, named, pos, st) {
        Err(e) => Err(e),
        Ok((p, p2, st2)) => if p2 <= pos || p2 > t.len() {
            Err((0, Seq::empty()))
        } else {
            p_mul_rest(t, named, p, p2, st2)
        },
    }
}

/// The factors after the first power.
pub open spec fn p_mul_rest(
    t: Seq<TokenView>,
    named: bool,
    acc: Seq<TermView>,
    pos: int,
    st: ParseState,
) -> Parsed<Seq<TermView>>
    decreases t.len() - pos, 7int,
{
    if is_kind(t, pos, KindView::Star) {
        match p_power(t, named, pos + 1, st) {
            Err(e) => Err(e),
            Ok((p, p2, st2)) => if p2 <= pos || p2 > t.len() {
                Err((0, Seq::empty()))
            } else if max_exponent(acc) + max_exponent(p) > usize::MAX {
                Err((t[pos].1, "exponent is too large"@))
            } else {
                p_mul_rest(t, named, mul_terms(acc, p), p2, st2)
            },
        }
    } else {
        Ok((acc, pos, st))
    }
}

/// `power := atom ('^' integer)?`; a power whose exponents could overflow
/// is an error.
pub open spec fn p_power(t: Seq<TokenView>, named: bool, pos: int, st: ParseState) -> Parsed<
    Seq<TermView>,
>
    decreases t.len() - pos, 6int,
{
    match p_atom(t, named, pos, st) {
        Err(e) => Err(e),
        Ok((base, p2, st2)) => if !is_kind(t, p2, KindView::Caret) {
            Ok((base, p2, st2))
        } else if p2 + 1 >= t.len() {
            Err((end_position(t), "expected exponent"@))
        } else {
            match t[p2 + 1].0 {
                KindView::Integer(e) => if e < 0 {
                    Err((t[p2 + 1].1, "expected a non-negative integer exponent"@))
                } else if e > usize::MAX || max_exponent(base) * e > usize::MAX {
                    Err((t[p2 + 1].1, "exponent is too large"@))
                } else {
                    Ok((pow_terms(base, e as nat), p2 + 2, st2))
                },
                _ => Err((t[p2 + 1].1, "expected a non-negative integer exponent"@)),
            }
        },
    }
}

/// `atom := '-' atom | '+' atom | integer | variable | '(' polynomial ')'`.
pub open spec fn p_atom(t: Seq<TokenView>, named: bool, pos: int, st: ParseState) -> Parsed<
    Seq<TermView>,
>
    decreases t.len() - pos, 5int,
{
    if pos < 0 || pos >= t.len() {
        Err((end_position(t), "expected polynomial term"@))
    } else {
        match t[pos].0 {
            KindView::Minus => match p_atom(t, named, pos + 1, st) {
                Err(e) => Err(e),
                Ok((p, p2, st2)) => Ok((negate_terms(p), p2, st2)),
            },
            KindView::Plus => p_atom(t, named, pos + 1, st),
            KindView::Integer(v) => Ok((integer_terms(v), pos + 1, st)),
            KindView::Identifier(name) => if named && reserved_word(name) {
                Err((t[pos].1, "a reserved word cannot name a variable"@))
            } else if named {
                let (v, st2) = resolve(st, name);
                Ok((variable_terms(v), pos + 1, st2))
            } else {
                match variable_index(name) {
                    Ok(v) => Ok((variable_terms(v), pos + 1, st)),
                    Err(m) => Err((t[pos].1, m)),
                }
            },
            KindView::LParen => match p_poly(t, named, pos + 1, st) {
                Err(e) => Err(e),
                Ok((p, p2, st2)) => if is_kind(t, p2, KindView::RParen) {
                    Ok((p, p2 + 1, st2))
                } else {
                    Err((position_at(t, p2), "expected ')' after polynomial"@))
                },
            },
            _ => Err((t[pos].1, "expected integer, variable, or parenthesized polynomial"@)),
        }
    }
}

/// The formula a text denotes, with the names given in named mode, or the
/// first error.
pub open spec fn parse_spec(s: Seq<char>, named: bool) -> Result<(FormulaView, Map<usize, Seq<char>>), ErrorView> {
    match lex(s) {
        Err(e) => Err(e),
        Ok(t) => match p_or(t, named, 0, initial_state()) {
            Err(e) => Err(e),
            Ok((f, p, st)) => if p < t.len() {
                Err((t[p].1, "expected end of input"@))
            } else {
                Ok((f, st.names))
            },
        },
    }
}

/// A parsed formula with the display names of its variables.
#[derive(Debug, PartialEq, Eq)]
pub struct ParsedFormula {
    pub formula: Formula,
    pub names: VariableNames,
}

/// Parses a formula whose variables are written `x0`, `x1`, ...
pub fn parse_formula(input: &str) -> (r: Result<Formula, ParseError>)
    ensures
        match r {
            Ok(f) => formula_wf(f) && (parse_spec(input@, false) matches Ok((view, _)) && view
                == f@),
            Err(e) => parse_spec(input@, false) == Err::<
                (FormulaView, Map<usize, Seq<char>>),
                ErrorView,
            >(e@),
        },
{
    let tokens = match tokenize(input) {
        Ok(tokens) => tokens,
        Err(e) => return Err(e),
    };
    let mut parser = Parser::new(tokens, false);
    let formula = match parser.parse_or() {
        Ok(f) => f,
        Err(e) => return Err(e),
    };
    if parser.index < parser.tokens.len() {
        return Err(parser.error_at_token("expected end of input"));
    }
    Ok(formula)
}

/// Parses a formula whose variables have any identifiers as names; the
/// variables are numbered in order of appearance and keep their names.
pub fn parse_formula_with_names(input: &str) -> (r: Result<ParsedFormula, ParseError>)
    ensures
        match r {
            Ok(p) => formula_wf(p.formula) && parse_spec(input@, true) == Ok::<
                (FormulaView, Map<usize, Seq<char>>),
                ErrorView,
            >((p.formula@, p.names@)),
            Err(e) => parse_spec(input@, true) == Err::<
                (FormulaView, Map<usize, Seq<char>>),
                ErrorView,
            >(e@),
        },
{
    let tokens = match tokenize(input) {
        Ok(tokens) => tokens,
        Err(e) => return Err(e),
    };
    let mut parser = Parser::new(tokens, true);
    let formula = match parser.parse_or() {
        Ok(f) => f,
        Err(e) => return Err(e),
    };
    if parser.index < parser.tokens.len() {
        return Err(parser.error_at_token("expected end of input"));
    }
    Ok(ParsedFormula { formula, names: parser.names })
}

/// The reading state of the recursive descent.
struct Parser {
    tokens: Vec<Token>,
    index: usize,
    named: bool,
    next_variable: usize,
    free_variables: Vec<(String, usize)>,
    scopes: Vec<(String, usize)>,
    names: VariableNames,
}

/// The view of a list of named variables.
spec fn bindings(v: Seq<(String, usize)>) -> Seq<(Seq<char>, usize)> {
    v.map_values(|e: (String, usize)| (e.0@, e.1))
}

/// A formula outcome agrees with the grammar's outcome from `before`.
spec fn formula_outcome(
    r: Result<Formula, ParseError>,
    expected: Parsed<FormulaView>,
    before: Parser,
    after: Parser,
) -> bool {
    match r {
        Ok(f) => formula_wf(f) && expected == Ok::<(FormulaView, int, ParseState), ErrorView>(
            (f@, after.index as int, after.st()),
        ) && before.index < after.index && after.scopes@.len() == before.scopes@.len(),
        Err(e) => expected == Err::<(FormulaView, int, ParseState), ErrorView>(e@),
    }
}

/// A polynomial outcome agrees with the grammar's outcome from `before`.
spec fn poly_outcome(
    r: Result<Polynomial, ParseError>,
    expected: Parsed<Seq<TermView>>,
    before: Parser,
    after: Parser,
) -> bool {
    match r {
        Ok(p) => p.wf() && expected == Ok::<(Seq<TermView>, int, ParseState), ErrorView>(
            (p@, after.index as int, after.st()),
        ) && before.index < after.index && after.scopes@.len() == before.scopes@.len(),
        Err(e) => expected == Err::<(Seq<TermView>, int, ParseState), ErrorView>(e@),
    }
}

impl Parser {
    /// The tokens' views.
    spec fn tv(&self) -> Seq<TokenView> {
        token_views(self.tokens@)
    }

    /// The state's view.
    spec fn st(&self) -> ParseState {
        ParseState {
            next: self.next_variable,
            scopes: bindings(self.scopes@),
            free: bindings(self.free_variables@),
            names: self.names@,
        }
    }

    /// At most the tokens read so far; every variable index given counts a
    /// token read; positions leave room for one more.
    spec fn inv(&self) -> bool {
        &&& self.index <= self.tokens@.len()
        &&& self.tokens@.len() <= usize::MAX
        &&& self.next_variable <= self.index
        &&& forall|k: int| 0 <= k < self.tokens@.len() ==> (#[trigger] self.tokens@[k]).position < usize::MAX
    }

    /// Same tokens, same mode, still consistent.
    spec fn continues(&self, before: Parser) -> bool {
        &&& self.tokens@ == before.tokens@
        &&& self.named == before.named
        &&& self.inv()
    }

    fn new(tokens: Vec<Token>, named: bool) -> (p: Self)
        requires
            forall|k: int| 0 <= k < tokens@.len() ==> (#[trigger] tokens@[k]).position < usize::MAX,
        ensures
            p.inv(),
            p.tokens@ == tokens@,
            p.named == named,
            p.index == 0,
            p.st() == initial_state(),
    {
        let ghost n = tokens.len();
        let p = Parser {
            tokens,
            index: 0,
            named,
            next_variable: 0,
            free_variables: Vec::new(),
            scopes: Vec::new(),
            names: VariableNames::new(),
        };
        assert(p.st().scopes =~= Seq::<(Seq<char>, usize)>::empty());
        assert(p.st().free =~= Seq::<(Seq<char>, usize)>::empty());
        p
    }

    /// The end position.
    fn end_position(&self) -> (e: usize)
        requires
            self.inv(),
        ensures
            e == end_position(self.tv()),
    {
        if self.tokens.len() == 0 {
            0
        } else {
            self.tokens[self.tokens.len() - 1].position + 1
        }
    }

    /// The position of the token at `index`, or the end position.
    fn position_at(&self, index: usize) -> (e: usize)
        requires
            self.inv(),
        ensures
            e == position_at(self.tv(), index as int),
    {
        if index < self.tokens.len() {
            self.tokens[index].position
        } else {
            self.end_position()
        }
    }

    /// An error at the current token (or the end).
    fn error_at_token(&self, message: &str) -> (e: ParseError)
        requires
            self.inv(),
        ensures
            e@ == (position_at(self.tv(), self.index as int), message@),
    {
        ParseError { position: self.position_at(self.index), message: String::from_str(message) }
    }

    /// Whether the token at `index` is an `||`.
    fn at_or(&self) -> (b: bool)
        ensures
            b == is_kind(self.tv(), self.index as int, KindView::Or),
    {
        self.index < self.tokens.len() && match self.tokens[self.index].kind {
            TokenKind::Or => true,
            _ => false,
        }
    }

    /// Whether the token at `index` is a `&&`.
    fn at_and(&self) -> (b: bool)
        ensures
            b == is_kind(self.tv(), self.index as int, KindView::And),
    {
        self.index < self.tokens.len() && match self.tokens[self.index].kind {
            TokenKind::And => true,
            _ => false,
        }
    }

    /// `formula := and ('||' and)*`.
    fn parse_or(&mut self) -> (r: Result<Formula, ParseError>)
        requires
            old(self).inv(),
        ensures
            final(self).continues(*old(self)),
            formula_outcome(
                r,
                p_or(old(self).tv(), old(self).named, old(self).index as int, old(self).st()),
                *old(self),
                *final(self),
            ),
        decreases old(self).tv().len() - old(self).index, 20int,
    {
        let ghost t = self.tv();
        let ghost named = self.named;
        let ghost pos = self.index as int;
        let ghost st = self.st();
        let ghost expected = p_or(t, named, pos, st);
        proof {
            unfold_or(t, named, pos, st);
        }
        let first = match self.parse_and() {
            Ok(f) => f,
            Err(e) => {
                proof {
                    assert(expected == Err::<(FormulaView, int, ParseState), ErrorView>(e@));
                }
                return Err(e);
            },
        };
        let ghost first_view = first@;
        let mut formulas: Vec<Formula> = Vec::new();
        formulas.push(first);
        proof {
            lemma_views_of(formulas@);
            assert(views_of(formulas@) =~= seq![first_view]);
            assert(formulas@.drop_last() =~= Seq::<Formula>::empty());
            assert(all_wf(formulas@.drop_last()));
            assert(expected == wrap_or(
                p_or_rest(t, named, views_of(formulas@), self.index as int, self.st()),
            ));
        }
        while self.at_or()
            invariant
                self.continues(*old(self)),
                t == self.tv(),
                named == self.named,
                pos == old(self).index,
                st == old(self).st(),
                pos < self.index,
                self.scopes@.len() == old(self).scopes@.len(),
                all_wf(formulas@),
                formulas@.len() >= 1,
                expected == p_or(t, named, pos, st),
                expected == wrap_or(
                    p_or_rest(t, named, views_of(formulas@), self.index as int, self.st()),
                ),
            decreases t.len() - self.index,
        {
            let ghost here = self.index as int;
            let ghost acc = views_of(formulas@);
            let ghost st_here = self.st();
            proof {
                unfold_or_rest(t, named, acc, here, st_here);
                assert(expected == wrap_or(p_or_rest(t, named, acc, here, st_here)));
            }
            self.index = self.index + 1;
            let f = match self.parse_and() {
                Ok(f) => f,
                Err(e) => {
                    proof {
                        assert(p_or_rest(t, named, acc, here, st_here) == Err::<
                            (Seq<FormulaView>, int, ParseState),
                            ErrorView,
                        >(e@));
                        assert(expected == Err::<(FormulaView, int, ParseState), ErrorView>(e@));
                    }
                    return Err(e);
                },
            };
            let ghost fv = f@;
            let ghost old_list = formulas@;
            formulas.push(f);
            proof {
                assert(formulas@.drop_last() =~= old_list);
                assert(views_of(formulas@) =~= acc.push(fv));
                assert(p_or_rest(t, named, acc, here, st_here) == p_or_rest(
                    t,
                    named,
                    acc.push(fv),
                    self.index as int,
                    self.st(),
                ));
            }
        }
        proof {
            unfold_or_rest(t, named, views_of(formulas@), self.index as int, self.st());
            assert(p_or_rest(t, named, views_of(formulas@), self.index as int, self.st())
                == Ok::<(Seq<FormulaView>, int, ParseState), ErrorView>(
                (views_of(formulas@), self.index as int, self.st()),
            ));
            lemma_views_of(formulas@);
        }
        if formulas.len() == 1 {
            let ghost list = formulas@;
            let f = formulas.pop().unwrap();
            proof {
                assert(list.last() == f);
                assert(views_of(list)[0] == formula_view(list[0]));
            }
            Ok(f)
        } else {
            Ok(Formula::Or(formulas))
        }
    }

    /// `and := unary ('&&' unary)*`.
    fn parse_and(&mut self) -> (r: Result<Formula, ParseError>)
        requires
            old(self).inv(),
        ensures
            final(self).continues(*old(self)),
            formula_outcome(
                r,
                p_and(old(self).tv(), old(self).named, old(self).index as int, old(self).st()),
                *old(self),
                *final(self),
            ),
        decreases old(self).tv().len() - old(self).index, 18int,
    {
        let ghost t = self.tv();
        let ghost named = self.named;
        let ghost pos = self.index as int;
        let ghost st = self.st();
        let ghost expected = p_and(t, named, pos, st);
        proof {
            unfold_and(t, named, pos, st);
        }
        let first = match self.parse_unary() {
            Ok(f) => f,
            Err(e) => {
                proof {
                    assert(p_unary(t, named, pos, st) == Err::<(FormulaView, int, ParseState), ErrorView>(e@));
                    assert(expected == Err::<(FormulaView, int, ParseState), ErrorView>(e@));
                }
                return Err(e);
            },
        };
        let ghost first_view = first@;
        let mut formulas: Vec<Formula> = Vec::new();
        formulas.push(first);
        proof {
            lemma_views_of(formulas@);
            assert(views_of(formulas@) =~= seq![first_view]);
            assert(formulas@.drop_last() =~= Seq::<Formula>::empty());
            assert(all_wf(formulas@.drop_last()));
            assert(expected == wrap_and(
                p_and_rest(t, named, views_of(formulas@), self.index as int, self.st()),
            ));
        }
        while self.at_and()
            invariant
                self.continues(*old(self)),
                t == self.tv(),
                named == self.named,
                pos == old(self).index,
                st == old(self).st(),
                pos < self.index,
                self.scopes@.len() == old(self).scopes@.len(),
                all_wf(formulas@),
                formulas@.len() >= 1,
                expected == p_and(t, named, pos, st),
                expected == wrap_and(
                    p_and_rest(t, named, views_of(formulas@), self.index as int, self.st()),
                ),
            decreases t.len() - self.index,
        {
            let ghost here = self.index as int;
            let ghost acc = views_of(formulas@);
            let ghost st_here = self.st();
            proof {
                unfold_and_rest(t, named, acc, here, st_here);
                assert(expected == wrap_and(p_and_rest(t, named, acc, here, st_here)));
            }
            self.index = self.index + 1;
            let f = match self.parse_unary() {
                Ok(f) => f,
                Err(e) => {
                    proof {
                        assert(p_and_rest(t, named, acc, here, st_here) == Err::<
                            (Seq<FormulaView>, int, ParseState),
                            ErrorView,
                        >(e@));
                        assert(expected == Err::<(FormulaView, int, ParseState), ErrorView>(e@));
                    }
                    return Err(e);
                },
            };
            let ghost fv = f@;
            let ghost old_list = formulas@;
            formulas.push(f);
            proof {
                assert(formulas@.drop_last() =~= old_list);
                assert(views_of(formulas@) =~= acc.push(fv));
                assert(p_and_rest(t, named, acc, here, st_here) == p_and_rest(
                    t,
                    named,
                    acc.push(fv),
                    self.index as int,
                    self.st(),
                ));
            }
        }
        proof {
            unfold_and_rest(t, named, views_of(formulas@), self.index as int, self.st());
            assert(p_and_rest(t, named, views_of(formulas@), self.index as int, self.st())
                == Ok::<(Seq<FormulaView>, int, ParseState), ErrorView>(
                (views_of(formulas@), self.index as int, self.st()),
            ));
            lemma_views_of(formulas@);
        }
        if formulas.len() == 1 {
            let ghost list = formulas@;
            let f = formulas.pop().unwrap();
            proof {
                assert(list.last() == f);
                assert(views_of(list)[0] == formula_view(list[0]));
            }
            Ok(f)
        } else {
            Ok(Formula::And(formulas))
        }
    }

    /// Whether the token at `index` has the kind `k` (one without content).
    fn at(&self, k: TokenKind) -> (b: bool)
        requires
            !(k@ is Identifier),
            !(k@ is Integer),
        ensures
            b == is_kind(self.tv(), self.index as int, k@),
    {
        if self.index >= self.tokens.len() {
            return false;
        }
        kind_code(&self.tokens[self.index].kind) == kind_code(&k)
    }

    /// Whether the token at `index` is the identifier `word`.
    fn at_identifier(&self, word: &str) -> (b: bool)
        ensures
            b == is_identifier(self.tv(), self.index as int, word@),
    {
        if self.index >= self.tokens.len() {
            return false;
        }
        match &self.tokens[self.index].kind {
            TokenKind::Identifier(name) => {
                let expected = String::from_str(word);
                name.eq(&expected)
            },
            _ => false,
        }
    }

    /// `unary := '!' unary | quantifier | '(' formula ')' | true | false
    /// | polynomial relation polynomial`.
    #[verifier::rlimit(60)]
    fn parse_unary(&mut self) -> (r: Result<Formula, ParseError>)
        requires
            old(self).inv(),
        ensures
            final(self).continues(*old(self)),
            formula_outcome(
                r,
                p_unary(old(self).tv(), old(self).named, old(self).index as int, old(self).st()),
                *old(self),
                *final(self),
            ),
        decreases old(self).tv().len() - old(self).index, 16int,
    {
        let ghost t = self.tv();
        let ghost named = self.named;
        let ghost pos = self.index as int;
        let ghost st = self.st();
        proof {
            unfold_unary(t, named, pos, st);
        }
        if self.at(TokenKind::Not) {
            self.index = self.index + 1;
            return match self.parse_unary() {
                Err(e) => Err(e),
                Ok(f) => Ok(Formula::Not(Box::new(f))),
            };
        }
        if self.at_identifier("exists") {
            self.index = self.index + 1;
            return self.parse_quantified(Quantifier::Exists);
        }
        if self.at_identifier("forall") {
            self.index = self.index + 1;
            return self.parse_quantified(Quantifier::Forall);
        }
        if self.at(TokenKind::LParen) {
            self.index = self.index + 1;
            let f = match self.parse_or() {
                Ok(f) => f,
                Err(e) => return Err(e),
            };
            if self.at(TokenKind::RParen) {
                self.index = self.index + 1;
                return Ok(f);
            }
            return Err(self.error_at_token("expected ')' after formula"));
        }
        if self.at_identifier("true") {
            self.index = self.index + 1;
            return Ok(Formula::True);
        }
        if self.at_identifier("false") {
            self.index = self.index + 1;
            return Ok(Formula::False);
        }
        let left = match self.parse_poly() {
            Ok(p) => p,
            Err(e) => return Err(e),
        };
        let relation = match self.parse_relation() {
            Ok(r) => r,
            Err(e) => return Err(e),
        };
        let right = match self.parse_poly() {
            Ok(p) => p,
            Err(e) => return Err(e),
        };
        Ok(Formula::atom(left.minus(&right), relation))
    }

    /// `quantified := variable '.' formula`, after the quantifier keyword.
    fn parse_quantified(&mut self, quantifier: Quantifier) -> (r: Result<Formula, ParseError>)
        requires
            old(self).inv(),
        ensures
            final(self).continues(*old(self)),
            formula_outcome(
                r,
                p_quantified(
                    old(self).tv(),
                    old(self).named,
                    quantifier,
                    old(self).index as int,
                    old(self).st(),
                ),
                *old(self),
                *final(self),
            ),
        decreases old(self).tv().len() - old(self).index, 15int,
    {
        let ghost t = self.tv();
        let ghost named = self.named;
        let ghost pos = self.index as int;
        let ghost st = self.st();
        proof {
            unfold_quantified(t, named, quantifier, pos, st);
        }
        if self.index >= self.tokens.len() {
            return Err(
                ParseError {
                    position: self.end_position(),
                    message: String::from_str("expected variable"),
                },
            );
        }
        let position = self.tokens[self.index].position;
        let name = match &self.tokens[self.index].kind {
            TokenKind::Identifier(name) => name.clone(),
            _ => {
                return Err(
                    ParseError {
                        position,
                        message: String::from_str("expected a variable such as x0"),
                    },
                );
            },
        };
        if self.named && is_reserved(&name) {
            return Err(
                ParseError {
                    position,
                    message: String::from_str("a reserved word cannot name a variable"),
                },
            );
        }
        self.index = self.index + 1;
        let variable = if self.named {
            let v = self.next_variable;
            self.next_variable = self.next_variable + 1;
            let ghost scopes = self.scopes@;
            self.scopes.push((name.clone(), v));
            self.names.insert(v, name.as_str());
            proof {
                assert(bindings(self.scopes@) =~= bindings(scopes).push((name@, v)));
            }
            v
        } else {
            match parse_variable(&name, position) {
                Ok(v) => v,
                Err(e) => return Err(e),
            }
        };
        if !self.at(TokenKind::Dot) {
            return Err(self.error_at_token("expected '.' after quantified variable"));
        }
        self.index = self.index + 1;
        let body = match self.parse_or() {
            Ok(f) => f,
            Err(e) => return Err(e),
        };
        if self.named {
            let ghost scopes = self.scopes@;
            self.scopes.pop();
            proof {
                assert(bindings(self.scopes@) =~= bindings(scopes).drop_last());
            }
        }
        Ok(Formula::Quantified { quantifier, variable, body: Box::new(body) })
    }

    /// The relation token at `index`.
    fn parse_relation(&mut self) -> (r: Result<Relation, ParseError>)
        requires
            old(self).inv(),
        ensures
            final(self).continues(*old(self)),
            final(self).st() == old(self).st(),
            match r {
                Ok(relation) => p_relation(old(self).tv(), old(self).index as int) == Ok::<
                    Relation,
                    ErrorView,
                >(relation) && final(self).index == old(self).index + 1,
                Err(e) => p_relation(old(self).tv(), old(self).index as int) == Err::<
                    Relation,
                    ErrorView,
                >(e@),
            },
    {
        if self.index >= self.tokens.len() {
            return Err(
                ParseError {
                    position: self.end_position(),
                    message: String::from_str("expected relation"),
                },
            );
        }
        let position = self.tokens[self.index].position;
        let relation = match &self.tokens[self.index].kind {
            TokenKind::Equal => Relation::Equal,
            TokenKind::NotEqual => Relation::NotEqual,
            TokenKind::Less => Relation::Less,
            TokenKind::LessOrEqual => Relation::LessOrEqual,
            TokenKind::Greater => Relation::Greater,
            TokenKind::GreaterOrEqual => Relation::GreaterOrEqual,
            _ => {
                return Err(
                    ParseError {
                        position,
                        message: String::from_str("expected a comparison relation"),
                    },
                );
            },
        };
        self.index = self.index + 1;
        Ok(relation)
    }

    /// `polynomial := product (('+' | '-') product)*`.
    fn parse_poly(&mut self) -> (r: Result<Polynomial, ParseError>)
        requires
            old(self).inv(),
        ensures
            final(self).continues(*old(self)),
            poly_outcome(
                r,
                p_poly(old(self).tv(), old(self).named, old(self).index as int, old(self).st()),
                *old(self),
                *final(self),
            ),
        decreases old(self).tv().len() - old(self).index, 10int,
    {
        let ghost t = self.tv();
        let ghost named = self.named;
        let ghost pos = self.index as int;
        let ghost st = self.st();
        let ghost expected = p_poly(t, named, pos, st);
        proof {
            unfold_poly(t, named, pos, st);
        }
        let mut result = match self.parse_mul() {
            Ok(p) => p,
            Err(e) => return Err(e),
        };
        while self.at(TokenKind::Plus) || self.at(TokenKind::Minus)
            invariant
                self.continues(*old(self)),
                t == self.tv(),
                named == self.named,
                pos == old(self).index,
                st == old(self).st(),
                pos < self.index,
                self.scopes@.len() == old(self).scopes@.len(),
                result.wf(),
                expected == p_poly(t, named, pos, st),
                expected == p_add_rest(t, named, result@, self.index as int, self.st()),
            decreases t.len() - self.index,
        {
            let ghost here = self.index as int;
            let ghost st_here = self.st();
            let ghost acc = result@;
            proof {
                unfold_add_rest(t, named, acc, here, st_here);
            }
            let plus = self.at(TokenKind::Plus);
            self.index = self.index + 1;
            let rhs = match self.parse_mul() {
                Ok(p) => p,
                Err(e) => {
                    proof {
                        assert(expected == Err::<(Seq<TermView>, int, ParseState), ErrorView>(e@));
                    }
                    return Err(e);
                },
            };
            result = if plus {
                result.plus(&rhs)
            } else {
                result.minus(&rhs)
            };
        }
        proof {
            unfold_add_rest(t, named, result@, self.index as int, self.st());
        }
        Ok(result)
    }

    /// `product := power ('*' power)*`.
    fn parse_mul(&mut self) -> (r: Result<Polynomial, ParseError>)
        requires
            old(self).inv(),
        ensures
            final(self).continues(*old(self)),
            poly_outcome(
                r,
                p_mul(old(self).tv(), old(self).named, old(self).index as int, old(self).st()),
                *old(self),
                *final(self),
            ),
        decreases old(self).tv().len() - old(self).index, 8int,
    {
        let ghost t = self.tv();
        let ghost named = self.named;
        let ghost pos = self.index as int;
        let ghost st = self.st();
        let ghost expected = p_mul(t, named, pos, st);
        proof {
            unfold_mul(t, named, pos, st);
        }
        let mut result = match self.parse_power() {
            Ok(p) => p,
            Err(e) => return Err(e),
        };
        while self.at(TokenKind::Star)
            invariant
                self.continues(*old(self)),
                t == self.tv(),
                named == self.named,
                pos == old(self).index,
                st == old(self).st(),
                pos < self.index,
                self.scopes@.len() == old(self).scopes@.len(),
                result.wf(),
                expected == p_mul(t, named, pos, st),
                expected == p_mul_rest(t, named, result@, self.index as int, self.st()),
            decreases t.len() - self.index,
        {
            let ghost here = self.index as int;
            let ghost st_here = self.st();
            let ghost acc = result@;
            proof {
                unfold_mul_rest(t, named, acc, here, st_here);
            }
            let star = self.tokens[self.index].position;
            self.index = self.index + 1;
            let rhs = match self.parse_power() {
                Ok(p) => p,
                Err(e) => {
                    proof {
                        assert(expected == Err::<(Seq<TermView>, int, ParseState), ErrorView>(e@));
                    }
                    return Err(e);
                },
            };
            let a = result.max_exponent();
            let b = rhs.max_exponent();
            if a.checked_add(b).is_none() {
                return Err(ParseError { position: star, message: String::from_str("exponent is too large") });
            }
            proof {
                lemma_max_exponent_bounds(result@);
                lemma_max_exponent_bounds(rhs@);
                lemma_bounded_mul_fits(result@, rhs@, a as nat, b as nat);
            }
            result = result.times(&rhs);
        }
        proof {
            unfold_mul_rest(t, named, result@, self.index as int, self.st());
        }
        Ok(result)
    }

    /// `power := atom ('^' integer)?`.
    fn parse_power(&mut self) -> (r: Result<Polynomial, ParseError>)
        requires
            old(self).inv(),
        ensures
            final(self).continues(*old(self)),
            poly_outcome(
                r,
                p_power(old(self).tv(), old(self).named, old(self).index as int, old(self).st()),
                *old(self),
                *final(self),
            ),
        decreases old(self).tv().len() - old(self).index, 6int,
    {
        let ghost t = self.tv();
        let ghost named = self.named;
        let ghost pos = self.index as int;
        let ghost st = self.st();
        proof {
            unfold_power(t, named, pos, st);
        }
        let base = match self.parse_atom() {
            Ok(p) => p,
            Err(e) => return Err(e),
        };
        if !self.at(TokenKind::Caret) {
            return Ok(base);
        }
        self.index = self.index + 1;
        if self.index >= self.tokens.len() {
            return Err(
                ParseError {
                    position: self.end_position(),
                    message: String::from_str("expected exponent"),
                },
            );
        }
        let position = self.tokens[self.index].position;
        let exponent = match self.tokens[self.index].kind {
            TokenKind::Integer(e) => e,
            _ => {
                return Err(
                    ParseError {
                        position,
                        message: String::from_str("expected a non-negative integer exponent"),
                    },
                );
            },
        };
        self.index = self.index + 1;
        if exponent < 0 {
            return Err(
                ParseError {
                    position,
                    message: String::from_str("expected a non-negative integer exponent"),
                },
            );
        }
        if exponent as u64 > usize::MAX as u64 {
            return Err(ParseError { position, message: String::from_str("exponent is too large") });
        }
        let e = exponent as usize;
        if base.max_exponent().checked_mul(e).is_none() {
            return Err(ParseError { position, message: String::from_str("exponent is too large") });
        }
        Ok(base.pow(e))
    }

    /// `atom := '-' atom | '+' atom | integer | variable | '(' polynomial ')'`.
    fn parse_atom(&mut self) -> (r: Result<Polynomial, ParseError>)
        requires
            old(self).inv(),
        ensures
            final(self).continues(*old(self)),
            poly_outcome(
                r,
                p_atom(old(self).tv(), old(self).named, old(self).index as int, old(self).st()),
                *old(self),
                *final(self),
            ),
        decreases old(self).tv().len() - old(self).index, 5int,
    {
        let ghost t = self.tv();
        let ghost named = self.named;
        let ghost pos = self.index as int;
        let ghost st = self.st();
        proof {
            unfold_atom(t, named, pos, st);
        }
        if self.index >= self.tokens.len() {
            return Err(
                ParseError {
                    position: self.end_position(),
                    message: String::from_str("expected polynomial term"),
                },
            );
        }
        let position = self.tokens[self.index].position;
        if self.at(TokenKind::Minus) {
            self.index = self.index + 1;
            return match self.parse_atom() {
                Ok(p) => Ok(p.negated()),
                Err(e) => Err(e),
            };
        }
        if self.at(TokenKind::Plus) {
            self.index = self.index + 1;
            return self.parse_atom();
        }
        if self.at(TokenKind::LParen) {
            self.index = self.index + 1;
            let p = match self.parse_poly() {
                Ok(p) => p,
                Err(e) => return Err(e),
            };
            if self.at(TokenKind::RParen) {
                self.index = self.index + 1;
                return Ok(p);
            }
            return Err(self.error_at_token("expected ')' after polynomial"));
        }
        let name = match &self.tokens[self.index].kind {
            TokenKind::Integer(v) => {
                let v = *v;
                self.index = self.index + 1;
                return Ok(Polynomial::integer(v));
            },
            TokenKind::Identifier(name) => name.clone(),
            _ => {
                return Err(
                    ParseError {
                        position,
                        message: String::from_str(
                            "expected integer, variable, or parenthesized polynomial",
                        ),
                    },
                );
            },
        };
        if self.named && is_reserved(&name) {
            return Err(
                ParseError {
                    position,
                    message: String::from_str("a reserved word cannot name a variable"),
                },
            );
        }
        self.index = self.index + 1;
        if self.named {
            let v = self.resolve_named_variable(name);
            Ok(Polynomial::variable(v))
        } else {
            match parse_variable(&name, position) {
                Ok(v) => Ok(Polynomial::variable(v)),
                Err(e) => Err(e),
            }
        }
    }

    /// The variable `name` stands for in named mode (see [`resolve`]).
    fn resolve_named_variable(&mut self, name: String) -> (v: usize)
        requires
            old(self).inv(),
            old(self).next_variable < old(self).index,
        ensures
            final(self).continues(*old(self)),
            final(self).index == old(self).index,
            final(self).scopes@ == old(self).scopes@,
            (v, final(self).st()) == resolve(old(self).st(), name@),
    {
        let mut k = self.scopes.len();
        proof {
            assert(bindings(self.scopes@).take(k as int) =~= bindings(self.scopes@));
        }
        while k > 0
            invariant
                *self == *old(self),
                self.inv(),
                k <= self.scopes@.len(),
                lookup(bindings(self.scopes@), name@) == lookup(bindings(self.scopes@).take(k as int), name@),
            decreases k,
        {
            let ghost b = bindings(self.scopes@);
            proof {
                assert(b.take(k as int).drop_last() =~= b.take(k - 1));
            }
            if self.scopes[k - 1].0.eq(&name) {
                return self.scopes[k - 1].1;
            }
            k = k - 1;
        }
        let mut k = self.free_variables.len();
        proof {
            assert(bindings(self.free_variables@).take(k as int) =~= bindings(self.free_variables@));
        }
        while k > 0
            invariant
                *self == *old(self),
                self.inv(),
                lookup(bindings(self.scopes@), name@) is None,
                k <= self.free_variables@.len(),
                lookup(bindings(self.free_variables@), name@) == lookup(
                    bindings(self.free_variables@).take(k as int),
                    name@,
                ),
            decreases k,
        {
            let ghost b = bindings(self.free_variables@);
            proof {
                assert(b.take(k as int).drop_last() =~= b.take(k - 1));
            }
            if self.free_variables[k - 1].0.eq(&name) {
                return self.free_variables[k - 1].1;
            }
            k = k - 1;
        }
        let v = self.next_variable;
        self.next_variable = self.next_variable + 1;
        let ghost free = self.free_variables@;
        self.free_variables.push((name.clone(), v));
        self.names.insert(v, name.as_str());
        proof {
            assert(bindings(self.free_variables@) =~= bindings(free).push((name@, v)));
        }
        v
    }
}


/// A number for each kind of token.
spec fn kind_number(k: KindView) -> u8 {
    match k {
        KindView::Identifier(_) => 0,
        KindView::Integer(_) => 1,
        KindView::Plus => 2,
        KindView::Minus => 3,
        KindView::Star => 4,
        KindView::Caret => 5,
        KindView::LParen => 6,
        KindView::RParen => 7,
        KindView::Dot => 8,
        KindView::And => 9,
        KindView::Or => 10,
        KindView::Not => 11,
        KindView::Equal => 12,
        KindView::NotEqual => 13,
        KindView::Less => 14,
        KindView::LessOrEqual => 15,
        KindView::Greater => 16,
        KindView::GreaterOrEqual => 17,
    }
}

/// The number of a token's kind.
fn kind_code(k: &TokenKind) -> (c: u8)
    ensures
        c == kind_number(k@),
{
    match k {
        TokenKind::Identifier(_) => 0,
        TokenKind::Integer(_) => 1,
        TokenKind::Plus => 2,
        TokenKind::Minus => 3,
        TokenKind::Star => 4,
        TokenKind::Caret => 5,
        TokenKind::LParen => 6,
        TokenKind::RParen => 7,
        TokenKind::Dot => 8,
        TokenKind::And => 9,
        TokenKind::Or => 10,
        TokenKind::Not => 11,
        TokenKind::Equal => 12,
        TokenKind::NotEqual => 13,
        TokenKind::Less => 14,
        TokenKind::LessOrEqual => 15,
        TokenKind::Greater => 16,
        TokenKind::GreaterOrEqual => 17,
    }
}

/// The index a variable name `x<digits>` stands for.
fn parse_variable(name: &String, position: usize) -> (r: Result<usize, ParseError>)
    ensures
        match r {
            Ok(v) => variable_index(name@) == Ok::<usize, Seq<char>>(v),
            Err(e) => e.position == position && variable_index(name@) == Err::<usize, Seq<char>>(
                e.message@,
            ),
        },
{
    let text = name.as_str();
    let n = text.unicode_len();
    if n < 2 || text.get_char(0) != 'x' {
        return Err(
            ParseError {
                position,
                message: String::from_str("variables must use the form x0, x1, ..."),
            },
        );
    }
    let mut value: usize = 0;
    let mut k: usize = 1;
    while k < n
        invariant
            n == name@.len(),
            text@ == name@,
            2 <= n,
            name@[0] == 'x',
            1 <= k <= n,
            value == digits_value(name@, 1, k as int),
            forall|j: int| 1 <= j < k ==> is_digit(#[trigger] name@[j]),
        decreases n - k,
    {
        let c = text.get_char(k);
        if !('0' <= c && c <= '9') {
            proof {
                assert(!is_digit(name@[k as int]));
            }
            return Err(
                ParseError { position, message: String::from_str("variable index is too large") },
            );
        }
        let d = (c as u32 - '0' as u32) as usize;
        if value > (usize::MAX - d) / 10 {
            proof {
                assert(value * 10 + d > usize::MAX) by (nonlinear_arith)
                    requires
                        value > (usize::MAX - d) / 10,
                        0 <= d <= 9,
                ;
                if forall|j: int| 1 <= j < n ==> is_digit(#[trigger] name@[j]) {
                    lemma_digits_value_grows(name@, 1, k + 1, n as int);
                }
            }
            return Err(
                ParseError { position, message: String::from_str("variable index is too large") },
            );
        }
        proof {
            assert(value * 10 + d <= usize::MAX) by (nonlinear_arith)
                requires
                    value <= (usize::MAX - d) / 10,
                    0 <= d <= 9,
            ;
        }
        value = value * 10 + d;
        k = k + 1;
    }
    Ok(value)
}

/// More digits never make a smaller value.
proof fn lemma_digits_value_grows(s: Seq<char>, i: int, j: int, k: int)
    requires
        0 <= i <= j <= k <= s.len(),
        forall|m: int| i <= m < k ==> is_digit(#[trigger] s[m]),
    ensures
        digits_value(s, i, j) <= digits_value(s, i, k),
    decreases k - j,
{
    if k > j {
        lemma_digits_value_grows(s, i, j, k - 1);
        lemma_digits_value_nonneg(s, i, k - 1);
    }
}

/// One step of [`p_or`].
pub proof fn unfold_or(t: Seq<TokenView>, named: bool, pos: int, st: ParseState)
    ensures
        p_or(t, named, pos, st) == {
        match p_and(t, named, pos, st) {
            Err(e) => Err(e),
            Ok((f, p2, st2)) => if p2 <= pos || p2 > t.len() {
                Err((0, Seq::empty()))
            } else {
                wrap_or(p_or_rest(t, named, seq![f], p2, st2))
            },
        }
        },
{
}

/// One step of [`p_or_rest`].
pub proof fn unfold_or_rest(t: Seq<TokenView>,
    named: bool,
    acc: Seq<FormulaView>,
    pos: int,
    st: ParseState)
    ensures
        p_or_rest(t, named, acc, pos, st) == {
        if !is_kind(t, pos, KindView::Or) {
            Ok((acc, pos, st))
        } else {
            match p_and(t, named, pos + 1, st) {
                Err(e) => Err(e),
                Ok((f, p2, st2)) => if p2 <= pos || p2 > t.len() {
                    Err((0, Seq::empty()))
                } else {
                    p_or_rest(t, named, acc.push(f), p2, st2)
                },
            }
        }
        },
{
}

/// One step of [`p_and`].
pub proof fn unfold_and(t: Seq<TokenView>, named: bool, pos: int, st: ParseState)
    ensures
        p_and(t, named, pos, st) == {
        match p_unary(t, named, pos, st) {
            Err(e) => Err(e),
            Ok((f, p2, st2)) => if p2 <= pos || p2 > t.len() {
                Err((0, Seq::empty()))
            } else {
                wrap_and(p_and_rest(t, named, seq![f], p2, st2))
            },
        }
        },
{
}

/// One step of [`p_and_rest`].
pub proof fn unfold_and_rest(t: Seq<TokenView>,
    named: bool,
    acc: Seq<FormulaView>,
    pos: int,
    st: ParseState)
    ensures
        p_and_rest(t, named, acc, pos, st) == {
        if !is_kind(t, pos, KindView::And) {
            Ok((acc, pos, st))
        } else {
            match p_unary(t, named, pos + 1, st) {
                Err(e) => Err(e),
                Ok((f, p2, st2)) => if p2 <= pos || p2 > t.len() {
                    Err((0, Seq::empty()))
                } else {
                    p_and_rest(t, named, acc.push(f), p2, st2)
                },
            }
        }
        },
{
}

/// One step of [`p_unary`].
pub proof fn unfold_unary(t: Seq<TokenView>, named: bool, pos: int, st: ParseState)
    ensures
        p_unary(t, named, pos, st) == {
        if pos < 0 || pos > t.len() {
            Err((0, Seq::empty()))
        } else if is_kind(t, pos, KindView::Not) {
            match p_unary(t, named, pos + 1, st) {
                Err(e) => Err(e),
                Ok((f, p2, st2)) => Ok((FormulaView::Not(Box::new(f)), p2, st2)),
            }
        } else if is_identifier(t, pos, "exists"@) {
            p_quantified(t, named, Quantifier::Exists, pos + 1, st)
        } else if is_identifier(t, pos, "forall"@) {
            p_quantified(t, named, Quantifier::Forall, pos + 1, st)
        } else if is_kind(t, pos, KindView::LParen) {
            match p_or(t, named, pos + 1, st) {
                Err(e) => Err(e),
                Ok((f, p2, st2)) => if is_kind(t, p2, KindView::RParen) {
                    Ok((f, p2 + 1, st2))
                } else {
                    Err((position_at(t, p2), "expected ')' after formula"@))
                },
            }
        } else if is_identifier(t, pos, "true"@) {
            Ok((FormulaView::True, pos + 1, st))
        } else if is_identifier(t, pos, "false"@) {
            Ok((FormulaView::False, pos + 1, st))
        } else {
            match p_poly(t, named, pos, st) {
                Err(e) => Err(e),
                Ok((left, p2, st2)) => if p2 <= pos || p2 > t.len() {
                    Err((0, Seq::empty()))
                } else {
                    match p_relation(t, p2) {
                        Err(e) => Err(e),
                        Ok(relation) => match p_poly(t, named, p2 + 1, st2) {
                            Err(e) => Err(e),
                            Ok((right, p3, st3)) => Ok(
                                (
                                    FormulaView::Atom(add_terms(left, negate_terms(right)), relation),
                                    p3,
                                    st3,
                                ),
                            ),
                        },
                    }
                },
            }
        }
        },
{
}

/// One step of [`p_quantified`].
pub proof fn unfold_quantified(t: Seq<TokenView>,
    named: bool,
    q: Quantifier,
    pos: int,
    st: ParseState)
    ensures
        p_quantified(t, named, q, pos, st) == {
        if pos < 0 || pos >= t.len() {
            Err((end_position(t), "expected variable"@))
        } else {
            let bound: Result<(usize, ParseState), ErrorView> = match t[pos].0 {
                KindView::Identifier(name) => if named && reserved_word(name) {
                    Err((t[pos].1, "a reserved word cannot name a variable"@))
                } else if named {
                    Ok(
                        (
                            st.next,
                            ParseState {
                                next: (st.next + 1) as usize,
                                scopes: st.scopes.push((name, st.next)),
                                names: st.names.insert(st.next, name),
                                ..st
                            },
                        ),
                    )
                } else {
                    match variable_index(name) {
                        Ok(v) => Ok((v, st)),
                        Err(m) => Err((t[pos].1, m)),
                    }
                },
                _ => Err((t[pos].1, "expected a variable such as x0"@)),
            };
            match bound {
                Err(e) => Err(e),
                Ok((v, st2)) => if !is_kind(t, pos + 1, KindView::Dot) {
                    Err((position_at(t, pos + 1), "expected '.' after quantified variable"@))
                } else {
                    match p_or(t, named, pos + 2, st2) {
                        Err(e) => Err(e),
                        Ok((body, p3, st3)) => Ok(
                            (
                                FormulaView::Quantified(q, v, Box::new(body)),
                                p3,
                                if named {
                                    ParseState { scopes: st3.scopes.drop_last(), ..st3 }
                                } else {
                                    st3
                                },
                            ),
                        ),
                    }
                },
            }
        }
        },
{
}

/// One step of [`p_poly`].
pub proof fn unfold_poly(t: Seq<TokenView>, named: bool, pos: int, st: ParseState)
    ensures
        p_poly(t, named, pos, st) == {
        match p_mul(t, named, pos, st) {
            Err(e) => Err(e),
            Ok((p, p2, st2)) => if p2 <= pos || p2 > t.len() {
                Err((0, Seq::empty()))
            } else {
                p_add_rest(t, named, p, p2, st2)
            },
        }
        },
{
}

/// One step of [`p_add_rest`].
pub proof fn unfold_add_rest(t: Seq<TokenView>,
    named: bool,
    acc: Seq<TermView>,
    pos: int,
    st: ParseState)
    ensures
        p_add_rest(t, named, acc, pos, st) == {
        if is_kind(t, pos, KindView::Plus) || is_kind(t, pos, KindView::Minus) {
            match p_mul(t, named, pos + 1, st) {
                Err(e) => Err(e),
                Ok((p, p2, st2)) => if p2 <= pos || p2 > t.len() {
                    Err((0, Seq::empty()))
                } else {
                    p_add_rest(
                        t,
                        named,
                        if is_kind(t, pos, KindView::Plus) {
                            add_terms(acc, p)
                        } else {
                            add_terms(acc, negate_terms(p))
                        },
                        p2,
                        st2,
                    )
                },
            }
        } else {
            Ok((acc, pos, st))
        }
        },
{
}

/// One step of [`p_mul`].
pub proof fn unfold_mul(t: Seq<TokenView>, named: bool, pos: int, st: ParseState)
    ensures
        p_mul(t, named, pos, st) == {
        match p_power(t, named, pos, st) {
            Err(e) => Err(e),
            Ok((p, p2, st2)) => if p2 <= pos || p2 > t.len() {
                Err((0, Seq::empty()))
            } else {
                p_mul_rest(t, named, p, p2, st2)
            },
        }
        },
{
}

/// One step of [`p_mul_rest`].
pub proof fn unfold_mul_rest(t: Seq<TokenView>,
    named: bool,
    acc: Seq<TermView>,
    pos: int,
    st: ParseState)
    ensures
        p_mul_rest(t, named, acc, pos, st) == {
        if is_kind(t, pos, KindView::Star) {
            match p_power(t, named, pos + 1, st) {
                Err(e) => Err(e),
                Ok((p, p2, st2)) => if p2 <= pos || p2 > t.len() {
                    Err((0, Seq::empty()))
                } else if max_exponent(acc) + max_exponent(p) > usize::MAX {
                    Err((t[pos].1, "exponent is too large"@))
                } else {
                    p_mul_rest(t, named, mul_terms(acc, p), p2, st2)
                },
            }
        } else {
            Ok((acc, pos, st))
        }
        },
{
}

/// One step of [`p_power`].
pub proof fn unfold_power(t: Seq<TokenView>, named: bool, pos: int, st: ParseState)
    ensures
        p_power(t, named, pos, st) == {
        match p_atom(t, named, pos, st) {
            Err(e) => Err(e),
            Ok((base, p2, st2)) => if !is_kind(t, p2, KindView::Caret) {
                Ok((base, p2, st2))
            } else if p2 + 1 >= t.len() {
                Err((end_position(t), "expected exponent"@))
            } else {
                match t[p2 + 1].0 {
                    KindView::Integer(e) => if e < 0 {
                        Err((t[p2 + 1].1, "expected a non-negative integer exponent"@))
                    } else if e > usize::MAX || max_exponent(base) * e > usize::MAX {
                        Err((t[p2 + 1].1, "exponent is too large"@))
                    } else {
                        Ok((pow_terms(base, e as nat), p2 + 2, st2))
                    },
                    _ => Err((t[p2 + 1].1, "expected a non-negative integer exponent"@)),
                }
            },
        }
        },
{
}

/// One step of [`p_atom`].
pub proof fn unfold_atom(t: Seq<TokenView>, named: bool, pos: int, st: ParseState)
    ensures
        p_atom(t, named, pos, st) == {
        if pos < 0 || pos >= t.len() {
            Err((end_position(t), "expected polynomial term"@))
        } else {
            match t[pos].0 {
                KindView::Minus => match p_atom(t, named, pos + 1, st) {
                    Err(e) => Err(e),
                    Ok((p, p2, st2)) => Ok((negate_terms(p), p2, st2)),
                },
                KindView::Plus => p_atom(t, named, pos + 1, st),
                KindView::Integer(v) => Ok((integer_terms(v), pos + 1, st)),
                KindView::Identifier(name) => if named && reserved_word(name) {
                    Err((t[pos].1, "a reserved word cannot name a variable"@))
                } else if named {
                    let (v, st2) = resolve(st, name);
                    Ok((variable_terms(v), pos + 1, st2))
                } else {
                    match variable_index(name) {
                        Ok(v) => Ok((variable_terms(v), pos + 1, st)),
                        Err(m) => Err((t[pos].1, m)),
                    }
                },
                KindView::LParen => match p_poly(t, named, pos + 1, st) {
                    Err(e) => Err(e),
                    Ok((p, p2, st2)) => if is_kind(t, p2, KindView::RParen) {
                        Ok((p, p2 + 1, st2))
                    } else {
                        Err((position_at(t, p2), "expected ')' after polynomial"@))
                    },
                },
                _ => Err((t[pos].1, "expected integer, variable, or parenthesized polynomial"@)),
            }
        }
        },
{
}

/// Digit values are never negative.
proof fn lemma_digits_value_nonneg(s: Seq<char>, i: int, j: int)
    requires
        forall|k: int| i <= k < j ==> is_digit(s[k]),
        0 <= i,
        j <= s.len(),
    ensures
        digits_value(s, i, j) >= 0,
    decreases j - i,
{
    if j > i {
        lemma_digits_value_nonneg(s, i, j - 1);
    }
}

/// A run of digits ends between its start and the end of the text.
proof fn lemma_digits_end_bounds(s: Seq<char>, i: int)
    requires
        0 <= i <= s.len(),
    ensures
        i <= digits_end(s, i) <= s.len(),
    decreases s.len() - i,
{
    if i < s.len() && is_digit(s[i]) {
        lemma_digits_end_bounds(s, i + 1);
    }
}

/// A run of identifier characters ends between its start and the end of
/// the text.
proof fn lemma_ident_end_bounds(s: Seq<char>, i: int)
    requires
        0 <= i <= s.len(),
    ensures
        i <= ident_end(s, i) <= s.len(),
    decreases s.len() - i,
{
    if i < s.len() && is_ident_char(s[i]) {
        lemma_ident_end_bounds(s, i + 1);
    }
}

/// A token that starts inside the text ends after its start and inside
/// the text.
proof fn lemma_token_end(s: Seq<char>, i: int)
    requires
        0 <= i < s.len(),
    ensures
        token_at(s, i) matches Ok((_, j)) ==> i < j <= s.len(),
{
    lemma_digits_end_bounds(s, i + 1);
    lemma_ident_end_bounds(s, i + 1);
}

/// Lexing from `i`: token positions strictly increase, lie in the text at
/// or after `i`, and sit on characters that are not white space; an error
/// lies in the text and is either a too large integer or an unexpected
/// character, named by its `Debug` text.
pub proof fn law_lex_positions(s: Seq<char>, i: int)
    requires
        0 <= i,
    ensures
        lex_from(s, i) matches Ok(ts) ==> {
            &&& forall|k: int| 0 <= k < ts.len() ==> i <= #[trigger] ts[k].1 < s.len() && !is_blank(s[ts[k].1 as int])
            &&& forall|k: int, l: int| 0 <= k < l < ts.len() ==> #[trigger] ts[k].1 < #[trigger] ts[l].1
        },
        lex_from(s, i) matches Err(e) ==> {
            &&& i <= e.0 < s.len()
            &&& (e.1 == "integer literal is too large"@ || e.1 == "unexpected character "@ + char_debug_text(
                s[e.0 as int],
            ))
        },
    decreases s.len() - i,
{
    if i < s.len() {
        if is_blank(s[i]) {
            law_lex_positions(s, i + 1);
        } else {
            lemma_token_end(s, i);
            match token_at(s, i) {
                Err(e) => {},
                Ok((kind, j)) => {
                    law_lex_positions(s, j);
                    match lex_from(s, j) {
                        Err(e) => {},
                        Ok(rest) => {
                            let ts = seq![(kind, i as nat)] + rest;
                            assert(lex_from(s, i) == Ok::<Seq<TokenView>, ErrorView>(ts));
                            assert forall|k: int| 0 <= k < ts.len() implies i <= #[trigger] ts[k].1 < s.len()
                                && !is_blank(s[ts[k].1 as int]) by {
                                if k > 0 {
                                    assert(ts[k] == rest[k - 1]);
                                }
                            }
                            assert forall|k: int, l: int| 0 <= k < l < ts.len() implies #[trigger] ts[k].1
                                < #[trigger] ts[l].1 by {
                                assert(ts[l] == rest[l - 1]);
                                if k > 0 {
                                    assert(ts[k] == rest[k - 1]);
                                }
                            }
                        },
                    }
                },
            }
        }
    }
}


/// Runs and values read the same in a text and in it followed by one more
/// character that is neither a digit nor an identifier character.
proof fn lemma_push_runs(s: Seq<char>, c: char, i: int)
    requires
        0 <= i <= s.len(),
        !is_digit(c),
        !is_ident_char(c),
    ensures
        digits_end(s.push(c), i) == digits_end(s, i),
        ident_end(s.push(c), i) == ident_end(s, i),
    decreases s.len() - i,
{
    if i < s.len() {
        assert(s.push(c)[i] == s[i]);
        lemma_push_runs(s, c, i + 1);
    } else {
        assert(s.push(c)[i] == c);
    }
}

/// Digit values read the same in a text and in it followed by one more
/// character.
proof fn lemma_push_digits_value(s: Seq<char>, c: char, i: int, j: int)
    requires
        0 <= i,
        j <= s.len(),
    ensures
        digits_value(s.push(c), i, j) == digits_value(s, i, j),
    decreases j - i,
{
    if j > i {
        lemma_push_digits_value(s, c, i, j - 1);
        assert(s.push(c)[j - 1] == s[j - 1]);
    }
}

/// The token at `i` reads the same in a text followed by a white-space
/// character.
proof fn lemma_push_token(s: Seq<char>, c: char, i: int)
    requires
        0 <= i < s.len(),
        c == ' ' || c == '\t' || c == '\n' || c == '\r' || c == '\x0C',
    ensures
        token_at(s.push(c), i) == token_at(s, i),
{
    let t = s.push(c);
    assert(t[i] == s[i]);
    lemma_push_runs(s, c, i);
    lemma_push_runs(s, c, i + 1);
    lemma_digits_end_bounds(s, i);
    lemma_ident_end_bounds(s, i + 1);
    lemma_push_digits_value(s, c, i, digits_end(s, i));
    let j = ident_end(s, i + 1);
    assert(t.subrange(i, j) =~= s.subrange(i, j));
    if i + 1 < s.len() {
        assert(t[i + 1] == s[i + 1]);
    } else {
        assert(t[i + 1] == c);
    }
}

/// Lexing from `i` reads the same in a text followed by a white-space
/// character.
proof fn lemma_push_lex(s: Seq<char>, c: char, i: int)
    requires
        0 <= i <= s.len(),
        c == ' ' || c == '\t' || c == '\n' || c == '\r' || c == '\x0C',
    ensures
        lex_from(s.push(c), i) == lex_from(s, i),
    decreases s.len() - i,
{
    let t = s.push(c);
    if i == s.len() {
        assert(t[i] == c);
        assert(is_blank(c));
        assert(lex_from(t, i + 1) == Ok::<Seq<TokenView>, ErrorView>(Seq::<TokenView>::empty()));
    } else {
        assert(t[i] == s[i]);
        if is_blank(s[i]) {
            lemma_push_lex(s, c, i + 1);
        } else {
            lemma_push_token(s, c, i);
            lemma_token_end(s, i);
            if let Ok((kind, j)) = token_at(s, i) {
                lemma_push_lex(s, c, j);
            }
        }
    }
}

/// White space is ignored at the end of a text: a text followed by a space,
/// tab, line feed, carriage return or form feed lexes to exactly the tokens,
/// or the error, of the text alone.
pub proof fn law_trailing_space(s: Seq<char>, c: char)
    requires
        c == ' ' || c == '\t' || c == '\n' || c == '\r' || c == '\x0C',
    ensures
        lex(s.push(c)) == lex(s),
{
    lemma_push_lex(s, c, 0);
}


/// No name is listed twice.
pub open spec fn names_distinct(bs: Seq<(Seq<char>, usize)>) -> bool {
    forall|i: int, j: int| 0 <= i < j < bs.len() ==> bs[i].0 != bs[j].0
}

/// A name absent from the list is not found in it.
proof fn lemma_lookup_none(bs: Seq<(Seq<char>, usize)>, name: Seq<char>)
    ensures
        lookup(bs, name) is None <==> forall|i: int| 0 <= i < bs.len() ==> bs[i].0 != name,
    decreases bs.len(),
{
    if bs.len() > 0 {
        lemma_lookup_none(bs.drop_last(), name);
        assert forall|i: int| 0 <= i < bs.len() - 1 implies bs.drop_last()[i] == bs[i] by {}
    }
}

/// In named mode a name means one variable: resolving it again, in the
/// state its first resolution leaves and under the same binders, gives the
/// same variable and leaves the state as it is; and the free names stay
/// distinct, each recorded once.
pub proof fn law_resolve_stable(st: ParseState, name: Seq<char>)
    ensures
        resolve(resolve(st, name).1, name) == resolve(st, name),
        resolve(st, name).1.scopes == st.scopes,
        names_distinct(st.free) ==> names_distinct(resolve(st, name).1.free),
        lookup(st.scopes, name) is None ==> lookup(resolve(st, name).1.free, name) == Some(
            resolve(st, name).0,
        ),
{
    let (v, st2) = resolve(st, name);
    match lookup(st.scopes, name) {
        Some(_) => {},
        None => match lookup(st.free, name) {
            Some(_) => {},
            None => {
                let f2 = st.free.push((name, st.next));
                assert(f2.drop_last() =~= st.free);
                assert(lookup(f2, name) == Some(st.next));
                lemma_lookup_none(st.free, name);
                if names_distinct(st.free) {
                    assert forall|i: int, j: int| 0 <= i < j < f2.len() implies f2[i].0 != f2[j].0 by {
                        if j == f2.len() - 1 {
                            assert(f2[i] == st.free[i]);
                        } else {
                            assert(f2[i] == st.free[i] && f2[j] == st.free[j]);
                        }
                    }
                }
            },
        },
    }
}

} // verus!
