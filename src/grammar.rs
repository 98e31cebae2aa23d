pub use crate::alphabet::Token;
use crate::condition::{Condition, Conditional, ConditionalValue};
use crate::lsystem::LSystemBuilder;
use crate::module::{lemma_word_push, word_of, Axiom, Module, State, Word};
use crate::operator::Operator;
use crate::rules::Rule;
use crate::value::{Value, SCALE};
use vstd::prelude::*;
use vstd::string::*;

verus! {

/// What the parser looked for where it failed.
#[derive(Debug, Clone, Copy, PartialEq, Eq, Structural)]
pub enum Expected {
    /// A symbol of the notation.
    Symbol,
    /// A number or a variable.
    Value,
    /// A number.
    Number,
    /// An arithmetic operator.
    Operator,
    /// A relation of a guard.
    Relation,
    /// `(` opening a parameter list.
    OpenParen,
    /// `,` or `)` inside a parameter list.
    CloseParen,
    /// `:` opening a guard or a weight.
    Colon,
    /// `->` between a rule's pattern and its replacement.
    Arrow,
    /// The end of the input.
    End,
}

/// The kinds of input that would have been accepted where parsing failed.
#[derive(Debug, Clone, Copy, PartialEq, Eq, Structural)]
pub struct ExpectedSet {
    pub symbol: bool,
    pub value: bool,
    pub number: bool,
    pub operator: bool,
    pub relation: bool,
    pub open_paren: bool,
    pub close_paren: bool,
    pub colon: bool,
    pub arrow: bool,
    pub end: bool,
}

/// Whether the set holds the kind `k`.
pub open spec fn has(set: ExpectedSet, k: Expected) -> bool {
    match k {
        Expected::Symbol => set.symbol,
        Expected::Value => set.value,
        Expected::Number => set.number,
        Expected::Operator => set.operator,
        Expected::Relation => set.relation,
        Expected::OpenParen => set.open_paren,
        Expected::CloseParen => set.close_paren,
        Expected::Colon => set.colon,
        Expected::Arrow => set.arrow,
        Expected::End => set.end,
    }
}

/// The set that holds `k` alone.
pub open spec fn one(k: Expected) -> ExpectedSet {
    ExpectedSet {
        symbol: k == Expected::Symbol,
        value: k == Expected::Value,
        number: k == Expected::Number,
        operator: k == Expected::Operator,
        relation: k == Expected::Relation,
        open_paren: k == Expected::OpenParen,
        close_paren: k == Expected::CloseParen,
        colon: k == Expected::Colon,
        arrow: k == Expected::Arrow,
        end: k == Expected::End,
    }
}

/// What may follow a word: another symbol, the end, and a parameter list
/// where the last module has none.
pub open spec fn after_word(w: Word<Token>) -> ExpectedSet {
    ExpectedSet {
        open_paren: w.len() > 0 && w.last().1.len() == 0,
        symbol: true,
        end: true,
        ..one(Expected::End)
    }
}

/// What may stand where a rule's arrow is looked for: the arrow, and `:`
/// of a guard or weight where no weight was read yet.
pub open spec fn before_arrow(weighted: bool) -> ExpectedSet {
    ExpectedSet { colon: !weighted, ..one(Expected::Arrow) }
}

impl ExpectedSet {
    /// The set that holds `k` alone.
    pub fn one(k: Expected) -> (r: ExpectedSet)
        ensures
            r == one(k),
    {
        ExpectedSet {
            symbol: k == Expected::Symbol,
            value: k == Expected::Value,
            number: k == Expected::Number,
            operator: k == Expected::Operator,
            relation: k == Expected::Relation,
            open_paren: k == Expected::OpenParen,
            close_paren: k == Expected::CloseParen,
            colon: k == Expected::Colon,
            arrow: k == Expected::Arrow,
            end: k == Expected::End,
        }
    }

    /// Whether the set holds the kind `k`.
    pub fn contains(&self, k: Expected) -> (r: bool)
        ensures
            r == has(*self, k),
    {
        match k {
            Expected::Symbol => self.symbol,
            Expected::Value => self.value,
            Expected::Number => self.number,
            Expected::Operator => self.operator,
            Expected::Relation => self.relation,
            Expected::OpenParen => self.open_paren,
            Expected::CloseParen => self.close_paren,
            Expected::Colon => self.colon,
            Expected::Arrow => self.arrow,
            Expected::End => self.end,
        }
    }
}

/// A failure to parse: where, and what would have been accepted there.
#[derive(Debug, Clone, Copy, PartialEq, Eq, Structural)]
pub struct ParseError {
    /// The offset, in characters, of the input that was refused.
    pub position: usize,
    pub expected: ExpectedSet,
}

/// The spec form of a parse outcome: a value and the position after it.
pub type Parsed<T> = Result<(T, int), ParseError>;

pub open spec fn fail<T>(p: int, expected: Expected) -> Parsed<T> {
    Err(ParseError { position: p as usize, expected: one(expected) })
}

/// An executable parse outcome seen with an integer position.
pub open spec fn lift<T>(r: Result<(T, usize), ParseError>) -> Parsed<T> {
    match r {
        Ok((v, e)) => Ok((v, e as int)),
        Err(x) => Err(x),
    }
}

pub open spec fn is_space(c: char) -> bool {
    c == ' ' || c == '\t'
}

pub open spec fn is_digit(c: char) -> bool {
    '0' <= c <= '9'
}

pub open spec fn is_letter(c: char) -> bool {
    ('a' <= c <= 'z') || ('A' <= c <= 'Z')
}

pub open spec fn digit_of(c: char) -> int {
    c as int - '0' as int
}

/// The first position at or after `p` that holds no blank.
pub open spec fn skip_ws(s: Seq<char>, p: int) -> int
    decreases s.len() - p,
{
    if 0 <= p < s.len() && is_space(s[p]) {
        skip_ws(s, p + 1)
    } else {
        p
    }
}

/// The first position at or after `p` that holds no digit.
pub open spec fn digits_end(s: Seq<char>, p: int) -> int
    decreases s.len() - p,
{
    if 0 <= p < s.len() && is_digit(s[p]) {
        digits_end(s, p + 1)
    } else {
        p
    }
}

/// The decimal number written by the digits `s[a..b]`.
pub open spec fn digits_value(s: Seq<char>, a: int, b: int) -> int
    decreases b - a,
{
    if b <= a {
        0
    } else {
        digits_value(s, a, b - 1) * 10 + digit_of(s[b - 1])
    }
}

pub open spec fn pow10(n: nat) -> int
    decreases n,
{
    if n == 0 {
        1
    } else {
        10 * pow10((n - 1) as nat)
    }
}

/// The fraction digits `s[a..b]` in millionths; digits past the sixth are
/// dropped.
pub open spec fn frac_value(s: Seq<char>, a: int, b: int) -> int {
    let e = if b - a > 6 {
        a + 6
    } else {
        b
    };
    digits_value(s, a, e) * pow10((6 - (e - a)) as nat)
}

/// The symbol that a character writes, if any.
pub open spec fn token_of(c: char) -> Option<Token> {
    if c == 'F' {
        Some(Token::F)
    } else if c == '+' {
        Some(Token::Left)
    } else if c == '-' {
        Some(Token::Right)
    } else if c == '&' {
        Some(Token::Up)
    } else if c == '^' {
        Some(Token::Down)
    } else if c == '[' {
        Some(Token::Push)
    } else if c == ']' {
        Some(Token::Pop)
    } else if c == '$' {
        Some(Token::Rotate)
    } else if c == '{' {
        Some(Token::StartPolygon)
    } else if c == '}' {
        Some(Token::EndPolygon)
    } else if c == '.' {
        Some(Token::PolygonVertex)
    } else if c == '\\' {
        Some(Token::CounterRoll)
    } else if c == '/' {
        Some(Token::Roll)
    } else if is_letter(c) {
        Some(Token::External(c))
    } else {
        None
    }
}

/// The operator that a character writes, if any.
pub open spec fn operator_of(c: char) -> Option<Operator> {
    if c == '+' {
        Some(Operator::Add)
    } else if c == '-' {
        Some(Operator::Sub)
    } else if c == '*' {
        Some(Operator::Mul)
    } else if c == '/' {
        Some(Operator::Div)
    } else if c == '^' {
        Some(Operator::Exponent)
    } else {
        None
    }
}

/// The relation that a character writes, if any.
pub open spec fn relation_of(c: char) -> Option<Conditional> {
    if c == '=' {
        Some(Conditional::EqualTo)
    } else if c == '>' {
        Some(Conditional::GreaterThan)
    } else if c == '<' {
        Some(Conditional::LessThan)
    } else if c == '&' {
        Some(Conditional::And)
    } else if c == '|' {
        Some(Conditional::Or)
    } else {
        None
    }
}

/// Blanks, then one character that `f` reads, or the failure `expected`.
pub open spec fn char_at<T>(s: Seq<char>, p: int, f: spec_fn(char) -> Option<T>, expected: Expected) -> Parsed<T> {
    let q = skip_ws(s, p);
    if q < s.len() && f(s[q]) is Some {
        Ok((f(s[q])->Some_0, q + 1))
    } else {
        fail(q, expected)
    }
}

/// One character at `p` that `f` reads, or the failure `expected`.
pub open spec fn char_here<T>(s: Seq<char>, p: int, f: spec_fn(char) -> Option<T>, expected: Expected) -> Parsed<T> {
    if 0 <= p < s.len() && f(s[p]) is Some {
        Ok((f(s[p])->Some_0, p + 1))
    } else {
        fail(p, expected)
    }
}

/// Blanks, then the character `c`; the position after it.
pub open spec fn punct_at(s: Seq<char>, p: int, c: char, expected: Expected) -> Parsed<()> {
    let q = skip_ws(s, p);
    if q < s.len() && s[q] == c {
        Ok(((), q + 1))
    } else {
        fail(q, expected)
    }
}

pub open spec fn token_at(s: Seq<char>, p: int) -> Parsed<Token> {
    char_at(s, p, |c: char| token_of(c), Expected::Symbol)
}

pub open spec fn operator_at(s: Seq<char>, p: int) -> Parsed<Operator> {
    char_here(s, p, |c: char| operator_of(c), Expected::Operator)
}

pub open spec fn relation_at(s: Seq<char>, p: int) -> Parsed<Conditional> {
    char_here(s, p, |c: char| relation_of(c), Expected::Relation)
}

/// Whether a point at `d1` belongs to the number whose integer digits are
/// `s[d0..d1]`: it does after at least one digit, and else where a digit
/// follows it.
pub open spec fn dotted_at(s: Seq<char>, d0: int, d1: int) -> bool {
    &&& d1 < s.len()
    &&& s[d1] == '.'
    &&& (d0 < d1 || (d1 + 1 < s.len() && is_digit(s[d1 + 1])))
}

/// A number: blanks, an optional sign, digits, and optionally a point with
/// more digits, such as `12`, `-2.5`, `5.` or `.5`; in millionths, and
/// within the range of `i64`.
pub open spec fn number_at(s: Seq<char>, p: int) -> Parsed<i64> {
    let q = skip_ws(s, p);
    let signed = q < s.len() && (s[q] == '-' || s[q] == '+');
    let d0 = if signed {
        q + 1
    } else {
        q
    };
    let d1 = digits_end(s, d0);
    let dotted = dotted_at(s, d0, d1);
    let f1 = if dotted {
        digits_end(s, d1 + 1)
    } else {
        d1
    };
    let mag = digits_value(s, d0, d1) * SCALE + if dotted {
        frac_value(s, d1 + 1, f1)
    } else {
        0
    };
    if (d1 == d0 && !dotted) || mag > i64::MAX {
        fail(q, Expected::Number)
    } else if signed && s[q] == '-' {
        Ok(((-mag) as i64, f1))
    } else {
        Ok((mag as i64, f1))
    }
}

/// A literal: a number, else a one-letter variable.
pub open spec fn lit_at(s: Seq<char>, p: int) -> Parsed<Value> {
    match number_at(s, p) {
        Ok((n, e)) => Ok((Value::Num(n), e)),
        Err(_) => {
            let q = skip_ws(s, p);
            if q < s.len() && is_letter(s[q]) {
                Ok((Value::Var(s[q]), q + 1))
            } else {
                fail(q, Expected::Value)
            }
        },
    }
}

/// Two literals joined by an operator.
pub open spec fn expr_at(s: Seq<char>, p: int) -> Parsed<Value> {
    match lit_at(s, p) {
        Err(x) => Err(x),
        Ok((a, e1)) => match operator_at(s, skip_ws(s, e1)) {
            Err(x) => Err(x),
            Ok((op, e2)) => match lit_at(s, e2) {
                Err(x) => Err(x),
                Ok((b, e3)) => Ok((Value::Expr(Box::new(a), op, Box::new(b)), e3)),
            },
        },
    }
}

/// An expression, else a literal.
pub open spec fn value_at(s: Seq<char>, p: int) -> Parsed<Value> {
    match expr_at(s, p) {
        Ok(r) => Ok(r),
        Err(_) => lit_at(s, p),
    }
}

/// The rest of a parameter list after a value: `)`, or `,` and a value
/// and the rest.
pub open spec fn params_tail(s: Seq<char>, p: int) -> Parsed<Seq<Value>>
    decreases s.len() - p,
{
    let q = skip_ws(s, p);
    if q < s.len() && s[q] == ')' {
        Ok((Seq::empty(), q + 1))
    } else if q < s.len() && s[q] == ',' {
        match value_at(s, q + 1) {
            Err(x) => Err(x),
            Ok((v, e)) => if p < e <= s.len() {
                match params_tail(s, e) {
                    Err(x) => Err(x),
                    Ok((vs, e2)) => Ok((seq![v] + vs, e2)),
                }
            } else {
                fail(e, Expected::CloseParen)
            },
        }
    } else {
        fail(q, Expected::CloseParen)
    }
}

/// `(`, values separated by `,`, and `)`.
pub open spec fn params_at(s: Seq<char>, p: int) -> Parsed<Seq<Value>> {
    match punct_at(s, p, '(', Expected::OpenParen) {
        Err(x) => Err(x),
        Ok((_, e0)) => match value_at(s, e0) {
            Err(x) => Err(x),
            Ok((v, e1)) => match params_tail(s, e1) {
                Err(x) => Err(x),
                Ok((vs, e2)) => Ok((seq![v] + vs, e2)),
            },
        },
    }
}

/// A symbol with its parameters if a parameter list follows.
pub open spec fn module_at(s: Seq<char>, p: int) -> Parsed<(Token, Seq<Value>)> {
    match token_at(s, p) {
        Err(x) => Err(x),
        Ok((t, e1)) => match params_at(s, e1) {
            Ok((ps, e2)) => Ok(((t, ps), e2)),
            Err(_) => Ok(((t, Seq::empty()), e1)),
        },
    }
}

/// As many modules as follow `p`, and the position after them.
pub open spec fn modules_from(s: Seq<char>, p: int) -> (Word<Token>, int)
    decreases s.len() - p,
{
    match module_at(s, p) {
        Err(_) => (Seq::empty(), p),
        Ok((m, e)) => if p < e <= s.len() {
            let (ms, e2) = modules_from(s, e);
            (seq![m] + ms, e2)
        } else {
            (Seq::empty(), p)
        },
    }
}

/// One module or more.
pub open spec fn state_at(s: Seq<char>, p: int) -> Parsed<Word<Token>> {
    match module_at(s, p) {
        Err(x) => Err(x),
        Ok(_) => Ok(modules_from(s, p)),
    }
}

/// A guard: `:`, a value, a relation, and a value or a nested guard.
pub open spec fn condition_at(s: Seq<char>, p: int) -> Parsed<Condition>
    decreases s.len() - p,
{
    match punct_at(s, p, ':', Expected::Colon) {
        Err(x) => Err(x),
        Ok((_, e0)) => match value_at(s, e0) {
            Err(x) => Err(x),
            Ok((a, e1)) => match relation_at(s, skip_ws(s, e1)) {
                Err(x) => Err(x),
                Ok((rel, e2)) => match value_at(s, e2) {
                    Ok((b, e3)) => Ok(
                        (
                            Condition {
                                a: ConditionalValue::Value(a),
                                cond: rel,
                                b: ConditionalValue::Value(b),
                            },
                            e3,
                        ),
                    ),
                    Err(_) => if p < e2 <= s.len() {
                        match condition_at(s, e2) {
                            Err(x) => Err(x),
                            Ok((c, e3)) => Ok(
                                (
                                    Condition {
                                        a: ConditionalValue::Value(a),
                                        cond: rel,
                                        b: ConditionalValue::Condition(Box::new(c)),
                                    },
                                    e3,
                                ),
                            ),
                        }
                    } else {
                        fail(e2, Expected::Value)
                    },
                },
            },
        },
    }
}

/// The right side of a guard: a value, else a nested guard.
pub open spec fn condition_value_at(s: Seq<char>, p: int) -> Parsed<ConditionalValue> {
    match value_at(s, p) {
        Ok((v, e)) => Ok((ConditionalValue::Value(v), e)),
        Err(_) => match condition_at(s, p) {
            Err(x) => Err(x),
            Ok((c, e)) => Ok((ConditionalValue::Condition(Box::new(c)), e)),
        },
    }
}

/// A weight: `:` and a number.
pub open spec fn probability_at(s: Seq<char>, p: int) -> Parsed<i64> {
    match punct_at(s, p, ':', Expected::Colon) {
        Err(x) => Err(x),
        Ok((_, e0)) => number_at(s, e0),
    }
}

/// Blanks up to the end of the input, after the word `w`.
pub open spec fn end_at(s: Seq<char>, p: int, w: Word<Token>) -> Result<(), ParseError> {
    if skip_ws(s, p) == s.len() {
        Ok(())
    } else {
        Err(ParseError { position: skip_ws(s, p) as usize, expected: after_word(w) })
    }
}

/// A whole axiom: one module or more, and nothing after them.
pub open spec fn axiom_of(s: Seq<char>) -> Result<Word<Token>, ParseError> {
    match state_at(s, 0) {
        Err(x) => Err(x),
        Ok((w, e)) => match end_at(s, e, w) {
            Err(x) => Err(x),
            Ok(_) => Ok(w),
        },
    }
}

/// A parsed rule: left context, pattern, right context, guard, weight and
/// replacement.
pub type RuleModel = (Option<Token>, (Token, Seq<Value>), Option<Token>, Option<Condition>, i64, Word<Token>);

/// A rule seen as the parts that the notation writes.
pub open spec fn rule_model(r: Rule<Token>) -> RuleModel {
    (r.previous, r.module@, r.next, r.condition, r.probability, r.state@)
}

/// An optional left context at the start: a symbol and `<`.
pub open spec fn prefix_at(s: Seq<char>) -> (Option<Token>, int) {
    match token_at(s, 0) {
        Ok((t, e)) => match punct_at(s, e, '<', Expected::Symbol) {
            Ok((_, e2)) => (Some(t), e2),
            Err(_) => (None, 0),
        },
        Err(_) => (None, 0),
    }
}

/// A right context: a symbol and `>`.
pub open spec fn suffix_at(s: Seq<char>, p: int) -> Parsed<Token> {
    match token_at(s, p) {
        Err(x) => Err(x),
        Ok((t, e)) => match punct_at(s, e, '>', Expected::Symbol) {
            Err(x) => Err(x),
            Ok((_, e2)) => Ok((t, e2)),
        },
    }
}

/// What follows a rule's pattern and context: an optional guard, an
/// optional weight (one by default), `->`, the replacement, and the end.
pub open spec fn rule_tail(s: Seq<char>, p: int) -> Result<(Option<Condition>, i64, Word<Token>), ParseError> {
    let (c, after_guard) = match condition_at(s, p) {
        Ok((c, e)) => (Some(c), e),
        Err(_) => (None, p),
    };
    let (w, after_weight) = match probability_at(s, after_guard) {
        Ok((w, e)) => (w, e),
        Err(_) => (SCALE, after_guard),
    };
    let q = skip_ws(s, after_weight);
    if q + 1 < s.len() && s[q] == '-' && s[q + 1] == '>' {
        match state_at(s, q + 2) {
            Err(x) => Err(x),
            Ok((st, e)) => match end_at(s, e, st) {
                Err(x) => Err(x),
                Ok(_) => Ok((c, w, st)),
            },
        }
    } else {
        Err(
            ParseError {
                position: q as usize,
                expected: before_arrow(probability_at(s, after_guard) is Ok),
            },
        )
    }
}

/// A whole rule: an optional left context, the pattern, an optional right
/// context, and the rest (see `rule_tail`). A right context is taken only
/// where the rest then parses, so that the `-` and `>` of the arrow are not
/// read as one.
pub open spec fn rule_of(s: Seq<char>) -> Result<RuleModel, ParseError> {
    let (pre, at_module) = prefix_at(s);
    match module_at(s, at_module) {
        Err(x) => Err(x),
        Ok((m, after_module)) => {
            let plain = match rule_tail(s, after_module) {
                Err(x) => Err(x),
                Ok((c, w, st)) => Ok((pre, m, None, c, w, st)),
            };
            match suffix_at(s, after_module) {
                Ok((t, at_tail)) => match rule_tail(s, at_tail) {
                    Ok((c, w, st)) => Ok((pre, m, Some(t), c, w, st)),
                    Err(_) => plain,
                },
                Err(_) => plain,
            }
        },
    }
}

proof fn lemma_skip_ws(s: Seq<char>, p: int)
    requires
        0 <= p <= s.len(),
    ensures
        p <= skip_ws(s, p) <= s.len(),
    decreases s.len() - p,
{
    if p < s.len() && is_space(s[p]) {
        lemma_skip_ws(s, p + 1);
    }
}

proof fn lemma_digits_end(s: Seq<char>, p: int)
    requires
        0 <= p <= s.len(),
    ensures
        p <= digits_end(s, p) <= s.len(),
        forall|k: int| p <= k < digits_end(s, p) ==> is_digit(#[trigger] s[k]),
    decreases s.len() - p,
{
    if p < s.len() && is_digit(s[p]) {
        lemma_digits_end(s, p + 1);
    }
}

/// More digits never make a smaller number, and `b - a` digits stay below
/// `10^(b - a)`.
proof fn lemma_digits_value(s: Seq<char>, a: int, b: int)
    requires
        a <= b,
        forall|k: int| a <= k < b ==> is_digit(#[trigger] s[k]),
    ensures
        0 <= digits_value(s, a, b) < pow10((b - a) as nat),
        forall|j: int| a <= j <= b ==> #[trigger] digits_value(s, a, j) <= digits_value(s, a, b),
    decreases b - a,
{
    if b > a {
        lemma_digits_value(s, a, b - 1);
        assert(is_digit(s[b - 1]));
        let d = digits_value(s, a, b - 1);
        assert(pow10((b - a) as nat) == 10 * pow10((b - 1 - a) as nat));
        assert(d * 10 + digit_of(s[b - 1]) < 10 * pow10((b - 1 - a) as nat)) by (nonlinear_arith)
            requires
                0 <= d < pow10((b - 1 - a) as nat),
                0 <= digit_of(s[b - 1]) <= 9,
        ;
        assert(d <= d * 10 + digit_of(s[b - 1])) by (nonlinear_arith)
            requires
                0 <= d,
                0 <= digit_of(s[b - 1]),
        ;
    }
}

proof fn lemma_pow10_pos(n: nat)
    ensures
        pow10(n) >= 1,
    decreases n,
{
    if n > 0 {
        lemma_pow10_pos((n - 1) as nat);
    }
}

/// A successful parse of a value moves forward and stays in the input.
proof fn lemma_value_advances(s: Seq<char>, p: int)
    requires
        0 <= p <= s.len(),
    ensures
        number_at(s, p) matches Ok((_, e)) ==> p < e <= s.len(),
        lit_at(s, p) matches Ok((_, e)) ==> p < e <= s.len(),
        expr_at(s, p) matches Ok((_, e)) ==> p < e <= s.len(),
        value_at(s, p) matches Ok((_, e)) ==> p < e <= s.len(),
{
    lemma_number_advances(s, p);
    lemma_skip_ws(s, p);
    if let Ok((_, e1)) = lit_at(s, p) {
        lemma_skip_ws(s, e1);
        if let Ok((_, e2)) = operator_at(s, skip_ws(s, e1)) {
            lemma_number_advances(s, e2);
            lemma_skip_ws(s, e2);
        }
    }
}

proof fn lemma_number_advances(s: Seq<char>, p: int)
    requires
        0 <= p <= s.len(),
    ensures
        number_at(s, p) matches Ok((_, e)) ==> p < e <= s.len(),
{
    lemma_skip_ws(s, p);
    let q = skip_ws(s, p);
    let d0 = if q < s.len() && (s[q] == '-' || s[q] == '+') {
        q + 1
    } else {
        q
    };
    lemma_digits_end(s, d0);
    let d1 = digits_end(s, d0);
    if d1 < s.len() {
        lemma_digits_end(s, d1 + 1);
    }
}

/// An integer part past `INT_LIMIT` leaves the range of `i64`.
proof fn lemma_number_overflow(s: Seq<char>, d0: int, j: int)
    requires
        0 <= d0 < j <= digits_end(s, d0) <= s.len(),
        forall|k: int| d0 <= k < digits_end(s, d0) ==> is_digit(#[trigger] s[k]),
        digits_value(s, d0, j) > INT_LIMIT,
    ensures
        ({
            let d1 = digits_end(s, d0);
            let dotted = dotted_at(s, d0, d1);
            let f1 = if dotted {
                digits_end(s, d1 + 1)
            } else {
                d1
            };
            digits_value(s, d0, d1) * SCALE + (if dotted {
                frac_value(s, d1 + 1, f1)
            } else {
                0
            }) > i64::MAX
        }),
{
    let d1 = digits_end(s, d0);
    lemma_digits_value(s, d0, d1);
    assert(digits_value(s, d0, j) <= digits_value(s, d0, d1));
    let big = digits_value(s, d0, d1);
    assert(big * SCALE > i64::MAX) by (nonlinear_arith)
        requires
            big > INT_LIMIT,
    ;
    if dotted_at(s, d0, d1) {
        let f0 = d1 + 1;
        lemma_digits_end(s, f0);
        let f1 = digits_end(s, f0);
        let e = if f1 - f0 > 6 {
            f0 + 6
        } else {
            f1
        };
        lemma_digits_value(s, f0, e);
        lemma_pow10_pos((6 - (e - f0)) as nat);
        let a = digits_value(s, f0, e);
        let b = pow10((6 - (e - f0)) as nat);
        assert(a * b >= 0) by (nonlinear_arith)
            requires
                a >= 0,
                b >= 1,
        ;
    }
}

/// The modules parsed from `p` end within the input.
proof fn lemma_modules_in_bounds(s: Seq<char>, p: int)
    requires
        0 <= p <= s.len(),
    ensures
        p <= modules_from(s, p).1 <= s.len(),
    decreases s.len() - p,
{
    if let Ok((_, e)) = module_at(s, p) {
        if p < e <= s.len() {
            lemma_modules_in_bounds(s, e);
        }
    }
}

proof fn lemma_state_in_bounds(s: Seq<char>, p: int)
    requires
        0 <= p <= s.len(),
    ensures
        state_at(s, p) matches Ok((_, e)) ==> p <= e <= s.len(),
{
    lemma_modules_in_bounds(s, p);
}

fn skip_spaces(s: &Vec<char>, p: usize) -> (r: usize)
    requires
        p <= s@.len(),
    ensures
        r == skip_ws(s@, p as int),
        p <= r <= s@.len(),
{
    proof {
        lemma_skip_ws(s@, p as int);
    }
    let mut q = p;
    while q < s.len() && (s[q] == ' ' || s[q] == '\t')
        invariant
            p <= q <= s@.len(),
            skip_ws(s@, p as int) == skip_ws(s@, q as int),
        decreases s@.len() - q,
    {
        q = q + 1;
    }
    q
}

fn symbol_of(c: char) -> (r: Option<Token>)
    ensures
        r == token_of(c),
{
    if c == 'F' {
        Some(Token::F)
    } else if c == '+' {
        Some(Token::Left)
    } else if c == '-' {
        Some(Token::Right)
    } else if c == '&' {
        Some(Token::Up)
    } else if c == '^' {
        Some(Token::Down)
    } else if c == '[' {
        Some(Token::Push)
    } else if c == ']' {
        Some(Token::Pop)
    } else if c == '$' {
        Some(Token::Rotate)
    } else if c == '{' {
        Some(Token::StartPolygon)
    } else if c == '}' {
        Some(Token::EndPolygon)
    } else if c == '.' {
        Some(Token::PolygonVertex)
    } else if c == '\\' {
        Some(Token::CounterRoll)
    } else if c == '/' {
        Some(Token::Roll)
    } else if ('a' <= c && c <= 'z') || ('A' <= c && c <= 'Z') {
        Some(Token::External(c))
    } else {
        None
    }
}

/// Blanks, then a symbol.
pub fn parse_token(s: &Vec<char>, p: usize) -> (r: Result<(Token, usize), ParseError>)
    requires
        p <= s@.len(),
    ensures
        lift(r) == token_at(s@, p as int),
{
    let q = skip_spaces(s, p);
    if q < s.len() {
        match symbol_of(s[q]) {
            Some(t) => return Ok((t, q + 1)),
            None => {},
        }
    }
    Err(ParseError { position: q, expected: ExpectedSet::one(Expected::Symbol) })
}

/// The arithmetic operator at `p`.
pub fn parse_operator(s: &Vec<char>, p: usize) -> (r: Result<(Operator, usize), ParseError>)
    requires
        p <= s@.len(),
    ensures
        lift(r) == operator_at(s@, p as int),
{
    let q = p;
    if q < s.len() {
        let c = s[q];
        let op = if c == '+' {
            Some(Operator::Add)
        } else if c == '-' {
            Some(Operator::Sub)
        } else if c == '*' {
            Some(Operator::Mul)
        } else if c == '/' {
            Some(Operator::Div)
        } else if c == '^' {
            Some(Operator::Exponent)
        } else {
            None
        };
        match op {
            Some(o) => return Ok((o, q + 1)),
            None => {},
        }
    }
    Err(ParseError { position: q, expected: ExpectedSet::one(Expected::Operator) })
}

/// The relation of a guard at `p`.
pub fn parse_conditional(s: &Vec<char>, p: usize) -> (r: Result<(Conditional, usize), ParseError>)
    requires
        p <= s@.len(),
    ensures
        lift(r) == relation_at(s@, p as int),
{
    let q = p;
    if q < s.len() {
        let c = s[q];
        let rel = if c == '=' {
            Some(Conditional::EqualTo)
        } else if c == '>' {
            Some(Conditional::GreaterThan)
        } else if c == '<' {
            Some(Conditional::LessThan)
        } else if c == '&' {
            Some(Conditional::And)
        } else if c == '|' {
            Some(Conditional::Or)
        } else {
            None
        };
        match rel {
            Some(x) => return Ok((x, q + 1)),
            None => {},
        }
    }
    Err(ParseError { position: q, expected: ExpectedSet::one(Expected::Relation) })
}

fn punct(s: &Vec<char>, p: usize, c: char, expected: Expected) -> (r: Result<((), usize), ParseError>)
    requires
        p <= s@.len(),
    ensures
        lift(r) == punct_at(s@, p as int, c, expected),
        r matches Ok((_, e)) ==> p < e <= s@.len(),
{
    let q = skip_spaces(s, p);
    if q < s.len() && s[q] == c {
        Ok(((), q + 1))
    } else {
        Err(ParseError { position: q, expected: ExpectedSet::one(expected) })
    }
}

/// Blanks, then `(`.
pub fn open_paran(s: &Vec<char>, p: usize) -> (r: Result<((), usize), ParseError>)
    requires
        p <= s@.len(),
    ensures
        lift(r) == punct_at(s@, p as int, '(', Expected::OpenParen),
{
    punct(s, p, '(', Expected::OpenParen)
}

/// Blanks, then `)`.
pub fn close_paran(s: &Vec<char>, p: usize) -> (r: Result<((), usize), ParseError>)
    requires
        p <= s@.len(),
    ensures
        lift(r) == punct_at(s@, p as int, ')', Expected::CloseParen),
{
    punct(s, p, ')', Expected::CloseParen)
}

/// Blanks, then `,`.
pub fn comma(s: &Vec<char>, p: usize) -> (r: Result<((), usize), ParseError>)
    requires
        p <= s@.len(),
    ensures
        lift(r) == punct_at(s@, p as int, ',', Expected::CloseParen),
{
    punct(s, p, ',', Expected::CloseParen)
}

fn is_digit_char(c: char) -> (r: bool)
    ensures
        r == is_digit(c),
{
    '0' <= c && c <= '9'
}

/// The largest integer part whose millionths fit in `i64`.
const INT_LIMIT: u128 = 9_223_372_036_854;

/// Blanks, then a number (see `number_at`).
pub fn parse_number(s: &Vec<char>, p: usize) -> (r: Result<(i64, usize), ParseError>)
    requires
        p <= s@.len(),
    ensures
        lift(r) == number_at(s@, p as int),
        r matches Ok((_, e)) ==> p < e <= s@.len(),
{
    proof {
        lemma_number_advances(s@, p as int);
    }
    let ghost v = s@;
    let n = s.len();
    let q = skip_spaces(s, p);
    let signed = q < n && (s[q] == '-' || s[q] == '+');
    let neg = signed && s[q] == '-';
    let d0 = if signed {
        q + 1
    } else {
        q
    };
    proof {
        lemma_digits_end(v, d0 as int);
    }
    let mut j = d0;
    let mut ip: u128 = 0;
    while j < n && is_digit_char(s[j])
        invariant
            q == skip_ws(v, p as int),
            q <= n,
            signed == (q < v.len() && (v[q as int] == '-' || v[q as int] == '+')),
            neg == (signed && v[q as int] == '-'),
            d0 as int == if signed { q + 1 } else { q as int },
            v == s@,
            n == v.len(),
            d0 <= j <= n,
            j <= digits_end(v, d0 as int),
            digits_end(v, d0 as int) == digits_end(v, j as int),
            ip as int == digits_value(v, d0 as int, j as int),
            ip <= INT_LIMIT,
            forall|k: int| d0 <= k < digits_end(v, d0 as int) ==> is_digit(#[trigger] v[k]),
        decreases n - j,
    {
        proof {
            lemma_digits_end(v, j + 1);
        }
        ip = ip * 10 + (s[j] as u128 - '0' as u128);
        j = j + 1;
        assert(ip as int == digits_value(v, d0 as int, j as int));
        if ip > INT_LIMIT {
            proof {
                lemma_number_overflow(v, d0 as int, j as int);
            }
            return Err(ParseError { position: q, expected: ExpectedSet::one(Expected::Number) });
        }
    }
    let d1 = j;
    let dotted = d1 < n && s[d1] == '.' && (d0 < d1 || (d1 < n - 1 && is_digit_char(s[d1 + 1])));
    if d1 == d0 && !dotted {
        return Err(ParseError { position: q, expected: ExpectedSet::one(Expected::Number) });
    }
    assert(pow10(6) == 1_000_000) by {
        reveal_with_fuel(pow10, 7);
    }
    let mut f1 = d1;
    let mut fv: u128 = 0;
    let mut count: usize = 0;
    if dotted {
        let f0 = d1 + 1;
        proof {
            lemma_digits_end(v, f0 as int);
        }
        f1 = f0;
        while f1 < n && is_digit_char(s[f1])
            invariant
                q == skip_ws(v, p as int),
                q <= n,
                signed == (q < v.len() && (v[q as int] == '-' || v[q as int] == '+')),
                neg == (signed && v[q as int] == '-'),
                d0 as int == if signed { q + 1 } else { q as int },
                d1 == digits_end(v, d0 as int),
                d1 >= d0,
                dotted == dotted_at(v, d0 as int, d1 as int),
                dotted,
                ip as int == digits_value(v, d0 as int, d1 as int),
                ip <= INT_LIMIT,
                f0 == d1 + 1,
                v == s@,
                n == v.len(),
                f0 <= f1 <= n,
                f1 <= digits_end(v, f0 as int),
                digits_end(v, f0 as int) == digits_end(v, f1 as int),
                count == if f1 - f0 > 6 { 6 } else { f1 - f0 },
                fv as int == digits_value(v, f0 as int, f0 + count),
                fv < pow10(count as nat),
                pow10(6) == 1_000_000,
                forall|k: int| f0 <= k < digits_end(v, f0 as int) ==> is_digit(#[trigger] v[k]),
            decreases n - f1,
        {
            proof {
                lemma_digits_end(v, f1 + 1);
            }
            if count < 6 {
                proof {
                    lemma_digits_value(v, f0 as int, f0 + count + 1);
                    assert(pow10((count + 1) as nat) == 10 * pow10(count as nat));
                }
                assert(pow10(count as nat) <= 100_000) by {
                    reveal_with_fuel(pow10, 7);
                }
                fv = fv * 10 + (s[f1] as u128 - '0' as u128);
                count = count + 1;
            }
            f1 = f1 + 1;
        }
    }
    proof {
        lemma_pow10_pos(count as nat);
    }
    let mut scale: u128 = 1;
    let mut k: usize = count;
    while k < 6
        invariant
            count <= k <= 6,
            scale as int == pow10((k - count) as nat),
            scale <= pow10(k as nat),
            fv < pow10(count as nat),
            fv * scale < pow10(k as nat),
        decreases 6 - k,
    {
        assert(pow10((k + 1 - count) as nat) == 10 * pow10((k - count) as nat));
        assert(pow10(k as nat) <= 100_000) by {
            reveal_with_fuel(pow10, 7);
        }
        assert(pow10((k + 1) as nat) == 10 * pow10(k as nat));
        assert(fv * (scale * 10) < pow10((k + 1) as nat)) by (nonlinear_arith)
            requires
                fv * scale < pow10(k as nat),
                pow10((k + 1) as nat) == 10 * pow10(k as nat),
        ;
        scale = scale * 10;
        k = k + 1;
    }
    let frac: u128 = fv * scale;
    let mag: u128 = ip * 1_000_000 + frac;
    if mag > i64::MAX as u128 {
        return Err(ParseError { position: q, expected: ExpectedSet::one(Expected::Number) });
    }
    let m = mag as i64;
    if neg {
        Ok((-m, f1))
    } else {
        Ok((m, f1))
    }
}

/// A literal: a number, else a one-letter variable.
pub fn parse_lit_value(s: &Vec<char>, p: usize) -> (r: Result<(Value, usize), ParseError>)
    requires
        p <= s@.len(),
    ensures
        lift(r) == lit_at(s@, p as int),
{
    match parse_number(s, p) {
        Ok((n, e)) => Ok((Value::Num(n), e)),
        Err(_) => {
            let q = skip_spaces(s, p);
            if q < s.len() && (('a' <= s[q] && s[q] <= 'z') || ('A' <= s[q] && s[q] <= 'Z')) {
                Ok((Value::Var(s[q]), q + 1))
            } else {
                Err(ParseError { position: q, expected: ExpectedSet::one(Expected::Value) })
            }
        },
    }
}

/// Two literals joined by an operator.
pub fn parse_expr(s: &Vec<char>, p: usize) -> (r: Result<(Value, usize), ParseError>)
    requires
        p <= s@.len(),
    ensures
        lift(r) == expr_at(s@, p as int),
{
    proof {
        lemma_value_advances(s@, p as int);
    }
    let (a, e1) = match parse_lit_value(s, p) {
        Ok(x) => x,
        Err(x) => return Err(x),
    };
    let (op, e2) = match parse_operator(s, skip_spaces(s, e1)) {
        Ok(x) => x,
        Err(x) => return Err(x),
    };
    proof {
        lemma_skip_ws(s@, e1 as int);
    }
    let (b, e3) = match parse_lit_value(s, e2) {
        Ok(x) => x,
        Err(x) => return Err(x),
    };
    Ok((Value::Expr(Box::new(a), op, Box::new(b)), e3))
}

/// An expression, else a literal.
pub fn parse_value(s: &Vec<char>, p: usize) -> (r: Result<(Value, usize), ParseError>)
    requires
        p <= s@.len(),
    ensures
        lift(r) == value_at(s@, p as int),
        r matches Ok((_, e)) ==> p < e <= s@.len(),
{
    proof {
        lemma_value_advances(s@, p as int);
    }
    match parse_expr(s, p) {
        Ok(x) => Ok(x),
        Err(_) => parse_lit_value(s, p),
    }
}

/// `(`, values separated by `,`, and `)`.
pub fn parse_parameters(s: &Vec<char>, p: usize) -> (r: Result<(Vec<Value>, usize), ParseError>)
    requires
        p <= s@.len(),
    ensures
        match r {
            Ok((vs, e)) => params_at(s@, p as int) == Ok::<(Seq<Value>, int), ParseError>(
                (vs@, e as int),
            ) && p < e <= s@.len(),
            Err(x) => params_at(s@, p as int) == Err::<(Seq<Value>, int), ParseError>(x),
        },
{
    let (_, e0) = match open_paran(s, p) {
        Ok(x) => x,
        Err(x) => return Err(x),
    };
    proof {
        lemma_skip_ws(s@, p as int);
    }
    let (v, e1) = match parse_value(s, e0) {
        Ok(x) => x,
        Err(x) => return Err(x),
    };
    let mut out: Vec<Value> = Vec::new();
    out.push(v);
    let mut pos = e1;
    // Each round reads `,` and a value, until `)`.
    loop
        invariant
            p < pos <= s@.len(),
            match params_tail(s@, e1 as int) {
                Ok((vs, e)) => params_tail(s@, pos as int) matches Ok((ws, e2)) && e2 == e && vs
                    == out@.drop_first() + ws,
                Err(x) => params_tail(s@, pos as int) == Err::<(Seq<Value>, int), ParseError>(
                    x,
                ),
            },
            out@.len() >= 1,
            out@[0] == v,
            value_at(s@, e0 as int) == Ok::<(Value, int), ParseError>((v, e1 as int)),
            punct_at(s@, p as int, '(', Expected::OpenParen) == Ok::<((), int), ParseError>(
                ((), e0 as int),
            ),
        decreases s@.len() - pos,
    {
        let q = skip_spaces(s, pos);
        if q < s.len() && s[q] == ')' {
            assert(out@ =~= seq![v] + out@.drop_first());
            return Ok((out, q + 1));
        }
        if q < s.len() && s[q] == ',' {
            match parse_value(s, q + 1) {
                Ok((w, e)) => {
                    assert(out@.push(w).drop_first() =~= out@.drop_first().push(w));
                    assert(params_tail(s@, pos as int) == match params_tail(s@, e as int) {
                        Err(x) => Err(x),
                        Ok((vs, e2)) => Ok((seq![w] + vs, e2)),
                    });
                    proof {
                        if let Ok((ws, _)) = params_tail(s@, e as int) {
                            assert(out@.drop_first() + (seq![w] + ws) =~= out@.push(w).drop_first()
                                + ws);
                        }
                    }
                    out.push(w);
                    pos = e;
                },
                Err(x) => return Err(x),
            }
        } else {
            return Err(ParseError { position: q, expected: ExpectedSet::one(Expected::CloseParen) });
        }
    }
}

/// A symbol with its parameters if a parameter list follows.
pub fn parse_module(s: &Vec<char>, p: usize) -> (r: Result<(Module<Token>, usize), ParseError>)
    requires
        p <= s@.len(),
    ensures
        match r {
            Ok((m, e)) => module_at(s@, p as int) == Ok::<((Token, Seq<Value>), int), ParseError>(
                (m@, e as int),
            ) && p < e <= s@.len(),
            Err(x) => module_at(s@, p as int) == Err::<((Token, Seq<Value>), int), ParseError>(x),
        },
{
    proof {
        lemma_skip_ws(s@, p as int);
    }
    let (t, e1) = match parse_token(s, p) {
        Ok(x) => x,
        Err(x) => return Err(x),
    };
    match parse_parameters(s, e1) {
        Ok((ps, e2)) => Ok((Module { token: t, params: ps }, e2)),
        Err(_) => Ok((Module::new(t), e1)),
    }
}

/// One module or more.
pub fn parse_state(s: &Vec<char>, p: usize) -> (r: Result<(State<Token>, usize), ParseError>)
    requires
        p <= s@.len(),
    ensures
        match r {
            Ok((st, e)) => state_at(s@, p as int) == Ok::<(Word<Token>, int), ParseError>(
                (st@, e as int),
            ),
            Err(x) => state_at(s@, p as int) == Err::<(Word<Token>, int), ParseError>(x),
        },
{
    let mut out: Vec<Module<Token>> = Vec::new();
    let mut pos = p;
    let mut first = true;
    loop
        invariant
            p <= pos <= s@.len(),
            modules_from(s@, p as int) == (
                word_of(out@) + modules_from(s@, pos as int).0,
                modules_from(s@, pos as int).1,
            ),
            first ==> pos == p && out@.len() == 0,
            !first ==> module_at(s@, p as int) is Ok,
        decreases s@.len() - pos,
    {
        match parse_module(s, pos) {
            Ok((m, e)) => {
                proof {
                    lemma_word_push(out@, m);
                    assert(word_of(out@) + modules_from(s@, pos as int).0 =~= word_of(out@.push(m))
                        + modules_from(s@, e as int).0);
                }
                out.push(m);
                pos = e;
                first = false;
            },
            Err(x) => {
                if first {
                    return Err(x);
                }
                assert(word_of(out@) + Seq::<(Token, Seq<Value>)>::empty() =~= word_of(out@));
                return Ok((State { modules: out }, pos));
            },
        }
    }
}

/// The right side of a guard: a value, else a nested guard.
pub fn parse_condition_value(s: &Vec<char>, p: usize) -> (r: Result<
    (ConditionalValue, usize),
    ParseError,
>)
    requires
        p <= s@.len(),
    ensures
        lift(r) == condition_value_at(s@, p as int),
        r matches Ok((_, e)) ==> p < e <= s@.len(),
    decreases s@.len() - p, 1int,
{
    match parse_value(s, p) {
        Ok((v, e)) => Ok((ConditionalValue::Value(v), e)),
        Err(_) => match parse_condition(s, p) {
            Ok((c, e)) => Ok((ConditionalValue::Condition(Box::new(c)), e)),
            Err(x) => Err(x),
        },
    }
}

/// A guard: `:`, a value, a relation, and a value or a nested guard.
pub fn parse_condition(s: &Vec<char>, p: usize) -> (r: Result<(Condition, usize), ParseError>)
    requires
        p <= s@.len(),
    ensures
        lift(r) == condition_at(s@, p as int),
        r matches Ok((_, e)) ==> p < e <= s@.len(),
    decreases s@.len() - p, 0int,
{
    let (_, e0) = match punct(s, p, ':', Expected::Colon) {
        Ok(x) => x,
        Err(x) => return Err(x),
    };
    let (a, e1) = match parse_value(s, e0) {
        Ok(x) => x,
        Err(x) => return Err(x),
    };
    proof {
        lemma_skip_ws(s@, e1 as int);
    }
    let (rel, e2) = match parse_conditional(s, skip_spaces(s, e1)) {
        Ok(x) => x,
        Err(x) => return Err(x),
    };
    proof {
        lemma_value_advances(s@, e2 as int);
    }
    match parse_condition_value(s, e2) {
        Ok((b, e3)) => Ok((Condition { a: ConditionalValue::Value(a), cond: rel, b }, e3)),
        Err(x) => Err(x),
    }
}

/// A weight: `:` and a number.
pub fn parse_probability(s: &Vec<char>, p: usize) -> (r: Result<(i64, usize), ParseError>)
    requires
        p <= s@.len(),
    ensures
        lift(r) == probability_at(s@, p as int),
        r matches Ok((_, e)) ==> p < e <= s@.len(),
{
    let (_, e0) = match punct(s, p, ':', Expected::Colon) {
        Ok(x) => x,
        Err(x) => return Err(x),
    };
    parse_number(s, e0)
}

/// An optional left context at the start: a symbol and `<`.
pub fn parse_prefix(s: &Vec<char>) -> (r: (Option<Token>, usize))
    ensures
        (r.0, r.1 as int) == prefix_at(s@),
        r.1 <= s@.len(),
{
    match parse_token(s, 0) {
        Ok((t, e)) => {
            proof {
                lemma_skip_ws(s@, 0);
            }
            match punct(s, e, '<', Expected::Symbol) {
                Ok((_, e2)) => (Some(t), e2),
                Err(_) => (None, 0),
            }
        },
        Err(_) => (None, 0),
    }
}

/// A right context: a symbol and `>`.
pub fn parse_suffix(s: &Vec<char>, p: usize) -> (r: Result<(Token, usize), ParseError>)
    requires
        p <= s@.len(),
    ensures
        lift(r) == suffix_at(s@, p as int),
        r matches Ok((_, e)) ==> p < e <= s@.len(),
{
    proof {
        lemma_skip_ws(s@, p as int);
    }
    let (t, e) = match parse_token(s, p) {
        Ok(x) => x,
        Err(x) => return Err(x),
    };
    match punct(s, e, '>', Expected::Symbol) {
        Ok((_, e2)) => Ok((t, e2)),
        Err(x) => Err(x),
    }
}

/// Blanks up to the end of the input, after the word `w`.
fn parse_end(s: &Vec<char>, p: usize, w: &State<Token>) -> (r: Result<(), ParseError>)
    requires
        p <= s@.len(),
    ensures
        r == end_at(s@, p as int, w@),
{
    let q = skip_spaces(s, p);
    if q == s.len() {
        Ok(())
    } else {
        let n = w.modules.len();
        let bare = n > 0 && w.modules[n - 1].params.len() == 0;
        let expected = ExpectedSet {
            open_paren: bare,
            symbol: true,
            end: true,
            ..ExpectedSet::one(Expected::End)
        };
        Err(ParseError { position: q, expected })
    }
}

/// What follows a rule's pattern and context (see `rule_tail`).
fn parse_rule_tail(s: &Vec<char>, p: usize) -> (r: Result<(Option<Condition>, i64, State<Token>), ParseError>)
    requires
        p <= s@.len(),
    ensures
        match r {
            Ok((c, w, st)) => rule_tail(s@, p as int) == Ok::<
                (Option<Condition>, i64, Word<Token>),
                ParseError,
            >((c, w, st@)),
            Err(x) => rule_tail(s@, p as int) == Err::<(Option<Condition>, i64, Word<Token>), ParseError>(
                x,
            ),
        },
{
    let (c, after_guard) = match parse_condition(s, p) {
        Ok((c, e)) => (Some(c), e),
        Err(_) => (None, p),
    };
    let (w, after_weight, weighted) = match parse_probability(s, after_guard) {
        Ok((w, e)) => (w, e, true),
        Err(_) => (SCALE, after_guard, false),
    };
    let q = skip_spaces(s, after_weight);
    if s.len() > 0 && q < s.len() - 1 && s[q] == '-' && s[q + 1] == '>' {
        let (st, e) = match parse_state(s, q + 2) {
            Ok(x) => x,
            Err(x) => return Err(x),
        };
        proof {
            if let Ok((_, e1)) = state_at(s@, q + 2) {
                lemma_state_in_bounds(s@, q + 2);
            }
        }
        match parse_end(s, e, &st) {
            Ok(()) => Ok((c, w, st)),
            Err(x) => Err(x),
        }
    } else {
        Err(ParseError { position: q, expected: ExpectedSet { colon: !weighted, ..ExpectedSet::one(Expected::Arrow) } })
    }
}

/// The characters of `input`, in order.
pub fn chars_of(input: &str) -> (r: Vec<char>)
    ensures
        r@ == input@,
{
    let n = input.unicode_len();
    let mut out: Vec<char> = Vec::new();
    for i in 0..n
        invariant
            n == input@.len(),
            out@ == input@.take(i as int),
    {
        out.push(input.get_char(i));
        assert(out@ =~= input@.take(i + 1));
    }
    assert(input@.take(n as int) =~= input@);
    out
}

/// A whole rule, such as `B(i) : i > 0 -> F(1,1) B(i-1)`.
pub fn parse_rule(input: &str) -> (r: Result<Rule<Token>, ParseError>)
    ensures
        match r {
            Ok(rule) => rule_of(input@) == Ok::<RuleModel, ParseError>(rule_model(rule)),
            Err(x) => rule_of(input@) == Err::<RuleModel, ParseError>(x),
        },
{
    let s = chars_of(input);
    let (previous, at_module) = parse_prefix(&s);
    let (module, after_module) = match parse_module(&s, at_module) {
        Ok(x) => x,
        Err(x) => return Err(x),
    };
    let with_next = match parse_suffix(&s, after_module) {
        Ok((t, at_tail)) => match parse_rule_tail(&s, at_tail) {
            Ok(tail) => Some((t, tail)),
            Err(_) => None,
        },
        Err(_) => None,
    };
    let (next, (condition, probability, state)) = match with_next {
        Some((t, tail)) => (Some(t), tail),
        None => match parse_rule_tail(&s, after_module) {
            Ok(tail) => (None, tail),
            Err(x) => return Err(x),
        },
    };
    Ok(Rule { module, previous, next, condition, probability, state })
}

/// A whole axiom, such as `A(1,0.25)`: one module or more.
pub fn parse_axiom(input: &str) -> (r: Result<Axiom<Token>, ParseError>)
    ensures
        match r {
            Ok(a) => axiom_of(input@) == Ok::<Word<Token>, ParseError>(a@),
            Err(x) => axiom_of(input@) == Err::<Word<Token>, ParseError>(x),
        },
{
    let s = chars_of(input);
    let (state, e) = match parse_state(&s, 0) {
        Ok(x) => x,
        Err(x) => return Err(x),
    };
    proof {
        lemma_state_in_bounds(s@, 0);
    }
    match parse_end(&s, e, &state) {
        Ok(()) => Ok(Axiom::new(state)),
        Err(x) => Err(x),
    }
}

impl LSystemBuilder<Token> {
    /// A builder that starts from the axiom written in `initial`.
    pub fn new_str(initial: &str) -> (r: Result<LSystemBuilder<Token>, ParseError>)
        ensures
            match r {
                Ok(b) => axiom_of(initial@) == Ok::<Word<Token>, ParseError>(b.initial@)
                    && b.rules.rules@.len() == 0 && b.variables@ == Map::<char, Value>::empty(),
                Err(x) => axiom_of(initial@) == Err::<Word<Token>, ParseError>(x),
            },
    {
        match parse_axiom(initial) {
            Ok(a) => Ok(LSystemBuilder::new(a)),
            Err(x) => Err(x),
        }
    }

    /// This builder with the rule written in `rule` added.
    pub fn rule_str(self, rule: &str) -> (r: Result<LSystemBuilder<Token>, ParseError>)
        ensures
            match r {
                Ok(b) => {
                    &&& rule_of(rule@) == Ok::<RuleModel, ParseError>(rule_model(b.rules.rules@.last()))
                    &&& b.rules.rules@ == self.rules.rules@.push(b.rules.rules@.last())
                    &&& b.initial == self.initial
                    &&& b.variables == self.variables
                },
                Err(x) => rule_of(rule@) == Err::<RuleModel, ParseError>(x),
            },
    {
        match parse_rule(rule) {
            Ok(x) => Ok(self.rule(x)),
            Err(x) => Err(x),
        }
    }
}

} // verus!
