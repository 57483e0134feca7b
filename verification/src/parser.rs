//! The query language: tokens, lexer, expression tree, and the
//! recursive-descent parser.

use vstd::prelude::*;
use crate::value::{pow10, Number};

verus! {

broadcast use
    vstd::std_specs::vec::group_vec_axioms,
    vstd::seq::group_seq_axioms,
;

/// A comparison operator of a `select` predicate.
#[derive(Clone, Copy, Debug, PartialEq, Eq, Structural)]
pub enum CompOp {
    Eq,
    Ne,
    Gt,
    Lt,
    Ge,
    Le,
}

/// A parsed query expression.
#[derive(Debug, PartialEq)]
pub enum Expression {
    /// `.`: the input itself.
    Identity,
    /// `..`: the input and every value nested in it, in document order.
    RecursiveDescent,
    /// `.name` or `."name"`: a property of an object.
    Property(String),
    /// `.[i]`: an array element; a negative index counts from the end.
    Index(i64),
    /// `.[a:b]`: an array slice with optional bounds.
    Slice(Option<i64>, Option<i64>),
    /// `.[]`: each element of an array, or each value of an object.
    Iterate,
    /// `[e, ...]`: an array built from the outputs of the given expressions.
    ArrayConstruct(Vec<Expression>),
    /// `{k: e, ...}`: an object built from the first output of each expression.
    ObjectConstruct(Vec<(String, Expression)>),
    /// `l | r`: feed every output of `l` through `r`.
    Pipe(Box<Expression>, Box<Expression>),
    /// `select(l op r)`: keep the input when the predicate holds.
    Select(Box<Expression>, CompOp, Box<Expression>),
    /// `map(e)`: apply `e` to each element of an array.
    MapEach(Box<Expression>),
    /// `keys`: the keys of an object, or the indices of an array.
    Keys,
    /// `length`: the number of elements, keys, or characters.
    Length,
    /// A quoted string constant, as the right operand of a predicate.
    Literal(String),
}

/// The mathematical model of an `Expression`.
#[verifier::ext_equal]
pub enum ExprV {
    Identity,
    RecursiveDescent,
    Property(Seq<char>),
    Index(i64),
    Slice(Option<i64>, Option<i64>),
    Iterate,
    ArrayConstruct(Seq<ExprV>),
    ObjectConstruct(Seq<(Seq<char>, ExprV)>),
    Pipe(Box<ExprV>, Box<ExprV>),
    Select(Box<ExprV>, CompOp, Box<ExprV>),
    MapEach(Box<ExprV>),
    Keys,
    Length,
    Literal(Seq<char>),
}

impl View for Expression {
    type V = ExprV;

    open spec fn view(&self) -> ExprV
        decreases self,
    {
        match self {
            Expression::Identity => ExprV::Identity,
            Expression::RecursiveDescent => ExprV::RecursiveDescent,
            Expression::Property(name) => ExprV::Property(name@),
            Expression::Index(i) => ExprV::Index(*i),
            Expression::Slice(a, b) => ExprV::Slice(*a, *b),
            Expression::Iterate => ExprV::Iterate,
            Expression::ArrayConstruct(es) => {
                proof {
                    assert(decreases_to!(es => es@));
                }
                ExprV::ArrayConstruct(view_exprs(es@))
            },
            Expression::ObjectConstruct(kvs) => {
                proof {
                    assert(decreases_to!(kvs => kvs@));
                }
                ExprV::ObjectConstruct(view_expr_pairs(kvs@))
            },
            Expression::Pipe(l, r) => ExprV::Pipe(Box::new((**l)@), Box::new((**r)@)),
            Expression::Select(l, op, r) => ExprV::Select(
                Box::new((**l)@),
                *op,
                Box::new((**r)@),
            ),
            Expression::MapEach(b) => ExprV::MapEach(Box::new((**b)@)),
            Expression::Keys => ExprV::Keys,
            Expression::Length => ExprV::Length,
            Expression::Literal(s) => ExprV::Literal(s@),
        }
    }
}

/// The models of a list of subexpressions, in order.
pub open spec fn view_exprs(s: Seq<Expression>) -> Seq<ExprV>
    decreases s,
{
    if s.len() <= 0 {
        Seq::empty()
    } else {
        view_exprs(s.drop_last()).push(s.last()@)
    }
}

/// The models of the key/expression pairs of an object template, in order.
pub open spec fn view_expr_pairs(s: Seq<(String, Expression)>) -> Seq<(Seq<char>, ExprV)>
    decreases s,
{
    if s.len() <= 0 {
        Seq::empty()
    } else {
        view_expr_pairs(s.drop_last()).push((s.last().0@, s.last().1@))
    }
}

pub proof fn lemma_view_exprs(s: Seq<Expression>)
    ensures
        view_exprs(s).len() == s.len(),
        forall|i: int| 0 <= i < s.len() ==> #[trigger] view_exprs(s)[i] == s[i]@,
    decreases s,
{
    if s.len() > 0 {
        lemma_view_exprs(s.drop_last());
        assert(view_exprs(s) == view_exprs(s.drop_last()).push(s.last()@));
        assert forall|i: int| 0 <= i < s.len() implies #[trigger] view_exprs(s)[i] == s[i]@ by {
            if i < s.len() - 1 {
                assert(s.drop_last()[i] == s[i]);
                assert(view_exprs(s.drop_last()).push(s.last()@)[i] == view_exprs(
                    s.drop_last(),
                )[i]);
            }
        }
    }
}

pub proof fn lemma_view_expr_pairs(s: Seq<(String, Expression)>)
    ensures
        view_expr_pairs(s).len() == s.len(),
        forall|i: int|
            0 <= i < s.len() ==> #[trigger] view_expr_pairs(s)[i] == (s[i].0@, s[i].1@),
    decreases s,
{
    if s.len() > 0 {
        lemma_view_expr_pairs(s.drop_last());
        assert(view_expr_pairs(s) == view_expr_pairs(s.drop_last()).push(
            (s.last().0@, s.last().1@),
        ));
        assert forall|i: int|
            0 <= i < s.len() implies #[trigger] view_expr_pairs(s)[i] == (s[i].0@, s[i].1@) by {
            if i < s.len() - 1 {
                assert(s.drop_last()[i] == s[i]);
                assert(view_expr_pairs(s.drop_last()).push((s.last().0@, s.last().1@))[i]
                    == view_expr_pairs(s.drop_last())[i]);
            }
        }
    }
}

/// A lexical token of the query language.
#[derive(Clone, Debug, PartialEq)]
pub enum Token {
    Dot,
    DotDot,
    Pipe,
    Comma,
    LeftBracket,
    RightBracket,
    LeftBrace,
    RightBrace,
    Colon,
    Question,
    LeftParen,
    RightParen,
    Op(CompOp),
    Identifier(String),
    StringLiteral(String),
    NumberLiteral(Number),
    BoolLiteral(bool),
    Null,
}

/// The mathematical model of a `Token`.
pub enum TokenV {
    Dot,
    DotDot,
    Pipe,
    Comma,
    LeftBracket,
    RightBracket,
    LeftBrace,
    RightBrace,
    Colon,
    Question,
    LeftParen,
    RightParen,
    Op(CompOp),
    Identifier(Seq<char>),
    StringLiteral(Seq<char>),
    NumberLiteral(Number),
    BoolLiteral(bool),
    Null,
}

impl View for Token {
    type V = TokenV;

    open spec fn view(&self) -> TokenV {
        match self {
            Token::Dot => TokenV::Dot,
            Token::DotDot => TokenV::DotDot,
            Token::Pipe => TokenV::Pipe,
            Token::Comma => TokenV::Comma,
            Token::LeftBracket => TokenV::LeftBracket,
            Token::RightBracket => TokenV::RightBracket,
            Token::LeftBrace => TokenV::LeftBrace,
            Token::RightBrace => TokenV::RightBrace,
            Token::Colon => TokenV::Colon,
            Token::Question => TokenV::Question,
            Token::LeftParen => TokenV::LeftParen,
            Token::RightParen => TokenV::RightParen,
            Token::Op(o) => TokenV::Op(*o),
            Token::Identifier(s) => TokenV::Identifier(s@),
            Token::StringLiteral(s) => TokenV::StringLiteral(s@),
            Token::NumberLiteral(n) => TokenV::NumberLiteral(*n),
            Token::BoolLiteral(b) => TokenV::BoolLiteral(*b),
            Token::Null => TokenV::Null,
        }
    }
}

/// The models of a token list, in order.
pub open spec fn view_tokens(s: Seq<Token>) -> Seq<TokenV>
    decreases s,
{
    if s.len() <= 0 {
        Seq::empty()
    } else {
        view_tokens(s.drop_last()).push(s.last()@)
    }
}

pub proof fn lemma_view_tokens(s: Seq<Token>)
    ensures
        view_tokens(s).len() == s.len(),
        forall|i: int| 0 <= i < s.len() ==> #[trigger] view_tokens(s)[i] == s[i]@,
    decreases s,
{
    if s.len() > 0 {
        lemma_view_tokens(s.drop_last());
        assert(view_tokens(s) == view_tokens(s.drop_last()).push(s.last()@));
        assert forall|i: int| 0 <= i < s.len() implies #[trigger] view_tokens(s)[i] == s[i]@ by {
            if i < s.len() - 1 {
                assert(s.drop_last()[i] == s[i]);
                assert(view_tokens(s.drop_last()).push(s.last()@)[i] == view_tokens(
                    s.drop_last(),
                )[i]);
            }
        }
    }
}

/// A lexical fault: an illegal character, an unterminated string literal, a
/// malformed number, or a number too large for the library's exact decimals.
#[derive(Clone, Copy, Debug, PartialEq, Eq, Structural)]
pub enum LexError {
    UnexpectedChar(char),
    UnterminatedString,
    MalformedNumber,
    NumberOverflow,
}

/// A parse fault: a lexical fault, a token that no production admits, a
/// missing expected token, or input that ends inside a construct.
#[derive(Debug, PartialEq)]
pub enum ParseError {
    Lex(LexError),
    UnexpectedToken(Token),
    Expected(Token, Token),
    UnexpectedEof,
}

/// The mathematical model of a `ParseError`.
pub enum ParseErrV {
    Lex(LexError),
    UnexpectedToken(TokenV),
    Expected(TokenV, TokenV),
    UnexpectedEof,
}

impl View for ParseError {
    type V = ParseErrV;

    open spec fn view(&self) -> ParseErrV {
        match self {
            ParseError::Lex(le) => ParseErrV::Lex(*le),
            ParseError::UnexpectedToken(t) => ParseErrV::UnexpectedToken(t@),
            ParseError::Expected(w, f) => ParseErrV::Expected(w@, f@),
            ParseError::UnexpectedEof => ParseErrV::UnexpectedEof,
        }
    }
}

/// Insignificant whitespace.
pub open spec fn is_ws(c: char) -> bool {
    c == ' ' || c == '\t' || c == '\n' || c == '\r'
}

pub open spec fn is_digit(c: char) -> bool {
    ('0' as u32) <= (c as u32) && (c as u32) <= ('9' as u32)
}

pub open spec fn digit_val(c: char) -> int {
    (c as u32) - ('0' as u32)
}

/// A character that can start an identifier.
pub open spec fn is_alpha(c: char) -> bool {
    (('a' as u32) <= (c as u32) && (c as u32) <= ('z' as u32)) || (('A' as u32) <= (c as u32) && (
    c as u32) <= ('Z' as u32)) || c == '_'
}

pub open spec fn is_alnum(c: char) -> bool {
    is_alpha(c) || is_digit(c)
}

/// The end of the run of digits that starts at `pos`.
pub open spec fn scan_digits(s: Seq<char>, pos: int) -> int
    decreases s.len() - pos when 0 <= pos <= s.len()
{
    if pos >= s.len() || !is_digit(s[pos]) {
        pos
    } else {
        scan_digits(s, pos + 1)
    }
}

pub proof fn lemma_scan_digits(s: Seq<char>, pos: int)
    requires
        0 <= pos <= s.len(),
    ensures
        pos <= scan_digits(s, pos) <= s.len(),
        forall|k: int| pos <= k < scan_digits(s, pos) ==> is_digit(#[trigger] s[k]),
        scan_digits(s, pos) < s.len() ==> !is_digit(s[scan_digits(s, pos)]),
    decreases s.len() - pos,
{
    if pos < s.len() && is_digit(s[pos]) {
        lemma_scan_digits(s, pos + 1);
    }
}

/// The end of the run of identifier characters that starts at `pos`.
pub open spec fn scan_ident(s: Seq<char>, pos: int) -> int
    decreases s.len() - pos when 0 <= pos <= s.len()
{
    if pos >= s.len() || !is_alnum(s[pos]) {
        pos
    } else {
        scan_ident(s, pos + 1)
    }
}

pub proof fn lemma_scan_ident(s: Seq<char>, pos: int)
    requires
        0 <= pos <= s.len(),
    ensures
        pos <= scan_ident(s, pos) <= s.len(),
        forall|k: int| pos <= k < scan_ident(s, pos) ==> is_alnum(#[trigger] s[k]),
        scan_ident(s, pos) < s.len() ==> !is_alnum(s[scan_ident(s, pos)]),
    decreases s.len() - pos,
{
    if pos < s.len() && is_alnum(s[pos]) {
        lemma_scan_ident(s, pos + 1);
    }
}

/// The value of the digit run `s[from .. to)`.
pub open spec fn digits_val(s: Seq<char>, from: int, to: int) -> int
    decreases to - from,
{
    if to <= from {
        0
    } else {
        digits_val(s, from, to - 1) * 10 + digit_val(s[to - 1])
    }
}

/// What a backslash escape stands for: the named control characters, any
/// other character itself.
pub open spec fn esc_char(c: char) -> char {
    if c == 'n' {
        '\n'
    } else if c == 'r' {
        '\r'
    } else if c == 't' {
        '\t'
    } else {
        c
    }
}

/// The content of a string literal from `pos` (just after the opening quote)
/// to its closing quote, and the position after that quote.
pub open spec fn lex_string(s: Seq<char>, pos: int) -> Result<(Seq<char>, int), LexError>
    decreases s.len() - pos when 0 <= pos <= s.len()
{
    if pos >= s.len() {
        Result::Err(LexError::UnterminatedString)
    } else if s[pos] == '"' {
        Result::Ok((Seq::empty(), pos + 1))
    } else if s[pos] == '\\' {
        if pos + 1 >= s.len() {
            Result::Err(LexError::UnterminatedString)
        } else {
            match lex_string(s, pos + 2) {
                Result::Ok((rest, np)) => Result::Ok((seq![esc_char(s[pos + 1])].add(rest), np)),
                Result::Err(e) => Result::Err(e),
            }
        }
    } else {
        match lex_string(s, pos + 1) {
            Result::Ok((rest, np)) => Result::Ok((seq![s[pos]].add(rest), np)),
            Result::Err(e) => Result::Err(e),
        }
    }
}

/// A number literal starting at `pos`: an optional minus, a digit run, and an
/// optional fraction.  A dot without a following digit, or a minus without
/// any digit, is malformed; a literal of more than 19 digits, more than 18 of
/// them fractional, or with a mantissa beyond `i64`, does not fit the exact
/// decimals and is reported as an overflow.
pub open spec fn lex_number(s: Seq<char>, pos: int) -> Result<(Number, int), LexError> {
    let neg = s[pos] == '-';
    let p0 = if neg {
        pos + 1
    } else {
        pos
    };
    let p1 = scan_digits(s, p0);
    if p1 < s.len() && s[p1] == '.' && scan_digits(s, p1 + 1) > p1 + 1 {
        let p2 = scan_digits(s, p1 + 1);
        let scale = p2 - p1 - 1;
        let mag = digits_val(s, p0, p1) * pow10(scale as nat) + digits_val(s, p1 + 1, p2);
        if (p1 - p0) + scale > 19 || scale > 18 || mag > i64::MAX {
            Result::Err(LexError::NumberOverflow)
        } else {
            Result::Ok(
                (
                    Number {
                        mantissa: (if neg {
                            -mag
                        } else {
                            mag
                        }) as i64,
                        scale: scale as u32,
                    },
                    p2,
                ),
            )
        }
    } else if p1 < s.len() && s[p1] == '.' {
        Result::Err(LexError::MalformedNumber)
    } else if p1 == p0 {
        Result::Err(LexError::MalformedNumber)
    } else {
        let mag = digits_val(s, p0, p1);
        if p1 - p0 > 19 || mag > i64::MAX {
            Result::Err(LexError::NumberOverflow)
        } else {
            Result::Ok(
                (
                    Number {
                        mantissa: (if neg {
                            -mag
                        } else {
                            mag
                        }) as i64,
                        scale: 0,
                    },
                    p1,
                ),
            )
        }
    }
}

pub open spec fn kw_true() -> Seq<char> {
    seq!['t', 'r', 'u', 'e']
}

pub open spec fn kw_false() -> Seq<char> {
    seq!['f', 'a', 'l', 's', 'e']
}

pub open spec fn kw_null() -> Seq<char> {
    seq!['n', 'u', 'l', 'l']
}

pub open spec fn kw_select() -> Seq<char> {
    seq!['s', 'e', 'l', 'e', 'c', 't']
}

pub open spec fn kw_map() -> Seq<char> {
    seq!['m', 'a', 'p']
}

pub open spec fn kw_keys() -> Seq<char> {
    seq!['k', 'e', 'y', 's']
}

pub open spec fn kw_length() -> Seq<char> {
    seq!['l', 'e', 'n', 'g', 't', 'h']
}

/// The token an identifier word stands for: the reserved words become
/// literals, everything else is an identifier.
pub open spec fn ident_token(w: Seq<char>) -> TokenV {
    if w == kw_true() {
        TokenV::BoolLiteral(true)
    } else if w == kw_false() {
        TokenV::BoolLiteral(false)
    } else if w == kw_null() {
        TokenV::Null
    } else {
        TokenV::Identifier(w)
    }
}

/// A strictly advancing position, so that the scan terminates; the
/// sub-lexers always advance, so the clamp never bites.
pub open spec fn step_pos(np: int, pos: int) -> int {
    if np > pos {
        np
    } else {
        pos + 1
    }
}

/// Prepend a token to the outcome of lexing the rest.
pub open spec fn cons_tok(t: TokenV, r: Result<Seq<TokenV>, LexError>) -> Result<
    Seq<TokenV>,
    LexError,
> {
    match r {
        Result::Ok(ts) => Result::Ok(seq![t].add(ts)),
        Result::Err(e) => Result::Err(e),
    }
}

/// The tokens of the input from `pos` on: the left-to-right scan of the
/// whole query grammar.
pub open spec fn lex_from(s: Seq<char>, pos: int) -> Result<Seq<TokenV>, LexError>
    decreases s.len() - pos when 0 <= pos <= s.len()
{
    if pos >= s.len() {
        Result::Ok(Seq::empty())
    } else {
        let c = s[pos];
        if is_ws(c) {
            lex_from(s, pos + 1)
        } else if c == '.' {
            if pos + 1 < s.len() && s[pos + 1] == '.' {
                cons_tok(TokenV::DotDot, lex_from(s, pos + 2))
            } else {
                cons_tok(TokenV::Dot, lex_from(s, pos + 1))
            }
        } else if c == '|' {
            cons_tok(TokenV::Pipe, lex_from(s, pos + 1))
        } else if c == ',' {
            cons_tok(TokenV::Comma, lex_from(s, pos + 1))
        } else if c == '[' {
            cons_tok(TokenV::LeftBracket, lex_from(s, pos + 1))
        } else if c == ']' {
            cons_tok(TokenV::RightBracket, lex_from(s, pos + 1))
        } else if c == '{' {
            cons_tok(TokenV::LeftBrace, lex_from(s, pos + 1))
        } else if c == '}' {
            cons_tok(TokenV::RightBrace, lex_from(s, pos + 1))
        } else if c == ':' {
            cons_tok(TokenV::Colon, lex_from(s, pos + 1))
        } else if c == '?' {
            cons_tok(TokenV::Question, lex_from(s, pos + 1))
        } else if c == '(' {
            cons_tok(TokenV::LeftParen, lex_from(s, pos + 1))
        } else if c == ')' {
            cons_tok(TokenV::RightParen, lex_from(s, pos + 1))
        } else if c == '=' {
            if pos + 1 < s.len() && s[pos + 1] == '=' {
                cons_tok(TokenV::Op(CompOp::Eq), lex_from(s, pos + 2))
            } else {
                Result::Err(LexError::UnexpectedChar('='))
            }
        } else if c == '!' {
            if pos + 1 < s.len() && s[pos + 1] == '=' {
                cons_tok(TokenV::Op(CompOp::Ne), lex_from(s, pos + 2))
            } else {
                Result::Err(LexError::UnexpectedChar('!'))
            }
        } else if c == '>' {
            if pos + 1 < s.len() && s[pos + 1] == '=' {
                cons_tok(TokenV::Op(CompOp::Ge), lex_from(s, pos + 2))
            } else {
                cons_tok(TokenV::Op(CompOp::Gt), lex_from(s, pos + 1))
            }
        } else if c == '<' {
            if pos + 1 < s.len() && s[pos + 1] == '=' {
                cons_tok(TokenV::Op(CompOp::Le), lex_from(s, pos + 2))
            } else {
                cons_tok(TokenV::Op(CompOp::Lt), lex_from(s, pos + 1))
            }
        } else if c == '"' {
            match lex_string(s, pos + 1) {
                Result::Ok((content, np)) => cons_tok(
                    TokenV::StringLiteral(content),
                    lex_from(
                        s,
                        step_pos(
                            if np > s.len() {
                                s.len() as int
                            } else {
                                np
                            },
                            pos,
                        ),
                    ),
                ),
                Result::Err(e) => Result::Err(e),
            }
        } else if is_digit(c) || c == '-' {
            match lex_number(s, pos) {
                Result::Ok((n, np)) => cons_tok(
                    TokenV::NumberLiteral(n),
                    lex_from(
                        s,
                        step_pos(
                            if np > s.len() {
                                s.len() as int
                            } else {
                                np
                            },
                            pos,
                        ),
                    ),
                ),
                Result::Err(e) => Result::Err(e),
            }
        } else if is_alpha(c) {
            let e = scan_ident(s, pos);
            cons_tok(
                ident_token(
                    s.subrange(
                        pos,
                        if e > s.len() {
                            s.len() as int
                        } else {
                            e
                        },
                    ),
                ),
                lex_from(
                    s,
                    step_pos(
                        if e > s.len() {
                            s.len() as int
                        } else {
                            e
                        },
                        pos,
                    ),
                ),
            )
        } else {
            Result::Err(LexError::UnexpectedChar(c))
        }
    }
}

/// The token sequence of a whole query text.
pub open spec fn lex(s: Seq<char>) -> Result<Seq<TokenV>, LexError> {
    lex_from(s, 0)
}

/// A token the parser can take: number literals carry scales and mantissas
/// the index arithmetic can handle.
pub open spec fn wf_token(t: TokenV) -> bool {
    match t {
        TokenV::NumberLiteral(n) => n.scale <= 18 && n.mantissa > i64::MIN,
        _ => true,
    }
}

pub open spec fn wf_tokens(ts: Seq<TokenV>) -> bool {
    forall|i: int| 0 <= i < ts.len() ==> wf_token(#[trigger] ts[i])
}

/// A token that ends a bare `.`, leaving it as the identity.
pub open spec fn is_dot_terminator(t: TokenV) -> bool {
    ||| t == TokenV::Pipe
    ||| t == TokenV::Comma
    ||| t == TokenV::RightBracket
    ||| t == TokenV::RightBrace
    ||| t == TokenV::RightParen
    ||| t is Op
}

/// The array index a number literal denotes: its value truncated toward zero.
pub open spec fn index_of_number(n: Number) -> i64 {
    let p = pow10(n.scale as nat);
    let m = n.mantissa as int;
    (if m >= 0 {
        m / p
    } else {
        -((-m) / p)
    }) as i64
}

/// The bracket form after a `[` at `i`: `]` is iteration, `N]` an index, and
/// `N:M]`, `N:]`, `:M]`, `:]` the slices.  The result names the node and the
/// position after the closing bracket.
pub open spec fn parse_bracket(ts: Seq<TokenV>, i: int) -> Result<(ExprV, int), ParseErrV> {
    if i >= ts.len() {
        Result::Err(ParseErrV::UnexpectedEof)
    } else {
        match ts[i] {
            TokenV::RightBracket => Result::Ok((ExprV::Iterate, i + 1)),
            TokenV::NumberLiteral(n) => if i + 1 >= ts.len() {
                Result::Err(ParseErrV::UnexpectedEof)
            } else if ts[i + 1] == TokenV::Colon {
                if i + 2 < ts.len() && ts[i + 2] is NumberLiteral {
                    if i + 3 >= ts.len() {
                        Result::Err(ParseErrV::UnexpectedEof)
                    } else if ts[i + 3] == TokenV::RightBracket {
                        Result::Ok(
                            (
                                ExprV::Slice(
                                    Option::Some(index_of_number(n)),
                                    Option::Some(index_of_number(ts[i + 2]->NumberLiteral_0)),
                                ),
                                i + 4,
                            ),
                        )
                    } else {
                        Result::Err(ParseErrV::Expected(TokenV::RightBracket, ts[i + 3]))
                    }
                } else if i + 2 >= ts.len() {
                    Result::Err(ParseErrV::UnexpectedEof)
                } else if ts[i + 2] == TokenV::RightBracket {
                    Result::Ok(
                        (ExprV::Slice(Option::Some(index_of_number(n)), Option::None), i + 3),
                    )
                } else {
                    Result::Err(ParseErrV::Expected(TokenV::RightBracket, ts[i + 2]))
                }
            } else if ts[i + 1] == TokenV::RightBracket {
                Result::Ok((ExprV::Index(index_of_number(n)), i + 2))
            } else {
                Result::Err(ParseErrV::Expected(TokenV::RightBracket, ts[i + 1]))
            },
            TokenV::Colon => if i + 1 >= ts.len() {
                Result::Err(ParseErrV::UnexpectedEof)
            } else if ts[i + 1] is NumberLiteral {
                if i + 2 >= ts.len() {
                    Result::Err(ParseErrV::UnexpectedEof)
                } else if ts[i + 2] == TokenV::RightBracket {
                    Result::Ok(
                        (
                            ExprV::Slice(
                                Option::None,
                                Option::Some(index_of_number(ts[i + 1]->NumberLiteral_0)),
                            ),
                            i + 3,
                        ),
                    )
                } else {
                    Result::Err(ParseErrV::Expected(TokenV::RightBracket, ts[i + 2]))
                }
            } else if ts[i + 1] == TokenV::RightBracket {
                Result::Ok((ExprV::Slice(Option::None, Option::None), i + 2))
            } else {
                Result::Err(ParseErrV::Expected(TokenV::RightBracket, ts[i + 1]))
            },
            _ => Result::Err(ParseErrV::UnexpectedToken(ts[i])),
        }
    }
}

/// Fold `.name`, `."name"` and bracket suffixes onto a base expression,
/// left to right, as pipes.
pub open spec fn parse_suffixes(ts: Seq<TokenV>, i: int, acc: ExprV) -> Result<
    (ExprV, int),
    ParseErrV,
>
    decreases ts.len() - i, 0int when 0 <= i <= ts.len()
{
    if i < ts.len() && ts[i] == TokenV::Dot && i + 1 < ts.len() && (ts[i + 1] is Identifier || ts[
        i + 1
    ] is StringLiteral) {
        let name = match ts[i + 1] {
            TokenV::Identifier(w) => w,
            TokenV::StringLiteral(w) => w,
            _ => Seq::empty(),
        };
        parse_suffixes(ts, i + 2, ExprV::Pipe(Box::new(acc), Box::new(ExprV::Property(name))))
    } else if i < ts.len() && ts[i] == TokenV::LeftBracket {
        match parse_bracket(ts, i + 1) {
            Result::Ok((node, j)) => parse_suffixes(
                ts,
                if step_pos(j, i + 1) > ts.len() {
                    ts.len() as int
                } else {
                    step_pos(j, i + 1)
                },
                ExprV::Pipe(Box::new(acc), Box::new(node)),
            ),
            Result::Err(e) => Result::Err(e),
        }
    } else {
        Result::Ok((acc, i))
    }
}

/// A simple expression: a dotted path, `..`, an array or object template,
/// or one of the named productions `select`, `map`, `keys`, `length`.
pub open spec fn parse_simple(ts: Seq<TokenV>, i: int) -> Result<(ExprV, int), ParseErrV>
    decreases ts.len() - i, 2int when 0 <= i <= ts.len()
{
    if i >= ts.len() {
        Result::Err(ParseErrV::UnexpectedEof)
    } else {
        match ts[i] {
            TokenV::Dot => if i + 1 >= ts.len() || is_dot_terminator(ts[i + 1]) {
                Result::Ok((ExprV::Identity, i + 1))
            } else {
                match ts[i + 1] {
                    TokenV::Identifier(name) => parse_suffixes(ts, i + 2, ExprV::Property(name)),
                    TokenV::StringLiteral(name) => parse_suffixes(
                        ts,
                        i + 2,
                        ExprV::Property(name),
                    ),
                    TokenV::LeftBracket => match parse_bracket(ts, i + 2) {
                        Result::Ok((node, j)) => parse_suffixes(
                            ts,
                            if step_pos(j, i + 2) > ts.len() {
                                ts.len() as int
                            } else {
                                step_pos(j, i + 2)
                            },
                            node,
                        ),
                        Result::Err(e) => Result::Err(e),
                    },
                    _ => Result::Err(ParseErrV::UnexpectedToken(ts[i + 1])),
                }
            },
            TokenV::DotDot => Result::Ok((ExprV::RecursiveDescent, i + 1)),
            TokenV::LeftBracket => if i + 1 < ts.len() && ts[i + 1] == TokenV::RightBracket {
                Result::Ok((ExprV::ArrayConstruct(Seq::empty()), i + 2))
            } else {
                parse_array_items(ts, i + 1, Seq::empty())
            },
            TokenV::LeftBrace => if i + 1 < ts.len() && ts[i + 1] == TokenV::RightBrace {
                Result::Ok((ExprV::ObjectConstruct(Seq::empty()), i + 2))
            } else {
                parse_object_items(ts, i + 1, Seq::empty())
            },
            TokenV::Identifier(name) => if name == kw_keys() {
                Result::Ok((ExprV::Keys, i + 1))
            } else if name == kw_length() {
                Result::Ok((ExprV::Length, i + 1))
            } else if name == kw_select() {
                parse_select(ts, i + 1)
            } else if name == kw_map() {
                if i + 1 >= ts.len() {
                    Result::Err(ParseErrV::UnexpectedEof)
                } else if ts[i + 1] != TokenV::LeftParen {
                    Result::Err(ParseErrV::Expected(TokenV::LeftParen, ts[i + 1]))
                } else {
                    match parse_pipe(ts, i + 2) {
                        Result::Ok((body, j)) => {
                            let j2 = if step_pos(j, i + 2) > ts.len() {
                                ts.len() as int
                            } else {
                                step_pos(j, i + 2)
                            };
                            if j2 >= ts.len() {
                                Result::Err(ParseErrV::UnexpectedEof)
                            } else if ts[j2] == TokenV::RightParen {
                                Result::Ok((ExprV::MapEach(Box::new(body)), j2 + 1))
                            } else {
                                Result::Err(ParseErrV::Expected(TokenV::RightParen, ts[j2]))
                            }
                        },
                        Result::Err(e) => Result::Err(e),
                    }
                }
            } else {
                Result::Err(ParseErrV::UnexpectedToken(TokenV::Identifier(name)))
            },
            _ => Result::Err(ParseErrV::UnexpectedToken(ts[i])),
        }
    }
}

/// The parenthesised predicate of a `select`, with `i` at the expected `(`.
pub open spec fn parse_select(ts: Seq<TokenV>, i: int) -> Result<(ExprV, int), ParseErrV>
    decreases ts.len() - i, 1int when 0 <= i <= ts.len()
{
    if i >= ts.len() {
        Result::Err(ParseErrV::UnexpectedEof)
    } else if ts[i] != TokenV::LeftParen {
        Result::Err(ParseErrV::Expected(TokenV::LeftParen, ts[i]))
    } else {
        match parse_simple(ts, i + 1) {
            Result::Err(e) => Result::Err(e),
            Result::Ok((l, k)) => {
                let k2 = if step_pos(k, i + 1) > ts.len() {
                    ts.len() as int
                } else {
                    step_pos(k, i + 1)
                };
                if k2 >= ts.len() {
                    Result::Err(ParseErrV::UnexpectedEof)
                } else {
                    match ts[k2] {
                        TokenV::Op(op) => if k2 + 1 >= ts.len() {
                            Result::Err(ParseErrV::UnexpectedEof)
                        } else {
                            let rres = match ts[k2 + 1] {
                                TokenV::StringLiteral(sv) => Result::Ok(
                                    (ExprV::Literal(sv), k2 + 2),
                                ),
                                _ => parse_simple(ts, k2 + 1),
                            };
                            match rres {
                                Result::Err(e) => Result::Err(e),
                                Result::Ok((r, m)) => {
                                    let m2 = if step_pos(m, k2 + 1) > ts.len() {
                                        ts.len() as int
                                    } else {
                                        step_pos(m, k2 + 1)
                                    };
                                    if m2 >= ts.len() {
                                        Result::Err(ParseErrV::UnexpectedEof)
                                    } else if ts[m2] == TokenV::RightParen {
                                        Result::Ok(
                                            (ExprV::Select(Box::new(l), op, Box::new(r)), m2 + 1),
                                        )
                                    } else {
                                        Result::Err(
                                            ParseErrV::Expected(TokenV::RightParen, ts[m2]),
                                        )
                                    }
                                },
                            }
                        },
                        _ => Result::Err(ParseErrV::UnexpectedToken(ts[k2])),
                    }
                }
            },
        }
    }
}

/// The comma-separated elements of an array template, after the `[`.
pub open spec fn parse_array_items(ts: Seq<TokenV>, i: int, acc: Seq<ExprV>) -> Result<
    (ExprV, int),
    ParseErrV,
>
    decreases ts.len() - i, 4int when 0 <= i <= ts.len()
{
    match parse_pipe(ts, i) {
        Result::Err(e) => Result::Err(e),
        Result::Ok((e, j)) => {
            let j2 = if step_pos(j, i) > ts.len() {
                ts.len() as int
            } else {
                step_pos(j, i)
            };
            let acc2 = acc.push(e);
            if j2 >= ts.len() {
                Result::Err(ParseErrV::UnexpectedEof)
            } else if ts[j2] == TokenV::Comma {
                parse_array_items(ts, j2 + 1, acc2)
            } else if ts[j2] == TokenV::RightBracket {
                Result::Ok((ExprV::ArrayConstruct(acc2), j2 + 1))
            } else {
                Result::Err(ParseErrV::UnexpectedToken(ts[j2]))
            }
        },
    }
}

/// The comma-separated entries of an object template, after the `{`: a key
/// with a colon and an expression, or a bare key standing for its own
/// property.
pub open spec fn parse_object_items(
    ts: Seq<TokenV>,
    i: int,
    acc: Seq<(Seq<char>, ExprV)>,
) -> Result<(ExprV, int), ParseErrV>
    decreases ts.len() - i, 4int when 0 <= i <= ts.len()
{
    if i >= ts.len() {
        Result::Err(ParseErrV::UnexpectedEof)
    } else {
        let key = match ts[i] {
            TokenV::Identifier(w) => Option::Some(w),
            TokenV::StringLiteral(w) => Option::Some(w),
            _ => Option::None,
        };
        match key {
            Option::None => Result::Err(ParseErrV::UnexpectedToken(ts[i])),
            Option::Some(k) => if i + 1 >= ts.len() {
                Result::Err(ParseErrV::UnexpectedEof)
            } else if ts[i + 1] == TokenV::Colon {
                match parse_pipe(ts, i + 2) {
                    Result::Err(e) => Result::Err(e),
                    Result::Ok((e, j)) => {
                        let j2 = if step_pos(j, i + 2) > ts.len() {
                            ts.len() as int
                        } else {
                            step_pos(j, i + 2)
                        };
                        let acc2 = acc.push((k, e));
                        if j2 >= ts.len() {
                            Result::Err(ParseErrV::UnexpectedEof)
                        } else if ts[j2] == TokenV::Comma {
                            parse_object_items(ts, j2 + 1, acc2)
                        } else if ts[j2] == TokenV::RightBrace {
                            Result::Ok((ExprV::ObjectConstruct(acc2), j2 + 1))
                        } else {
                            Result::Err(ParseErrV::UnexpectedToken(ts[j2]))
                        }
                    },
                }
            } else if ts[i + 1] == TokenV::Comma {
                parse_object_items(ts, i + 2, acc.push((k, ExprV::Property(k))))
            } else if ts[i + 1] == TokenV::RightBrace {
                Result::Ok((ExprV::ObjectConstruct(acc.push((k, ExprV::Property(k)))), i + 2))
            } else {
                Result::Err(ParseErrV::Expected(TokenV::Colon, ts[i + 1]))
            },
        }
    }
}

/// A pipe chain: simple expressions folded left over `|`.
pub open spec fn parse_pipe(ts: Seq<TokenV>, i: int) -> Result<(ExprV, int), ParseErrV>
    decreases ts.len() - i, 3int when 0 <= i <= ts.len()
{
    match parse_simple(ts, i) {
        Result::Err(e) => Result::Err(e),
        Result::Ok((e, j)) => parse_pipe_rest(
            ts,
            if step_pos(j, i) > ts.len() {
                ts.len() as int
            } else {
                step_pos(j, i)
            },
            e,
        ),
    }
}

pub open spec fn parse_pipe_rest(ts: Seq<TokenV>, i: int, acc: ExprV) -> Result<
    (ExprV, int),
    ParseErrV,
>
    decreases ts.len() - i, 2int when 0 <= i <= ts.len()
{
    if i < ts.len() && ts[i] == TokenV::Pipe {
        match parse_simple(ts, i + 1) {
            Result::Err(e) => Result::Err(e),
            Result::Ok((r, j)) => parse_pipe_rest(
                ts,
                if step_pos(j, i + 1) > ts.len() {
                    ts.len() as int
                } else {
                    step_pos(j, i + 1)
                },
                ExprV::Pipe(Box::new(acc), Box::new(r)),
            ),
        }
    } else {
        Result::Ok((acc, i))
    }
}

/// A whole token stream as one expression: trailing tokens after a complete
/// expression are a syntax error.
pub open spec fn parse_full(ts: Seq<TokenV>) -> Result<ExprV, ParseErrV> {
    match parse_pipe(ts, 0) {
        Result::Err(e) => Result::Err(e),
        Result::Ok((e, j)) => if j >= ts.len() {
            Result::Ok(e)
        } else {
            Result::Err(ParseErrV::UnexpectedToken(ts[j]))
        },
    }
}

/// What parsing a whole query text yields: the tokens of the text, then the
/// expression they form.
pub open spec fn parse_query_spec(s: Seq<char>) -> Result<ExprV, ParseErrV> {
    match lex(s) {
        Result::Ok(ts) => parse_full(ts),
        Result::Err(le) => Result::Err(ParseErrV::Lex(le)),
    }
}

/// Push a token, exposing the sequence relation.
fn push_token(out: &mut Vec<Token>, t: Token)
    ensures
        final(out)@ == old(out)@.push(t),
        final(out)@.drop_last() == old(out)@,
        final(out)@.last() == t,
        final(out)@.len() == old(out)@.len() + 1,
{
    let ghost pre = out@;
    out.push(t);
    proof {
        assert(out@.drop_last() =~= pre);
    }
}

/// One step of the tokenize loop: a token recognised at `pcur` moves the scan
/// to `np` and lands at the end of the output.
proof fn lemma_tokenize_step(
    inp: Seq<char>,
    pos0: int,
    pcur: int,
    np: int,
    out_after: Seq<Token>,
    tv: TokenV,
)
    requires
        out_after.len() > 0,
        out_after.last()@ == tv,
        wf_token(tv),
        wf_tokens(view_tokens(out_after.drop_last())),
        lex_from(inp, pcur) == cons_tok(tv, lex_from(inp, np)),
        match lex_from(inp, pcur) {
            Result::Ok(ts) => lex_from(inp, pos0) == Result::Ok::<Seq<TokenV>, LexError>(
                view_tokens(out_after.drop_last()).add(ts),
            ),
            Result::Err(e) => lex_from(inp, pos0) == Result::Err::<Seq<TokenV>, LexError>(e),
        },
    ensures
        wf_tokens(view_tokens(out_after)),
        match lex_from(inp, np) {
            Result::Ok(ts) => lex_from(inp, pos0) == Result::Ok::<Seq<TokenV>, LexError>(
                view_tokens(out_after).add(ts),
            ),
            Result::Err(e) => lex_from(inp, pos0) == Result::Err::<Seq<TokenV>, LexError>(e),
        },
{
    lemma_view_tokens(out_after);
    lemma_view_tokens(out_after.drop_last());
    assert(view_tokens(out_after) == view_tokens(out_after.drop_last()).push(tv));
    assert forall|i: int| 0 <= i < view_tokens(out_after).len() implies wf_token(
        #[trigger] view_tokens(out_after)[i],
    ) by {
        if i < view_tokens(out_after).len() - 1 {
            assert(view_tokens(out_after)[i] == view_tokens(out_after.drop_last())[i]);
        }
    }
    match lex_from(inp, np) {
        Result::Ok(ts) => {
            assert(view_tokens(out_after.drop_last()).add(seq![tv].add(ts)) =~= view_tokens(
                out_after,
            ).add(ts));
        },
        Result::Err(_) => {},
    }
}

/// Relies on String::push: appends the character to the string.
#[verifier::external_body]
fn push_char(s: &mut String, c: char)
    ensures
        final(s)@ == old(s)@.push(c),
{
    s.push(c);
}

/// The value of a digit run, exactly; at most 19 digits fit.
fn digits_to_u128(input: &Vec<char>, from: usize, to: usize) -> (r: u128)
    requires
        from <= to <= input@.len(),
        to - from <= 19,
        forall|k: int| from <= k < to ==> is_digit(#[trigger] input@[k]),
    ensures
        r as int == digits_val(input@, from as int, to as int),
        (r as int) < pow10((to - from) as nat),
{
    proof {
        lemma_pow10_le_19((to - from) as nat);
        crate::value::lemma_pow10_increases(0, (to - from) as nat);
    }
    let mut acc: u128 = 0;
    let mut k: usize = from;
    while k < to
        invariant
            from <= k <= to <= input@.len(),
            to - from <= 19,
            forall|m: int| from <= m < to ==> is_digit(#[trigger] input@[m]),
            acc as int == digits_val(input@, from as int, k as int),
            (acc as int) < pow10((k - from) as nat),
            pow10((k - from) as nat) <= pow10((to - from) as nat),
            pow10((to - from) as nat) <= 10_000_000_000_000_000_000,
        decreases to - k,
    {
        let c = input[k];
        proof {
            assert(is_digit(input@[k as int]));
        }
        let d = (c as u32) - ('0' as u32);
        proof {
            assert(0 <= d <= 9);
            assert(pow10((k + 1 - from) as nat) == 10 * pow10((k - from) as nat));
            lemma_pow10_le_19((to - from) as nat);
            crate::value::lemma_pow10_increases((k + 1 - from) as nat, (to - from) as nat);
        }
        acc = acc * 10 + (d as u128);
        k = k + 1;
    }
    acc
}

/// Every digit run of at most 19 digits has a value below `10^19`.
proof fn lemma_digits_bound(s: Seq<char>, from: int, to: int)
    requires
        from <= to,
        to - from <= 19,
        forall|k: int| from <= k < to ==> is_digit(#[trigger] s[k]),
    ensures
        0 <= digits_val(s, from, to),
        digits_val(s, from, to) < 10_000_000_000_000_000_000,
    decreases to - from,
{
    lemma_digits_nonneg(s, from, to);
    lemma_digits_lt_pow(s, from, to);
    lemma_pow10_le_19((to - from) as nat);
}

proof fn lemma_digits_nonneg(s: Seq<char>, from: int, to: int)
    requires
        forall|k: int| from <= k < to ==> is_digit(#[trigger] s[k]),
    ensures
        0 <= digits_val(s, from, to),
    decreases to - from,
{
    if to > from {
        lemma_digits_nonneg(s, from, to - 1);
        assert(is_digit(s[to - 1]));
        assert(digit_val(s[to - 1]) >= 0);
    }
}

proof fn lemma_digits_lt_pow(s: Seq<char>, from: int, to: int)
    requires
        from <= to,
        forall|k: int| from <= k < to ==> is_digit(#[trigger] s[k]),
    ensures
        digits_val(s, from, to) < pow10((to - from) as nat),
    decreases to - from,
{
    if to <= from {
        assert(pow10(0) == 1);
    } else {
        lemma_digits_lt_pow(s, from, to - 1);
        assert(is_digit(s[to - 1]));
        assert(digit_val(s[to - 1]) <= 9);
        assert(pow10((to - from) as nat) == 10 * pow10((to - 1 - from) as nat));
    }
}

proof fn lemma_pow10_le_19(n: nat)
    requires
        n <= 19,
    ensures
        pow10(n) <= 10_000_000_000_000_000_000,
{
    crate::value::lemma_pow10_increases(n, 19);
    assert(pow10(19) == 10_000_000_000_000_000_000) by {
        reveal_with_fuel(pow10, 21);
    }
}


/// Whether a digit stands at the position.
fn digit_at(input: &Vec<char>, i: usize) -> (r: bool)
    ensures
        r == (i < input@.len() && is_digit(input@[i as int])),
{
    if i < input.len() {
        let c = input[i];
        ('0' as u32) <= (c as u32) && (c as u32) <= ('9' as u32)
    } else {
        false
    }
}

/// Whether an identifier character stands at the position.
fn alnum_at(input: &Vec<char>, i: usize) -> (r: bool)
    ensures
        r == (i < input@.len() && is_alnum(input@[i as int])),
{
    if i < input.len() {
        let c = input[i];
        (('a' as u32) <= (c as u32) && (c as u32) <= ('z' as u32)) || (('A' as u32) <= (c as u32)
            && (c as u32) <= ('Z' as u32)) || c == '_' || (('0' as u32) <= (c as u32) && (
        c as u32) <= ('9' as u32))
    } else {
        false
    }
}

/// Lexer for tokenizing query strings.
pub struct Lexer {
    pub input: Vec<char>,
    pub position: usize,
}

impl Lexer {
    /// Create a new lexer from a query string.
    pub fn new(input: &str) -> (r: Lexer)
        ensures
            r.input@ == input@,
            r.position == 0,
    {
        let n = input.unicode_len();
        let mut v: Vec<char> = Vec::new();
        let mut i: usize = 0;
        while i < n
            invariant
                0 <= i <= n,
                n == input@.len(),
                v@.len() == i,
                forall|k: int| 0 <= k < i ==> #[trigger] v@[k] == input@[k],
            decreases n - i,
        {
            let c = input.get_char(i);
            v.push(c);
            i = i + 1;
        }
        proof {
            assert(v@ =~= input@);
        }
        Lexer { input: v, position: 0 }
    }

    /// Tokenize the input into a vector of tokens: exactly the tokens the
    /// lexing specification assigns to the input text, or its first fault.
    pub fn tokenize(&mut self) -> (r: Result<Vec<Token>, LexError>)
        requires
            old(self).position <= old(self).input@.len(),
        ensures
            final(self).input@ == old(self).input@,
            match r {
                Result::Ok(ts) => lex_from(old(self).input@, old(self).position as int)
                    == Result::Ok::<Seq<TokenV>, LexError>(view_tokens(ts@)) && wf_tokens(
                    view_tokens(ts@),
                ),
                Result::Err(e) => lex_from(old(self).input@, old(self).position as int)
                    == Result::Err::<Seq<TokenV>, LexError>(e),
            },
    {
        let ghost inp = self.input@;
        let ghost pos0 = self.position as int;
        let mut out: Vec<Token> = Vec::new();
        proof {
            assert(view_tokens(out@) =~= Seq::<TokenV>::empty());
            match lex_from(inp, pos0) {
                Result::Ok(ts) => {
                    assert(view_tokens(out@).add(ts) =~= ts);
                },
                Result::Err(_) => {},
            }
        }
        loop
            invariant
                inp == old(self).input@,
                pos0 == old(self).position as int,
                self.input@ == inp,
                pos0 <= self.position as int <= inp.len(),
                wf_tokens(view_tokens(out@)),
                match lex_from(inp, self.position as int) {
                    Result::Ok(ts) => lex_from(inp, pos0) == Result::Ok::<Seq<TokenV>, LexError>(
                        view_tokens(out@).add(ts),
                    ),
                    Result::Err(e) => lex_from(inp, pos0) == Result::Err::<
                        Seq<TokenV>,
                        LexError,
                    >(e),
                },
            decreases inp.len() - self.position,
        {
            let n = self.input.len();
            if self.position >= n {
                proof {
                    assert(view_tokens(out@).add(Seq::<TokenV>::empty()) =~= view_tokens(out@));
                }
                return Result::Ok(out);
            }
            let ghost pcur = self.position as int;
            let c = self.input[self.position];
            if c == ' ' || c == '\t' || c == '\n' || c == '\r' {
                self.position = self.position + 1;
            } else if c == '.' {
                if self.position + 1 < n && self.input[self.position + 1] == '.' {
                    self.position = self.position + 2;
                    push_token(&mut out, Token::DotDot);
                    proof {
                        lemma_tokenize_step(
                            inp,
                            pos0,
                            pcur,
                            self.position as int,
                            out@,
                            TokenV::DotDot,
                        );
                    }
                } else {
                    self.position = self.position + 1;
                    push_token(&mut out, Token::Dot);
                    proof {
                        lemma_tokenize_step(
                            inp,
                            pos0,
                            pcur,
                            self.position as int,
                            out@,
                            TokenV::Dot,
                        );
                    }
                }
            } else if c == '|' {
                self.position = self.position + 1;
                push_token(&mut out, Token::Pipe);
                proof {
                    lemma_tokenize_step(
                        inp,
                        pos0,
                        pcur,
                        self.position as int,
                        out@,
                        TokenV::Pipe,
                    );
                }
            } else if c == ',' {
                self.position = self.position + 1;
                push_token(&mut out, Token::Comma);
                proof {
                    lemma_tokenize_step(
                        inp,
                        pos0,
                        pcur,
                        self.position as int,
                        out@,
                        TokenV::Comma,
                    );
                }
            } else if c == '[' {
                self.position = self.position + 1;
                push_token(&mut out, Token::LeftBracket);
                proof {
                    lemma_tokenize_step(
                        inp,
                        pos0,
                        pcur,
                        self.position as int,
                        out@,
                        TokenV::LeftBracket,
                    );
                }
            } else if c == ']' {
                self.position = self.position + 1;
                push_token(&mut out, Token::RightBracket);
                proof {
                    lemma_tokenize_step(
                        inp,
                        pos0,
                        pcur,
                        self.position as int,
                        out@,
                        TokenV::RightBracket,
                    );
                }
            } else if c == '{' {
                self.position = self.position + 1;
                push_token(&mut out, Token::LeftBrace);
                proof {
                    lemma_tokenize_step(
                        inp,
                        pos0,
                        pcur,
                        self.position as int,
                        out@,
                        TokenV::LeftBrace,
                    );
                }
            } else if c == '}' {
                self.position = self.position + 1;
                push_token(&mut out, Token::RightBrace);
                proof {
                    lemma_tokenize_step(
                        inp,
                        pos0,
                        pcur,
                        self.position as int,
                        out@,
                        TokenV::RightBrace,
                    );
                }
            } else if c == ':' {
                self.position = self.position + 1;
                push_token(&mut out, Token::Colon);
                proof {
                    lemma_tokenize_step(
                        inp,
                        pos0,
                        pcur,
                        self.position as int,
                        out@,
                        TokenV::Colon,
                    );
                }
            } else if c == '?' {
                self.position = self.position + 1;
                push_token(&mut out, Token::Question);
                proof {
                    lemma_tokenize_step(
                        inp,
                        pos0,
                        pcur,
                        self.position as int,
                        out@,
                        TokenV::Question,
                    );
                }
            } else if c == '(' {
                self.position = self.position + 1;
                push_token(&mut out, Token::LeftParen);
                proof {
                    lemma_tokenize_step(
                        inp,
                        pos0,
                        pcur,
                        self.position as int,
                        out@,
                        TokenV::LeftParen,
                    );
                }
            } else if c == ')' {
                self.position = self.position + 1;
                push_token(&mut out, Token::RightParen);
                proof {
                    lemma_tokenize_step(
                        inp,
                        pos0,
                        pcur,
                        self.position as int,
                        out@,
                        TokenV::RightParen,
                    );
                }
            } else if c == '=' {
                if self.position + 1 < n && self.input[self.position + 1] == '=' {
                    self.position = self.position + 2;
                    push_token(&mut out, Token::Op(CompOp::Eq));
                    proof {
                        lemma_tokenize_step(
                            inp,
                            pos0,
                            pcur,
                            self.position as int,
                            out@,
                            TokenV::Op(CompOp::Eq),
                        );
                    }
                } else {
                    return Result::Err(LexError::UnexpectedChar('='));
                }
            } else if c == '!' {
                if self.position + 1 < n && self.input[self.position + 1] == '=' {
                    self.position = self.position + 2;
                    push_token(&mut out, Token::Op(CompOp::Ne));
                    proof {
                        lemma_tokenize_step(
                            inp,
                            pos0,
                            pcur,
                            self.position as int,
                            out@,
                            TokenV::Op(CompOp::Ne),
                        );
                    }
                } else {
                    return Result::Err(LexError::UnexpectedChar('!'));
                }
            } else if c == '>' {
                if self.position + 1 < n && self.input[self.position + 1] == '=' {
                    self.position = self.position + 2;
                    push_token(&mut out, Token::Op(CompOp::Ge));
                    proof {
                        lemma_tokenize_step(
                            inp,
                            pos0,
                            pcur,
                            self.position as int,
                            out@,
                            TokenV::Op(CompOp::Ge),
                        );
                    }
                } else {
                    self.position = self.position + 1;
                    push_token(&mut out, Token::Op(CompOp::Gt));
                    proof {
                        lemma_tokenize_step(
                            inp,
                            pos0,
                            pcur,
                            self.position as int,
                            out@,
                            TokenV::Op(CompOp::Gt),
                        );
                    }
                }
            } else if c == '<' {
                if self.position + 1 < n && self.input[self.position + 1] == '=' {
                    self.position = self.position + 2;
                    push_token(&mut out, Token::Op(CompOp::Le));
                    proof {
                        lemma_tokenize_step(
                            inp,
                            pos0,
                            pcur,
                            self.position as int,
                            out@,
                            TokenV::Op(CompOp::Le),
                        );
                    }
                } else {
                    self.position = self.position + 1;
                    push_token(&mut out, Token::Op(CompOp::Lt));
                    proof {
                        lemma_tokenize_step(
                            inp,
                            pos0,
                            pcur,
                            self.position as int,
                            out@,
                            TokenV::Op(CompOp::Lt),
                        );
                    }
                }
            } else if c == '"' {
                self.position = self.position + 1;
                match self.read_string() {
                    Result::Ok(t) => {
                        let ghost tv = t@;
                        push_token(&mut out, t);
                        proof {
                            lemma_tokenize_step(inp, pos0, pcur, self.position as int, out@, tv);
                        }
                    },
                    Result::Err(e) => {
                        return Result::Err(e);
                    },
                }
            } else if (('0' as u32) <= (c as u32) && (c as u32) <= ('9' as u32)) || c == '-' {
                match self.read_number() {
                    Result::Ok(t) => {
                        let ghost tv = t@;
                        push_token(&mut out, t);
                        proof {
                            lemma_tokenize_step(inp, pos0, pcur, self.position as int, out@, tv);
                        }
                    },
                    Result::Err(e) => {
                        return Result::Err(e);
                    },
                }
            } else if (('a' as u32) <= (c as u32) && (c as u32) <= ('z' as u32)) || (('A' as u32)
                <= (c as u32) && (c as u32) <= ('Z' as u32)) || c == '_' {
                let t = self.read_identifier();
                let ghost tv = t@;
                push_token(&mut out, t);
                proof {
                    lemma_tokenize_step(inp, pos0, pcur, self.position as int, out@, tv);
                }
            } else {
                return Result::Err(LexError::UnexpectedChar(c));
            }
        }
    }

    /// Read a string literal's content; the position stands just after the
    /// opening quote and ends just after the closing quote.
    fn read_string(&mut self) -> (r: Result<Token, LexError>)
        requires
            old(self).position <= old(self).input@.len(),
        ensures
            final(self).input@ == old(self).input@,
            match r {
                Result::Ok(t) => {
                    &&& lex_string(old(self).input@, old(self).position as int) is Ok
                    &&& t@ == TokenV::StringLiteral(
                        lex_string(old(self).input@, old(self).position as int)->Ok_0.0,
                    )
                    &&& final(self).position == lex_string(
                        old(self).input@,
                        old(self).position as int,
                    )->Ok_0.1
                    &&& old(self).position < final(self).position <= old(self).input@.len()
                },
                Result::Err(e) => lex_string(old(self).input@, old(self).position as int)
                    == Result::Err::<(Seq<char>, int), LexError>(e),
            },
    {
        let ghost inp = self.input@;
        let ghost pos0 = self.position as int;
        let mut buf = String::new();
        proof {
            match lex_string(inp, pos0) {
                Result::Ok((rest, np)) => {
                    assert(buf@.add(rest) =~= rest);
                },
                Result::Err(_) => {},
            }
        }
        loop
            invariant
                inp == old(self).input@,
                pos0 == old(self).position as int,
                self.input@ == inp,
                pos0 <= self.position as int <= inp.len(),
                lex_string(inp, pos0) == match lex_string(inp, self.position as int) {
                    Result::Ok((rest, np)) => Result::Ok::<(Seq<char>, int), LexError>(
                        (buf@.add(rest), np),
                    ),
                    Result::Err(e) => Result::Err::<(Seq<char>, int), LexError>(e),
                },
            decreases inp.len() - self.position,
        {
            if self.position >= self.input.len() {
                return Result::Err(LexError::UnterminatedString);
            }
            let c = self.input[self.position];
            if c == '"' {
                self.position = self.position + 1;
                proof {
                    assert(buf@.add(Seq::<char>::empty()) =~= buf@);
                }
                return Result::Ok(Token::StringLiteral(buf));
            } else if c == '\\' {
                if self.position + 1 >= self.input.len() {
                    return Result::Err(LexError::UnterminatedString);
                }
                let c2 = self.input[self.position + 1];
                let e = if c2 == 'n' {
                    '\n'
                } else if c2 == 'r' {
                    '\r'
                } else if c2 == 't' {
                    '\t'
                } else {
                    c2
                };
                let ghost bpre = buf@;
                push_char(&mut buf, e);
                self.position = self.position + 2;
                proof {
                    assert(e == esc_char(c2));
                    match lex_string(inp, self.position as int) {
                        Result::Ok((rest, np)) => {
                            assert(bpre.add(seq![e].add(rest)) =~= buf@.add(rest));
                        },
                        Result::Err(_) => {},
                    }
                }
            } else {
                let ghost bpre = buf@;
                push_char(&mut buf, c);
                self.position = self.position + 1;
                proof {
                    match lex_string(inp, self.position as int) {
                        Result::Ok((rest, np)) => {
                            assert(bpre.add(seq![c].add(rest)) =~= buf@.add(rest));
                        },
                        Result::Err(_) => {},
                    }
                }
            }
        }
    }

    /// Read a number literal starting at the current position.
    fn read_number(&mut self) -> (r: Result<Token, LexError>)
        requires
            old(self).position < old(self).input@.len(),
            is_digit(old(self).input@[old(self).position as int]) || old(self).input@[old(
                self,
            ).position as int] == '-',
        ensures
            final(self).input@ == old(self).input@,
            match r {
                Result::Ok(t) => {
                    &&& lex_number(old(self).input@, old(self).position as int) is Ok
                    &&& t@ == TokenV::NumberLiteral(
                        lex_number(old(self).input@, old(self).position as int)->Ok_0.0,
                    )
                    &&& wf_token(t@)
                    &&& final(self).position == lex_number(
                        old(self).input@,
                        old(self).position as int,
                    )->Ok_0.1
                    &&& old(self).position < final(self).position <= old(self).input@.len()
                },
                Result::Err(e) => lex_number(old(self).input@, old(self).position as int)
                    == Result::Err::<(Number, int), LexError>(e),
            },
    {
        let ghost inp = self.input@;
        let ghost pos0 = self.position as int;
        let neg = self.input[self.position] == '-';
        if neg {
            let n0 = self.input.len();
            proof {
                assert(self.position < n0);
            }
            self.position = self.position + 1;
        }
        let p0 = self.position;
        while digit_at(&self.input, self.position)
            invariant
                inp == old(self).input@,
                self.input@ == inp,
                p0 <= self.position as int <= inp.len(),
                scan_digits(inp, p0 as int) == scan_digits(inp, self.position as int),
            decreases inp.len() - self.position,
        {
            let n = self.input.len();
            proof {
                assert(self.position < n);
            }
            self.position = self.position + 1;
        }
        let p1 = self.position;
        proof {
            assert(scan_digits(inp, p1 as int) == p1 as int);
            lemma_scan_digits(inp, p0 as int);
        }
        let has_dot = self.position < self.input.len() && self.input[self.position] == '.';
        let frac_follows = has_dot && self.position + 1 < self.input.len() && {
            let c = self.input[self.position + 1];
            ('0' as u32) <= (c as u32) && (c as u32) <= ('9' as u32)
        };
        if has_dot && frac_follows {
            self.position = self.position + 1;
            let pf0 = self.position;
            while digit_at(&self.input, self.position)
                invariant
                    inp == old(self).input@,
                        self.input@ == inp,
                    pf0 <= self.position as int <= inp.len(),
                    scan_digits(inp, pf0 as int) == scan_digits(inp, self.position as int),
                decreases inp.len() - self.position,
            {
                let n = self.input.len();
                proof {
                    assert(self.position < n);
                }
                self.position = self.position + 1;
            }
            let p2 = self.position;
            proof {
                assert(scan_digits(inp, p2 as int) == p2 as int);
                lemma_scan_digits(inp, pf0 as int);
                assert(scan_digits(inp, p1 as int + 1) == p2 as int);
            }
            let int_count = p1 - p0;
            let scale = p2 - pf0;
            if int_count + scale > 19 || scale > 18 {
                return Result::Err(LexError::NumberOverflow);
            }
            let int_acc = digits_to_u128(&self.input, p0, p1);
            let frac_acc = digits_to_u128(&self.input, pf0, p2);
            let p = pow10_u128(scale as u32);
            proof {
                lemma_digits_bound(inp, p0 as int, p1 as int);
                lemma_digits_bound(inp, pf0 as int, p2 as int);
                lemma_pow10_le_19(scale as nat);
                assert((int_acc as int) * (p as int) + (frac_acc as int)
                    < 0x1_0000_0000_0000_0000_0000_0000_0000_0000) by (nonlinear_arith)
                    requires
                        0 <= (int_acc as int) < 10_000_000_000_000_000_000,
                        0 <= (frac_acc as int) < 10_000_000_000_000_000_000,
                        1 <= (p as int) <= 10_000_000_000_000_000_000,
                ;
            }
            let mag: u128 = (int_acc as u128) * (p as u128) + (frac_acc as u128);
            if mag > 0x7fff_ffff_ffff_ffffu128 {
                return Result::Err(LexError::NumberOverflow);
            }
            let m64 = mag as i64;
            let mantissa = if neg {
                -m64
            } else {
                m64
            };
            Result::Ok(Token::NumberLiteral(Number { mantissa, scale: scale as u32 }))
        } else if has_dot {
            return Result::Err(LexError::MalformedNumber);
        } else if p1 == p0 {
            return Result::Err(LexError::MalformedNumber);
        } else {
            if p1 - p0 > 19 {
                return Result::Err(LexError::NumberOverflow);
            }
            let acc = digits_to_u128(&self.input, p0, p1);
            proof {
                lemma_digits_bound(inp, p0 as int, p1 as int);
            }
            if acc > 0x7fff_ffff_ffff_ffffu128 {
                return Result::Err(LexError::NumberOverflow);
            }
            let m64 = acc as i64;
            let mantissa = if neg {
                -m64
            } else {
                m64
            };
            Result::Ok(Token::NumberLiteral(Number { mantissa, scale: 0 }))
        }
    }

    /// Read an identifier or reserved word starting at the current position.
    fn read_identifier(&mut self) -> (r: Token)
        requires
            old(self).position < old(self).input@.len(),
            is_alpha(old(self).input@[old(self).position as int]),
        ensures
            final(self).input@ == old(self).input@,
            final(self).position == scan_ident(old(self).input@, old(self).position as int),
            old(self).position < final(self).position <= old(self).input@.len(),
            r@ == ident_token(
                old(self).input@.subrange(old(self).position as int, final(self).position as int),
            ),
            wf_token(r@),
    {
        let ghost inp = self.input@;
        let p0 = self.position;
        let mut buf = String::new();
        proof {
            assert(buf@ =~= inp.subrange(p0 as int, p0 as int));
        }
        while alnum_at(&self.input, self.position)
            invariant
                inp == old(self).input@,
                self.input@ == inp,
                p0 <= self.position as int <= inp.len(),
                scan_ident(inp, p0 as int) == scan_ident(inp, self.position as int),
                buf@ == inp.subrange(p0 as int, self.position as int),
            decreases inp.len() - self.position,
        {
            let n = self.input.len();
            proof {
                assert(self.position < n);
            }
            let c = self.input[self.position];
            push_char(&mut buf, c);
            self.position = self.position + 1;
            proof {
                assert(buf@ =~= inp.subrange(p0 as int, self.position as int));
            }
        }
        proof {
            assert(scan_ident(inp, self.position as int) == self.position as int);
            lemma_scan_ident(inp, p0 as int);
        }
        let w = buf;
        let ghost wv = w@;
        let n = self.position - p0;
        // classify the reserved words by their characters
        if n == 4 && self.input[p0] == 't' && self.input[p0 + 1] == 'r' && self.input[p0 + 2]
            == 'u' && self.input[p0 + 3] == 'e' {
            proof {
                assert(wv =~= kw_true());
            }
            Token::BoolLiteral(true)
        } else if n == 5 && self.input[p0] == 'f' && self.input[p0 + 1] == 'a' && self.input[p0
            + 2] == 'l' && self.input[p0 + 3] == 's' && self.input[p0 + 4] == 'e' {
            proof {
                assert(wv =~= kw_false());
            }
            Token::BoolLiteral(false)
        } else if n == 4 && self.input[p0] == 'n' && self.input[p0 + 1] == 'u' && self.input[p0
            + 2] == 'l' && self.input[p0 + 3] == 'l' {
            proof {
                assert(wv =~= kw_null());
            }
            Token::Null
        } else {
            proof {
                if wv == kw_true() {
                    assert(wv.len() == 4 && wv[0] == 't' && wv[1] == 'r' && wv[2] == 'u' && wv[3]
                        == 'e');
                    assert(false);
                }
                if wv == kw_false() {
                    assert(wv.len() == 5 && wv[0] == 'f' && wv[1] == 'a' && wv[2] == 'l' && wv[3]
                        == 's' && wv[4] == 'e');
                    assert(false);
                }
                if wv == kw_null() {
                    assert(wv.len() == 4 && wv[0] == 'n' && wv[1] == 'u' && wv[2] == 'l' && wv[3]
                        == 'l');
                    assert(false);
                }
            }
            Token::Identifier(w)
        }
    }
}

/// `10^scale` exactly, for scales up to 18.
fn pow10_u128(scale: u32) -> (r: u128)
    requires
        scale <= 18,
    ensures
        r as int == pow10(scale as nat),
        1 <= r,
{
    let p = crate::value::pow10_i64(scale);
    p as u128
}

/// A copy of a token with the same model.
fn dup_token(t: &Token) -> (r: Token)
    ensures
        r@ == t@,
{
    match t {
        Token::Dot => Token::Dot,
        Token::DotDot => Token::DotDot,
        Token::Pipe => Token::Pipe,
        Token::Comma => Token::Comma,
        Token::LeftBracket => Token::LeftBracket,
        Token::RightBracket => Token::RightBracket,
        Token::LeftBrace => Token::LeftBrace,
        Token::RightBrace => Token::RightBrace,
        Token::Colon => Token::Colon,
        Token::Question => Token::Question,
        Token::LeftParen => Token::LeftParen,
        Token::RightParen => Token::RightParen,
        Token::Op(o) => Token::Op(*o),
        Token::Identifier(s) => Token::Identifier(s.clone()),
        Token::StringLiteral(s) => Token::StringLiteral(s.clone()),
        Token::NumberLiteral(n) => Token::NumberLiteral(*n),
        Token::BoolLiteral(b) => Token::BoolLiteral(*b),
        Token::Null => Token::Null,
    }
}

/// The array index a number literal denotes, truncated toward zero.
fn index_exec(n: &Number) -> (r: i64)
    requires
        n.scale <= 18,
        n.mantissa > i64::MIN,
    ensures
        r == index_of_number(*n),
{
    let p = crate::value::pow10_i64(n.scale);
    if n.mantissa >= 0 {
        ((n.mantissa as u64) / (p as u64)) as i64
    } else {
        -((((-n.mantissa) as u64) / (p as u64)) as i64)
    }
}

fn is_kw_select(s: &str) -> (r: bool)
    ensures
        r == (s@ == kw_select()),
{
    let n = s.unicode_len();
    if n == 6 && s.get_char(0) == 's' && s.get_char(1) == 'e' && s.get_char(2) == 'l'
        && s.get_char(3) == 'e' && s.get_char(4) == 'c' && s.get_char(5) == 't' {
        proof {
            assert(s@ =~= kw_select());
        }
        true
    } else {
        proof {
            if s@ == kw_select() {
                assert(s@.len() == 6 && s@[0] == 's' && s@[1] == 'e' && s@[2] == 'l' && s@[3]
                    == 'e' && s@[4] == 'c' && s@[5] == 't');
            }
        }
        false
    }
}

fn is_kw_map(s: &str) -> (r: bool)
    ensures
        r == (s@ == kw_map()),
{
    let n = s.unicode_len();
    if n == 3 && s.get_char(0) == 'm' && s.get_char(1) == 'a' && s.get_char(2) == 'p' {
        proof {
            assert(s@ =~= kw_map());
        }
        true
    } else {
        proof {
            if s@ == kw_map() {
                assert(s@.len() == 3 && s@[0] == 'm' && s@[1] == 'a' && s@[2] == 'p');
            }
        }
        false
    }
}

fn is_kw_keys(s: &str) -> (r: bool)
    ensures
        r == (s@ == kw_keys()),
{
    let n = s.unicode_len();
    if n == 4 && s.get_char(0) == 'k' && s.get_char(1) == 'e' && s.get_char(2) == 'y'
        && s.get_char(3) == 's' {
        proof {
            assert(s@ =~= kw_keys());
        }
        true
    } else {
        proof {
            if s@ == kw_keys() {
                assert(s@.len() == 4 && s@[0] == 'k' && s@[1] == 'e' && s@[2] == 'y' && s@[3]
                    == 's');
            }
        }
        false
    }
}

fn is_kw_length(s: &str) -> (r: bool)
    ensures
        r == (s@ == kw_length()),
{
    let n = s.unicode_len();
    if n == 6 && s.get_char(0) == 'l' && s.get_char(1) == 'e' && s.get_char(2) == 'n'
        && s.get_char(3) == 'g' && s.get_char(4) == 't' && s.get_char(5) == 'h' {
        proof {
            assert(s@ =~= kw_length());
        }
        true
    } else {
        proof {
            if s@ == kw_length() {
                assert(s@.len() == 6 && s@[0] == 'l' && s@[1] == 'e' && s@[2] == 'n' && s@[3]
                    == 'g' && s@[4] == 't' && s@[5] == 'h');
            }
        }
        false
    }
}

/// A copy of a string with the same characters.
fn clone_string(s: &String) -> (r: String)
    ensures
        r@ == s@,
{
    s.clone()
}

/// Parser for query expressions: a recursive descent over the token list.
pub struct Parser {
    pub tokens: Vec<Token>,
    pub position: usize,
}

impl Parser {
    /// The models of the tokens.
    pub open spec fn toks(&self) -> Seq<TokenV> {
        view_tokens(self.tokens@)
    }

    /// Create a new parser from a vector of tokens.
    pub fn new(tokens: Vec<Token>) -> (r: Parser)
        ensures
            r.tokens == tokens,
            r.position == 0,
    {
        Parser { tokens, position: 0 }
    }

    /// Parse the tokens into an expression, consuming the entire stream:
    /// tokens left over after a complete expression are a syntax error.
    pub fn parse(&mut self) -> (r: Result<Expression, ParseError>)
        requires
            wf_tokens(old(self).toks()),
            old(self).position == 0,
        ensures
            final(self).tokens@ == old(self).tokens@,
            match r {
                Result::Ok(e) => parse_full(old(self).toks()) == Result::Ok::<ExprV, ParseErrV>(
                    e@,
                ),
                Result::Err(pe) => parse_full(old(self).toks()) == Result::Err::<
                    ExprV,
                    ParseErrV,
                >(pe@),
            },
    {
        proof {
            lemma_view_tokens(self.tokens@);
        }
        match self.parse_expression() {
            Result::Err(pe) => Result::Err(pe),
            Result::Ok(e) => {
                proof {
                    lemma_view_tokens(self.tokens@);
                }
                if self.position < self.tokens.len() {
                    let t = dup_token(&self.tokens[self.position]);
                    Result::Err(ParseError::UnexpectedToken(t))
                } else {
                    Result::Ok(e)
                }
            },
        }
    }

    /// Parse a pipe chain.
    pub fn parse_expression(&mut self) -> (r: Result<Expression, ParseError>)
        requires
            wf_tokens(old(self).toks()),
            old(self).position as int <= old(self).toks().len(),
        ensures
            final(self).tokens@ == old(self).tokens@,
            final(self).position as int <= final(self).toks().len(),
            match r {
                Result::Ok(e) => parse_pipe(old(self).toks(), old(self).position as int)
                    == Result::Ok::<(ExprV, int), ParseErrV>((e@, final(self).position as int))
                    && old(self).position < final(self).position,
                Result::Err(pe) => parse_pipe(old(self).toks(), old(self).position as int)
                    == Result::Err::<(ExprV, int), ParseErrV>(pe@),
            },
        decreases old(self).tokens@.len() - old(self).position, 5int,
    {
        match self.parse_simple_expression() {
            Result::Err(pe) => Result::Err(pe),
            Result::Ok(e) => {
                proof {
                    lemma_view_tokens(self.tokens@);
                }
                self.parse_pipe_rest(e)
            },
        }
    }

    /// Fold further `| simple` steps onto the expression parsed so far.
    fn parse_pipe_rest(&mut self, acc: Expression) -> (r: Result<Expression, ParseError>)
        requires
            wf_tokens(old(self).toks()),
            old(self).position as int <= old(self).toks().len(),
        ensures
            final(self).tokens@ == old(self).tokens@,
            final(self).position as int <= final(self).toks().len(),
            match r {
                Result::Ok(e) => parse_pipe_rest(
                    old(self).toks(),
                    old(self).position as int,
                    acc@,
                ) == Result::Ok::<(ExprV, int), ParseErrV>((e@, final(self).position as int))
                    && old(self).position <= final(self).position,
                Result::Err(pe) => parse_pipe_rest(
                    old(self).toks(),
                    old(self).position as int,
                    acc@,
                ) == Result::Err::<(ExprV, int), ParseErrV>(pe@),
            },
        decreases old(self).tokens@.len() - old(self).position, 4int,
    {
        proof {
            lemma_view_tokens(self.tokens@);
        }
        let more = self.position < self.tokens.len() && match &self.tokens[self.position] {
            Token::Pipe => true,
            _ => false,
        };
        if more {
            self.position = self.position + 1;
            match self.parse_simple_expression() {
                Result::Err(pe) => Result::Err(pe),
                Result::Ok(rhs) => {
                    let ghost accv = acc@;
                    let ghost rhsv = rhs@;
                    let bl = Box::new(acc);
                    let br = Box::new(rhs);
                    proof {
                        assert((*bl)@ == accv);
                        assert((*br)@ == rhsv);
                    }
                    let combined = Expression::Pipe(bl, br);
                    proof {
                        assert(combined@ =~= ExprV::Pipe(Box::new(accv), Box::new(rhsv)));
                    }
                    self.parse_pipe_rest(combined)
                },
            }
        } else {
            Result::Ok(acc)
        }
    }

    /// Parse a simple expression: a dotted path, `..`, an array or object
    /// template, or one of the named productions.
    pub fn parse_simple_expression(&mut self) -> (r: Result<Expression, ParseError>)
        requires
            wf_tokens(old(self).toks()),
            old(self).position as int <= old(self).toks().len(),
        ensures
            final(self).tokens@ == old(self).tokens@,
            final(self).position as int <= final(self).toks().len(),
            match r {
                Result::Ok(e) => parse_simple(old(self).toks(), old(self).position as int)
                    == Result::Ok::<(ExprV, int), ParseErrV>((e@, final(self).position as int))
                    && old(self).position < final(self).position,
                Result::Err(pe) => parse_simple(old(self).toks(), old(self).position as int)
                    == Result::Err::<(ExprV, int), ParseErrV>(pe@),
            },
        decreases old(self).tokens@.len() - old(self).position, 3int,
    {
        proof {
            lemma_view_tokens(self.tokens@);
        }
        if self.position >= self.tokens.len() {
            return Result::Err(ParseError::UnexpectedEof);
        }
        let i = self.position;
        match &self.tokens[i] {
            Token::Dot => {
                let terminated = i + 1 >= self.tokens.len() || match &self.tokens[i + 1] {
                    Token::Pipe => true,
                    Token::Comma => true,
                    Token::RightBracket => true,
                    Token::RightBrace => true,
                    Token::RightParen => true,
                    Token::Op(_) => true,
                    _ => false,
                };
                if terminated {
                    self.position = i + 1;
                    return Result::Ok(Expression::Identity);
                }
                match &self.tokens[i + 1] {
                    Token::Identifier(w) => {
                        let name = w.clone();
                        self.position = i + 2;
                        self.parse_suffixes(Expression::Property(name))
                    },
                    Token::StringLiteral(w) => {
                        let name = w.clone();
                        self.position = i + 2;
                        self.parse_suffixes(Expression::Property(name))
                    },
                    Token::LeftBracket => {
                        self.position = i + 2;
                        match self.parse_bracket() {
                            Result::Err(pe) => Result::Err(pe),
                            Result::Ok(node) => self.parse_suffixes(node),
                        }
                    },
                    _ => {
                        let t = dup_token(&self.tokens[i + 1]);
                        Result::Err(ParseError::UnexpectedToken(t))
                    },
                }
            },
            Token::DotDot => {
                self.position = i + 1;
                Result::Ok(Expression::RecursiveDescent)
            },
            Token::LeftBracket => {
                let empty_arr = i + 1 < self.tokens.len() && match &self.tokens[i + 1] {
                    Token::RightBracket => true,
                    _ => false,
                };
                if empty_arr {
                    self.position = i + 2;
                    proof {
                        assert(view_exprs(Seq::<Expression>::empty()) =~= Seq::<ExprV>::empty());
                    }
                    Result::Ok(Expression::ArrayConstruct(Vec::new()))
                } else {
                    self.position = i + 1;
                    let acc: Vec<Expression> = Vec::new();
                    proof {
                        assert(view_exprs(acc@) =~= Seq::<ExprV>::empty());
                    }
                    self.parse_array_items(acc)
                }
            },
            Token::LeftBrace => {
                let empty_obj = i + 1 < self.tokens.len() && match &self.tokens[i + 1] {
                    Token::RightBrace => true,
                    _ => false,
                };
                if empty_obj {
                    self.position = i + 2;
                    proof {
                        assert(view_expr_pairs(Seq::<(String, Expression)>::empty()) =~= Seq::<
                            (Seq<char>, ExprV),
                        >::empty());
                    }
                    Result::Ok(Expression::ObjectConstruct(Vec::new()))
                } else {
                    self.position = i + 1;
                    let acc: Vec<(String, Expression)> = Vec::new();
                    proof {
                        assert(view_expr_pairs(acc@) =~= Seq::<(Seq<char>, ExprV)>::empty());
                    }
                    self.parse_object_items(acc)
                }
            },
            Token::Identifier(w) => {
                if is_kw_keys(w.as_str()) {
                    self.position = i + 1;
                    Result::Ok(Expression::Keys)
                } else if is_kw_length(w.as_str()) {
                    self.position = i + 1;
                    Result::Ok(Expression::Length)
                } else if is_kw_select(w.as_str()) {
                    self.position = i + 1;
                    self.parse_select_body()
                } else if is_kw_map(w.as_str()) {
                    if i + 1 >= self.tokens.len() {
                        return Result::Err(ParseError::UnexpectedEof);
                    }
                    let lparen = match &self.tokens[i + 1] {
                        Token::LeftParen => true,
                        _ => false,
                    };
                    if !lparen {
                        let t = dup_token(&self.tokens[i + 1]);
                        return Result::Err(ParseError::Expected(Token::LeftParen, t));
                    }
                    self.position = i + 2;
                    match self.parse_expression() {
                        Result::Err(pe) => Result::Err(pe),
                        Result::Ok(body) => {
                            if self.position >= self.tokens.len() {
                                return Result::Err(ParseError::UnexpectedEof);
                            }
                            let rparen = match &self.tokens[self.position] {
                                Token::RightParen => true,
                                _ => false,
                            };
                            if rparen {
                                self.position = self.position + 1;
                                let ghost bodyv = body@;
                                let bb = Box::new(body);
                                proof {
                                    assert((*bb)@ == bodyv);
                                }
                                let me = Expression::MapEach(bb);
                                proof {
                                    assert(me@ =~= ExprV::MapEach(Box::new(bodyv)));
                                }
                                Result::Ok(me)
                            } else {
                                let t = dup_token(&self.tokens[self.position]);
                                Result::Err(ParseError::Expected(Token::RightParen, t))
                            }
                        },
                    }
                } else {
                    let t = dup_token(&self.tokens[i]);
                    Result::Err(ParseError::UnexpectedToken(t))
                }
            },
            _ => {
                let t = dup_token(&self.tokens[i]);
                Result::Err(ParseError::UnexpectedToken(t))
            },
        }
    }

    /// Fold `.name` and bracket suffixes onto the base expression.
    fn parse_suffixes(&mut self, acc: Expression) -> (r: Result<Expression, ParseError>)
        requires
            wf_tokens(old(self).toks()),
            old(self).position as int <= old(self).toks().len(),
        ensures
            final(self).tokens@ == old(self).tokens@,
            final(self).position as int <= final(self).toks().len(),
            match r {
                Result::Ok(e) => parse_suffixes(
                    old(self).toks(),
                    old(self).position as int,
                    acc@,
                ) == Result::Ok::<(ExprV, int), ParseErrV>((e@, final(self).position as int))
                    && old(self).position <= final(self).position,
                Result::Err(pe) => parse_suffixes(
                    old(self).toks(),
                    old(self).position as int,
                    acc@,
                ) == Result::Err::<(ExprV, int), ParseErrV>(pe@),
            },
        decreases old(self).tokens@.len() - old(self).position, 1int,
    {
        proof {
            lemma_view_tokens(self.tokens@);
        }
        let i = self.position;
        let dotted = i < self.tokens.len() && match &self.tokens[i] {
            Token::Dot => true,
            _ => false,
        } && i + 1 < self.tokens.len() && match &self.tokens[i + 1] {
            Token::Identifier(_) => true,
            Token::StringLiteral(_) => true,
            _ => false,
        };
        if dotted {
            let name = match &self.tokens[i + 1] {
                Token::Identifier(w) => w.clone(),
                Token::StringLiteral(w) => w.clone(),
                _ => String::new(),
            };
            let ghost accv = acc@;
            let ghost namev = name@;
            self.position = i + 2;
            let bl = Box::new(acc);
            let br = Box::new(Expression::Property(name));
            proof {
                assert((*bl)@ == accv);
                assert((*br)@ == ExprV::Property(namev));
            }
            let combined = Expression::Pipe(bl, br);
            proof {
                assert(combined@ =~= ExprV::Pipe(Box::new(accv), Box::new(ExprV::Property(namev))));
            }
            self.parse_suffixes(combined)
        } else {
            let bracketed = i < self.tokens.len() && match &self.tokens[i] {
                Token::LeftBracket => true,
                _ => false,
            };
            if bracketed {
                self.position = i + 1;
                match self.parse_bracket() {
                    Result::Err(pe) => Result::Err(pe),
                    Result::Ok(node) => {
                        let ghost accv2 = acc@;
                        let ghost nodev = node@;
                        let bl = Box::new(acc);
                        let br = Box::new(node);
                        proof {
                            assert((*bl)@ == accv2);
                            assert((*br)@ == nodev);
                        }
                        let combined = Expression::Pipe(bl, br);
                        proof {
                            assert(combined@ =~= ExprV::Pipe(Box::new(accv2), Box::new(nodev)));
                        }
                        self.parse_suffixes(combined)
                    },
                }
            } else {
                Result::Ok(acc)
            }
        }
    }

    /// A bracket form, entered just after the `[`.
    fn parse_bracket(&mut self) -> (r: Result<Expression, ParseError>)
        requires
            wf_tokens(old(self).toks()),
            old(self).position as int <= old(self).toks().len(),
        ensures
            final(self).tokens@ == old(self).tokens@,
            final(self).position as int <= final(self).toks().len(),
            match r {
                Result::Ok(e) => parse_bracket(old(self).toks(), old(self).position as int)
                    == Result::Ok::<(ExprV, int), ParseErrV>((e@, final(self).position as int))
                    && old(self).position < final(self).position,
                Result::Err(pe) => parse_bracket(old(self).toks(), old(self).position as int)
                    == Result::Err::<(ExprV, int), ParseErrV>(pe@),
            },
    {
        proof {
            lemma_view_tokens(self.tokens@);
        }
        let i = self.position;
        if i >= self.tokens.len() {
            return Result::Err(ParseError::UnexpectedEof);
        }
        match &self.tokens[i] {
            Token::RightBracket => {
                self.position = i + 1;
                Result::Ok(Expression::Iterate)
            },
            Token::NumberLiteral(n) => {
                let nv = *n;
                if i + 1 >= self.tokens.len() {
                    return Result::Err(ParseError::UnexpectedEof);
                }
                match &self.tokens[i + 1] {
                    Token::Colon => {
                        let second_num = i + 2 < self.tokens.len() && match &self.tokens[i + 2] {
                            Token::NumberLiteral(_) => true,
                            _ => false,
                        };
                        if second_num {
                            let m = match &self.tokens[i + 2] {
                                Token::NumberLiteral(m) => *m,
                                _ => nv,
                            };
                            if i + 3 >= self.tokens.len() {
                                return Result::Err(ParseError::UnexpectedEof);
                            }
                            match &self.tokens[i + 3] {
                                Token::RightBracket => {
                                    self.position = i + 4;
                                    let lo = index_exec(&nv);
                                    let hi = index_exec(&m);
                                    Result::Ok(
                                        Expression::Slice(Option::Some(lo), Option::Some(hi)),
                                    )
                                },
                                _ => {
                                    let t = dup_token(&self.tokens[i + 3]);
                                    Result::Err(ParseError::Expected(Token::RightBracket, t))
                                },
                            }
                        } else if i + 2 >= self.tokens.len() {
                            Result::Err(ParseError::UnexpectedEof)
                        } else {
                            match &self.tokens[i + 2] {
                                Token::RightBracket => {
                                    self.position = i + 3;
                                    let lo = index_exec(&nv);
                                    Result::Ok(Expression::Slice(Option::Some(lo), Option::None))
                                },
                                _ => {
                                    let t = dup_token(&self.tokens[i + 2]);
                                    Result::Err(ParseError::Expected(Token::RightBracket, t))
                                },
                            }
                        }
                    },
                    Token::RightBracket => {
                        self.position = i + 2;
                        let idx = index_exec(&nv);
                        Result::Ok(Expression::Index(idx))
                    },
                    _ => {
                        let t = dup_token(&self.tokens[i + 1]);
                        Result::Err(ParseError::Expected(Token::RightBracket, t))
                    },
                }
            },
            Token::Colon => {
                if i + 1 >= self.tokens.len() {
                    return Result::Err(ParseError::UnexpectedEof);
                }
                match &self.tokens[i + 1] {
                    Token::NumberLiteral(m) => {
                        let mv = *m;
                        if i + 2 >= self.tokens.len() {
                            return Result::Err(ParseError::UnexpectedEof);
                        }
                        match &self.tokens[i + 2] {
                            Token::RightBracket => {
                                self.position = i + 3;
                                let hi = index_exec(&mv);
                                Result::Ok(Expression::Slice(Option::None, Option::Some(hi)))
                            },
                            _ => {
                                let t = dup_token(&self.tokens[i + 2]);
                                Result::Err(ParseError::Expected(Token::RightBracket, t))
                            },
                        }
                    },
                    Token::RightBracket => {
                        self.position = i + 2;
                        Result::Ok(Expression::Slice(Option::None, Option::None))
                    },
                    _ => {
                        let t = dup_token(&self.tokens[i + 1]);
                        Result::Err(ParseError::Expected(Token::RightBracket, t))
                    },
                }
            },
            _ => {
                let t = dup_token(&self.tokens[i]);
                Result::Err(ParseError::UnexpectedToken(t))
            },
        }
    }

    /// The parenthesised predicate of a `select`, entered at the `(`.
    #[verifier::rlimit(100)]
    fn parse_select_body(&mut self) -> (r: Result<Expression, ParseError>)
        requires
            wf_tokens(old(self).toks()),
            old(self).position as int <= old(self).toks().len(),
        ensures
            final(self).tokens@ == old(self).tokens@,
            final(self).position as int <= final(self).toks().len(),
            match r {
                Result::Ok(e) => parse_select(old(self).toks(), old(self).position as int)
                    == Result::Ok::<(ExprV, int), ParseErrV>((e@, final(self).position as int))
                    && old(self).position < final(self).position,
                Result::Err(pe) => parse_select(old(self).toks(), old(self).position as int)
                    == Result::Err::<(ExprV, int), ParseErrV>(pe@),
            },
        decreases old(self).tokens@.len() - old(self).position, 2int,
    {
        proof {
            lemma_view_tokens(self.tokens@);
        }
        let i = self.position;
        if i >= self.tokens.len() {
            return Result::Err(ParseError::UnexpectedEof);
        }
        let lparen = match &self.tokens[i] {
            Token::LeftParen => true,
            _ => false,
        };
        if !lparen {
            let t = dup_token(&self.tokens[i]);
            return Result::Err(ParseError::Expected(Token::LeftParen, t));
        }
        self.position = i + 1;
        match self.parse_simple_expression() {
            Result::Err(pe) => Result::Err(pe),
            Result::Ok(l) => {
                proof {
                    lemma_view_tokens(self.tokens@);
                }
                let k2 = self.position;
                if k2 >= self.tokens.len() {
                    return Result::Err(ParseError::UnexpectedEof);
                }
                match &self.tokens[k2] {
                    Token::Op(op) => {
                        let opv = *op;
                        if k2 + 1 >= self.tokens.len() {
                            return Result::Err(ParseError::UnexpectedEof);
                        }
                        let str_lit = match &self.tokens[k2 + 1] {
                            Token::StringLiteral(_) => true,
                            _ => false,
                        };
                        let rres = if str_lit {
                            let sv = match &self.tokens[k2 + 1] {
                                Token::StringLiteral(w) => w.clone(),
                                _ => String::new(),
                            };
                            self.position = k2 + 2;
                            Result::Ok(Expression::Literal(sv))
                        } else {
                            self.position = k2 + 1;
                            self.parse_simple_expression()
                        };
                        match rres {
                            Result::Err(pe) => Result::Err(pe),
                            Result::Ok(rexp) => {
                                proof {
                                    lemma_view_tokens(self.tokens@);
                                }
                                let m2 = self.position;
                                if m2 >= self.tokens.len() {
                                    return Result::Err(ParseError::UnexpectedEof);
                                }
                                match &self.tokens[m2] {
                                    Token::RightParen => {
                                        self.position = m2 + 1;
                                        let ghost lv = l@;
                                        let ghost rv = rexp@;
                                        let bl = Box::new(l);
                                        let br = Box::new(rexp);
                                        proof {
                                            assert((*bl)@ == lv);
                                            assert((*br)@ == rv);
                                        }
                                        let sel = Expression::Select(bl, opv, br);
                                        proof {
                                            assert(sel@ =~= ExprV::Select(
                                                Box::new(lv),
                                                opv,
                                                Box::new(rv),
                                            ));
                                        }
                                        Result::Ok(sel)
                                    },
                                    _ => {
                                        let t = dup_token(&self.tokens[m2]);
                                        Result::Err(ParseError::Expected(Token::RightParen, t))
                                    },
                                }
                            },
                        }
                    },
                    _ => {
                        let t = dup_token(&self.tokens[k2]);
                        Result::Err(ParseError::UnexpectedToken(t))
                    },
                }
            },
        }
    }

    /// The elements of an array template, entered after the `[`.
    fn parse_array_items(&mut self, acc: Vec<Expression>) -> (r: Result<Expression, ParseError>)
        requires
            wf_tokens(old(self).toks()),
            old(self).position as int <= old(self).toks().len(),
        ensures
            final(self).tokens@ == old(self).tokens@,
            final(self).position as int <= final(self).toks().len(),
            match r {
                Result::Ok(e) => parse_array_items(
                    old(self).toks(),
                    old(self).position as int,
                    view_exprs(acc@),
                ) == Result::Ok::<(ExprV, int), ParseErrV>((e@, final(self).position as int))
                    && old(self).position < final(self).position,
                Result::Err(pe) => parse_array_items(
                    old(self).toks(),
                    old(self).position as int,
                    view_exprs(acc@),
                ) == Result::Err::<(ExprV, int), ParseErrV>(pe@),
            },
        decreases old(self).tokens@.len() - old(self).position, 6int,
    {
        proof {
            lemma_view_tokens(self.tokens@);
            lemma_view_exprs(acc@);
        }
        let ghost acc0 = acc@;
        match self.parse_expression() {
            Result::Err(pe) => Result::Err(pe),
            Result::Ok(e) => {
                proof {
                    lemma_view_tokens(self.tokens@);
                }
                let ghost ev = e@;
                let mut acc2 = acc;
                acc2.push(e);
                proof {
                    lemma_view_exprs(acc2@);
                    assert(acc2@.drop_last() =~= acc0);
                    assert(view_exprs(acc2@) == view_exprs(acc0).push(ev));
                }
                let j2 = self.position;
                if j2 >= self.tokens.len() {
                    return Result::Err(ParseError::UnexpectedEof);
                }
                match &self.tokens[j2] {
                    Token::Comma => {
                        self.position = j2 + 1;
                        self.parse_array_items(acc2)
                    },
                    Token::RightBracket => {
                        self.position = j2 + 1;
                        Result::Ok(Expression::ArrayConstruct(acc2))
                    },
                    _ => {
                        let t = dup_token(&self.tokens[j2]);
                        Result::Err(ParseError::UnexpectedToken(t))
                    },
                }
            },
        }
    }

    /// The entries of an object template, entered after the `{`.
    fn parse_object_items(&mut self, acc: Vec<(String, Expression)>) -> (r: Result<
        Expression,
        ParseError,
    >)
        requires
            wf_tokens(old(self).toks()),
            old(self).position as int <= old(self).toks().len(),
        ensures
            final(self).tokens@ == old(self).tokens@,
            final(self).position as int <= final(self).toks().len(),
            match r {
                Result::Ok(e) => parse_object_items(
                    old(self).toks(),
                    old(self).position as int,
                    view_expr_pairs(acc@),
                ) == Result::Ok::<(ExprV, int), ParseErrV>((e@, final(self).position as int))
                    && old(self).position < final(self).position,
                Result::Err(pe) => parse_object_items(
                    old(self).toks(),
                    old(self).position as int,
                    view_expr_pairs(acc@),
                ) == Result::Err::<(ExprV, int), ParseErrV>(pe@),
            },
        decreases old(self).tokens@.len() - old(self).position, 6int,
    {
        proof {
            lemma_view_tokens(self.tokens@);
            lemma_view_expr_pairs(acc@);
        }
        let ghost acc0 = acc@;
        let i = self.position;
        if i >= self.tokens.len() {
            return Result::Err(ParseError::UnexpectedEof);
        }
        let key_opt = match &self.tokens[i] {
            Token::Identifier(w) => Option::Some(w.clone()),
            Token::StringLiteral(w) => Option::Some(w.clone()),
            _ => Option::None,
        };
        match key_opt {
            Option::None => {
                let t = dup_token(&self.tokens[i]);
                Result::Err(ParseError::UnexpectedToken(t))
            },
            Option::Some(k) => {
                if i + 1 >= self.tokens.len() {
                    return Result::Err(ParseError::UnexpectedEof);
                }
                let ghost kv = k@;
                match &self.tokens[i + 1] {
                    Token::Colon => {
                        self.position = i + 2;
                        match self.parse_expression() {
                            Result::Err(pe) => Result::Err(pe),
                            Result::Ok(e) => {
                                proof {
                                    lemma_view_tokens(self.tokens@);
                                }
                                let ghost ev = e@;
                                let mut acc2 = acc;
                                acc2.push((k, e));
                                proof {
                                    lemma_view_expr_pairs(acc2@);
                                    assert(acc2@.drop_last() =~= acc0);
                                    assert(view_expr_pairs(acc2@) == view_expr_pairs(acc0).push(
                                        (kv, ev),
                                    ));
                                }
                                let j2 = self.position;
                                if j2 >= self.tokens.len() {
                                    return Result::Err(ParseError::UnexpectedEof);
                                }
                                match &self.tokens[j2] {
                                    Token::Comma => {
                                        self.position = j2 + 1;
                                        self.parse_object_items(acc2)
                                    },
                                    Token::RightBrace => {
                                        self.position = j2 + 1;
                                        Result::Ok(Expression::ObjectConstruct(acc2))
                                    },
                                    _ => {
                                        let t = dup_token(&self.tokens[j2]);
                                        Result::Err(ParseError::UnexpectedToken(t))
                                    },
                                }
                            },
                        }
                    },
                    Token::Comma => {
                        self.position = i + 2;
                        let prop = Expression::Property(clone_string(&k));
                        let mut acc2 = acc;
                        acc2.push((k, prop));
                        proof {
                            lemma_view_expr_pairs(acc2@);
                            assert(acc2@.drop_last() =~= acc0);
                            assert(view_expr_pairs(acc2@) == view_expr_pairs(acc0).push(
                                (kv, ExprV::Property(kv)),
                            ));
                        }
                        self.parse_object_items(acc2)
                    },
                    Token::RightBrace => {
                        self.position = i + 2;
                        let prop = Expression::Property(clone_string(&k));
                        let mut acc2 = acc;
                        acc2.push((k, prop));
                        proof {
                            lemma_view_expr_pairs(acc2@);
                            assert(acc2@.drop_last() =~= acc0);
                            assert(view_expr_pairs(acc2@) == view_expr_pairs(acc0).push(
                                (kv, ExprV::Property(kv)),
                            ));
                        }
                        Result::Ok(Expression::ObjectConstruct(acc2))
                    },
                    _ => {
                        let t = dup_token(&self.tokens[i + 1]);
                        Result::Err(ParseError::Expected(Token::Colon, t))
                    },
                }
            },
        }
    }
}

/// Parse a query string into an expression: the lexer's tokens fed through
/// the grammar, with nothing left over.
pub fn parse_query(query: &str) -> (r: Result<Expression, ParseError>)
    ensures
        match r {
            Result::Ok(e) => parse_query_spec(query@) == Result::Ok::<ExprV, ParseErrV>(e@),
            Result::Err(pe) => parse_query_spec(query@) == Result::Err::<ExprV, ParseErrV>(pe@),
        },
{
    let mut lexer = Lexer::new(query);
    match lexer.tokenize() {
        Result::Err(le) => Result::Err(ParseError::Lex(le)),
        Result::Ok(tokens) => {
            let mut parser = Parser::new(tokens);
            parser.parse()
        },
    }
}

} // verus!
