use vstd::prelude::*;

use crate::error::MuninnError;
use crate::natives::{all_digits, lemma_decimal_reads_back, lemma_signed_reads_back, parse_i64, parse_i64_chars};
use crate::text::{decimal, signed_decimal};
use crate::span::Span;
use crate::text::{
    byte_offset, char_utf8_width, chars_of, is_alpha_char, is_ascii_alpha, is_ascii_digit, is_digit_char,
    is_unicode_whitespace, is_whitespace, lemma_byte_offset_monotone, lemma_byte_offset_step, owned,
    push_str, same_text, str_byte_len, string_from_chars, utf8_len,
};

verus! {

// ----- tokens -----

/// What a token is. A float literal keeps its source text (digits, `.`,
/// digits); the host turns it into a number.
#[derive(Debug, Clone, PartialEq)]
pub enum TokenKind {
    LeftParen,
    RightParen,
    LeftBrace,
    RightBrace,
    Comma,
    Semicolon,
    Colon,
    Plus,
    Minus,
    Star,
    Slash,
    Bang,
    BangEqual,
    Equal,
    EqualEqual,
    Greater,
    GreaterEqual,
    Less,
    LessEqual,
    Arrow,
    AndAnd,
    OrOr,
    Identifier(String),
    IntLiteral(i64),
    FloatLiteral(String),
    StringLiteral(String),
    Fn,
    Let,
    Mut,
    If,
    Else,
    Return,
    While,
    True,
    False,
    TypeInt,
    TypeFloat,
    TypeBool,
    TypeString,
    TypeTensor,
    TypeVoid,
    Eof,
}

#[derive(Debug, Clone, PartialEq)]
pub struct Token {
    pub kind: TokenKind,
    pub span: Span,
}

impl Token {
    pub fn new(kind: TokenKind, span: Span) -> (t: Token)
        ensures
            t.kind == kind,
            t.span == span,
    {
        Token { kind, span }
    }
}

/// A token kind as the contracts speak of it: kinds without text stand
/// for themselves; the others carry their text or value.
pub enum Lexeme {
    Simple(TokenKind),
    Identifier(Seq<char>),
    Int(i64),
    Float(Seq<char>),
    Str(Seq<char>),
}

pub open spec fn lexeme_of(k: TokenKind) -> Lexeme {
    match k {
        TokenKind::Identifier(s) => Lexeme::Identifier(s@),
        TokenKind::IntLiteral(v) => Lexeme::Int(v),
        TokenKind::FloatLiteral(s) => Lexeme::Float(s@),
        TokenKind::StringLiteral(s) => Lexeme::Str(s@),
        other => Lexeme::Simple(other),
    }
}

pub open spec fn token_views(ts: Seq<Token>) -> Seq<(Lexeme, Span)> {
    ts.map_values(|t: Token| (lexeme_of(t.kind), t.span))
}

pub open spec fn error_views(es: Seq<MuninnError>) -> Seq<(Seq<char>, Span)> {
    es.map_values(|e: MuninnError| (e.message@, e.span))
}

// ----- positions -----

/// The line (from 1) of character index `k`.
pub open spec fn line_at(s: Seq<char>, k: int) -> int
    decreases k,
{
    if k <= 0 || k > s.len() {
        1
    } else {
        line_at(s, k - 1) + if s[k - 1] == '\n' { 1int } else { 0int }
    }
}

/// The column (from 1) of character index `k`.
pub open spec fn col_at(s: Seq<char>, k: int) -> int
    decreases k,
{
    if k <= 0 || k > s.len() {
        1
    } else if s[k - 1] == '\n' {
        1
    } else {
        col_at(s, k - 1) + 1
    }
}

/// The span of characters `a..b`: lines and columns of both ends, and
/// their byte offsets.
pub open spec fn span_of(s: Seq<char>, a: int, b: int) -> Span {
    Span {
        line: line_at(s, a) as usize,
        column: col_at(s, a) as usize,
        offset: byte_offset(s, a) as usize,
        end_line: line_at(s, b) as usize,
        end_column: col_at(s, b) as usize,
        end_offset: byte_offset(s, b) as usize,
    }
}

// ----- the token grammar -----

pub open spec fn is_identifier_start(c: char) -> bool {
    c == '_' || is_alpha_char(c)
}

pub open spec fn is_identifier_continue(c: char) -> bool {
    is_identifier_start(c) || is_digit_char(c)
}

/// Where the whitespace and `//` comments from `k` end.
pub open spec fn skip_ws(s: Seq<char>, k: int, in_comment: bool) -> int
    decreases s.len() - k, if in_comment { 1int } else { 0int },
{
    if k < 0 || k >= s.len() {
        k
    } else if in_comment {
        if s[k] == '\n' {
            skip_ws(s, k, false)
        } else {
            skip_ws(s, k + 1, true)
        }
    } else if is_unicode_whitespace(s[k]) {
        skip_ws(s, k + 1, false)
    } else if s[k] == '/' && k + 1 < s.len() && s[k + 1] == '/' {
        skip_ws(s, k + 2, true)
    } else {
        k
    }
}

/// The first index from `k` whose character is not a decimal digit.
pub open spec fn digits_end(s: Seq<char>, k: int) -> int
    decreases s.len() - k,
{
    if 0 <= k < s.len() && is_digit_char(s[k]) {
        digits_end(s, k + 1)
    } else {
        k
    }
}

/// The first index from `k` whose character cannot continue an identifier.
pub open spec fn identifier_end(s: Seq<char>, k: int) -> int
    decreases s.len() - k,
{
    if 0 <= k < s.len() && is_identifier_continue(s[k]) {
        identifier_end(s, k + 1)
    } else {
        k
    }
}

/// One token scanned: the token (none after an error), the diagnostics,
/// and where scanning stopped.
pub struct Scanned {
    pub token: Option<Lexeme>,
    pub errors: Seq<(Seq<char>, Span)>,
    pub end: int,
}

pub open spec fn simple(kind: TokenKind, end: int) -> Scanned {
    Scanned { token: Some(Lexeme::Simple(kind)), errors: seq![], end }
}

pub open spec fn refused(s: Seq<char>, j: int, end: int, message: Seq<char>) -> Scanned {
    Scanned { token: None, errors: seq![(message, span_of(s, j, end))], end }
}

/// The character an escape stands for, if the escape is supported.
pub open spec fn escaped(e: char) -> Option<char> {
    if e == 'n' {
        Some('\n')
    } else if e == 'r' {
        Some('\r')
    } else if e == 't' {
        Some('\t')
    } else if e == '"' {
        Some('"')
    } else if e == '\\' {
        Some('\\')
    } else {
        None
    }
}

/// The rest of a string literal opened at `j`, read from `p` with the
/// text `value` so far and the diagnostics `errs` so far. An unsupported
/// escape is reported and kept as its character.
pub open spec fn scan_string(s: Seq<char>, j: int, p: int, value: Seq<char>, errs: Seq<(Seq<char>, Span)>) -> Scanned
    decreases s.len() - p,
{
    if p < 0 || p >= s.len() {
        Scanned {
            token: None,
            errors: errs.push(("unterminated string literal"@, span_of(s, j, s.len() as int))),
            end: s.len() as int,
        }
    } else if s[p] == '"' {
        Scanned { token: Some(Lexeme::Str(value)), errors: errs, end: p + 1 }
    } else if s[p] == '\\' {
        if p + 1 >= s.len() {
            Scanned {
                token: None,
                errors: errs.push(("unterminated escape sequence"@, span_of(s, j, p + 1))),
                end: p + 1,
            }
        } else {
            let e = s[p + 1];
            match escaped(e) {
                Some(c) => scan_string(s, j, p + 2, value.push(c), errs),
                None => scan_string(
                    s,
                    j,
                    p + 2,
                    value.push(e),
                    errs.push(("unsupported escape sequence '\\"@ + seq![e] + "'"@, span_of(s, j, p + 2))),
                ),
            }
        }
    } else {
        scan_string(s, j, p + 1, value.push(s[p]), errs)
    }
}

/// Escapes in a string literal stand for fixed characters: inside a
/// literal, a backslash followed by `t` adds TAB (U+0009) to the value,
/// `n` adds LINE FEED (U+000A), `r` adds CARRIAGE RETURN (U+000D), `"`
/// adds a double quote and `\` a backslash, and scanning goes on after
/// the two characters with nothing reported.
pub proof fn law_string_escapes(s: Seq<char>, j: int, p: int, value: Seq<char>, errs: Seq<(Seq<char>, Span)>)
    requires
        0 <= p,
        p + 1 < s.len(),
        s[p] == '\\',
    ensures
        s[p + 1] == 't' ==> scan_string(s, j, p, value, errs) == scan_string(s, j, p + 2, value.push('\u{9}'), errs),
        s[p + 1] == 'n' ==> scan_string(s, j, p, value, errs) == scan_string(s, j, p + 2, value.push('\u{a}'), errs),
        s[p + 1] == 'r' ==> scan_string(s, j, p, value, errs) == scan_string(s, j, p + 2, value.push('\u{d}'), errs),
        s[p + 1] == '"' ==> scan_string(s, j, p, value, errs) == scan_string(s, j, p + 2, value.push('\u{22}'), errs),
        s[p + 1] == '\\' ==> scan_string(s, j, p, value, errs) == scan_string(s, j, p + 2, value.push('\u{5c}'), errs),
{
}

/// Operators lex as the tokens they spell: a single character gives its
/// token and ends after it, and `->`, `!=`, `==`, `>=`, `<=`, `&&`, `||`
/// give their two-character tokens and end after both characters.
pub proof fn law_operator_tokens(s: Seq<char>, j: int)
    requires
        0 <= j < s.len(),
    ensures
        ({
            let two = |c: char| j + 1 < s.len() && s[j + 1] == c;
            let one = |k: TokenKind| scan(s, j) == simple(k, j + 1);
            let pair = |k: TokenKind| scan(s, j) == simple(k, j + 2);
            &&& s[j] == '+' ==> one(TokenKind::Plus)
            &&& s[j] == '*' ==> one(TokenKind::Star)
            &&& s[j] == '/' ==> one(TokenKind::Slash)
            &&& s[j] == '(' ==> one(TokenKind::LeftParen)
            &&& s[j] == ')' ==> one(TokenKind::RightParen)
            &&& s[j] == '{' ==> one(TokenKind::LeftBrace)
            &&& s[j] == '}' ==> one(TokenKind::RightBrace)
            &&& s[j] == ',' ==> one(TokenKind::Comma)
            &&& s[j] == ';' ==> one(TokenKind::Semicolon)
            &&& s[j] == ':' ==> one(TokenKind::Colon)
            &&& s[j] == '-' ==> if two('>') { pair(TokenKind::Arrow) } else { one(TokenKind::Minus) }
            &&& s[j] == '!' ==> if two('=') { pair(TokenKind::BangEqual) } else { one(TokenKind::Bang) }
            &&& s[j] == '=' ==> if two('=') { pair(TokenKind::EqualEqual) } else { one(TokenKind::Equal) }
            &&& s[j] == '>' ==> if two('=') { pair(TokenKind::GreaterEqual) } else { one(TokenKind::Greater) }
            &&& s[j] == '<' ==> if two('=') { pair(TokenKind::LessEqual) } else { one(TokenKind::Less) }
            &&& s[j] == '&' && two('&') ==> pair(TokenKind::AndAnd)
            &&& s[j] == '|' && two('|') ==> pair(TokenKind::OrOr)
        }),
{
}

/// Words spelled like keywords or type names lex as those, not as
/// identifiers.
pub proof fn law_keywords()
    ensures
        keyword("fn"@) == Some(TokenKind::Fn),
        keyword("let"@) == Some(TokenKind::Let),
        keyword("mut"@) == Some(TokenKind::Mut),
        keyword("if"@) == Some(TokenKind::If),
        keyword("else"@) == Some(TokenKind::Else),
        keyword("return"@) == Some(TokenKind::Return),
        keyword("while"@) == Some(TokenKind::While),
        keyword("true"@) == Some(TokenKind::True),
        keyword("false"@) == Some(TokenKind::False),
        keyword("Int"@) == Some(TokenKind::TypeInt),
        keyword("Float"@) == Some(TokenKind::TypeFloat),
        keyword("Bool"@) == Some(TokenKind::TypeBool),
        keyword("String"@) == Some(TokenKind::TypeString),
        keyword("Tensor"@) == Some(TokenKind::TypeTensor),
        keyword("Void"@) == Some(TokenKind::TypeVoid),
{
    reveal_strlit("fn");
    assert("fn"@.len() == 2 && "fn"@[0] == 'f');
    reveal_strlit("let");
    assert("let"@.len() == 3 && "let"@[0] == 'l');
    reveal_strlit("mut");
    assert("mut"@.len() == 3 && "mut"@[0] == 'm');
    reveal_strlit("if");
    assert("if"@.len() == 2 && "if"@[0] == 'i');
    reveal_strlit("else");
    assert("else"@.len() == 4 && "else"@[0] == 'e');
    reveal_strlit("return");
    assert("return"@.len() == 6 && "return"@[0] == 'r');
    reveal_strlit("while");
    assert("while"@.len() == 5 && "while"@[0] == 'w');
    reveal_strlit("true");
    assert("true"@.len() == 4 && "true"@[0] == 't');
    reveal_strlit("false");
    assert("false"@.len() == 5 && "false"@[0] == 'f');
    reveal_strlit("Int");
    assert("Int"@.len() == 3 && "Int"@[0] == 'I');
    reveal_strlit("Float");
    assert("Float"@.len() == 5 && "Float"@[0] == 'F');
    reveal_strlit("Bool");
    assert("Bool"@.len() == 4 && "Bool"@[0] == 'B');
    reveal_strlit("String");
    assert("String"@.len() == 6 && "String"@[0] == 'S');
    reveal_strlit("Tensor");
    assert("Tensor"@.len() == 6 && "Tensor"@[0] == 'T');
    reveal_strlit("Void");
    assert("Void"@.len() == 4 && "Void"@[0] == 'V');
}

proof fn lemma_digits_end_at(s: Seq<char>, k: int, m: int)
    requires
        0 <= k <= m <= s.len(),
        forall|i: int| k <= i < m ==> is_digit_char(#[trigger] s[i]),
        m == s.len() || !is_digit_char(s[m]),
    ensures
        digits_end(s, k) == m,
    decreases m - k,
{
    if k < m {
        lemma_digits_end_at(s, k + 1, m);
    }
}

/// An integer literal reads as the number it spells: the decimal digits
/// of any non-negative `i64`, followed by the end of the text or by a
/// character that is neither a digit nor a `.`, lex as that integer and
/// end after the last digit.
pub proof fn law_integer_literals(n: i64, rest: Seq<char>)
    requires
        n >= 0,
        rest.len() == 0 || (!is_digit_char(rest[0]) && rest[0] != '.'),
    ensures
        scan_number(decimal(n as nat) + rest, 0) == (Scanned {
            token: Some(Lexeme::Int(n)),
            errors: seq![],
            end: decimal(n as nat).len() as int,
        }),
{
    let d = decimal(n as nat);
    let s = d + rest;
    lemma_decimal_reads_back(n as nat);
    lemma_signed_reads_back(n);
    assert(signed_decimal(n as int) == d);
    assert forall|i: int| 1 <= i < d.len() implies is_digit_char(#[trigger] s[i]) by {
        assert(s[i] == d[i]);
    }
    if rest.len() > 0 {
        assert(s[d.len() as int] == rest[0]);
    }
    lemma_digits_end_at(s, 1, d.len() as int);
    assert(s.subrange(0, d.len() as int) =~= d);
}

/// A number starting at `j`: digits, then a fraction when a `.` is
/// followed by a digit. An integer must fit an `i64`.
pub open spec fn scan_number(s: Seq<char>, j: int) -> Scanned {
    let q = digits_end(s, j + 1);
    if q + 1 < s.len() && s[q] == '.' && is_digit_char(s[q + 1]) {
        let r = digits_end(s, q + 1);
        Scanned { token: Some(Lexeme::Float(s.subrange(j, r))), errors: seq![], end: r }
    } else {
        match parse_i64(s.subrange(j, q)) {
            Some(v) => Scanned { token: Some(Lexeme::Int(v)), errors: seq![], end: q },
            None => refused(s, j, q, "invalid integer literal '"@ + s.subrange(j, q) + "'"@),
        }
    }
}

/// The keyword spelled `w`, if any.
pub open spec fn keyword(w: Seq<char>) -> Option<TokenKind> {
    if w == "fn"@ {
        Some(TokenKind::Fn)
    } else if w == "let"@ {
        Some(TokenKind::Let)
    } else if w == "mut"@ {
        Some(TokenKind::Mut)
    } else if w == "if"@ {
        Some(TokenKind::If)
    } else if w == "else"@ {
        Some(TokenKind::Else)
    } else if w == "return"@ {
        Some(TokenKind::Return)
    } else if w == "while"@ {
        Some(TokenKind::While)
    } else if w == "true"@ {
        Some(TokenKind::True)
    } else if w == "false"@ {
        Some(TokenKind::False)
    } else if w == "Int"@ {
        Some(TokenKind::TypeInt)
    } else if w == "Float"@ {
        Some(TokenKind::TypeFloat)
    } else if w == "Bool"@ {
        Some(TokenKind::TypeBool)
    } else if w == "String"@ {
        Some(TokenKind::TypeString)
    } else if w == "Tensor"@ {
        Some(TokenKind::TypeTensor)
    } else if w == "Void"@ {
        Some(TokenKind::TypeVoid)
    } else {
        None
    }
}

pub open spec fn scan_identifier(s: Seq<char>, j: int) -> Scanned {
    let q = identifier_end(s, j + 1);
    let w = s.subrange(j, q);
    match keyword(w) {
        Some(k) => simple(k, q),
        None => Scanned { token: Some(Lexeme::Identifier(w)), errors: seq![], end: q },
    }
}

/// One token starting at character `j`.
pub open spec fn scan(s: Seq<char>, j: int) -> Scanned {
    let c = s[j];
    let k = j + 1;
    let next_is = |x: char| k < s.len() && s[k] == x;
    if c == '(' {
        simple(TokenKind::LeftParen, k)
    } else if c == ')' {
        simple(TokenKind::RightParen, k)
    } else if c == '{' {
        simple(TokenKind::LeftBrace, k)
    } else if c == '}' {
        simple(TokenKind::RightBrace, k)
    } else if c == ',' {
        simple(TokenKind::Comma, k)
    } else if c == ';' {
        simple(TokenKind::Semicolon, k)
    } else if c == ':' {
        simple(TokenKind::Colon, k)
    } else if c == '+' {
        simple(TokenKind::Plus, k)
    } else if c == '-' {
        if next_is('>') { simple(TokenKind::Arrow, k + 1) } else { simple(TokenKind::Minus, k) }
    } else if c == '*' {
        simple(TokenKind::Star, k)
    } else if c == '/' {
        simple(TokenKind::Slash, k)
    } else if c == '!' {
        if next_is('=') { simple(TokenKind::BangEqual, k + 1) } else { simple(TokenKind::Bang, k) }
    } else if c == '=' {
        if next_is('=') { simple(TokenKind::EqualEqual, k + 1) } else { simple(TokenKind::Equal, k) }
    } else if c == '>' {
        if next_is('=') { simple(TokenKind::GreaterEqual, k + 1) } else { simple(TokenKind::Greater, k) }
    } else if c == '<' {
        if next_is('=') { simple(TokenKind::LessEqual, k + 1) } else { simple(TokenKind::Less, k) }
    } else if c == '&' {
        if next_is('&') {
            simple(TokenKind::AndAnd, k + 1)
        } else {
            refused(s, j, k, "unexpected '&' (did you mean '&&'?)"@)
        }
    } else if c == '|' {
        if next_is('|') {
            simple(TokenKind::OrOr, k + 1)
        } else {
            refused(s, j, k, "unexpected '|' (did you mean '||'?)"@)
        }
    } else if c == '"' {
        scan_string(s, j, k, seq![], seq![])
    } else if is_digit_char(c) {
        scan_number(s, j)
    } else if is_identifier_start(c) {
        scan_identifier(s, j)
    } else {
        refused(s, j, k, "unexpected character '"@ + seq![c] + "'"@)
    }
}

pub proof fn lemma_skip_ws_bounds(s: Seq<char>, k: int, in_comment: bool)
    requires
        0 <= k <= s.len(),
    ensures
        k <= skip_ws(s, k, in_comment) <= s.len(),
    decreases s.len() - k, if in_comment { 1int } else { 0int },
{
    if k < s.len() {
        if in_comment {
            if s[k] == '\n' {
                lemma_skip_ws_bounds(s, k, false);
            } else {
                lemma_skip_ws_bounds(s, k + 1, true);
            }
        } else if is_unicode_whitespace(s[k]) {
            lemma_skip_ws_bounds(s, k + 1, false);
        } else if s[k] == '/' && k + 1 < s.len() && s[k + 1] == '/' {
            lemma_skip_ws_bounds(s, k + 2, true);
        }
    }
}

pub proof fn lemma_digits_end(s: Seq<char>, k: int)
    requires
        0 <= k <= s.len(),
    ensures
        k <= digits_end(s, k) <= s.len(),
        forall|i: int| k <= i < digits_end(s, k) ==> is_digit_char(#[trigger] s[i]),
        digits_end(s, k) < s.len() ==> !is_digit_char(s[digits_end(s, k)]),
    decreases s.len() - k,
{
    if k < s.len() && is_digit_char(s[k]) {
        lemma_digits_end(s, k + 1);
    }
}

pub proof fn lemma_identifier_end(s: Seq<char>, k: int)
    requires
        0 <= k <= s.len(),
    ensures
        k <= identifier_end(s, k) <= s.len(),
        forall|i: int| k <= i < identifier_end(s, k) ==> is_identifier_continue(#[trigger] s[i]),
        identifier_end(s, k) < s.len() ==> !is_identifier_continue(s[identifier_end(s, k)]),
    decreases s.len() - k,
{
    if k < s.len() && is_identifier_continue(s[k]) {
        lemma_identifier_end(s, k + 1);
    }
}

pub proof fn lemma_scan_string_end(
    s: Seq<char>,
    j: int,
    p: int,
    value: Seq<char>,
    errs: Seq<(Seq<char>, Span)>,
)
    requires
        0 <= p <= s.len(),
    ensures
        p < scan_string(s, j, p, value, errs).end <= s.len() || (p == s.len() && scan_string(
            s,
            j,
            p,
            value,
            errs,
        ).end == s.len()),
    decreases s.len() - p,
{
    if p < s.len() && s[p] != '"' {
        if s[p] == '\\' {
            if p + 1 < s.len() {
                let e = s[p + 1];
                match escaped(e) {
                    Some(c) => lemma_scan_string_end(s, j, p + 2, value.push(c), errs),
                    None => lemma_scan_string_end(
                        s,
                        j,
                        p + 2,
                        value.push(e),
                        errs.push(("unsupported escape sequence '\\"@ + seq![e] + "'"@, span_of(s, j, p + 2))),
                    ),
                }
            }
        } else {
            lemma_scan_string_end(s, j, p + 1, value.push(s[p]), errs);
        }
    }
}

/// A scan consumes at least the character it starts at, and stays within
/// the text.
pub proof fn lemma_scan_advances(s: Seq<char>, j: int)
    requires
        0 <= j < s.len(),
    ensures
        j < scan(s, j).end <= s.len(),
{
    let c = s[j];
    if c == '"' {
        lemma_scan_string_end(s, j, j + 1, seq![], seq![]);
    } else if is_digit_char(c) {
        lemma_digits_end(s, j + 1);
        let q = digits_end(s, j + 1);
        if q + 1 < s.len() && s[q] == '.' && is_digit_char(s[q + 1]) {
            lemma_digits_end(s, q + 1);
        }
    } else if is_identifier_start(c) {
        lemma_identifier_end(s, j + 1);
    }
}

/// Tokens and diagnostics from character `k` to the end.
pub open spec fn lex_from(s: Seq<char>, k: int) -> (Seq<(Lexeme, Span)>, Seq<(Seq<char>, Span)>)
    decreases s.len() - k,
{
    if k < 0 || k >= s.len() {
        (seq![], seq![])
    } else {
        let j = skip_ws(s, k, false);
        if j >= s.len() {
            (seq![], seq![])
        } else {
            proof {
                lemma_skip_ws_bounds(s, k, false);
                lemma_scan_advances(s, j);
            }
            let sc = scan(s, j);
            let rest = lex_from(s, sc.end);
            let here: Seq<(Lexeme, Span)> = match sc.token {
                Some(t) => seq![(t, span_of(s, j, sc.end))],
                None => seq![],
            };
            (here + rest.0, sc.errors + rest.1)
        }
    }
}

/// A string literal scan gives a string token or none.
proof fn lemma_string_token(s: Seq<char>, j: int, p: int, value: Seq<char>, errs: Seq<(Seq<char>, Span)>)
    ensures
        scan_string(s, j, p, value, errs).token is None || scan_string(s, j, p, value, errs).token
            matches Some(Lexeme::Str(_)),
    decreases s.len() - p,
{
    if 0 <= p < s.len() && s[p] != '"' {
        if s[p] == '\\' {
            if p + 1 < s.len() {
                let e = s[p + 1];
                match escaped(e) {
                    Some(c) => lemma_string_token(s, j, p + 2, value.push(c), errs),
                    None => lemma_string_token(
                        s,
                        j,
                        p + 2,
                        value.push(e),
                        errs.push(("unsupported escape sequence '\\"@ + seq![e] + "'"@, span_of(s, j, p + 2))),
                    ),
                }
            }
        } else {
            lemma_string_token(s, j, p + 1, value.push(s[p]), errs);
        }
    }
}

/// Scanning never yields the end-of-input token.
pub proof fn lemma_scan_not_end(s: Seq<char>, j: int)
    requires
        0 <= j < s.len(),
    ensures
        scan(s, j).token != Some(Lexeme::Simple(TokenKind::Eof)),
{
    if s[j] == '"' {
        lemma_string_token(s, j, j + 1, seq![], seq![]);
    }
}

/// Lexing from `k` gives at most one token per remaining character, and
/// never the end-of-input token.
pub proof fn lemma_lex_from_tokens(s: Seq<char>, k: int)
    requires
        0 <= k,
    ensures
        lex_from(s, k).0.len() <= if k <= s.len() { s.len() - k } else { 0 },
        forall|i: int|
            0 <= i < lex_from(s, k).0.len() ==> (#[trigger] lex_from(s, k).0[i]).0 != Lexeme::Simple(
                TokenKind::Eof,
            ),
    decreases s.len() - k,
{
    if k < s.len() {
        let j = skip_ws(s, k, false);
        lemma_skip_ws_bounds(s, k, false);
        if j < s.len() {
            lemma_scan_advances(s, j);
            lemma_scan_not_end(s, j);
            let sc = scan(s, j);
            lemma_lex_from_tokens(s, sc.end);
            let rest = lex_from(s, sc.end);
            let here: Seq<(Lexeme, Span)> = match sc.token {
                Some(t) => seq![(t, span_of(s, j, sc.end))],
                None => seq![],
            };
            assert(lex_from(s, k).0 == here + rest.0);
            assert forall|i: int| 0 <= i < lex_from(s, k).0.len() implies (#[trigger] lex_from(
                s,
                k,
            ).0[i]).0 != Lexeme::Simple(TokenKind::Eof) by {
                if i >= here.len() {
                    assert(lex_from(s, k).0[i] == rest.0[i - here.len()]);
                }
            }
        }
    }
}

/// What lexing `s` gives: every token followed by the end-of-input token,
/// or every diagnostic when there is any.
pub open spec fn lexed(s: Seq<char>) -> Result<Seq<(Lexeme, Span)>, Seq<(Seq<char>, Span)>> {
    let (tokens, errors) = lex_from(s, 0);
    if errors.len() == 0 {
        Ok(tokens.push((Lexeme::Simple(TokenKind::Eof), span_of(s, s.len() as int, s.len() as int))))
    } else {
        Err(errors)
    }
}

// ----- the lexer -----

/// Splits source text into tokens.
#[derive(Debug)]
pub struct Lexer<'a> {
    source: &'a str,
    /// Each character with the byte offset it starts at.
    chars: Vec<(usize, char)>,
}

pub open spec fn text_of(chars: Seq<(usize, char)>) -> Seq<char> {
    chars.map_values(|e: (usize, char)| e.1)
}

/// Every character carries its byte offset, the text fits the counters,
/// and `total` is its byte length.
pub open spec fn chars_wf(chars: Seq<(usize, char)>, total: usize) -> bool {
    &&& chars.len() < usize::MAX
    &&& total == utf8_len(text_of(chars))
    &&& forall|i: int| 0 <= i < chars.len() ==> #[trigger] chars[i].0 == byte_offset(text_of(chars), i)
}

/// A position in the text with its line and column.
#[derive(Clone, Copy)]
struct Cursor {
    pos: usize,
    line: usize,
    column: usize,
}

spec fn at(c: Cursor, s: Seq<char>, k: int) -> bool {
    c.pos == k && c.line == line_at(s, k) && c.column == col_at(s, k)
}

proof fn lemma_line_col_bound(s: Seq<char>, k: int)
    requires
        0 <= k <= s.len(),
    ensures
        1 <= line_at(s, k) <= k + 1,
        1 <= col_at(s, k) <= k + 1,
    decreases k,
{
    if k > 0 {
        lemma_line_col_bound(s, k - 1);
    }
}

/// The byte offset of character index `k` (the byte length at the end).
fn offset_of(chars: &Vec<(usize, char)>, total: usize, k: usize) -> (o: usize)
    requires
        chars_wf(chars@, total),
        k <= chars@.len(),
    ensures
        o == byte_offset(text_of(chars@), k as int),
{
    if k < chars.len() {
        chars[k].0
    } else {
        proof {
            assert(text_of(chars@).take(k as int) =~= text_of(chars@));
        }
        total
    }
}

fn make_span(chars: &Vec<(usize, char)>, total: usize, a: Cursor, b: Cursor) -> (sp: Span)
    requires
        chars_wf(chars@, total),
        a.pos <= b.pos <= chars@.len(),
        at(a, text_of(chars@), a.pos as int),
        at(b, text_of(chars@), b.pos as int),
    ensures
        sp == span_of(text_of(chars@), a.pos as int, b.pos as int),
{
    let start = offset_of(chars, total, a.pos);
    let end = offset_of(chars, total, b.pos);
    Span::range(a.line, a.column, start, b.line, b.column, end)
}

/// Moves past the character under the cursor.
fn advance(chars: &Vec<(usize, char)>, total: usize, c: Cursor) -> (r: Cursor)
    requires
        chars_wf(chars@, total),
        c.pos < chars@.len(),
        at(c, text_of(chars@), c.pos as int),
    ensures
        at(r, text_of(chars@), c.pos + 1),
{
    let ghost s = text_of(chars@);
    proof {
        lemma_line_col_bound(s, c.pos as int);
        assert(s[c.pos as int] == chars@[c.pos as int].1);
    }
    if chars[c.pos].1 == '\n' {
        Cursor { pos: c.pos + 1, line: c.line + 1, column: 1 }
    } else {
        Cursor { pos: c.pos + 1, line: c.line, column: c.column + 1 }
    }
}

fn peek(chars: &Vec<(usize, char)>, k: usize) -> (r: Option<char>)
    ensures
        r == (if k < chars@.len() { Some(text_of(chars@)[k as int]) } else { None::<char> }),
{
    if k < chars.len() {
        Some(chars[k].1)
    } else {
        None
    }
}

fn lex_error(message: String, span: Span) -> (e: MuninnError)
    ensures
        e.phase@ == "lexer"@,
        e.message == message,
        e.span == span,
        e.notes@.len() == 0,
{
    MuninnError::from_string("lexer", message, span)
}

/// Skips whitespace and `//` comments.
fn skip_whitespace(chars: &Vec<(usize, char)>, total: usize, c: Cursor) -> (r: Cursor)
    requires
        chars_wf(chars@, total),
        c.pos <= chars@.len(),
        at(c, text_of(chars@), c.pos as int),
    ensures
        at(r, text_of(chars@), skip_ws(text_of(chars@), c.pos as int, false)),
{
    let ghost s = text_of(chars@);
    let mut cur = c;
    let mut in_comment = false;
    while cur.pos < chars.len()
        invariant
            chars_wf(chars@, total),
            s == text_of(chars@),
            cur.pos <= chars@.len(),
            at(cur, s, cur.pos as int),
            skip_ws(s, c.pos as int, false) == skip_ws(s, cur.pos as int, in_comment),
        decreases chars@.len() - cur.pos, if in_comment { 1int } else { 0int },
    {
        let ch = chars[cur.pos].1;
        proof {
            assert(s[cur.pos as int] == ch);
        }
        if in_comment {
            if ch == '\n' {
                in_comment = false;
            } else {
                cur = advance(chars, total, cur);
            }
        } else if is_whitespace(ch) {
            cur = advance(chars, total, cur);
        } else if ch == '/' && peek(chars, cur.pos + 1) == Some('/') {
            cur = advance(chars, total, cur);
            cur = advance(chars, total, cur);
            in_comment = true;
        } else {
            return cur;
        }
    }
    cur
}

fn escape_of(e: char) -> (r: Option<char>)
    ensures
        r == escaped(e),
{
    if e == 'n' {
        Some('\n')
    } else if e == 'r' {
        Some('\r')
    } else if e == 't' {
        Some('\t')
    } else if e == '"' {
        Some('"')
    } else if e == '\\' {
        Some('\\')
    } else {
        None
    }
}

/// Scans a string literal whose opening quote is at `start`.
fn scan_string_token(
    chars: &Vec<(usize, char)>,
    total: usize,
    start: Cursor,
    errors: &mut Vec<MuninnError>,
) -> (r: (Option<Token>, Cursor))
    requires
        chars_wf(chars@, total),
        start.pos < chars@.len(),
        at(start, text_of(chars@), start.pos as int),
        text_of(chars@)[start.pos as int] == '"',
    ensures
        ({
            let s = text_of(chars@);
            let sc = scan(s, start.pos as int);
            &&& error_views(final(errors)@) == error_views(old(errors)@) + sc.errors
            &&& forall|i: int| old(errors)@.len() <= i < final(errors)@.len() ==> (#[trigger] final(errors)@[i]).phase@
                == "lexer"@
            &&& final(errors)@.take(old(errors)@.len() as int) == old(errors)@
            &&& at(r.1, s, sc.end)
            &&& match sc.token {
                Some(t) => r.0 matches Some(tok) && lexeme_of(tok.kind) == t && tok.span == span_of(
                    s,
                    start.pos as int,
                    sc.end,
                ),
                None => r.0 is None,
            }
        }),
{
    let ghost s = text_of(chars@);
    let ghost e0 = error_views(errors@);
    let ghost errs0 = errors@;
    let ghost j = start.pos as int;
    let mut cur = advance(chars, total, start);
    let mut value: Vec<char> = Vec::new();
    let ghost mut added: Seq<(Seq<char>, Span)> = seq![];
    while cur.pos < chars.len()
        invariant
            chars_wf(chars@, total),
            s == text_of(chars@),
            j == start.pos,
            start.pos < cur.pos <= chars@.len(),
            at(start, s, j),
            at(cur, s, cur.pos as int),
            error_views(errors@) == e0 + added,
            e0 == error_views(errs0),
            errs0 == old(errors)@,
            errors@.take(errs0.len() as int) == errs0,
            forall|i: int| errs0.len() <= i < errors@.len() ==> (#[trigger] errors@[i]).phase@ == "lexer"@,
            scan(s, j) == scan_string(s, j, cur.pos as int, value@, added),
        decreases chars@.len() - cur.pos,
    {
        let ch = chars[cur.pos].1;
        proof {
            assert(s[cur.pos as int] == ch);
        }
        if ch == '"' {
            let end = advance(chars, total, cur);
            let text = string_from_chars(&value);
            let span = make_span(chars, total, start, end);
            return (Some(Token::new(TokenKind::StringLiteral(text), span)), end);
        }
        if ch == '\\' {
            let after = advance(chars, total, cur);
            if after.pos >= chars.len() {
                let span = make_span(chars, total, start, after);
                let ghost before = errors@;
                errors.push(lex_error(owned("unterminated escape sequence"), span));
                proof {
                    added = added.push(("unterminated escape sequence"@, span));
                    assert(error_views(errors@) =~= error_views(before).push(("unterminated escape sequence"@, span)));
                    assert(errors@.take(errs0.len() as int) =~= before.take(errs0.len() as int));
                }
                return (None, after);
            }
            let e = chars[after.pos].1;
            proof {
                assert(s[after.pos as int] == e);
            }
            let next = advance(chars, total, after);
            match escape_of(e) {
                Some(c) => {
                    value.push(c);
                },
                None => {
                    value.push(e);
                    let mut msg = owned("unsupported escape sequence '\\");
                    let ghost m0 = msg@;
                    crate::text::push_char(&mut msg, e);
                    push_str(&mut msg, "'");
                    let span = make_span(chars, total, start, next);
                    let ghost before = errors@;
                    let ghost m = msg@;
                    errors.push(lex_error(msg, span));
                    proof {
                        assert(m =~= "unsupported escape sequence '\\"@ + seq![e] + "'"@);
                        added = added.push((m, span));
                        assert(error_views(errors@) =~= error_views(before).push((m, span)));
                        assert(errors@.take(errs0.len() as int) =~= before.take(errs0.len() as int));
                    }
                },
            }
            cur = next;
        } else {
            value.push(ch);
            cur = advance(chars, total, cur);
        }
    }
    let span = make_span(chars, total, start, cur);
    let ghost before = errors@;
    errors.push(lex_error(owned("unterminated string literal"), span));
    proof {
        added = added.push(("unterminated string literal"@, span));
        assert(error_views(errors@) =~= error_views(before).push(("unterminated string literal"@, span)));
        assert(errors@.take(errs0.len() as int) =~= before.take(errs0.len() as int));
    }
    (None, cur)
}

/// The characters `a..b` of the text.
fn text_between(chars: &Vec<(usize, char)>, a: usize, b: usize) -> (v: Vec<char>)
    requires
        a <= b <= chars@.len(),
    ensures
        v@ == text_of(chars@).subrange(a as int, b as int),
{
    let mut v: Vec<char> = Vec::new();
    let mut k = a;
    while k < b
        invariant
            a <= k <= b <= chars@.len(),
            v@ == text_of(chars@).subrange(a as int, k as int),
        decreases b - k,
    {
        v.push(chars[k].1);
        proof {
            assert(text_of(chars@).subrange(a as int, k + 1) =~= text_of(chars@).subrange(a as int, k as int).push(
                chars@[k as int].1,
            ));
        }
        k = k + 1;
    }
    v
}

/// Moves past the decimal digits under the cursor.
fn skip_digits(chars: &Vec<(usize, char)>, total: usize, c: Cursor) -> (r: Cursor)
    requires
        chars_wf(chars@, total),
        c.pos <= chars@.len(),
        at(c, text_of(chars@), c.pos as int),
    ensures
        at(r, text_of(chars@), digits_end(text_of(chars@), c.pos as int)),
{
    let ghost s = text_of(chars@);
    let mut cur = c;
    while cur.pos < chars.len() && is_ascii_digit(chars[cur.pos].1)
        invariant
            chars_wf(chars@, total),
            s == text_of(chars@),
            cur.pos <= chars@.len(),
            at(cur, s, cur.pos as int),
            digits_end(s, c.pos as int) == digits_end(s, cur.pos as int),
        decreases chars@.len() - cur.pos,
    {
        proof {
            assert(s[cur.pos as int] == chars@[cur.pos as int].1);
        }
        cur = advance(chars, total, cur);
    }
    proof {
        if cur.pos < chars@.len() {
            assert(s[cur.pos as int] == chars@[cur.pos as int].1);
        }
    }
    cur
}

fn is_ident_continue(c: char) -> (b: bool)
    ensures
        b == is_identifier_continue(c),
{
    c == '_' || is_ascii_alpha(c) || is_ascii_digit(c)
}

/// Moves past the identifier characters under the cursor.
fn skip_identifier(chars: &Vec<(usize, char)>, total: usize, c: Cursor) -> (r: Cursor)
    requires
        chars_wf(chars@, total),
        c.pos <= chars@.len(),
        at(c, text_of(chars@), c.pos as int),
    ensures
        at(r, text_of(chars@), identifier_end(text_of(chars@), c.pos as int)),
{
    let ghost s = text_of(chars@);
    let mut cur = c;
    while cur.pos < chars.len() && is_ident_continue(chars[cur.pos].1)
        invariant
            chars_wf(chars@, total),
            s == text_of(chars@),
            cur.pos <= chars@.len(),
            at(cur, s, cur.pos as int),
            identifier_end(s, c.pos as int) == identifier_end(s, cur.pos as int),
        decreases chars@.len() - cur.pos,
    {
        proof {
            assert(s[cur.pos as int] == chars@[cur.pos as int].1);
        }
        cur = advance(chars, total, cur);
    }
    proof {
        if cur.pos < chars@.len() {
            assert(s[cur.pos as int] == chars@[cur.pos as int].1);
        }
    }
    cur
}

/// Scans a number whose first digit is at `start`.
fn scan_number_token(
    chars: &Vec<(usize, char)>,
    total: usize,
    start: Cursor,
    errors: &mut Vec<MuninnError>,
) -> (r: (Option<Token>, Cursor))
    requires
        chars_wf(chars@, total),
        start.pos < chars@.len(),
        at(start, text_of(chars@), start.pos as int),
        is_digit_char(text_of(chars@)[start.pos as int]),
    ensures
        ({
            let s = text_of(chars@);
            let sc = scan_number(s, start.pos as int);
            &&& error_views(final(errors)@) == error_views(old(errors)@) + sc.errors
            &&& forall|i: int| old(errors)@.len() <= i < final(errors)@.len() ==> (#[trigger] final(errors)@[i]).phase@
                == "lexer"@
            &&& final(errors)@.take(old(errors)@.len() as int) == old(errors)@
            &&& at(r.1, s, sc.end)
            &&& match sc.token {
                Some(t) => r.0 matches Some(tok) && lexeme_of(tok.kind) == t && tok.span == span_of(
                    s,
                    start.pos as int,
                    sc.end,
                ),
                None => r.0 is None,
            }
        }),
{
    let ghost s = text_of(chars@);
    let j = start.pos;
    let first = advance(chars, total, start);
    proof {
        lemma_digits_end(s, j + 1);
    }
    let q = skip_digits(chars, total, first);
    let dot = peek(chars, q.pos);
    let after = if q.pos < chars.len() { peek(chars, q.pos + 1) } else { None };
    let fraction = match (dot, after) {
        (Some('.'), Some(d)) => is_ascii_digit(d),
        _ => false,
    };
    if fraction {
        let point = advance(chars, total, q);
        proof {
            lemma_digits_end(s, point.pos as int);
        }
        let end = skip_digits(chars, total, point);
        let text = string_from_chars(&text_between(chars, j, end.pos));
        let span = make_span(chars, total, start, end);
        proof {
            assert(errors@.take(errors@.len() as int) =~= errors@);
            assert(error_views(errors@) + Seq::<(Seq<char>, Span)>::empty() =~= error_views(errors@));
        }
        return (Some(Token::new(TokenKind::FloatLiteral(text), span)), end);
    }
    let literal = text_between(chars, j, q.pos);
    proof {
        assert(literal@.skip(0) =~= literal@);
    }
    let span = make_span(chars, total, start, q);
    match parse_i64_chars(&literal, 0) {
        Some(v) => {
            proof {
                assert(errors@.take(errors@.len() as int) =~= errors@);
                assert(error_views(errors@) + Seq::<(Seq<char>, Span)>::empty() =~= error_views(errors@));
            }
            (Some(Token::new(TokenKind::IntLiteral(v), span)), q)
        },
        None => {
            let mut msg = owned("invalid integer literal '");
            let lit = string_from_chars(&literal);
            push_str(&mut msg, lit.as_str());
            push_str(&mut msg, "'");
            let ghost m = msg@;
            let ghost before = errors@;
            errors.push(lex_error(msg, span));
            proof {
                assert(error_views(errors@) =~= error_views(before) + seq![(m, span)]);
                assert(errors@.take(before.len() as int) =~= before);
            }
            (None, q)
        },
    }
}

/// The keyword spelled `w`, if any.
pub(crate) fn keyword_of(w: &str) -> (r: Option<TokenKind>)
    ensures
        r == keyword(w@),
{
    if same_text(w, "fn") {
        Some(TokenKind::Fn)
    } else if same_text(w, "let") {
        Some(TokenKind::Let)
    } else if same_text(w, "mut") {
        Some(TokenKind::Mut)
    } else if same_text(w, "if") {
        Some(TokenKind::If)
    } else if same_text(w, "else") {
        Some(TokenKind::Else)
    } else if same_text(w, "return") {
        Some(TokenKind::Return)
    } else if same_text(w, "while") {
        Some(TokenKind::While)
    } else if same_text(w, "true") {
        Some(TokenKind::True)
    } else if same_text(w, "false") {
        Some(TokenKind::False)
    } else if same_text(w, "Int") {
        Some(TokenKind::TypeInt)
    } else if same_text(w, "Float") {
        Some(TokenKind::TypeFloat)
    } else if same_text(w, "Bool") {
        Some(TokenKind::TypeBool)
    } else if same_text(w, "String") {
        Some(TokenKind::TypeString)
    } else if same_text(w, "Tensor") {
        Some(TokenKind::TypeTensor)
    } else if same_text(w, "Void") {
        Some(TokenKind::TypeVoid)
    } else {
        None
    }
}

/// Scans an identifier or keyword whose first character is at `start`.
fn scan_identifier_token(chars: &Vec<(usize, char)>, total: usize, start: Cursor) -> (r: (Token, Cursor))
    requires
        chars_wf(chars@, total),
        start.pos < chars@.len(),
        at(start, text_of(chars@), start.pos as int),
    ensures
        ({
            let s = text_of(chars@);
            let sc = scan_identifier(s, start.pos as int);
            &&& at(r.1, s, sc.end)
            &&& sc.token == Some(lexeme_of(r.0.kind))
            &&& r.0.span == span_of(s, start.pos as int, sc.end)
        }),
{
    let ghost s = text_of(chars@);
    let first = advance(chars, total, start);
    proof {
        lemma_identifier_end(s, start.pos + 1);
    }
    let end = skip_identifier(chars, total, first);
    let word = string_from_chars(&text_between(chars, start.pos, end.pos));
    let span = make_span(chars, total, start, end);
    match keyword_of(word.as_str()) {
        Some(k) => (Token::new(k, span), end),
        None => (Token::new(TokenKind::Identifier(word), span), end),
    }
}

/// What a scan from `j` leaves behind: `errors` grew by the scan's
/// diagnostics (all from the lexer), the cursor sits at its end, and the
/// token matches.
spec fn scanned_as(
    s: Seq<char>,
    j: int,
    sc: Scanned,
    before: Seq<MuninnError>,
    after: Seq<MuninnError>,
    r: (Option<Token>, Cursor),
) -> bool {
    &&& error_views(after) == error_views(before) + sc.errors
    &&& forall|i: int| before.len() <= i < after.len() ==> (#[trigger] after[i]).phase@ == "lexer"@
    &&& after.take(before.len() as int) == before
    &&& at(r.1, s, sc.end)
    &&& match sc.token {
        Some(t) => r.0 matches Some(tok) && lexeme_of(tok.kind) == t && tok.span == span_of(s, j, sc.end),
        None => r.0 is None,
    }
}

/// A token of the given kind from `start` to `end`, with nothing reported.
fn emit(
    chars: &Vec<(usize, char)>,
    total: usize,
    kind: TokenKind,
    start: Cursor,
    end: Cursor,
    errors: &Vec<MuninnError>,
) -> (r: (Option<Token>, Cursor))
    requires
        chars_wf(chars@, total),
        start.pos < end.pos <= chars@.len(),
        at(start, text_of(chars@), start.pos as int),
        at(end, text_of(chars@), end.pos as int),
        lexeme_of(kind) == Lexeme::Simple(kind),
    ensures
        scanned_as(text_of(chars@), start.pos as int, simple(kind, end.pos as int), errors@, errors@, r),
{
    let span = make_span(chars, total, start, end);
    proof {
        assert(errors@.take(errors@.len() as int) =~= errors@);
        assert(error_views(errors@) + Seq::<(Seq<char>, Span)>::empty() =~= error_views(errors@));
    }
    (Some(Token::new(kind, span)), end)
}

/// Reports `message` for the characters `start..end`.
fn reject(
    chars: &Vec<(usize, char)>,
    total: usize,
    message: String,
    start: Cursor,
    end: Cursor,
    errors: &mut Vec<MuninnError>,
) -> (r: (Option<Token>, Cursor))
    requires
        chars_wf(chars@, total),
        start.pos < end.pos <= chars@.len(),
        at(start, text_of(chars@), start.pos as int),
        at(end, text_of(chars@), end.pos as int),
    ensures
        scanned_as(
            text_of(chars@),
            start.pos as int,
            refused(text_of(chars@), start.pos as int, end.pos as int, message@),
            old(errors)@,
            final(errors)@,
            r,
        ),
{
    let span = make_span(chars, total, start, end);
    let ghost m = message@;
    let ghost before = errors@;
    errors.push(lex_error(message, span));
    proof {
        assert(error_views(errors@) =~= error_views(before) + seq![(m, span)]);
        assert(errors@.take(before.len() as int) =~= before);
    }
    (None, end)
}

/// Scans one token starting at the cursor.
fn scan_token(chars: &Vec<(usize, char)>, total: usize, start: Cursor, errors: &mut Vec<MuninnError>) -> (r: (
    Option<Token>,
    Cursor,
))
    requires
        chars_wf(chars@, total),
        start.pos < chars@.len(),
        at(start, text_of(chars@), start.pos as int),
    ensures
        scanned_as(
            text_of(chars@),
            start.pos as int,
            scan(text_of(chars@), start.pos as int),
            old(errors)@,
            final(errors)@,
            r,
        ),
{
    let ghost s = text_of(chars@);
    let c = chars[start.pos].1;
    proof {
        assert(s[start.pos as int] == c);
    }
    let k = advance(chars, total, start);
    let next = peek(chars, k.pos);
    if c == '(' {
        emit(chars, total, TokenKind::LeftParen, start, k, errors)
    } else if c == ')' {
        emit(chars, total, TokenKind::RightParen, start, k, errors)
    } else if c == '{' {
        emit(chars, total, TokenKind::LeftBrace, start, k, errors)
    } else if c == '}' {
        emit(chars, total, TokenKind::RightBrace, start, k, errors)
    } else if c == ',' {
        emit(chars, total, TokenKind::Comma, start, k, errors)
    } else if c == ';' {
        emit(chars, total, TokenKind::Semicolon, start, k, errors)
    } else if c == ':' {
        emit(chars, total, TokenKind::Colon, start, k, errors)
    } else if c == '+' {
        emit(chars, total, TokenKind::Plus, start, k, errors)
    } else if c == '-' {
        if next == Some('>') {
            let k2 = advance(chars, total, k);
            emit(chars, total, TokenKind::Arrow, start, k2, errors)
        } else {
            emit(chars, total, TokenKind::Minus, start, k, errors)
        }
    } else if c == '*' {
        emit(chars, total, TokenKind::Star, start, k, errors)
    } else if c == '/' {
        emit(chars, total, TokenKind::Slash, start, k, errors)
    } else if c == '!' {
        if next == Some('=') {
            let k2 = advance(chars, total, k);
            emit(chars, total, TokenKind::BangEqual, start, k2, errors)
        } else {
            emit(chars, total, TokenKind::Bang, start, k, errors)
        }
    } else if c == '=' {
        if next == Some('=') {
            let k2 = advance(chars, total, k);
            emit(chars, total, TokenKind::EqualEqual, start, k2, errors)
        } else {
            emit(chars, total, TokenKind::Equal, start, k, errors)
        }
    } else if c == '>' {
        if next == Some('=') {
            let k2 = advance(chars, total, k);
            emit(chars, total, TokenKind::GreaterEqual, start, k2, errors)
        } else {
            emit(chars, total, TokenKind::Greater, start, k, errors)
        }
    } else if c == '<' {
        if next == Some('=') {
            let k2 = advance(chars, total, k);
            emit(chars, total, TokenKind::LessEqual, start, k2, errors)
        } else {
            emit(chars, total, TokenKind::Less, start, k, errors)
        }
    } else if c == '&' {
        if next == Some('&') {
            let k2 = advance(chars, total, k);
            emit(chars, total, TokenKind::AndAnd, start, k2, errors)
        } else {
            reject(chars, total, owned("unexpected '&' (did you mean '&&'?)"), start, k, errors)
        }
    } else if c == '|' {
        if next == Some('|') {
            let k2 = advance(chars, total, k);
            emit(chars, total, TokenKind::OrOr, start, k2, errors)
        } else {
            reject(chars, total, owned("unexpected '|' (did you mean '||'?)"), start, k, errors)
        }
    } else if c == '"' {
        scan_string_token(chars, total, start, errors)
    } else if is_ascii_digit(c) {
        scan_number_token(chars, total, start, errors)
    } else if c == '_' || is_ascii_alpha(c) {
        let (tok, end) = scan_identifier_token(chars, total, start);
        proof {
            assert(errors@.take(errors@.len() as int) =~= errors@);
            assert(error_views(errors@) + Seq::<(Seq<char>, Span)>::empty() =~= error_views(errors@));
        }
        (Some(tok), end)
    } else {
        let mut msg = owned("unexpected character '");
        crate::text::push_char(&mut msg, c);
        push_str(&mut msg, "'");
        proof {
            assert(msg@ =~= "unexpected character '"@ + seq![c] + "'"@);
        }
        reject(chars, total, msg, start, k, errors)
    }
}

impl<'a> Lexer<'a> {
    /// The text being lexed.
    pub closed spec fn text(&self) -> Seq<char> {
        self.source@
    }

    /// Each character is stored with its byte offset.
    pub closed spec fn wf(&self) -> bool {
        &&& text_of(self.chars@) == self.source@
        &&& chars_wf(self.chars@, utf8_len(self.source@) as usize)
        &&& utf8_len(self.source@) <= usize::MAX
    }

    pub fn new(source: &'a str) -> (l: Lexer<'a>)
        requires
            source@.len() < usize::MAX,
        ensures
            l.wf(),
            l.text() == source@,
    {
        let cs = chars_of(source);
        let total = str_byte_len(source);
        let ghost s = source@;
        let mut chars: Vec<(usize, char)> = Vec::new();
        let mut offset: usize = 0;
        let mut i: usize = 0;
        proof {
            assert(s.take(0) =~= Seq::<char>::empty());
        }
        while i < cs.len()
            invariant
                i <= cs@.len(),
                cs@ == s,
                total == utf8_len(s),
                offset == byte_offset(s, i as int),
                chars@.len() == i,
                forall|k: int| 0 <= k < i ==> (#[trigger] chars@[k]).0 == byte_offset(s, k) && chars@[k].1 == s[k],
            decreases cs@.len() - i,
        {
            proof {
                lemma_byte_offset_step(s, i as int);
                crate::source::lemma_byte_offset_bound(s, i + 1);
            }
            chars.push((offset, cs[i]));
            offset = offset + char_utf8_width(cs[i]);
            i = i + 1;
        }
        proof {
            assert(text_of(chars@) =~= s);
        }
        Lexer { source, chars }
    }

    /// Splits the text into tokens, ending with the end-of-input token;
    /// every diagnostic instead when any character cannot be lexed.
    pub fn lex(self) -> (r: Result<Vec<Token>, Vec<MuninnError>>)
        requires
            self.wf(),
        ensures
            match lexed(self.text()) {
                Ok(ts) => r matches Ok(v) && token_views(v@) == ts,
                Err(es) => r matches Err(v) && error_views(v@) == es && forall|i: int|
                    0 <= i < v@.len() ==> (#[trigger] v@[i]).phase@ == "lexer"@,
            },
    {
        let ghost s = self.source@;
        let total = str_byte_len(self.source);
        let chars = &self.chars;
        let n = chars.len();
        let mut tokens: Vec<Token> = Vec::new();
        let mut errors: Vec<MuninnError> = Vec::new();
        let mut cur = Cursor { pos: 0, line: 1, column: 1 };
        proof {
            assert(token_views(tokens@) + lex_from(s, 0).0 =~= lex_from(s, 0).0);
            assert(error_views(errors@) + lex_from(s, 0).1 =~= lex_from(s, 0).1);
        }
        while cur.pos < n
            invariant
                chars_wf(chars@, total),
                text_of(chars@) == s,
                n == s.len(),
                cur.pos <= n,
                at(cur, s, cur.pos as int),
                lex_from(s, 0).0 == token_views(tokens@) + lex_from(s, cur.pos as int).0,
                lex_from(s, 0).1 == error_views(errors@) + lex_from(s, cur.pos as int).1,
                forall|i: int| 0 <= i < errors@.len() ==> (#[trigger] errors@[i]).phase@ == "lexer"@,
            decreases n - cur.pos,
        {
            proof {
                lemma_skip_ws_bounds(s, cur.pos as int, false);
            }
            let j = skip_whitespace(chars, total, cur);
            if j.pos >= n {
                proof {
                    assert(lex_from(s, cur.pos as int).0 =~= Seq::<(Lexeme, Span)>::empty());
                    assert(lex_from(s, j.pos as int).0 =~= Seq::<(Lexeme, Span)>::empty());
                }
                cur = j;
            } else {
                proof {
                    lemma_scan_advances(s, j.pos as int);
                }
                let ghost before_tokens = token_views(tokens@);
                let ghost before_errors = errors@;
                let (tok, end) = scan_token(chars, total, j, &mut errors);
                proof {
                    let sc = scan(s, j.pos as int);
                    assert(sc.end == end.pos);
                    assert forall|i: int| 0 <= i < errors@.len() implies (#[trigger] errors@[i]).phase@
                        == "lexer"@ by {
                        assert(error_views(errors@).len() == errors@.len());
                        assert(error_views(before_errors).len() == before_errors.len());
                        if i < before_errors.len() {
                            assert(errors@.take(before_errors.len() as int)[i] == before_errors[i]);
                            assert(errors@[i] == errors@.take(before_errors.len() as int)[i]);
                        }
                    }
                }
                match tok {
                    Some(t) => {
                        tokens.push(t);
                        proof {
                            let sc = scan(s, j.pos as int);
                            assert(token_views(tokens@) =~= before_tokens + seq![
                                (sc.token.unwrap(), span_of(s, j.pos as int, sc.end)),
                            ]);
                        }
                    },
                    None => {},
                }
                cur = end;
            }
        }
        let eof = Token::new(TokenKind::Eof, Span::new(cur.line, cur.column, total));
        proof {
            assert(s.take(n as int) =~= s);
            assert(token_views(tokens@) + lex_from(s, n as int).0 =~= token_views(tokens@));
            assert(error_views(errors@) + lex_from(s, n as int).1 =~= error_views(errors@));
        }
        if errors.len() == 0 {
            let ghost before = token_views(tokens@);
            tokens.push(eof);
            proof {
                assert(token_views(tokens@) =~= before.push(
                    (Lexeme::Simple(TokenKind::Eof), span_of(s, n as int, n as int)),
                ));
            }
            Ok(tokens)
        } else {
            Err(errors)
        }
    }
}

/// Lexes a whole document.
pub fn lex_document(source: &str) -> (r: Result<Vec<Token>, Vec<MuninnError>>)
    requires
        source@.len() < usize::MAX,
    ensures
        match lexed(source@) {
            Ok(ts) => r matches Ok(v) && token_views(v@) == ts,
            Err(es) => r matches Err(v) && error_views(v@) == es && forall|i: int|
                0 <= i < v@.len() ==> (#[trigger] v@[i]).phase@ == "lexer"@,
        },
{
    Lexer::new(source).lex()
}

} // verus!
