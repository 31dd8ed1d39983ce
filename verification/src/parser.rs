use vstd::prelude::*;

use crate::ast::{
    BinaryOp, Block, Expr, ExprKind, FunctionDecl, NodeId, Param, Program, Stmt, StmtKind,
    TypeExpr, UnaryOp,
};
use crate::error::MuninnError;
use crate::lexer::{
    lemma_lex_from_tokens, lex_document, lex_from, lexed, lexeme_of, span_of, token_views, Lexeme, Token,
    TokenKind,
};
use crate::span::Span;

verus! {

// ----- the surface syntax, as the contracts speak of it -----

/// The kinds of a token stream, each as the contracts speak of it.
pub open spec fn lexemes(tokens: Seq<Token>) -> Seq<Lexeme> {
    Seq::new(tokens.len(), |i: int| lexeme_of(tokens[i].kind))
}

/// A one-token sequence of a kind without text.
pub open spec fn punct(kind: TokenKind) -> Seq<Lexeme> {
    seq![Lexeme::Simple(kind)]
}

/// The token that writes a binary operator.
pub open spec fn binary_token(op: BinaryOp) -> TokenKind {
    match op {
        BinaryOp::Add => TokenKind::Plus,
        BinaryOp::Subtract => TokenKind::Minus,
        BinaryOp::Multiply => TokenKind::Star,
        BinaryOp::Divide => TokenKind::Slash,
        BinaryOp::Equal => TokenKind::EqualEqual,
        BinaryOp::NotEqual => TokenKind::BangEqual,
        BinaryOp::Greater => TokenKind::Greater,
        BinaryOp::GreaterEqual => TokenKind::GreaterEqual,
        BinaryOp::Less => TokenKind::Less,
        BinaryOp::LessEqual => TokenKind::LessEqual,
        BinaryOp::And => TokenKind::AndAnd,
        BinaryOp::Or => TokenKind::OrOr,
    }
}

/// How tightly a binary operator binds: `||` loosest, `*` and `/` tightest.
pub open spec fn binary_level(op: BinaryOp) -> int {
    match op {
        BinaryOp::Or => 1,
        BinaryOp::And => 2,
        BinaryOp::Equal | BinaryOp::NotEqual => 3,
        BinaryOp::Greater | BinaryOp::GreaterEqual | BinaryOp::Less | BinaryOp::LessEqual => 4,
        BinaryOp::Add | BinaryOp::Subtract => 5,
        BinaryOp::Multiply | BinaryOp::Divide => 6,
    }
}

/// The token that writes a prefix operator.
pub open spec fn unary_token(op: UnaryOp) -> TokenKind {
    match op {
        UnaryOp::Negate => TokenKind::Minus,
        UnaryOp::Not => TokenKind::Bang,
    }
}

/// The token that writes a type.
pub open spec fn type_lexeme(t: TypeExpr) -> Lexeme {
    match t {
        TypeExpr::Int => Lexeme::Simple(TokenKind::TypeInt),
        TypeExpr::Float => Lexeme::Simple(TokenKind::TypeFloat),
        TypeExpr::Bool => Lexeme::Simple(TokenKind::TypeBool),
        TypeExpr::String => Lexeme::Simple(TokenKind::TypeString),
        TypeExpr::Tensor => Lexeme::Simple(TokenKind::TypeTensor),
        TypeExpr::Void => Lexeme::Simple(TokenKind::TypeVoid),
        TypeExpr::Record(name) => Lexeme::Identifier(name@),
    }
}

/// The type names that a declaration can spell.
pub open spec fn surface_type(t: TypeExpr) -> bool {
    !(t is Record)
}

/// The binding strength of an expression's outermost form: a binary
/// operator's level, then prefix operators, calls, and atoms.
pub open spec fn precedence(e: Expr) -> int {
    match e.kind {
        ExprKind::Binary { op, .. } => binary_level(op),
        ExprKind::Unary { .. } => 7,
        ExprKind::Call { .. } => 8,
        _ => 9,
    }
}

/// The tokens an expression is written with. Forms that have no surface
/// syntax are written with none.
pub open spec fn expr_tokens(e: Expr) -> Seq<Lexeme>
    decreases e,
{
    match e.kind {
        ExprKind::Int(v) => seq![Lexeme::Int(v)],
        ExprKind::Float(text) => seq![Lexeme::Float(text@)],
        ExprKind::Bool(b) => if b {
            punct(TokenKind::True)
        } else {
            punct(TokenKind::False)
        },
        ExprKind::String(s) => seq![Lexeme::Str(s@)],
        ExprKind::Variable(name) => seq![Lexeme::Identifier(name@)],
        ExprKind::Grouping(inner) => punct(TokenKind::LeftParen) + expr_tokens(*inner) + punct(
            TokenKind::RightParen,
        ),
        ExprKind::Unary { op, expr } => punct(unary_token(op)) + expr_tokens(*expr),
        ExprKind::Binary { left, op, right } => expr_tokens(*left) + punct(binary_token(op))
            + expr_tokens(*right),
        ExprKind::Call { callee, args } => expr_tokens(*callee) + punct(TokenKind::LeftParen)
            + args_tokens(args@) + punct(TokenKind::RightParen),
        _ => Seq::empty(),
    }
}

/// Call arguments separated by commas.
pub open spec fn args_tokens(args: Seq<Expr>) -> Seq<Lexeme>
    decreases args,
{
    if args.len() == 0 {
        Seq::empty()
    } else if args.len() == 1 {
        expr_tokens(args[0])
    } else {
        args_tokens(args.drop_last()) + punct(TokenKind::Comma) + expr_tokens(args.last())
    }
}

/// An expression in the form the parser builds: only forms with surface
/// syntax, and every operand binding at least as tightly as its operator
/// asks (binary operators group to the left).
pub open spec fn surface_expr(e: Expr) -> bool
    decreases e,
{
    match e.kind {
        ExprKind::Int(_) | ExprKind::Float(_) | ExprKind::Bool(_) | ExprKind::String(_)
        | ExprKind::Variable(_) => true,
        ExprKind::Grouping(inner) => surface_expr(*inner),
        ExprKind::Unary { expr, .. } => surface_expr(*expr) && precedence(*expr) >= 7,
        ExprKind::Binary { left, op, right } => {
            &&& surface_expr(*left)
            &&& surface_expr(*right)
            &&& precedence(*left) >= binary_level(op)
            &&& precedence(*right) > binary_level(op)
        },
        ExprKind::Call { callee, args } => {
            &&& surface_expr(*callee)
            &&& precedence(*callee) >= 8
            &&& surface_args(args@)
        },
        _ => false,
    }
}

pub open spec fn surface_args(args: Seq<Expr>) -> bool
    decreases args,
{
    if args.len() == 0 {
        true
    } else {
        surface_args(args.drop_last()) && surface_expr(args.last())
    }
}

/// Node ids of an expression, children before parents.
pub open spec fn expr_ids(e: Expr) -> Seq<int>
    decreases e,
{
    let own = seq![e.id.0 as int];
    match e.kind {
        ExprKind::Grouping(inner) => expr_ids(*inner) + own,
        ExprKind::Unary { expr, .. } => expr_ids(*expr) + own,
        ExprKind::Binary { left, right, .. } => expr_ids(*left) + expr_ids(*right) + own,
        ExprKind::Call { callee, args } => expr_ids(*callee) + args_ids(args@) + own,
        _ => own,
    }
}

pub open spec fn args_ids(args: Seq<Expr>) -> Seq<int>
    decreases args,
{
    if args.len() == 0 {
        Seq::empty()
    } else {
        args_ids(args.drop_last()) + expr_ids(args.last())
    }
}

/// The integers from `from` up to, not including, `to`.
pub open spec fn id_run(from: int, to: int) -> Seq<int> {
    Seq::new((to - from) as nat, |i: int| from + i)
}

pub open spec fn param_tokens(p: Param) -> Seq<Lexeme> {
    seq![Lexeme::Identifier(p.name@), Lexeme::Simple(TokenKind::Colon), type_lexeme(p.ty)]
}

/// Parameters separated by commas.
pub open spec fn params_tokens(ps: Seq<Param>) -> Seq<Lexeme>
    decreases ps.len(),
{
    if ps.len() == 0 {
        Seq::empty()
    } else if ps.len() == 1 {
        param_tokens(ps[0])
    } else {
        params_tokens(ps.drop_last()) + punct(TokenKind::Comma) + param_tokens(ps.last())
    }
}

pub open spec fn params_ids(ps: Seq<Param>) -> Seq<int>
    decreases ps.len(),
{
    if ps.len() == 0 {
        Seq::empty()
    } else {
        params_ids(ps.drop_last()).push(ps.last().id.0 as int)
    }
}

pub open spec fn surface_params(ps: Seq<Param>) -> bool {
    forall|i: int| 0 <= i < ps.len() ==> surface_type(#[trigger] ps[i].ty)
}

pub open spec fn optional_tokens(present: bool, tokens: Seq<Lexeme>) -> Seq<Lexeme> {
    if present {
        tokens
    } else {
        Seq::empty()
    }
}

/// The tokens a block is written with.
pub open spec fn block_tokens(b: Block) -> Seq<Lexeme>
    decreases b,
{
    punct(TokenKind::LeftBrace) + stmts_tokens(b.statements@) + punct(TokenKind::RightBrace)
}

pub open spec fn stmts_tokens(ss: Seq<Stmt>) -> Seq<Lexeme>
    decreases ss,
{
    if ss.len() == 0 {
        Seq::empty()
    } else {
        stmts_tokens(ss.drop_last()) + stmt_tokens(ss.last())
    }
}

/// The tokens a statement is written with.
pub open spec fn stmt_tokens(s: Stmt) -> Seq<Lexeme>
    decreases s,
{
    match s.kind {
        StmtKind::Let { name, mutable, ty, initializer, .. } => punct(TokenKind::Let)
            + optional_tokens(mutable, punct(TokenKind::Mut)) + seq![Lexeme::Identifier(name@)]
            + match ty {
            Some(t) => seq![Lexeme::Simple(TokenKind::Colon), type_lexeme(t)],
            None => Seq::empty(),
        } + punct(TokenKind::Equal) + expr_tokens(initializer) + punct(TokenKind::Semicolon),
        StmtKind::Function(d) => seq![
            Lexeme::Simple(TokenKind::Fn),
            Lexeme::Identifier(d.name@),
            Lexeme::Simple(TokenKind::LeftParen),
        ] + params_tokens(d.params@) + seq![
            Lexeme::Simple(TokenKind::RightParen),
            Lexeme::Simple(TokenKind::Arrow),
            type_lexeme(d.return_type),
        ] + block_tokens(d.body),
        StmtKind::Return(value) => punct(TokenKind::Return) + match value {
            Some(e) => expr_tokens(e),
            None => Seq::empty(),
        } + punct(TokenKind::Semicolon),
        StmtKind::While { condition, body } => punct(TokenKind::While) + punct(TokenKind::LeftParen)
            + expr_tokens(condition) + punct(TokenKind::RightParen) + block_tokens(body),
        StmtKind::If { condition, then_branch, else_branch } => punct(TokenKind::If) + punct(
            TokenKind::LeftParen,
        ) + expr_tokens(condition) + punct(TokenKind::RightParen) + block_tokens(then_branch)
            + match else_branch {
            Some(b) => punct(TokenKind::Else) + block_tokens(b),
            None => Seq::empty(),
        },
        StmtKind::Assign { name, value, .. } => seq![Lexeme::Identifier(name@)] + punct(
            TokenKind::Equal,
        ) + expr_tokens(value) + punct(TokenKind::Semicolon),
        StmtKind::Expr(e) => expr_tokens(e) + punct(TokenKind::Semicolon),
        StmtKind::Record(_) => Seq::empty(),
    }
}

/// A block in the form the parser builds.
pub open spec fn surface_block(b: Block) -> bool
    decreases b,
{
    b.value is None && surface_stmts(b.statements@, false)
}

pub open spec fn surface_stmts(ss: Seq<Stmt>, top: bool) -> bool
    decreases ss,
{
    if ss.len() == 0 {
        true
    } else {
        surface_stmts(ss.drop_last(), top) && surface_stmt(ss.last(), top)
    }
}

/// A statement in the form the parser builds; functions are declared at
/// the top level only.
pub open spec fn surface_stmt(s: Stmt, top: bool) -> bool
    decreases s,
{
    match s.kind {
        StmtKind::Let { ty, initializer, .. } => surface_expr(initializer) && match ty {
            Some(t) => surface_type(t),
            None => true,
        },
        StmtKind::Function(d) => {
            &&& top
            &&& surface_params(d.params@)
            &&& surface_type(d.return_type)
            &&& surface_block(d.body)
        },
        StmtKind::Return(value) => match value {
            Some(e) => surface_expr(e),
            None => true,
        },
        StmtKind::While { condition, body } => surface_expr(condition) && surface_block(body),
        StmtKind::If { condition, then_branch, else_branch } => {
            &&& surface_expr(condition)
            &&& surface_block(then_branch)
            &&& match else_branch {
                Some(b) => surface_block(b),
                None => true,
            }
        },
        StmtKind::Assign { value, .. } => surface_expr(value),
        StmtKind::Expr(e) => surface_expr(e),
        StmtKind::Record(_) => false,
    }
}

/// Node ids of a block, children before parents.
pub open spec fn block_ids(b: Block) -> Seq<int>
    decreases b,
{
    stmts_ids(b.statements@).push(b.id.0 as int)
}

pub open spec fn stmts_ids(ss: Seq<Stmt>) -> Seq<int>
    decreases ss,
{
    if ss.len() == 0 {
        Seq::empty()
    } else {
        stmts_ids(ss.drop_last()) + stmt_ids(ss.last())
    }
}

pub open spec fn stmt_ids(s: Stmt) -> Seq<int>
    decreases s,
{
    let own = seq![s.id.0 as int];
    match s.kind {
        StmtKind::Let { initializer, .. } => expr_ids(initializer) + own,
        StmtKind::Function(d) => params_ids(d.params@) + block_ids(d.body) + seq![
            d.id.0 as int,
        ] + own,
        StmtKind::Return(value) => match value {
            Some(e) => expr_ids(e) + own,
            None => own,
        },
        StmtKind::While { condition, body } => expr_ids(condition) + block_ids(body) + own,
        StmtKind::If { condition, then_branch, else_branch } => expr_ids(condition) + block_ids(
            then_branch,
        ) + match else_branch {
            Some(b) => block_ids(b),
            None => Seq::empty(),
        } + own,
        StmtKind::Assign { value, .. } => expr_ids(value) + own,
        StmtKind::Expr(e) => expr_ids(e) + own,
        StmtKind::Record(_) => own,
    }
}

/// The tokens a program is written with, before its end-of-input token.
pub open spec fn program_tokens(p: Program) -> Seq<Lexeme> {
    stmts_tokens(p.statements@)
}

pub open spec fn surface_program(p: Program) -> bool {
    surface_stmts(p.statements@, true)
}

pub open spec fn program_ids(p: Program) -> Seq<int> {
    stmts_ids(p.statements@)
}

// ----- the parser -----

/// The variant of a token kind, whatever text it carries.
pub open spec fn kind_tag(k: TokenKind) -> int {
    match k {
        TokenKind::LeftParen => 0,
        TokenKind::RightParen => 1,
        TokenKind::LeftBrace => 2,
        TokenKind::RightBrace => 3,
        TokenKind::Comma => 4,
        TokenKind::Semicolon => 5,
        TokenKind::Colon => 6,
        TokenKind::Plus => 7,
        TokenKind::Minus => 8,
        TokenKind::Star => 9,
        TokenKind::Slash => 10,
        TokenKind::Bang => 11,
        TokenKind::BangEqual => 12,
        TokenKind::Equal => 13,
        TokenKind::EqualEqual => 14,
        TokenKind::Greater => 15,
        TokenKind::GreaterEqual => 16,
        TokenKind::Less => 17,
        TokenKind::LessEqual => 18,
        TokenKind::Arrow => 19,
        TokenKind::AndAnd => 20,
        TokenKind::OrOr => 21,
        TokenKind::Identifier(_) => 22,
        TokenKind::IntLiteral(_) => 23,
        TokenKind::FloatLiteral(_) => 24,
        TokenKind::StringLiteral(_) => 25,
        TokenKind::Fn => 26,
        TokenKind::Let => 27,
        TokenKind::Mut => 28,
        TokenKind::If => 29,
        TokenKind::Else => 30,
        TokenKind::Return => 31,
        TokenKind::While => 32,
        TokenKind::True => 33,
        TokenKind::False => 34,
        TokenKind::TypeInt => 35,
        TokenKind::TypeFloat => 36,
        TokenKind::TypeBool => 37,
        TokenKind::TypeString => 38,
        TokenKind::TypeTensor => 39,
        TokenKind::TypeVoid => 40,
        TokenKind::Eof => 41,
    }
}

/// A token kind that carries no text.
pub open spec fn textless(k: TokenKind) -> bool {
    !(k is Identifier || k is IntLiteral || k is FloatLiteral || k is StringLiteral)
}

fn token_tag(kind: &TokenKind) -> (t: u8)
    ensures
        t == kind_tag(*kind),
{
    match kind {
        TokenKind::LeftParen => 0,
        TokenKind::RightParen => 1,
        TokenKind::LeftBrace => 2,
        TokenKind::RightBrace => 3,
        TokenKind::Comma => 4,
        TokenKind::Semicolon => 5,
        TokenKind::Colon => 6,
        TokenKind::Plus => 7,
        TokenKind::Minus => 8,
        TokenKind::Star => 9,
        TokenKind::Slash => 10,
        TokenKind::Bang => 11,
        TokenKind::BangEqual => 12,
        TokenKind::Equal => 13,
        TokenKind::EqualEqual => 14,
        TokenKind::Greater => 15,
        TokenKind::GreaterEqual => 16,
        TokenKind::Less => 17,
        TokenKind::LessEqual => 18,
        TokenKind::Arrow => 19,
        TokenKind::AndAnd => 20,
        TokenKind::OrOr => 21,
        TokenKind::Identifier(_) => 22,
        TokenKind::IntLiteral(_) => 23,
        TokenKind::FloatLiteral(_) => 24,
        TokenKind::StringLiteral(_) => 25,
        TokenKind::Fn => 26,
        TokenKind::Let => 27,
        TokenKind::Mut => 28,
        TokenKind::If => 29,
        TokenKind::Else => 30,
        TokenKind::Return => 31,
        TokenKind::While => 32,
        TokenKind::True => 33,
        TokenKind::False => 34,
        TokenKind::TypeInt => 35,
        TokenKind::TypeFloat => 36,
        TokenKind::TypeBool => 37,
        TokenKind::TypeString => 38,
        TokenKind::TypeTensor => 39,
        TokenKind::TypeVoid => 40,
        TokenKind::Eof => 41,
    }
}

/// Two kinds of the same variant, one of them without text, are equal.
proof fn lemma_same_variant(k: TokenKind, expected: TokenKind)
    requires
        kind_tag(k) == kind_tag(expected),
        textless(expected),
    ensures
        k == expected,
        lexeme_of(k) == Lexeme::Simple(expected),
{
}

/// The most tokens a parser takes, so that node ids, at most two per
/// token, fit in `u32`.
pub const MAX_PARSE_TOKENS: usize = 0x3fff_ffff;

/// A recursive-descent parser over a token stream that ends with the
/// end-of-input token.
pub struct Parser {
    tokens: Vec<Token>,
    current: usize,
    next_node_id: u32,
}

/// A parser state that the parsing functions keep: the stream ends with
/// its end marker, the position is inside it, and at most two node ids
/// have been handed out per token read.
/// The type a token names, if it names one.
pub open spec fn type_named(kind: TokenKind) -> Option<TypeExpr> {
    match kind {
        TokenKind::TypeInt => Some(TypeExpr::Int),
        TokenKind::TypeFloat => Some(TypeExpr::Float),
        TokenKind::TypeBool => Some(TypeExpr::Bool),
        TokenKind::TypeString => Some(TypeExpr::String),
        TokenKind::TypeTensor => Some(TypeExpr::Tensor),
        TokenKind::TypeVoid => Some(TypeExpr::Void),
        _ => None,
    }
}

/// The type a lexeme names, if it names one.
pub open spec fn type_named_lexeme(l: Lexeme) -> Option<TypeExpr> {
    match l {
        Lexeme::Simple(k) => type_named(k),
        _ => None,
    }
}

/// The prefix operator a lexeme writes, if any.
pub open spec fn lexeme_unary(l: Lexeme) -> Option<UnaryOp> {
    match l {
        Lexeme::Simple(k) => unary_op_of(k),
        _ => None,
    }
}

/// The binary operator of precedence `level` a lexeme writes, if any.
pub open spec fn lexeme_binary(l: Lexeme, level: u8) -> Option<BinaryOp> {
    match l {
        Lexeme::Simple(k) => binary_op_of(k, level),
        _ => None,
    }
}

/// A lexeme that is a whole primary expression by itself.
pub open spec fn atom_lexeme(l: Lexeme) -> bool {
    l is Int || l is Float || l is Str || l is Identifier || l == Lexeme::Simple(TokenKind::True) || l
        == Lexeme::Simple(TokenKind::False)
}

/// A parameter, `name: Type`, is written from position `i`.
pub open spec fn param_at(toks: Seq<Lexeme>, i: int) -> bool {
    &&& toks[i] is Identifier
    &&& toks[i + 1] == Lexeme::Simple(TokenKind::Colon)
    &&& type_named_lexeme(toks[i + 2]) is Some
}

/// A token that begins a statement, where recovery after an error resumes.
pub open spec fn starts_statement(kind: TokenKind) -> bool {
    kind is Fn || kind is Let || kind is Return || kind is If || kind is While
}

/// Where recovery after an error stops: at the end, after a `;`, or
/// before a token that begins a statement.
pub open spec fn sync_stop(toks: Seq<Token>, p: int) -> bool {
    ||| toks[p].kind is Eof
    ||| toks[if p == 0 { 0 } else { p - 1 }].kind is Semicolon
    ||| starts_statement(toks[p].kind)
}

// ----- where the parser stops -----
//
// Each function below gives, for the tokens from position `i` on, the
// position after the construct the parser reads there, or `None` where it
// reports an error. Operators are read left-associatively, each level
// binding tighter than the one before; calls bind tighter still.

/// A token that is a whole primary expression by itself.
pub open spec fn atom_token(kind: TokenKind) -> bool {
    kind is IntLiteral || kind is FloatLiteral || kind is True || kind is False || kind is StringLiteral
        || kind is Identifier
}

/// A literal, a name, or an expression in parentheses.
pub open spec fn primary_end(toks: Seq<Lexeme>, i: int) -> Option<int>
    decreases toks.len() - i, 0int,
{
    if !(0 <= i < toks.len()) {
        None
    } else if toks[i] == Lexeme::Simple(TokenKind::LeftParen) {
        match expr_end(toks, i + 1) {
            Some(j) => if 0 <= j < toks.len() && toks[j] == Lexeme::Simple(TokenKind::RightParen) {
                Some(j + 1)
            } else {
                None
            },
            None => None,
        }
    } else if atom_lexeme(toks[i]) {
        Some(i + 1)
    } else {
        None
    }
}

/// A primary expression followed by any number of argument lists.
pub open spec fn call_end(toks: Seq<Lexeme>, i: int) -> Option<int>
    decreases toks.len() - i, 1int,
{
    if !(0 <= i < toks.len()) {
        None
    } else {
        match primary_end(toks, i) {
            Some(j) => if i < j < toks.len() {
                call_rest(toks, j)
            } else {
                None
            },
            None => None,
        }
    }
}

/// The argument lists that follow a callee ending at `j`.
pub open spec fn call_rest(toks: Seq<Lexeme>, j: int) -> Option<int>
    decreases toks.len() - j, 0int,
{
    if !(0 <= j < toks.len()) {
        None
    } else if toks[j] == Lexeme::Simple(TokenKind::LeftParen) {
        match args_end(toks, j + 1) {
            Some(k) => if j < k < toks.len() && toks[k] == Lexeme::Simple(TokenKind::RightParen) {
                call_rest(toks, k + 1)
            } else {
                None
            },
            None => None,
        }
    } else {
        Some(j)
    }
}

/// Arguments separated by commas, up to a closing parenthesis.
pub open spec fn args_end(toks: Seq<Lexeme>, i: int) -> Option<int>
    decreases toks.len() - i, 10int,
{
    if !(0 <= i < toks.len()) {
        None
    } else if toks[i] == Lexeme::Simple(TokenKind::RightParen) {
        Some(i)
    } else {
        match expr_end(toks, i) {
            Some(k) => if i < k < toks.len() {
                args_rest(toks, k)
            } else {
                None
            },
            None => None,
        }
    }
}

/// Further arguments, each after a comma, following one that ends at `k`.
pub open spec fn args_rest(toks: Seq<Lexeme>, k: int) -> Option<int>
    decreases toks.len() - k, 0int,
{
    if !(0 <= k < toks.len()) {
        None
    } else if toks[k] == Lexeme::Simple(TokenKind::Comma) {
        match expr_end(toks, k + 1) {
            Some(m) => if k < m < toks.len() {
                args_rest(toks, m)
            } else {
                None
            },
            None => None,
        }
    } else {
        Some(k)
    }
}

/// Prefix operators, then a call.
pub open spec fn unary_end(toks: Seq<Lexeme>, i: int) -> Option<int>
    decreases toks.len() - i, 2int,
{
    if !(0 <= i < toks.len()) {
        None
    } else if lexeme_unary(toks[i]) is Some {
        unary_end(toks, i + 1)
    } else {
        call_end(toks, i)
    }
}

/// Operands of the next level joined by operators of level `level`.
pub open spec fn binary_end(toks: Seq<Lexeme>, i: int, level: int) -> Option<int>
    decreases toks.len() - i, 9 - level,
{
    if !(0 <= i < toks.len()) || !(1 <= level <= 6) {
        None
    } else {
        let operand = if level == 6 {
            unary_end(toks, i)
        } else {
            binary_end(toks, i, level + 1)
        };
        match operand {
            Some(j) => if i < j < toks.len() {
                binary_rest(toks, j, level)
            } else {
                None
            },
            None => None,
        }
    }
}

/// Further operators of level `level`, each with its right operand,
/// following an operand that ends at `j`.
pub open spec fn binary_rest(toks: Seq<Lexeme>, j: int, level: int) -> Option<int>
    decreases toks.len() - j, 0int,
{
    if !(0 <= j < toks.len()) || !(1 <= level <= 6) {
        None
    } else if lexeme_binary(toks[j], level as u8) is Some {
        let operand = if level == 6 {
            unary_end(toks, j + 1)
        } else {
            binary_end(toks, j + 1, level + 1)
        };
        match operand {
            Some(k) => if j < k < toks.len() {
                binary_rest(toks, k, level)
            } else {
                None
            },
            None => None,
        }
    } else {
        Some(j)
    }
}

/// A whole expression.
pub open spec fn expr_end(toks: Seq<Lexeme>, i: int) -> Option<int>
    decreases toks.len() - i, 9int,
{
    if !(0 <= i < toks.len()) {
        None
    } else {
        binary_end(toks, i, 1)
    }
}

/// The position after a `;` that follows a construct ending at `e`.
pub open spec fn then_semicolon(toks: Seq<Lexeme>, e: Option<int>) -> Option<int> {
    match e {
        Some(e) => if 0 <= e < toks.len() && toks[e] == Lexeme::Simple(TokenKind::Semicolon) {
            Some(e + 1)
        } else {
            None
        },
        None => None,
    }
}

/// Parameters separated by commas, from a first one at `i`.
pub open spec fn params_list_end(toks: Seq<Lexeme>, i: int) -> Option<int>
    decreases toks.len() - i,
{
    if !(0 <= i) || !param_at(toks, i) {
        None
    } else if i + 3 < toks.len() && toks[i + 3] == Lexeme::Simple(TokenKind::Comma) {
        params_list_end(toks, i + 4)
    } else {
        Some(i + 3)
    }
}

/// A parameter list, possibly empty, up to a closing parenthesis.
pub open spec fn params_end(toks: Seq<Lexeme>, i: int) -> Option<int> {
    if 0 <= i < toks.len() && toks[i] == Lexeme::Simple(TokenKind::RightParen) {
        Some(i)
    } else {
        params_list_end(toks, i)
    }
}

/// `[mut] name [: Type] = expression ;`, after the `let`.
pub open spec fn let_end(toks: Seq<Lexeme>, i: int) -> Option<int> {
    if !(0 <= i < toks.len()) {
        None
    } else {
        let j = if toks[i] == Lexeme::Simple(TokenKind::Mut) { i + 1 } else { i };
        if !(j + 1 < toks.len() && toks[j] is Identifier) {
            None
        } else {
            let k = j + 1;
            let m = if toks[k] == Lexeme::Simple(TokenKind::Colon) {
                if k + 1 < toks.len() && type_named_lexeme(toks[k + 1]) is Some {
                    Some(k + 2)
                } else {
                    None
                }
            } else {
                Some(k)
            };
            match m {
                Some(m) => if m < toks.len() && toks[m] == Lexeme::Simple(TokenKind::Equal) {
                    then_semicolon(toks, expr_end(toks, m + 1))
                } else {
                    None
                },
                None => None,
            }
        }
    }
}

/// `;` or `expression ;`, after the `return`.
pub open spec fn return_end(toks: Seq<Lexeme>, i: int) -> Option<int> {
    if 0 <= i < toks.len() && toks[i] == Lexeme::Simple(TokenKind::Semicolon) {
        Some(i + 1)
    } else {
        then_semicolon(toks, expr_end(toks, i))
    }
}

/// `name = expression ;`.
pub open spec fn assign_end(toks: Seq<Lexeme>, i: int) -> Option<int> {
    if 0 <= i && i + 1 < toks.len() && toks[i] is Identifier && toks[i + 1] == Lexeme::Simple(TokenKind::Equal) {
        then_semicolon(toks, expr_end(toks, i + 2))
    } else {
        None
    }
}

/// An assignment begins with a name followed by `=`.
pub open spec fn assignment_ahead(toks: Seq<Lexeme>, i: int) -> bool {
    0 <= i && i + 1 < toks.len() && toks[i] is Identifier && toks[i + 1] == Lexeme::Simple(TokenKind::Equal)
}

/// `( expression )` from `i`: the position after the `)`.
pub open spec fn condition_end(toks: Seq<Lexeme>, i: int) -> Option<int> {
    if 0 <= i < toks.len() && toks[i] == Lexeme::Simple(TokenKind::LeftParen) {
        match expr_end(toks, i + 1) {
            Some(e) => if i < e < toks.len() && toks[e] == Lexeme::Simple(TokenKind::RightParen) {
                Some(e + 1)
            } else {
                None
            },
            None => None,
        }
    } else {
        None
    }
}

/// `{ statements }`.
pub open spec fn block_end(toks: Seq<Lexeme>, i: int) -> Option<int>
    decreases toks.len() - i, 0int,
{
    if 0 <= i < toks.len() && toks[i] == Lexeme::Simple(TokenKind::LeftBrace) {
        stmts_rest(toks, i + 1)
    } else {
        None
    }
}

/// Statements up to and including the `}` that closes a block.
pub open spec fn stmts_rest(toks: Seq<Lexeme>, j: int) -> Option<int>
    decreases toks.len() - j, 2int,
{
    if !(0 <= j < toks.len()) || toks[j] == Lexeme::Simple(TokenKind::Eof) {
        None
    } else if toks[j] == Lexeme::Simple(TokenKind::RightBrace) {
        Some(j + 1)
    } else {
        match stmt_end(toks, j) {
            Some(k) => if j < k < toks.len() {
                stmts_rest(toks, k)
            } else {
                None
            },
            None => None,
        }
    }
}

/// A statement inside a block.
pub open spec fn stmt_end(toks: Seq<Lexeme>, j: int) -> Option<int>
    decreases toks.len() - j, 1int,
{
    if !(0 <= j < toks.len()) {
        None
    } else if toks[j] == Lexeme::Simple(TokenKind::Let) {
        let_end(toks, j + 1)
    } else if toks[j] == Lexeme::Simple(TokenKind::Return) {
        return_end(toks, j + 1)
    } else if toks[j] == Lexeme::Simple(TokenKind::While) {
        while_end(toks, j + 1)
    } else if toks[j] == Lexeme::Simple(TokenKind::If) {
        if_end(toks, j + 1)
    } else if toks[j] == Lexeme::Simple(TokenKind::Fn) || toks[j] == Lexeme::Simple(TokenKind::Eof) {
        None
    } else if assignment_ahead(toks, j) {
        assign_end(toks, j)
    } else {
        then_semicolon(toks, expr_end(toks, j))
    }
}

/// `( condition ) block`, after the `while`.
pub open spec fn while_end(toks: Seq<Lexeme>, i: int) -> Option<int>
    decreases toks.len() - i, 0int,
{
    match condition_end(toks, i) {
        Some(c) => if i < c {
            block_end(toks, c)
        } else {
            None
        },
        None => None,
    }
}

/// `( condition ) block [else block]`, after the `if`.
pub open spec fn if_end(toks: Seq<Lexeme>, i: int) -> Option<int>
    decreases toks.len() - i, 0int,
{
    match condition_end(toks, i) {
        Some(c) => if i < c {
            match block_end(toks, c) {
                Some(b) => if i < b < toks.len() && toks[b] == Lexeme::Simple(TokenKind::Else) {
                    block_end(toks, b + 1)
                } else {
                    Some(b)
                },
                None => None,
            }
        } else {
            None
        },
        None => None,
    }
}

/// `name ( parameters ) -> Type block`, after the `fn`.
pub open spec fn function_end(toks: Seq<Lexeme>, i: int) -> Option<int> {
    if 0 <= i && i + 1 < toks.len() && toks[i] is Identifier && toks[i + 1] == Lexeme::Simple(TokenKind::LeftParen) {
        match params_end(toks, i + 2) {
            Some(p) => if p + 2 < toks.len() && toks[p] == Lexeme::Simple(TokenKind::RightParen) && toks[p + 1] == Lexeme::Simple(TokenKind::Arrow)
                && type_named_lexeme(toks[p + 2]) is Some {
                block_end(toks, p + 3)
            } else {
                None
            },
            None => None,
        }
    } else {
        None
    }
}

/// A statement at the top level: a function declaration or a statement.
pub open spec fn top_end(toks: Seq<Lexeme>, i: int) -> Option<int> {
    if 0 <= i < toks.len() && toks[i] == Lexeme::Simple(TokenKind::Fn) {
        function_end(toks, i + 1)
    } else {
        stmt_end(toks, i)
    }
}

/// Top-level statements from `i` up to the end-of-input token: whether the
/// parser reads them all without an error.
pub open spec fn program_rest(toks: Seq<Lexeme>, i: int) -> bool
    decreases toks.len() - i,
{
    if !(0 <= i < toks.len()) {
        false
    } else if toks[i] == Lexeme::Simple(TokenKind::Eof) {
        true
    } else {
        match top_end(toks, i) {
            Some(k) => i < k < toks.len() && program_rest(toks, k),
            None => false,
        }
    }
}

/// No expression starts at the end-of-input token.
proof fn lemma_no_expression_at_eof(toks: Seq<Lexeme>, j: int)
    requires
        0 <= j < toks.len(),
        toks[j] == Lexeme::Simple(TokenKind::Eof),
    ensures
        expr_end(toks, j) is None,
{
    assert(primary_end(toks, j) is None);
    assert(call_end(toks, j) is None);
    assert(unary_end(toks, j) is None);
    assert(binary_end(toks, j, 6) is None);
    assert(binary_end(toks, j, 5) is None);
    assert(binary_end(toks, j, 4) is None);
    assert(binary_end(toks, j, 3) is None);
    assert(binary_end(toks, j, 2) is None);
    assert(binary_end(toks, j, 1) is None);
}

spec fn parser_wf(p: Parser) -> bool {
    &&& 0 < p.tokens@.len() <= MAX_PARSE_TOKENS
    &&& p.tokens@.last().kind is Eof
    &&& p.current < p.tokens@.len()
    &&& 1 <= p.next_node_id <= 1 + 2 * p.current
}

/// From one parser state to a later one: same tokens, the position and
/// the id counter only move forward, the counter by at most two per token.
spec fn stepped(a: Parser, b: Parser) -> bool {
    &&& parser_wf(b)
    &&& b.tokens@ == a.tokens@
    &&& a.current <= b.current
    &&& a.next_node_id <= b.next_node_id
    &&& b.next_node_id - a.next_node_id <= 2 * (b.current - a.current)
}

/// The tokens read between two parser states.
spec fn read(a: Parser, b: Parser) -> Seq<Lexeme> {
    lexemes(a.tokens@).subrange(a.current as int, b.current as int)
}

/// The node ids handed out between two parser states.
spec fn ids_between(a: Parser, b: Parser) -> Seq<int> {
    id_run(a.next_node_id as int, b.next_node_id as int)
}

spec fn at_end(p: Parser) -> bool {
    p.tokens@[p.current as int].kind is Eof
}

/// An expression read between two states, binding at least as tightly as `level`.
spec fn expr_read(a: Parser, b: Parser, e: Expr, level: int) -> bool {
    &&& expr_tokens(e) == read(a, b)
    &&& surface_expr(e)
    &&& precedence(e) >= level
    &&& expr_ids(e) == ids_between(a, b)
}

impl Parser {
    pub closed spec fn token_seq(&self) -> Seq<Token> {
        self.tokens@
    }

    pub closed spec fn position(&self) -> int {
        self.current as int
    }

    pub closed spec fn next_id(&self) -> int {
        self.next_node_id as int
    }

    pub closed spec fn well_formed(&self) -> bool {
        parser_wf(*self)
    }

    pub fn new(tokens: Vec<Token>) -> (p: Parser)
        requires
            0 < tokens@.len() <= MAX_PARSE_TOKENS,
            tokens@.last().kind is Eof,
        ensures
            p.well_formed(),
            p.token_seq() == tokens@,
            p.position() == 0,
            p.next_id() == 1,
    {
        Parser { tokens, current: 0, next_node_id: 1 }
    }

    fn is_at_end(&self) -> (b: bool)
        requires
            parser_wf(*self),
        ensures
            b == at_end(*self),
    {
        match self.tokens[self.current].kind {
            TokenKind::Eof => true,
            _ => false,
        }
    }

    fn peek_span(&self) -> (s: Span)
        requires
            parser_wf(*self),
        ensures
            s == self.tokens@[self.current as int].span,
    {
        self.tokens[self.current].span
    }

    /// The span of the token before the current one (the first token's at the start).
    fn previous_span(&self) -> (s: Span)
        requires
            parser_wf(*self),
        ensures
            s == self.tokens@[if self.current == 0 { 0int } else { self.current - 1 }].span,
    {
        if self.current == 0 {
            self.tokens[0].span
        } else {
            self.tokens[self.current - 1].span
        }
    }

    fn check_simple(&self, expected: TokenKind) -> (b: bool)
        requires
            parser_wf(*self),
        ensures
            b == (kind_tag(self.tokens@[self.current as int].kind) == kind_tag(expected)),
    {
        token_tag(&self.tokens[self.current].kind) == token_tag(&expected)
    }

    /// Steps over the current token when it is of the expected kind.
    fn match_simple(&mut self, expected: TokenKind) -> (b: bool)
        requires
            parser_wf(*old(self)),
            textless(expected),
            !(expected is Eof),
        ensures
            b == (kind_tag(old(self).tokens@[old(self).current as int].kind) == kind_tag(expected)),
            stepped(*old(self), *final(self)),
            final(self).next_node_id == old(self).next_node_id,
            b ==> final(self).current == old(self).current + 1 && read(*old(self), *final(self))
                == punct(expected),
            !b ==> final(self).current == old(self).current,
    {
        if self.check_simple(expected) {
            proof {
                lemma_same_variant(self.tokens@[self.current as int].kind, expected);
            }
            self.current = self.current + 1;
            proof {
                assert(read(*old(self), *self) =~= punct(expected));
            }
            true
        } else {
            false
        }
    }

    /// Steps over the current token, which must be of the expected kind,
    /// and gives its span.
    fn consume_simple(&mut self, expected: TokenKind, message: &str) -> (r: Result<Span, MuninnError>)
        requires
            parser_wf(*old(self)),
            textless(expected),
            !(expected is Eof),
        ensures
            stepped(*old(self), *final(self)),
            final(self).next_node_id == old(self).next_node_id,
            r is Ok ==> final(self).current == old(self).current + 1 && read(*old(self), *final(self))
                == punct(expected),
            r is Err ==> final(self).current == old(self).current,
            r is Ok <==> kind_tag(old(self).tokens@[old(self).current as int].kind) == kind_tag(expected),
            r matches Ok(span) ==> span == old(self).tokens@[old(self).current as int].span,
            r matches Err(e) ==> e.span == old(self).tokens@[old(self).current as int].span && e.message@
                == message@,
    {
        let span = self.peek_span();
        if self.match_simple(expected) {
            Ok(span)
        } else {
            Err(MuninnError::new("parser", message, span))
        }
    }

    fn alloc_id(&mut self) -> (id: NodeId)
        requires
            old(self).next_node_id < u32::MAX,
        ensures
            id.0 == old(self).next_node_id,
            final(self).next_node_id == old(self).next_node_id + 1,
            final(self).tokens@ == old(self).tokens@,
            final(self).current == old(self).current,
    {
        let id = self.next_node_id;
        self.next_node_id = self.next_node_id + 1;
        NodeId(id)
    }
}

/// Reading on from where one read stopped.
/// Every expression of the surface syntax is written with some token.
proof fn lemma_expr_written(e: Expr)
    requires
        surface_expr(e),
    ensures
        expr_tokens(e).len() > 0,
{
    match e.kind {
        ExprKind::Grouping(_) => {},
        ExprKind::Unary { .. } => {},
        ExprKind::Binary { .. } => {},
        ExprKind::Call { .. } => {},
        _ => {},
    }
}

proof fn lemma_read_concat(a: Parser, b: Parser, c: Parser)
    requires
        a.tokens@ == b.tokens@,
        b.tokens@ == c.tokens@,
        a.current <= b.current <= c.current,
        c.current <= a.tokens@.len(),
    ensures
        read(a, b) + read(b, c) == read(a, c),
{
    assert(read(a, b) + read(b, c) =~= read(a, c));
}

proof fn lemma_ids_concat(a: Parser, b: Parser, c: Parser)
    requires
        a.next_node_id <= b.next_node_id <= c.next_node_id,
    ensures
        ids_between(a, b) + ids_between(b, c) == ids_between(a, c),
{
    assert(ids_between(a, b) + ids_between(b, c) =~= ids_between(a, c));
}

proof fn lemma_read_one(a: Parser, b: Parser)
    requires
        a.tokens@ == b.tokens@,
        b.current == a.current + 1,
        b.current <= a.tokens@.len(),
    ensures
        read(a, b) == seq![lexemes(a.tokens@)[a.current as int]],
{
    assert(read(a, b) =~= seq![lexemes(a.tokens@)[a.current as int]]);
}

proof fn lemma_one_id(a: Parser, b: Parser)
    requires
        b.next_node_id == a.next_node_id + 1,
    ensures
        ids_between(a, b) == seq![a.next_node_id as int],
{
    assert(ids_between(a, b) =~= seq![a.next_node_id as int]);
}

/// The prefix operator a token kind writes, if any.
pub open spec fn unary_op_of(kind: TokenKind) -> Option<UnaryOp> {
    match kind {
        TokenKind::Bang => Some(UnaryOp::Not),
        TokenKind::Minus => Some(UnaryOp::Negate),
        _ => None,
    }
}

/// The binary operator of precedence `level` a token kind writes, if any.
pub open spec fn binary_op_of(kind: TokenKind, level: u8) -> Option<BinaryOp> {
    let op = match kind {
        TokenKind::OrOr => Some(BinaryOp::Or),
        TokenKind::AndAnd => Some(BinaryOp::And),
        TokenKind::EqualEqual => Some(BinaryOp::Equal),
        TokenKind::BangEqual => Some(BinaryOp::NotEqual),
        TokenKind::Greater => Some(BinaryOp::Greater),
        TokenKind::GreaterEqual => Some(BinaryOp::GreaterEqual),
        TokenKind::Less => Some(BinaryOp::Less),
        TokenKind::LessEqual => Some(BinaryOp::LessEqual),
        TokenKind::Plus => Some(BinaryOp::Add),
        TokenKind::Minus => Some(BinaryOp::Subtract),
        TokenKind::Star => Some(BinaryOp::Multiply),
        TokenKind::Slash => Some(BinaryOp::Divide),
        _ => None,
    };
    match op {
        Some(o) => if binary_level(o) == level { Some(o) } else { None },
        None => None,
    }
}

/// The prefix operator a token writes, if any.
fn unary_op_at(kind: &TokenKind) -> (r: Option<UnaryOp>)
    ensures
        r == unary_op_of(*kind),
        r matches Some(op) ==> lexeme_of(*kind) == Lexeme::Simple(unary_token(op)),
{
    match kind {
        TokenKind::Bang => Some(UnaryOp::Not),
        TokenKind::Minus => Some(UnaryOp::Negate),
        _ => None,
    }
}

/// The binary operator of the given level a token writes, if any.
fn binary_op_at(kind: &TokenKind, level: u8) -> (r: Option<BinaryOp>)
    ensures
        r == binary_op_of(*kind, level),
        r matches Some(op) ==> binary_level(op) == level && lexeme_of(*kind) == Lexeme::Simple(
            binary_token(op),
        ),
{
    match kind {
        TokenKind::OrOr => if level == 1 {
            Some(BinaryOp::Or)
        } else {
            None
        },
        TokenKind::AndAnd => if level == 2 {
            Some(BinaryOp::And)
        } else {
            None
        },
        TokenKind::EqualEqual => if level == 3 {
            Some(BinaryOp::Equal)
        } else {
            None
        },
        TokenKind::BangEqual => if level == 3 {
            Some(BinaryOp::NotEqual)
        } else {
            None
        },
        TokenKind::Greater => if level == 4 {
            Some(BinaryOp::Greater)
        } else {
            None
        },
        TokenKind::GreaterEqual => if level == 4 {
            Some(BinaryOp::GreaterEqual)
        } else {
            None
        },
        TokenKind::Less => if level == 4 {
            Some(BinaryOp::Less)
        } else {
            None
        },
        TokenKind::LessEqual => if level == 4 {
            Some(BinaryOp::LessEqual)
        } else {
            None
        },
        TokenKind::Plus => if level == 5 {
            Some(BinaryOp::Add)
        } else {
            None
        },
        TokenKind::Minus => if level == 5 {
            Some(BinaryOp::Subtract)
        } else {
            None
        },
        TokenKind::Star => if level == 6 {
            Some(BinaryOp::Multiply)
        } else {
            None
        },
        TokenKind::Slash => if level == 6 {
            Some(BinaryOp::Divide)
        } else {
            None
        },
        _ => None,
    }
}

impl Parser {
    fn parse_expression(&mut self) -> (r: Result<Expr, MuninnError>)
        requires
            parser_wf(*old(self)),
        ensures
            stepped(*old(self), *final(self)),
            !at_end(*old(self)) ==> final(self).current > old(self).current,
            r matches Ok(e) ==> expr_read(*old(self), *final(self), e, 1),
            r is Ok <==> expr_end(lexemes(old(self).tokens@), old(self).current as int) is Some,
            r is Ok ==> expr_end(lexemes(old(self).tokens@), old(self).current as int) == Some(final(self).current as int),
        decreases old(self).tokens@.len() - old(self).current, 9int,
    {
        self.parse_binary(1)
    }

    /// One level of left-associative binary operators: level 1 is `||`,
    /// then `&&`, equality, comparison, `+`/`-`, and level 6 is `*`/`/`.
    #[verifier::rlimit(40)]
    #[verifier::spinoff_prover]
    fn parse_binary(&mut self, level: u8) -> (r: Result<Expr, MuninnError>)
        requires
            parser_wf(*old(self)),
            1 <= level <= 6,
        ensures
            stepped(*old(self), *final(self)),
            !at_end(*old(self)) ==> final(self).current > old(self).current,
            r matches Ok(e) ==> expr_read(*old(self), *final(self), e, level as int),
            r is Ok <==> binary_end(lexemes(old(self).tokens@), old(self).current as int, level as int) is Some,
            r is Ok ==> binary_end(lexemes(old(self).tokens@), old(self).current as int, level as int) == Some(final(self).current as int),
        decreases old(self).tokens@.len() - old(self).current, 9 - level,
    {
        let mut expr = if level == 6 {
            self.parse_unary()?
        } else {
            self.parse_binary(level + 1)?
        };
        proof {
            lemma_expr_written(expr);
        }
        let mut op = binary_op_at(&self.tokens[self.current].kind, level);
        while op.is_some()
            invariant
                1 <= level <= 6,
                stepped(*old(self), *self),
                self.current > old(self).current,
                expr_read(*old(self), *self, expr, level as int),
                op matches Some(o) ==> binary_level(o) == level && lexemes(
                    self.tokens@,
                )[self.current as int] == Lexeme::Simple(binary_token(o)),
                op == binary_op_of(self.tokens@[self.current as int].kind, level),
                binary_end(lexemes(old(self).tokens@), old(self).current as int, level as int) == binary_rest(
                    lexemes(self.tokens@),
                    self.current as int,
                    level as int,
                ),
            decreases self.tokens@.len() - self.current,
        {
            let o = op.unwrap();
            let ghost before = *self;
            let op_span = self.peek_span();
            self.current = self.current + 1;
            let ghost after_op = *self;
            let right = if level == 6 {
                self.parse_unary()?
            } else {
                self.parse_binary(level + 1)?
            };
            let ghost after_right = *self;
            let span = if level <= 2 {
                op_span.merge(expr.span.merge(right.span))
            } else {
                expr.span.merge(right.span)
            };
            let id = self.alloc_id();
            proof {
                lemma_read_one(before, after_op);
                lemma_read_concat(*old(self), before, after_op);
                lemma_read_concat(*old(self), after_op, after_right);
                lemma_ids_concat(*old(self), after_op, after_right);
                lemma_one_id(after_right, *self);
                lemma_ids_concat(*old(self), after_right, *self);
                assert(read(*old(self), after_right) == read(*old(self), *self));
            }
            expr = Expr {
                id,
                kind: ExprKind::Binary { left: Box::new(expr), op: o, right: Box::new(right) },
                span,
            };
            op = binary_op_at(&self.tokens[self.current].kind, level);
        }
        Ok(expr)
    }

    fn parse_unary(&mut self) -> (r: Result<Expr, MuninnError>)
        requires
            parser_wf(*old(self)),
        ensures
            stepped(*old(self), *final(self)),
            !at_end(*old(self)) ==> final(self).current > old(self).current,
            r matches Ok(e) ==> expr_read(*old(self), *final(self), e, 7),
            r is Ok <==> unary_end(lexemes(old(self).tokens@), old(self).current as int) is Some,
            r is Ok ==> unary_end(lexemes(old(self).tokens@), old(self).current as int) == Some(final(self).current as int),
        decreases old(self).tokens@.len() - old(self).current, 2int,
    {
        match unary_op_at(&self.tokens[self.current].kind) {
            Some(op) => {
                let op_span = self.peek_span();
                self.current = self.current + 1;
                let ghost after_op = *self;
                let expr = self.parse_unary()?;
                let ghost after_expr = *self;
                let span = op_span.merge(expr.span);
                let id = self.alloc_id();
                proof {
                    lemma_read_one(*old(self), after_op);
                    lemma_read_concat(*old(self), after_op, after_expr);
                    lemma_one_id(after_expr, *self);
                    lemma_ids_concat(*old(self), after_expr, *self);
                    assert(read(*old(self), after_expr) == read(*old(self), *self));
                }
                Ok(Expr { id, kind: ExprKind::Unary { op, expr: Box::new(expr) }, span })
            },
            None => self.parse_call(),
        }
    }

    #[verifier::rlimit(40)]
    #[verifier::spinoff_prover]
    fn parse_call(&mut self) -> (r: Result<Expr, MuninnError>)
        requires
            parser_wf(*old(self)),
        ensures
            stepped(*old(self), *final(self)),
            !at_end(*old(self)) ==> final(self).current > old(self).current,
            r matches Ok(e) ==> expr_read(*old(self), *final(self), e, 8),
            r is Ok <==> call_end(lexemes(old(self).tokens@), old(self).current as int) is Some,
            r is Ok ==> call_end(lexemes(old(self).tokens@), old(self).current as int) == Some(final(self).current as int),
        decreases old(self).tokens@.len() - old(self).current, 1int,
    {
        let mut expr = self.parse_primary()?;
        proof {
            lemma_expr_written(expr);
        }
        while self.check_simple(TokenKind::LeftParen)
            invariant
                stepped(*old(self), *self),
                self.current > old(self).current,
                expr_read(*old(self), *self, expr, 8),
                call_end(lexemes(old(self).tokens@), old(self).current as int) == call_rest(lexemes(self.tokens@), self.current as int),
            decreases self.tokens@.len() - self.current,
        {
            let ghost before = *self;
            proof {
                lemma_same_variant(self.tokens@[self.current as int].kind, TokenKind::LeftParen);
            }
            self.current = self.current + 1;
            let ghost after_open = *self;
            let args = self.parse_arguments()?;
            let ghost after_args = *self;
            let end_span = self.consume_simple(TokenKind::RightParen, "expected ')' after arguments")?;
            let ghost after_close = *self;
            let span = expr.span.merge(end_span);
            let id = self.alloc_id();
            proof {
                lemma_read_one(before, after_open);
                lemma_read_concat(*old(self), before, after_open);
                lemma_read_concat(*old(self), after_open, after_args);
                lemma_read_concat(*old(self), after_args, after_close);
                lemma_ids_concat(*old(self), after_open, after_args);
                lemma_one_id(after_close, *self);
                lemma_ids_concat(*old(self), after_close, *self);
                assert(read(*old(self), after_close) == read(*old(self), *self));
            }
            expr = Expr { id, kind: ExprKind::Call { callee: Box::new(expr), args }, span };
        }
        Ok(expr)
    }

    /// Call arguments up to, not including, the closing parenthesis.
    #[verifier::rlimit(40)]
    #[verifier::spinoff_prover]
    fn parse_arguments(&mut self) -> (r: Result<Vec<Expr>, MuninnError>)
        requires
            parser_wf(*old(self)),
        ensures
            stepped(*old(self), *final(self)),
            r matches Ok(args) ==> {
                &&& args_tokens(args@) == read(*old(self), *final(self))
                &&& surface_args(args@)
                &&& args_ids(args@) == ids_between(*old(self), *final(self))
            },
            r is Ok <==> args_end(lexemes(old(self).tokens@), old(self).current as int) is Some,
            r is Ok ==> args_end(lexemes(old(self).tokens@), old(self).current as int) == Some(final(self).current as int),
        decreases old(self).tokens@.len() - old(self).current, 10int,
    {
        let mut args: Vec<Expr> = Vec::new();
        if self.check_simple(TokenKind::RightParen) {
            proof {
                assert(read(*old(self), *self) =~= Seq::<Lexeme>::empty());
                assert(ids_between(*old(self), *self) =~= Seq::<int>::empty());
            }
            return Ok(args);
        }
        let first = self.parse_expression()?;
        args.push(first);
        proof {
            assert(args@ =~= seq![first]);
            assert(args@.drop_last() =~= Seq::<Expr>::empty());
            assert(surface_args(Seq::<Expr>::empty()));
            assert(args_ids(Seq::<Expr>::empty()) =~= Seq::<int>::empty());
            assert(Seq::<int>::empty() + expr_ids(first) =~= expr_ids(first));
        }
        while self.check_simple(TokenKind::Comma)
            invariant
                stepped(*old(self), *self),
                args@.len() >= 1,
                args_tokens(args@) == read(*old(self), *self),
                surface_args(args@),
                args_ids(args@) == ids_between(*old(self), *self),
                self.current > old(self).current,
                args_end(lexemes(old(self).tokens@), old(self).current as int) == args_rest(lexemes(self.tokens@), self.current as int),
            decreases self.tokens@.len() - self.current,
        {
            let ghost before = *self;
            let ghost previous_args = args@;
            proof {
                lemma_same_variant(self.tokens@[self.current as int].kind, TokenKind::Comma);
            }
            self.current = self.current + 1;
            let ghost after_comma = *self;
            let next = self.parse_expression()?;
            args.push(next);
            proof {
                assert(args@.drop_last() =~= previous_args);
                lemma_read_one(before, after_comma);
                lemma_read_concat(*old(self), before, after_comma);
                lemma_read_concat(*old(self), after_comma, *self);
                lemma_ids_concat(*old(self), after_comma, *self);
            }
        }
        Ok(args)
    }

    #[verifier::rlimit(40)]
    #[verifier::spinoff_prover]
    fn parse_primary(&mut self) -> (r: Result<Expr, MuninnError>)
        requires
            parser_wf(*old(self)),
        ensures
            stepped(*old(self), *final(self)),
            !at_end(*old(self)) ==> final(self).current > old(self).current,
            r matches Ok(e) ==> expr_read(*old(self), *final(self), e, 8),
            r is Ok <==> primary_end(lexemes(old(self).tokens@), old(self).current as int) is Some,
            r is Ok ==> primary_end(lexemes(old(self).tokens@), old(self).current as int) == Some(final(self).current as int),
        decreases old(self).tokens@.len() - old(self).current, 0int,
    {
        if self.is_at_end() {
            // At the end of input the token before is one that cannot start
            // an expression.
            return Err(MuninnError::new("parser", "expected expression", self.previous_span()));
        }
        let span = self.peek_span();
        if self.match_simple(TokenKind::LeftParen) {
            let ghost after_open = *self;
            let expr = self.parse_expression()?;
            let ghost after_expr = *self;
            let end_span = self.consume_simple(TokenKind::RightParen, "expected ')' after expression")?;
            let ghost after_close = *self;
            let id = self.alloc_id();
            proof {
                lemma_read_concat(*old(self), after_open, after_expr);
                lemma_read_concat(*old(self), after_expr, after_close);
                lemma_one_id(after_close, *self);
                lemma_ids_concat(*old(self), after_close, *self);
                assert(read(*old(self), after_close) == read(*old(self), *self));
            }
            return Ok(
                Expr { id, kind: ExprKind::Grouping(Box::new(expr)), span: span.merge(end_span) },
            );
        }
        let start = self.current;
        let literal: Option<ExprKind> = match &self.tokens[start].kind {
            TokenKind::IntLiteral(value) => Some(ExprKind::Int(*value)),
            TokenKind::FloatLiteral(text) => Some(ExprKind::Float(text.clone())),
            TokenKind::True => Some(ExprKind::Bool(true)),
            TokenKind::False => Some(ExprKind::Bool(false)),
            TokenKind::StringLiteral(value) => Some(ExprKind::String(value.clone())),
            TokenKind::Identifier(name) => Some(ExprKind::Variable(name.clone())),
            _ => None,
        };
        self.current = start + 1;
        let ghost after_token = *self;
        match literal {
            Some(kind) => {
                let id = self.alloc_id();
                let e = Expr { id, kind, span };
                proof {
                    lemma_read_one(*old(self), after_token);
                    lemma_one_id(after_token, *self);
                    assert(expr_tokens(e) == seq![lexemes(self.tokens@)[start as int]]);
                }
                Ok(e)
            },
            None => Err(MuninnError::new("parser", "expected expression", span)),
        }
    }
}

/// Every statement of the surface syntax is written with some token.
proof fn lemma_stmt_written(st: Stmt, top: bool)
    requires
        surface_stmt(st, top),
    ensures
        stmt_tokens(st).len() > 0,
{
    match st.kind {
        StmtKind::Let { .. } => {},
        StmtKind::Function(_) => {},
        StmtKind::Return(_) => {},
        StmtKind::While { .. } => {},
        StmtKind::If { .. } => {},
        StmtKind::Assign { .. } => {},
        StmtKind::Expr(_) => {},
        StmtKind::Record(_) => {},
    }
}

/// A statement that may stand in a block may stand at the top level too.
proof fn lemma_top_level(st: Stmt)
    requires
        surface_stmt(st, false),
    ensures
        surface_stmt(st, true),
{
}

/// A statement read between two states.
spec fn stmt_read(a: Parser, b: Parser, st: Stmt, top: bool) -> bool {
    &&& stmt_tokens(st) == read(a, b)
    &&& surface_stmt(st, top)
    &&& stmt_ids(st) == ids_between(a, b)
}

/// A statement read between two states after its leading keyword.
spec fn keyword_stmt_read(a: Parser, b: Parser, keyword: TokenKind, st: Stmt, top: bool) -> bool {
    &&& stmt_tokens(st) == punct(keyword) + read(a, b)
    &&& surface_stmt(st, top)
    &&& stmt_ids(st) == ids_between(a, b)
}

impl Parser {
    fn parse_type_expr(&mut self) -> (r: Result<TypeExpr, MuninnError>)
        requires
            parser_wf(*old(self)),
        ensures
            stepped(*old(self), *final(self)),
            final(self).next_node_id == old(self).next_node_id,
            r matches Ok(t) ==> {
                &&& final(self).current == old(self).current + 1
                &&& read(*old(self), *final(self)) == seq![type_lexeme(t)]
                &&& surface_type(t)
            },
            r is Ok <==> type_named(old(self).tokens@[old(self).current as int].kind) is Some,
            r matches Ok(t) ==> type_named(old(self).tokens@[old(self).current as int].kind) == Some(t),
    {
        if self.is_at_end() {
            return Err(MuninnError::new("parser", "expected type name", self.previous_span()));
        }
        let span = self.peek_span();
        let ty = match &self.tokens[self.current].kind {
            TokenKind::TypeInt => Some(TypeExpr::Int),
            TokenKind::TypeFloat => Some(TypeExpr::Float),
            TokenKind::TypeBool => Some(TypeExpr::Bool),
            TokenKind::TypeString => Some(TypeExpr::String),
            TokenKind::TypeTensor => Some(TypeExpr::Tensor),
            TokenKind::TypeVoid => Some(TypeExpr::Void),
            _ => None,
        };
        self.current = self.current + 1;
        proof {
            lemma_read_one(*old(self), *self);
        }
        match ty {
            Some(t) => Ok(t),
            None => Err(MuninnError::new("parser", "expected type name", span)),
        }
    }

    fn consume_identifier_with_span(&mut self, message: &str) -> (r: Result<(String, Span), MuninnError>)
        requires
            parser_wf(*old(self)),
        ensures
            stepped(*old(self), *final(self)),
            final(self).next_node_id == old(self).next_node_id,
            !at_end(*old(self)) ==> final(self).current == old(self).current + 1,
            r matches Ok((name, _)) ==> {
                &&& final(self).current == old(self).current + 1
                &&& read(*old(self), *final(self)) == seq![Lexeme::Identifier(name@)]
            },
            r is Ok <==> old(self).tokens@[old(self).current as int].kind is Identifier,
    {
        if self.is_at_end() {
            return Err(MuninnError::new("parser", message, self.previous_span()));
        }
        let span = self.peek_span();
        let name: Option<String> = match &self.tokens[self.current].kind {
            TokenKind::Identifier(name) => Some(name.clone()),
            _ => None,
        };
        self.current = self.current + 1;
        proof {
            lemma_read_one(*old(self), *self);
        }
        match name {
            Some(name) => Ok((name, span)),
            None => Err(MuninnError::new("parser", message, span)),
        }
    }

    fn parse_parameter(&mut self) -> (r: Result<Param, MuninnError>)
        requires
            parser_wf(*old(self)),
        ensures
            stepped(*old(self), *final(self)),
            r matches Ok(p) ==> {
                &&& param_tokens(p) == read(*old(self), *final(self))
                &&& surface_type(p.ty)
                &&& ids_between(*old(self), *final(self)) == seq![p.id.0 as int]
            },
            r is Ok <==> param_at(lexemes(old(self).tokens@), old(self).current as int),
            r is Ok ==> final(self).current == old(self).current + 3,
    {
        let param_span = self.peek_span();
        let (name, _) = self.consume_identifier_with_span("expected parameter name")?;
        let ghost after_name = *self;
        self.consume_simple(TokenKind::Colon, "expected ':' after parameter name")?;
        let ghost after_colon = *self;
        let ty = self.parse_type_expr()?;
        let ghost after_type = *self;
        let span = param_span.merge(self.previous_span());
        let id = self.alloc_id();
        let p = Param { id, name, ty, span };
        proof {
            lemma_read_concat(*old(self), after_name, after_colon);
            lemma_read_concat(*old(self), after_colon, after_type);
            lemma_one_id(after_type, *self);
            assert(param_tokens(p) =~= read(*old(self), after_type));
            assert(read(*old(self), after_type) == read(*old(self), *self));
        }
        Ok(p)
    }

    /// Parameters up to, not including, the closing parenthesis.
    #[verifier::rlimit(40)]
    #[verifier::spinoff_prover]
    fn parse_parameters(&mut self) -> (r: Result<Vec<Param>, MuninnError>)
        requires
            parser_wf(*old(self)),
        ensures
            stepped(*old(self), *final(self)),
            r matches Ok(ps) ==> {
                &&& params_tokens(ps@) == read(*old(self), *final(self))
                &&& surface_params(ps@)
                &&& params_ids(ps@) == ids_between(*old(self), *final(self))
            },
            r is Ok <==> params_end(lexemes(old(self).tokens@), old(self).current as int) is Some,
            r is Ok ==> params_end(lexemes(old(self).tokens@), old(self).current as int) == Some(final(self).current as int),
    {
        let mut params: Vec<Param> = Vec::new();
        if self.check_simple(TokenKind::RightParen) {
            proof {
                assert(read(*old(self), *self) =~= Seq::<Lexeme>::empty());
                assert(ids_between(*old(self), *self) =~= Seq::<int>::empty());
            }
            return Ok(params);
        }
        let ghost toks = lexemes(self.tokens@);
        let ghost c0 = self.current as int;
        let first = self.parse_parameter()?;
        params.push(first);
        proof {
            assert(params@ =~= seq![first]);
            assert(params@.drop_last() =~= Seq::<Param>::empty());
            assert(params_ids(Seq::<Param>::empty()) =~= Seq::<int>::empty());
            assert(params_ids(params@) =~= seq![first.id.0 as int]);
        }
        while self.check_simple(TokenKind::Comma)
            invariant
                stepped(*old(self), *self),
                params@.len() >= 1,
                params_tokens(params@) == read(*old(self), *self),
                surface_params(params@),
                params_ids(params@) == ids_between(*old(self), *self),
                toks == lexemes(self.tokens@),
                c0 == old(self).current,
                toks[c0] != Lexeme::Simple(TokenKind::RightParen),
                c0 + 3 <= self.current,
                params_list_end(toks, c0) == (if self.tokens@[self.current as int].kind is Comma {
                    params_list_end(toks, self.current + 1)
                } else {
                    Some(self.current as int)
                }),
            decreases self.tokens@.len() - self.current,
        {
            let ghost before = *self;
            let ghost previous = params@;
            proof {
                lemma_same_variant(self.tokens@[self.current as int].kind, TokenKind::Comma);
            }
            self.current = self.current + 1;
            let ghost after_comma = *self;
            let p = self.parse_parameter()?;
            params.push(p);
            proof {
                assert(params@.drop_last() =~= previous);
                lemma_read_one(before, after_comma);
                lemma_read_concat(*old(self), before, after_comma);
                lemma_read_concat(*old(self), after_comma, *self);
                lemma_ids_concat(*old(self), after_comma, *self);
                assert(params_ids(params@) =~= params_ids(previous).push(p.id.0 as int));
            }
        }
        Ok(params)
    }

    #[verifier::rlimit(40)]
    #[verifier::spinoff_prover]
    fn parse_block(&mut self) -> (r: Result<Block, MuninnError>)
        requires
            parser_wf(*old(self)),
        ensures
            stepped(*old(self), *final(self)),
            r matches Ok(b) ==> {
                &&& block_tokens(b) == read(*old(self), *final(self))
                &&& surface_block(b)
                &&& block_ids(b) == ids_between(*old(self), *final(self))
            },
            r is Ok <==> block_end(lexemes(old(self).tokens@), old(self).current as int) is Some,
            r is Ok ==> block_end(lexemes(old(self).tokens@), old(self).current as int) == Some(final(self).current as int),
        decreases old(self).tokens@.len() - old(self).current,
    {
        let start = self.consume_simple(TokenKind::LeftBrace, "expected '{'")?;
        let ghost after_open = *self;
        let mut statements: Vec<Stmt> = Vec::new();
        proof {
            assert(read(after_open, *self) =~= Seq::<Lexeme>::empty());
            assert(ids_between(after_open, *self) =~= Seq::<int>::empty());
        }
        while !self.check_simple(TokenKind::RightBrace) && !self.is_at_end()
            invariant
                stepped(*old(self), after_open),
                after_open.current == old(self).current + 1,
                stepped(after_open, *self),
                stmts_tokens(statements@) == read(after_open, *self),
                surface_stmts(statements@, false),
                stmts_ids(statements@) == ids_between(after_open, *self),
                block_end(lexemes(old(self).tokens@), old(self).current as int) == stmts_rest(lexemes(self.tokens@), self.current as int),
            decreases self.tokens@.len() - self.current,
        {
            let ghost before = *self;
            let ghost previous = statements@;
            let stmt = self.parse_statement(true)?;
            statements.push(stmt);
            proof {
                assert(statements@.drop_last() =~= previous);
                lemma_read_concat(after_open, before, *self);
                lemma_ids_concat(after_open, before, *self);
            }
        }
        let ghost after_body = *self;
        let end_span = self.consume_simple(TokenKind::RightBrace, "expected '}' after block")?;
        let ghost after_close = *self;
        let id = self.alloc_id();
        let b = Block { id, statements, value: None, span: start.merge(end_span) };
        proof {
            lemma_read_concat(*old(self), after_open, after_body);
            lemma_read_concat(*old(self), after_body, after_close);
            lemma_one_id(after_close, *self);
            lemma_ids_concat(after_open, after_close, *self);
            assert(read(*old(self), after_close) == read(*old(self), *self));
            assert(block_ids(b) =~= ids_between(after_open, *self));
        }
        Ok(b)
    }

    #[verifier::rlimit(40)]
    #[verifier::spinoff_prover]
    fn parse_statement(&mut self, inside_block: bool) -> (r: Result<Stmt, MuninnError>)
        requires
            parser_wf(*old(self)),
        ensures
            stepped(*old(self), *final(self)),
            !at_end(*old(self)) ==> final(self).current > old(self).current,
            r matches Ok(st) ==> stmt_read(*old(self), *final(self), st, false),
            r is Ok <==> stmt_end(lexemes(old(self).tokens@), old(self).current as int) is Some,
            r is Ok ==> stmt_end(lexemes(old(self).tokens@), old(self).current as int) == Some(final(self).current as int),
        decreases old(self).tokens@.len() - old(self).current,
    {
        if self.match_simple(TokenKind::Let) {
            let ghost after_keyword = *self;
            let r = self.parse_let_statement();
            proof {
                lemma_read_concat(*old(self), after_keyword, *self);
            }
            return r;
        }
        if self.match_simple(TokenKind::Return) {
            let ghost after_keyword = *self;
            let r = self.parse_return_statement();
            proof {
                lemma_read_concat(*old(self), after_keyword, *self);
            }
            return r;
        }
        if self.match_simple(TokenKind::While) {
            let ghost after_keyword = *self;
            let r = self.parse_while_statement();
            proof {
                lemma_read_concat(*old(self), after_keyword, *self);
            }
            return r;
        }
        if self.match_simple(TokenKind::If) {
            let ghost after_keyword = *self;
            let r = self.parse_if_statement();
            proof {
                lemma_read_concat(*old(self), after_keyword, *self);
            }
            return r;
        }
        if self.match_simple(TokenKind::Fn) {
            return Err(
                MuninnError::new("parser", "nested functions are not supported", self.previous_span()),
            );
        }
        if !inside_block && self.check_simple(TokenKind::Eof) {
            return Err(MuninnError::new("parser", "unexpected end of input", self.peek_span()));
        }
        let ghost j = self.current as int;
        proof {
            assert(self.current == old(self).current);
            assert(!(self.tokens@[j].kind is Let));
            assert(!(self.tokens@[j].kind is Return));
            assert(!(self.tokens@[j].kind is While));
            assert(!(self.tokens@[j].kind is If));
            assert(!(self.tokens@[j].kind is Fn));
        }
        if self.is_assignment_statement() {
            return self.parse_assignment_statement();
        }
        proof {
            assert(!assignment_ahead(lexemes(self.tokens@), j));
            if self.tokens@[j].kind is Eof {
                lemma_no_expression_at_eof(lexemes(self.tokens@), j);
            }
        }
        self.parse_expression_statement()
    }

    fn is_assignment_statement(&self) -> (b: bool)
        requires
            parser_wf(*self),
        ensures
            b ==> self.tokens@[self.current as int].kind is Identifier,
            b == assignment_ahead(lexemes(self.tokens@), self.current as int),
    {
        let names_target = match self.tokens[self.current].kind {
            TokenKind::Identifier(_) => true,
            _ => false,
        };
        if !names_target || self.current + 1 >= self.tokens.len() {
            return false;
        }
        match self.tokens[self.current + 1].kind {
            TokenKind::Equal => true,
            _ => false,
        }
    }

    #[verifier::rlimit(40)]
    #[verifier::spinoff_prover]
    fn parse_let_statement(&mut self) -> (r: Result<Stmt, MuninnError>)
        requires
            parser_wf(*old(self)),
        ensures
            stepped(*old(self), *final(self)),
            r matches Ok(st) ==> keyword_stmt_read(*old(self), *final(self), TokenKind::Let, st, false),
            r is Ok <==> let_end(lexemes(old(self).tokens@), old(self).current as int) is Some,
            r is Ok ==> let_end(lexemes(old(self).tokens@), old(self).current as int) == Some(final(self).current as int),
    {
        let start = self.previous_span();
        let mutable = self.match_simple(TokenKind::Mut);
        let ghost after_mut = *self;
        let (name, name_span) = self.consume_identifier_with_span("expected variable name")?;
        let ghost after_name = *self;
        let ty = if self.match_simple(TokenKind::Colon) {
            let ghost after_colon = *self;
            let t = self.parse_type_expr()?;
            proof {
                lemma_read_concat(after_name, after_colon, *self);
            }
            Some(t)
        } else {
            proof {
                assert(read(after_name, *self) =~= Seq::<Lexeme>::empty());
            }
            None
        };
        let ghost after_type = *self;
        self.consume_simple(TokenKind::Equal, "expected '=' after variable name")?;
        let ghost after_equal = *self;
        let initializer = self.parse_expression()?;
        let ghost after_value = *self;
        let end_span = self.consume_simple(TokenKind::Semicolon, "expected ';' after let binding")?;
        let ghost after_semicolon = *self;
        let id = self.alloc_id();
        let st = Stmt {
            id,
            kind: StmtKind::Let { name, name_span, mutable, ty, initializer },
            span: start.merge(end_span),
        };
        proof {
            if !mutable {
                assert(read(*old(self), after_mut) =~= Seq::<Lexeme>::empty());
            }
            assert(read(*old(self), after_mut) == optional_tokens(mutable, punct(TokenKind::Mut)));
            lemma_read_concat(*old(self), after_mut, after_name);
            lemma_read_concat(*old(self), after_name, after_type);
            lemma_read_concat(*old(self), after_type, after_equal);
            lemma_read_concat(*old(self), after_equal, after_value);
            lemma_read_concat(*old(self), after_value, after_semicolon);
            lemma_one_id(after_semicolon, *self);
            lemma_ids_concat(*old(self), after_semicolon, *self);
            assert(read(*old(self), after_semicolon) == read(*old(self), *self));
            assert(stmt_tokens(st) =~= punct(TokenKind::Let) + read(*old(self), *self));
        }
        Ok(st)
    }

    #[verifier::rlimit(40)]
    #[verifier::spinoff_prover]
    fn parse_return_statement(&mut self) -> (r: Result<Stmt, MuninnError>)
        requires
            parser_wf(*old(self)),
        ensures
            stepped(*old(self), *final(self)),
            r matches Ok(st) ==> keyword_stmt_read(*old(self), *final(self), TokenKind::Return, st, false),
            r is Ok <==> return_end(lexemes(old(self).tokens@), old(self).current as int) is Some,
            r is Ok ==> return_end(lexemes(old(self).tokens@), old(self).current as int) == Some(final(self).current as int),
    {
        let start = self.previous_span();
        let value = if self.check_simple(TokenKind::Semicolon) {
            proof {
                assert(read(*old(self), *self) =~= Seq::<Lexeme>::empty());
                assert(ids_between(*old(self), *self) =~= Seq::<int>::empty());
            }
            None
        } else {
            Some(self.parse_expression()?)
        };
        let ghost after_value = *self;
        let end_span = self.consume_simple(TokenKind::Semicolon, "expected ';' after return")?;
        let ghost after_semicolon = *self;
        let id = self.alloc_id();
        let st = Stmt { id, kind: StmtKind::Return(value), span: start.merge(end_span) };
        proof {
            lemma_read_concat(*old(self), after_value, after_semicolon);
            lemma_one_id(after_semicolon, *self);
            lemma_ids_concat(*old(self), after_semicolon, *self);
            assert(read(*old(self), after_semicolon) == read(*old(self), *self));
            assert(stmt_tokens(st) =~= punct(TokenKind::Return) + read(*old(self), *self));
            assert(stmt_ids(st) =~= ids_between(*old(self), *self));
        }
        Ok(st)
    }

    #[verifier::rlimit(40)]
    #[verifier::spinoff_prover]
    fn parse_while_statement(&mut self) -> (r: Result<Stmt, MuninnError>)
        requires
            parser_wf(*old(self)),
        ensures
            stepped(*old(self), *final(self)),
            r matches Ok(st) ==> keyword_stmt_read(*old(self), *final(self), TokenKind::While, st, false),
            r is Ok <==> while_end(lexemes(old(self).tokens@), old(self).current as int) is Some,
            r is Ok ==> while_end(lexemes(old(self).tokens@), old(self).current as int) == Some(final(self).current as int),
        decreases old(self).tokens@.len() - old(self).current,
    {
        let start = self.previous_span();
        self.consume_simple(TokenKind::LeftParen, "expected '(' after 'while'")?;
        let ghost after_open = *self;
        let condition = self.parse_expression()?;
        let ghost after_condition = *self;
        self.consume_simple(TokenKind::RightParen, "expected ')' after while condition")?;
        let ghost after_close = *self;
        let body = self.parse_block()?;
        let ghost after_body = *self;
        let span = start.merge(body.span);
        let id = self.alloc_id();
        let st = Stmt { id, kind: StmtKind::While { condition, body }, span };
        proof {
            lemma_read_concat(*old(self), after_open, after_condition);
            lemma_read_concat(*old(self), after_condition, after_close);
            lemma_read_concat(*old(self), after_close, after_body);
            lemma_ids_concat(*old(self), after_close, after_body);
            lemma_one_id(after_body, *self);
            lemma_ids_concat(*old(self), after_body, *self);
            assert(read(*old(self), after_body) == read(*old(self), *self));
            assert(stmt_tokens(st) =~= punct(TokenKind::While) + read(*old(self), *self));
            assert(stmt_ids(st) =~= ids_between(*old(self), *self));
        }
        Ok(st)
    }

    #[verifier::rlimit(40)]
    #[verifier::spinoff_prover]
    fn parse_if_statement(&mut self) -> (r: Result<Stmt, MuninnError>)
        requires
            parser_wf(*old(self)),
        ensures
            stepped(*old(self), *final(self)),
            r matches Ok(st) ==> keyword_stmt_read(*old(self), *final(self), TokenKind::If, st, false),
            r is Ok <==> if_end(lexemes(old(self).tokens@), old(self).current as int) is Some,
            r is Ok ==> if_end(lexemes(old(self).tokens@), old(self).current as int) == Some(final(self).current as int),
        decreases old(self).tokens@.len() - old(self).current,
    {
        let start = self.previous_span();
        self.consume_simple(TokenKind::LeftParen, "expected '(' after 'if'")?;
        let ghost after_open = *self;
        let condition = self.parse_expression()?;
        let ghost after_condition = *self;
        self.consume_simple(TokenKind::RightParen, "expected ')' after if condition")?;
        let ghost after_close = *self;
        let then_branch = self.parse_block()?;
        let ghost after_then = *self;
        let else_branch = if self.match_simple(TokenKind::Else) {
            let ghost after_else = *self;
            let b = self.parse_block()?;
            proof {
                lemma_read_concat(after_then, after_else, *self);
            }
            Some(b)
        } else {
            proof {
                assert(read(after_then, *self) =~= Seq::<Lexeme>::empty());
                assert(ids_between(after_then, *self) =~= Seq::<int>::empty());
            }
            None
        };
        let ghost after_else_branch = *self;
        let end_span = match &else_branch {
            Some(b) => b.span,
            None => then_branch.span,
        };
        let span = start.merge(end_span);
        let id = self.alloc_id();
        let st = Stmt { id, kind: StmtKind::If { condition, then_branch, else_branch }, span };
        proof {
            lemma_read_concat(*old(self), after_open, after_condition);
            lemma_read_concat(*old(self), after_condition, after_close);
            lemma_read_concat(*old(self), after_close, after_then);
            lemma_read_concat(*old(self), after_then, after_else_branch);
            lemma_ids_concat(*old(self), after_close, after_then);
            lemma_ids_concat(*old(self), after_then, after_else_branch);
            lemma_one_id(after_else_branch, *self);
            lemma_ids_concat(*old(self), after_else_branch, *self);
            assert(read(*old(self), after_else_branch) == read(*old(self), *self));
            assert(stmt_tokens(st) =~= punct(TokenKind::If) + read(*old(self), *self));
            assert(stmt_ids(st) =~= ids_between(*old(self), *self));
        }
        Ok(st)
    }

    #[verifier::rlimit(40)]
    #[verifier::spinoff_prover]
    fn parse_assignment_statement(&mut self) -> (r: Result<Stmt, MuninnError>)
        requires
            parser_wf(*old(self)),
            old(self).tokens@[old(self).current as int].kind is Identifier,
        ensures
            stepped(*old(self), *final(self)),
            final(self).current > old(self).current,
            r matches Ok(st) ==> stmt_read(*old(self), *final(self), st, false),
            r is Ok <==> assign_end(lexemes(old(self).tokens@), old(self).current as int) is Some,
            r is Ok ==> assign_end(lexemes(old(self).tokens@), old(self).current as int) == Some(final(self).current as int),
    {
        let start = self.peek_span();
        let (name, name_span) = self.consume_identifier_with_span("expected assignment target")?;
        let ghost after_name = *self;
        self.consume_simple(TokenKind::Equal, "expected '=' in assignment")?;
        let ghost after_equal = *self;
        let value = self.parse_expression()?;
        let ghost after_value = *self;
        let end_span = self.consume_simple(TokenKind::Semicolon, "expected ';' after assignment")?;
        let ghost after_semicolon = *self;
        let id = self.alloc_id();
        let st = Stmt {
            id,
            kind: StmtKind::Assign { name, name_span, value },
            span: start.merge(end_span),
        };
        proof {
            lemma_read_concat(*old(self), after_name, after_equal);
            lemma_read_concat(*old(self), after_equal, after_value);
            lemma_read_concat(*old(self), after_value, after_semicolon);
            lemma_one_id(after_semicolon, *self);
            lemma_ids_concat(*old(self), after_semicolon, *self);
            assert(read(*old(self), after_semicolon) == read(*old(self), *self));
            assert(stmt_tokens(st) =~= read(*old(self), *self));
        }
        Ok(st)
    }

    #[verifier::rlimit(40)]
    #[verifier::spinoff_prover]
    fn parse_expression_statement(&mut self) -> (r: Result<Stmt, MuninnError>)
        requires
            parser_wf(*old(self)),
        ensures
            stepped(*old(self), *final(self)),
            !at_end(*old(self)) ==> final(self).current > old(self).current,
            r matches Ok(st) ==> stmt_read(*old(self), *final(self), st, false),
            r is Ok <==> then_semicolon(lexemes(old(self).tokens@), expr_end(lexemes(old(self).tokens@), old(self).current as int)) is Some,
            r is Ok ==> then_semicolon(lexemes(old(self).tokens@), expr_end(lexemes(old(self).tokens@), old(self).current as int)) == Some(final(self).current as int),
    {
        let expr = self.parse_expression()?;
        let ghost after_value = *self;
        let end_span = self.consume_simple(TokenKind::Semicolon, "expected ';' after expression")?;
        let ghost after_semicolon = *self;
        let span = expr.span.merge(end_span);
        let id = self.alloc_id();
        let st = Stmt { id, kind: StmtKind::Expr(expr), span };
        proof {
            lemma_read_concat(*old(self), after_value, after_semicolon);
            lemma_one_id(after_semicolon, *self);
            lemma_ids_concat(*old(self), after_semicolon, *self);
            assert(read(*old(self), after_semicolon) == read(*old(self), *self));
        }
        Ok(st)
    }

    #[verifier::rlimit(90)]
    #[verifier::spinoff_prover]
    fn parse_function_statement(&mut self) -> (r: Result<Stmt, MuninnError>)
        requires
            parser_wf(*old(self)),
        ensures
            stepped(*old(self), *final(self)),
            r matches Ok(st) ==> keyword_stmt_read(*old(self), *final(self), TokenKind::Fn, st, true),
            r is Ok <==> function_end(lexemes(old(self).tokens@), old(self).current as int) is Some,
            r is Ok ==> function_end(lexemes(old(self).tokens@), old(self).current as int) == Some(final(self).current as int),
    {
        let start = self.previous_span();
        let (name, name_span) = self.consume_identifier_with_span("expected function name")?;
        let ghost after_name = *self;
        self.consume_simple(TokenKind::LeftParen, "expected '(' after function name")?;
        let ghost after_open = *self;
        let params = self.parse_parameters()?;
        let ghost after_params = *self;
        self.consume_simple(TokenKind::RightParen, "expected ')' after parameters")?;
        let ghost after_close = *self;
        self.consume_simple(TokenKind::Arrow, "expected '->' before return type")?;
        let ghost after_arrow = *self;
        let return_type = self.parse_type_expr()?;
        let ghost after_type = *self;
        let body = self.parse_block()?;
        let ghost after_body = *self;
        let span = start.merge(body.span);
        let decl_id = self.alloc_id();
        let ghost after_decl = *self;
        let id = self.alloc_id();
        let function = FunctionDecl { id: decl_id, name, name_span, params, return_type, body, span };
        let st = Stmt { id, kind: StmtKind::Function(function), span };
        proof {
            lemma_read_concat(*old(self), after_name, after_open);
            lemma_read_concat(*old(self), after_open, after_params);
            lemma_read_concat(*old(self), after_params, after_close);
            lemma_read_concat(*old(self), after_close, after_arrow);
            lemma_read_concat(*old(self), after_arrow, after_type);
            lemma_read_concat(*old(self), after_type, after_body);
            lemma_ids_concat(*old(self), after_open, after_params);
            lemma_ids_concat(*old(self), after_params, after_body);
            lemma_one_id(after_body, after_decl);
            lemma_one_id(after_decl, *self);
            lemma_ids_concat(*old(self), after_body, after_decl);
            lemma_ids_concat(*old(self), after_decl, *self);
            assert(read(*old(self), after_body) == read(*old(self), *self));
            assert(stmt_tokens(st) =~= punct(TokenKind::Fn) + read(*old(self), *self));
            assert(stmt_ids(st) =~= ids_between(*old(self), *self));
        }
        Ok(st)
    }

    fn parse_top_level_statement(&mut self) -> (r: Result<Stmt, MuninnError>)
        requires
            parser_wf(*old(self)),
        ensures
            stepped(*old(self), *final(self)),
            !at_end(*old(self)) ==> final(self).current > old(self).current,
            r matches Ok(st) ==> stmt_read(*old(self), *final(self), st, true),
            r is Ok <==> top_end(lexemes(old(self).tokens@), old(self).current as int) is Some,
            r is Ok ==> top_end(lexemes(old(self).tokens@), old(self).current as int) == Some(
                final(self).current as int,
            ),
    {
        if self.match_simple(TokenKind::Fn) {
            let ghost after_keyword = *self;
            let r = self.parse_function_statement();
            proof {
                lemma_read_concat(*old(self), after_keyword, *self);
            }
            return r;
        }
        let r = self.parse_statement(false);
        proof {
            if r is Ok {
                lemma_top_level(r->Ok_0);
            }
        }
        r
    }

    /// After an error, skips to just past a `;` or to a token that starts
    /// a statement.
    fn synchronize(&mut self)
        requires
            parser_wf(*old(self)),
        ensures
            stepped(*old(self), *final(self)),
            final(self).next_node_id == old(self).next_node_id,
            sync_stop(final(self).tokens@, final(self).current as int),
            forall|q: int| old(self).current <= q < final(self).current ==> !#[trigger] sync_stop(old(self).tokens@, q),
    {
        while !self.is_at_end()
            invariant
                stepped(*old(self), *self),
                self.next_node_id == old(self).next_node_id,
                forall|q: int| old(self).current <= q < self.current ==> !#[trigger] sync_stop(old(self).tokens@, q),
            decreases self.tokens@.len() - self.current,
        {
            let previous_index = if self.current == 0 {
                0
            } else {
                self.current - 1
            };
            let after_semicolon = match self.tokens[previous_index].kind {
                TokenKind::Semicolon => true,
                _ => false,
            };
            if after_semicolon {
                return;
            }
            let starts_statement = match self.tokens[self.current].kind {
                TokenKind::Fn | TokenKind::Let | TokenKind::Return | TokenKind::If
                | TokenKind::While => true,
                _ => false,
            };
            if starts_statement {
                return;
            }
            self.current = self.current + 1;
        }
    }

    /// Parses the statements up to the end-of-input token. On errors it
    /// resynchronises and goes on, and hands back every error.
    pub fn parse_program(&mut self) -> (r: Result<Program, Vec<MuninnError>>)
        requires
            old(self).well_formed(),
        ensures
            final(self).well_formed(),
            final(self).token_seq() == old(self).token_seq(),
            r matches Ok(p) ==> {
                &&& program_tokens(p) == lexemes(old(self).token_seq()).subrange(
                    old(self).position(),
                    final(self).position(),
                )
                &&& final(self).token_seq()[final(self).position()].kind is Eof
                &&& surface_program(p)
                &&& program_ids(p) == id_run(old(self).next_id(), final(self).next_id())
            },
            r matches Err(errors) ==> errors@.len() > 0,
            r is Ok <==> program_rest(lexemes(old(self).token_seq()), old(self).position()),
    {
        let mut statements: Vec<Stmt> = Vec::new();
        let mut errors: Vec<MuninnError> = Vec::new();
        proof {
            assert(read(*old(self), *self) =~= Seq::<Lexeme>::empty());
            assert(ids_between(*old(self), *self) =~= Seq::<int>::empty());
        }
        while !self.is_at_end()
            invariant
                stepped(*old(self), *self),
                errors@.len() == 0 ==> {
                    &&& stmts_tokens(statements@) == read(*old(self), *self)
                    &&& surface_stmts(statements@, true)
                    &&& stmts_ids(statements@) == ids_between(*old(self), *self)
                    &&& program_rest(lexemes(old(self).tokens@), old(self).current as int) == program_rest(
                        lexemes(self.tokens@),
                        self.current as int,
                    )
                },
                errors@.len() > 0 ==> !program_rest(lexemes(old(self).tokens@), old(self).current as int),
            decreases self.tokens@.len() - self.current,
        {
            let ghost before = *self;
            let ghost previous = statements@;
            match self.parse_top_level_statement() {
                Ok(stmt) => {
                    statements.push(stmt);
                    proof {
                        assert(statements@.drop_last() =~= previous);
                        lemma_read_concat(*old(self), before, *self);
                        lemma_ids_concat(*old(self), before, *self);
                    }
                },
                Err(error) => {
                    errors.push(error);
                    self.synchronize();
                },
            }
        }
        if errors.len() == 0 {
            Ok(Program { statements })
        } else {
            Err(errors)
        }
    }
}

/// The lexemes of tokens are the first parts of their views.
proof fn lemma_lexemes_of_views(all: Seq<Token>, vs: Seq<(Lexeme, Span)>)
    requires
        token_views(all) == vs,
    ensures
        lexemes(all) == vs.map_values(|t: (Lexeme, Span)| t.0),
{
    assert(token_views(all).len() == all.len());
    assert forall|i: int| 0 <= i < all.len() implies lexemes(all)[i] == vs.map_values(|t: (Lexeme, Span)| t.0)[i] by {
        assert(token_views(all)[i] == vs[i]);
    }
    assert(lexemes(all) =~= vs.map_values(|t: (Lexeme, Span)| t.0));
}

/// Lexes and parses a whole document. The tokens of the program are the
/// document's tokens, in order, with nothing left over.
#[verifier::rlimit(80)]
#[verifier::spinoff_prover]
pub fn parse_document(source: &str) -> (r: Result<Program, Vec<MuninnError>>)
    requires
        source@.len() < MAX_PARSE_TOKENS,
    ensures
        lexed(source@) is Err ==> r is Err,
        r matches Ok(p) ==> lexed(source@) matches Ok(ts) && {
            &&& program_tokens(p) == ts.drop_last().map_values(|t: (Lexeme, Span)| t.0)
            &&& surface_program(p)
            &&& program_ids(p) == id_run(1, program_ids(p).len() as int + 1)
        },
        r matches Err(errors) ==> errors@.len() > 0,
        r is Ok <==> (lexed(source@) matches Ok(ts) && program_rest(ts.map_values(|t: (Lexeme, Span)| t.0), 0)),
{
    let tokens = lex_document(source)?;
    let ghost ts = lex_from(source@, 0).0;
    let ghost eof = (Lexeme::Simple(TokenKind::Eof), span_of(source@, source@.len() as int, source@.len() as int));
    proof {
        lemma_lex_from_tokens(source@, 0);
        assert(token_views(tokens@) == ts.push(eof));
        assert(token_views(tokens@).len() == tokens@.len());
        assert(token_views(tokens@)[tokens@.len() - 1] == eof);
    }
    let ghost all = tokens@;
    let mut parser = Parser::new(tokens);
    let r = parser.parse_program();
    proof {
        lemma_lexemes_of_views(all, ts.push(eof));
        if r is Ok {
            let last = parser.current as int;
            if last < all.len() - 1 {
                assert(token_views(all)[last] == ts[last]);
            }
            assert(last == all.len() - 1);
            assert(lexemes(all).subrange(0, last) =~= ts.map_values(|t: (Lexeme, Span)| t.0)) by {
                assert forall|i: int| 0 <= i < last implies lexemes(all)[i] == ts[i].0 by {
                    assert(token_views(all)[i] == ts.push(eof)[i]);
                }
            }
            assert(ts.push(eof).drop_last() =~= ts);
        }
    }
    r
}

} // verus!
