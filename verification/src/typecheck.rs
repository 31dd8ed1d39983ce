use vstd::prelude::*;

use crate::ast::{BinaryOp, Block, Expr, ExprKind, FunctionDecl, Param, Program, Stmt, StmtKind, TypeExpr, UnaryOp};
use crate::builtins::{accepts_argument, builtin_by_name, builtins, return_type, BuiltinKind};
use crate::error::MuninnError;
use crate::parser::{surface_args, surface_block, surface_expr, surface_program, surface_stmt, surface_stmts};
use crate::semantics::{
    clone_ty, display_ty, error_free, ty_text, lemma_tys_view_index, lemma_tys_view_len, same_ty, ty_from_type_expr, ty_view,
    tys_view, Reference, SemanticModel, Symbol, SymbolKind, Ty, TyView,
};
use crate::span::Span;
use crate::text::{owned, push_str, same_text, usize_text};

verus! {

// ----- typing rules -----

/// Whether a value of type `actual` may stand where `expected` is asked
/// for; the error type is compatible with everything.
pub open spec fn compatible(expected: TyView, actual: TyView) -> bool {
    expected == actual || expected is Error || actual is Error
}

/// The type of a binary operation on operands of the given types.
pub open spec fn binary_rule(op: BinaryOp, l: TyView, r: TyView) -> TyView {
    match op {
        BinaryOp::Add => if l is String && r is String {
            TyView::String
        } else if l is Int && r is Int {
            TyView::Int
        } else if l is Float && r is Float {
            TyView::Float
        } else {
            TyView::Error
        },
        BinaryOp::Subtract | BinaryOp::Multiply | BinaryOp::Divide => if l is Int && r is Int {
            TyView::Int
        } else if l is Float && r is Float {
            TyView::Float
        } else {
            TyView::Error
        },
        BinaryOp::Equal | BinaryOp::NotEqual => if compatible(l, r) || compatible(r, l) {
            TyView::Bool
        } else {
            TyView::Error
        },
        BinaryOp::Greater | BinaryOp::GreaterEqual | BinaryOp::Less | BinaryOp::LessEqual => if (l is Int
            && r is Int) || (l is Float && r is Float) {
            TyView::Bool
        } else {
            TyView::Error
        },
        BinaryOp::And | BinaryOp::Or => if l is Bool && r is Bool {
            TyView::Bool
        } else {
            TyView::Error
        },
    }
}

/// Ordering comparisons (`<`, `<=`, `>`, `>=`) accept two `Float` or two
/// `Int` operands: the comparison has type `Bool` and, when its operands
/// check cleanly, adds no diagnostic.
pub proof fn law_ordering_comparisons_type_as_bool(
    env: Seq<Seq<(Seq<char>, usize)>>,
    symbols: Seq<Symbol>,
    e: Expr,
    left: Expr,
    op: BinaryOp,
    right: Expr,
)
    requires
        e.kind == (ExprKind::Binary { left: Box::new(left), op, right: Box::new(right) }),
        op == BinaryOp::Less || op == BinaryOp::LessEqual || op == BinaryOp::Greater || op == BinaryOp::GreaterEqual,
        (expr_type(env, symbols, left) == TyView::Float && expr_type(env, symbols, right) == TyView::Float) || (
        expr_type(env, symbols, left) == TyView::Int && expr_type(env, symbols, right) == TyView::Int),
    ensures
        expr_type(env, symbols, e) == TyView::Bool,
        !expr_complains(env, symbols, left) && !expr_complains(env, symbols, right) ==> !expr_complains(
            env,
            symbols,
            e,
        ),
{
}

/// Arithmetic keeps the operands' numeric type: `+ - * /` on two `Int`
/// operands type as `Int` and on two `Float` operands as `Float`, `+` on
/// two `String` operands as `String`, and `and`/`or` on two `Bool`
/// operands as `Bool`, each adding no diagnostic of its own.
pub proof fn law_arithmetic_types(
    env: Seq<Seq<(Seq<char>, usize)>>,
    symbols: Seq<Symbol>,
    e: Expr,
    left: Expr,
    op: BinaryOp,
    right: Expr,
)
    requires
        e.kind == (ExprKind::Binary { left: Box::new(left), op, right: Box::new(right) }),
        !expr_complains(env, symbols, left),
        !expr_complains(env, symbols, right),
    ensures
        ({
            let l = expr_type(env, symbols, left);
            let r = expr_type(env, symbols, right);
            let arith = op == BinaryOp::Add || op == BinaryOp::Subtract || op == BinaryOp::Multiply || op
                == BinaryOp::Divide;
            &&& arith && l == TyView::Int && r == TyView::Int ==> expr_type(env, symbols, e) == TyView::Int
                && !expr_complains(env, symbols, e)
            &&& arith && l == TyView::Float && r == TyView::Float ==> expr_type(env, symbols, e) == TyView::Float
                && !expr_complains(env, symbols, e)
            &&& op == BinaryOp::Add && l == TyView::String && r == TyView::String ==> expr_type(env, symbols, e)
                == TyView::String && !expr_complains(env, symbols, e)
            &&& (op == BinaryOp::And || op == BinaryOp::Or) && l == TyView::Bool && r == TyView::Bool ==> expr_type(
                env,
                symbols,
                e,
            ) == TyView::Bool && !expr_complains(env, symbols, e)
            &&& (op == BinaryOp::Equal || op == BinaryOp::NotEqual) && l == r ==> expr_type(env, symbols, e)
                == TyView::Bool && !expr_complains(env, symbols, e)
        }),
{
}

/// A binary operation reports its operands when it has no type for them
/// and neither operand is already in error.
pub open spec fn binary_complains(op: BinaryOp, l: TyView, r: TyView) -> bool {
    binary_rule(op, l, r) is Error && !(l is Error || r is Error)
}

pub open spec fn unary_rule(op: UnaryOp, t: TyView) -> TyView {
    match op {
        UnaryOp::Negate => if t is Int || t is Float || t is Error {
            t
        } else {
            TyView::Error
        },
        UnaryOp::Not => if t is Bool || t is Error {
            TyView::Bool
        } else {
            TyView::Error
        },
    }
}

pub open spec fn unary_complains(op: UnaryOp, t: TyView) -> bool {
    match op {
        UnaryOp::Negate => !(t is Int || t is Float || t is Error),
        UnaryOp::Not => !(t is Bool || t is Error),
    }
}

/// The argument a built-in takes: `print` any scalar, `assert` a boolean.
pub open spec fn builtin_accepts(kind: BuiltinKind, t: TyView) -> bool {
    match kind {
        BuiltinKind::Print => t is Int || t is Float || t is Bool || t is String,
        BuiltinKind::Assert => t is Bool,
    }
}

/// The type of a call: a function's return type, nothing for a built-in.
pub open spec fn call_rule(callee: TyView) -> TyView {
    match callee {
        TyView::Function(_, ret) => *ret,
        TyView::Builtin(_) => TyView::Void,
        _ => TyView::Error,
    }
}

/// A call reports a wrong argument count, an incompatible argument, a
/// refused built-in argument, or a callee that is not callable.
pub open spec fn call_complains(callee: TyView, args: Seq<TyView>) -> bool {
    match callee {
        TyView::Function(params, _) => params.len() != args.len() || exists|i: int|
            0 <= i < params.len() && i < args.len() && !compatible(#[trigger] params[i], args[i]),
        TyView::Builtin(kind) => args.len() != 1 || !builtin_accepts(kind, args[0]),
        TyView::Error => false,
        _ => true,
    }
}

/// The names of one scope, each with its symbol id.
pub open spec fn scope_view(scope: Seq<(String, usize)>) -> Seq<(Seq<char>, usize)> {
    Seq::new(scope.len(), |j: int| (scope[j].0@, scope[j].1))
}

pub open spec fn scopes_view(scopes: Seq<Vec<(String, usize)>>) -> Seq<Seq<(Seq<char>, usize)>> {
    Seq::new(scopes.len(), |i: int| scope_view(scopes[i]@))
}

/// The symbol a scope binds a name to (the latest binding).
pub open spec fn scope_find(scope: Seq<(Seq<char>, usize)>, name: Seq<char>) -> Option<usize>
    decreases scope.len(),
{
    if scope.len() == 0 {
        None
    } else if scope.last().0 == name {
        Some(scope.last().1)
    } else {
        scope_find(scope.drop_last(), name)
    }
}

/// The symbol a name resolves to, innermost scope first.
pub open spec fn scopes_find(scopes: Seq<Seq<(Seq<char>, usize)>>, name: Seq<char>) -> Option<usize>
    decreases scopes.len(),
{
    if scopes.len() == 0 {
        None
    } else {
        match scope_find(scopes.last(), name) {
            Some(id) => Some(id),
            None => scopes_find(scopes.drop_last(), name),
        }
    }
}

/// The type of an expression under the given scopes and symbols.
pub open spec fn expr_type(env: Seq<Seq<(Seq<char>, usize)>>, symbols: Seq<Symbol>, e: Expr) -> TyView
    decreases e,
{
    match e.kind {
        ExprKind::Int(_) => TyView::Int,
        ExprKind::Float(_) => TyView::Float,
        ExprKind::Bool(_) => TyView::Bool,
        ExprKind::String(_) => TyView::String,
        ExprKind::Variable(name) => match scopes_find(env, name@) {
            Some(id) => ty_view(symbols[id as int].ty),
            None => TyView::Error,
        },
        ExprKind::Grouping(inner) => expr_type(env, symbols, *inner),
        ExprKind::Unary { op, expr } => unary_rule(op, expr_type(env, symbols, *expr)),
        ExprKind::Binary { left, op, right } => binary_rule(
            op,
            expr_type(env, symbols, *left),
            expr_type(env, symbols, *right),
        ),
        ExprKind::Call { callee, .. } => call_rule(expr_type(env, symbols, *callee)),
        _ => TyView::Error,
    }
}

pub open spec fn args_types(env: Seq<Seq<(Seq<char>, usize)>>, symbols: Seq<Symbol>, args: Seq<Expr>) -> Seq<TyView>
    decreases args,
{
    if args.len() == 0 {
        Seq::empty()
    } else {
        args_types(env, symbols, args.drop_last()).push(expr_type(env, symbols, args.last()))
    }
}

/// Whether checking an expression reports anything.
pub open spec fn expr_complains(env: Seq<Seq<(Seq<char>, usize)>>, symbols: Seq<Symbol>, e: Expr) -> bool
    decreases e,
{
    match e.kind {
        ExprKind::Variable(name) => scopes_find(env, name@) is None,
        ExprKind::Grouping(inner) => expr_complains(env, symbols, *inner),
        ExprKind::Unary { op, expr } => expr_complains(env, symbols, *expr) || unary_complains(
            op,
            expr_type(env, symbols, *expr),
        ),
        ExprKind::Binary { left, op, right } => {
            ||| expr_complains(env, symbols, *left)
            ||| expr_complains(env, symbols, *right)
            ||| binary_complains(op, expr_type(env, symbols, *left), expr_type(env, symbols, *right))
        },
        ExprKind::Call { callee, args } => {
            ||| expr_complains(env, symbols, *callee)
            ||| args_complain(env, symbols, args@)
            ||| call_complains(expr_type(env, symbols, *callee), args_types(env, symbols, args@))
        },
        _ => false,
    }
}

pub open spec fn args_complain(env: Seq<Seq<(Seq<char>, usize)>>, symbols: Seq<Symbol>, args: Seq<Expr>) -> bool
    decreases args,
{
    if args.len() == 0 {
        false
    } else {
        args_complain(env, symbols, args.drop_last()) || expr_complains(env, symbols, args.last())
    }
}

/// A statement that always returns: `return`, or an `if` whose branches both do.
pub open spec fn stmt_returns(s: Stmt) -> bool
    decreases s,
{
    match s.kind {
        StmtKind::Return(_) => true,
        StmtKind::If { then_branch, else_branch, .. } => match else_branch {
            Some(b) => block_returns(then_branch) && block_returns(b),
            None => false,
        },
        _ => false,
    }
}

/// A block with a statement that always returns.
pub open spec fn block_returns(b: Block) -> bool
    decreases b,
{
    stmts_return(b.statements@)
}

/// A `while (true)` loop, which never completes.
pub open spec fn endless_loop(s: Stmt) -> bool {
    s.kind matches StmtKind::While { condition, .. } && condition.kind matches ExprKind::Bool(b) && b
}

/// A statement after which nothing runs: one that always returns, or an
/// endless loop.
pub open spec fn stmt_terminates(s: Stmt) -> bool {
    stmt_returns(s) || endless_loop(s)
}

pub open spec fn stmts_return(ss: Seq<Stmt>) -> bool
    decreases ss,
{
    ss.len() > 0 && (stmts_return(ss.drop_last()) || stmt_returns(ss.last()))
}

/// The model's tables agree with each other: each symbol sits at its
/// id, and every reference points at a symbol.
pub open spec fn model_consistent(m: SemanticModel) -> bool {
    &&& forall|i: int| 0 <= i < m.symbols@.len() ==> (#[trigger] m.symbols@[i]).id == i
    &&& forall|i: int|
        0 <= i < m.references@.len() ==> (#[trigger] m.references@[i]).target < m.symbols@.len()
}

/// A model without diagnostics has no error type among its symbols and
/// recorded expression types.
pub open spec fn model_clean(m: SemanticModel) -> bool {
    m.diagnostics@.len() == 0 ==> {
        &&& forall|i: int| 0 <= i < m.symbols@.len() ==> error_free(ty_view(#[trigger] m.symbols@[i].ty))
        &&& forall|i: int|
            0 <= i < m.expr_types@.len() ==> error_free(ty_view(#[trigger] m.expr_types@[i].1))
    }
}

// ----- the analyzer -----

struct Analyzer {
    model: SemanticModel,
    scopes: Vec<Vec<(String, usize)>>,
    current_return: Option<Ty>,
    inside_function: bool,
}

/// Every scope entry names a symbol, and the model is consistent.
spec fn consistent(a: Analyzer) -> bool {
    &&& a.scopes@.len() >= 1
    &&& forall|i: int, j: int|
        0 <= i < a.scopes@.len() && 0 <= j < a.scopes@[i]@.len() ==> (#[trigger] a.scopes@[i]@[j]).1
            < a.model.symbols@.len()
    &&& model_consistent(a.model)
}

/// What every step of the analysis keeps: consistency, diagnostics and
/// symbols only added, and cleanliness.
spec fn grows(a: Analyzer, b: Analyzer) -> bool {
    &&& consistent(b)
    &&& a.model.diagnostics@.len() <= b.model.diagnostics@.len()
    &&& a.model.symbols@.len() <= b.model.symbols@.len()
    &&& forall|i: int| 0 <= i < a.model.symbols@.len() ==> b.model.symbols@[i] == a.model.symbols@[i]
    &&& a.model.expr_types@.len() <= b.model.expr_types@.len()
    &&& forall|i: int|
        0 <= i < a.model.expr_types@.len() ==> b.model.expr_types@[i] == a.model.expr_types@[i]
    &&& model_clean(a.model) ==> model_clean(b.model)
}

/// A step that leaves the scopes, symbols and function context alone.
spec fn expr_step(a: Analyzer, b: Analyzer) -> bool {
    &&& grows(a, b)
    &&& b.scopes@ == a.scopes@
    &&& b.model.symbols@ == a.model.symbols@
    &&& b.current_return == a.current_return
    &&& b.inside_function == a.inside_function
}

spec fn env(a: Analyzer) -> Seq<Seq<(Seq<char>, usize)>> {
    scopes_view(a.scopes@)
}

/// The binding a scope gives a name, searched from its latest entry.
fn find_in_scope(scope: &Vec<(String, usize)>, name: &str) -> (r: Option<usize>)
    ensures
        r == scope_find(scope_view(scope@), name@),
{
    let mut i: usize = scope.len();
    proof {
        assert(scope_view(scope@).take(i as int) =~= scope_view(scope@));
    }
    while i > 0
        invariant
            i <= scope@.len(),
            scope_find(scope_view(scope@), name@) == scope_find(scope_view(scope@).take(i as int), name@),
        decreases i,
    {
        proof {
            assert(scope_view(scope@).take(i as int).drop_last() =~= scope_view(scope@).take(i - 1));
        }
        if same_text(scope[i - 1].0.as_str(), name) {
            return Some(scope[i - 1].1);
        }
        i = i - 1;
    }
    None
}

impl Analyzer {
    fn error(&mut self, span: Span, message: String)
        requires
            consistent(*old(self)),
        ensures
            final(self).model.diagnostics@.len() == old(self).model.diagnostics@.len() + 1,
            final(self).model.diagnostics@.drop_last() == old(self).model.diagnostics@,
            final(self).model.diagnostics@.last().message == message,
            final(self).model.diagnostics@.last().span == span,
            final(self).model.symbols@ == old(self).model.symbols@,
            final(self).model.expr_types@ == old(self).model.expr_types@,
            final(self).model.references@ == old(self).model.references@,
            final(self).scopes@ == old(self).scopes@,
            final(self).current_return == old(self).current_return,
            final(self).inside_function == old(self).inside_function,
            expr_step(*old(self), *final(self)),
    {
        self.model.diagnostics.push(MuninnError::from_string("typecheck", message, span));
    }

    fn lookup_symbol(&self, name: &str) -> (r: Option<usize>)
        requires
            consistent(*self),
        ensures
            r == scopes_find(env(*self), name@),
            r matches Some(id) ==> id < self.model.symbols@.len(),
    {
        let mut i: usize = self.scopes.len();
        proof {
            assert(env(*self).take(i as int) =~= env(*self));
        }
        while i > 0
            invariant
                i <= self.scopes@.len(),
                consistent(*self),
                scopes_find(env(*self), name@) == scopes_find(env(*self).take(i as int), name@),
            decreases i,
        {
            proof {
                assert(env(*self).take(i as int).drop_last() =~= env(*self).take(i - 1));
                assert(env(*self).take(i as int).last() == scope_view(self.scopes@[i - 1]@));
            }
            let found = find_in_scope(&self.scopes[i - 1], name);
            if found.is_some() {
                proof {
                    lemma_scope_find_in(scope_view(self.scopes@[i - 1]@), name@);
                    let sv = scope_view(self.scopes@[i - 1]@);
                    let j = choose|j: int| 0 <= j < sv.len() && (#[trigger] sv[j]).1 == found.unwrap();
                    assert(self.scopes@[i - 1]@[j].1 == found.unwrap());
                }
                return found;
            }
            i = i - 1;
        }
        None
    }

    fn enter_scope(&mut self)
        requires
            consistent(*old(self)),
        ensures
            final(self).scopes@.len() == old(self).scopes@.len() + 1,
            final(self).scopes@.drop_last() == old(self).scopes@,
            final(self).scopes@.last()@.len() == 0,
            final(self).model == old(self).model,
            final(self).current_return == old(self).current_return,
            final(self).inside_function == old(self).inside_function,
            grows(*old(self), *final(self)),
    {
        self.scopes.push(Vec::new());
    }

    fn exit_scope(&mut self)
        requires
            consistent(*old(self)),
            old(self).scopes@.len() >= 2,
        ensures
            final(self).scopes@ == old(self).scopes@.drop_last(),
            final(self).model == old(self).model,
            final(self).current_return == old(self).current_return,
            final(self).inside_function == old(self).inside_function,
            grows(*old(self), *final(self)),
    {
        let _ = self.scopes.pop();
    }

    /// Binds `name` in the innermost scope to a new symbol, unless that
    /// scope binds it already.
    fn define_symbol(&mut self, name: String, kind: SymbolKind, span: Span, detail: String, ty: Ty, mutable: bool)
        requires
            consistent(*old(self)),
            model_clean(old(self).model) && old(self).model.diagnostics@.len() == 0 ==> error_free(
                ty_view(ty),
            ),
        ensures
            grows(*old(self), *final(self)),
            final(self).scopes@.len() == old(self).scopes@.len(),
            final(self).model.expr_types@ == old(self).model.expr_types@,
            final(self).current_return == old(self).current_return,
            final(self).inside_function == old(self).inside_function,
            ({
                let inner = old(self).scopes@.len() - 1;
                if scope_find(scope_view(old(self).scopes@[inner]@), name@) is Some {
                    &&& final(self).scopes@ == old(self).scopes@
                    &&& final(self).model.symbols@ == old(self).model.symbols@
                    &&& final(self).model.diagnostics@.drop_last() == old(self).model.diagnostics@
                    &&& final(self).model.diagnostics@.len() == old(self).model.diagnostics@.len() + 1
                    &&& final(self).model.diagnostics@.last().message@ == "'"@ + name@
                        + "' is already defined in this scope"@
                    &&& final(self).model.diagnostics@.last().span == span
                } else {
                    let id = old(self).model.symbols@.len() as usize;
                    &&& final(self).model.diagnostics@ == old(self).model.diagnostics@
                    &&& final(self).model.symbols@ == old(self).model.symbols@.push(
                        Symbol { id, name, kind, span, detail, ty, mutable },
                    )
                    &&& final(self).scopes@.drop_last() == old(self).scopes@.drop_last()
                    &&& scope_view(final(self).scopes@[inner]@) == scope_view(old(self).scopes@[inner]@).push(
                        (name@, id),
                    )
                }
            }),
    {
        let last = self.scopes.len() - 1;
        if find_in_scope(&self.scopes[last], name.as_str()).is_some() {
            let mut message = owned("'");
            push_str(&mut message, name.as_str());
            push_str(&mut message, "' is already defined in this scope");
            proof {
                assert(message@ =~= "'"@ + name@ + "' is already defined in this scope"@);
            }
            self.error(span, message);
            return;
        }
        let id = self.model.symbols.len();
        let mut scope = self.scopes.pop().unwrap();
        let ghost old_scope = scope@;
        let key = name.clone();
        scope.push((key, id));
        self.scopes.push(scope);
        self.model.symbols.push(Symbol { id, name, kind, span, detail, ty, mutable });
        proof {
            assert(self.scopes@.drop_last() =~= old(self).scopes@.drop_last());
            assert(scope_view(self.scopes@[last as int]@) =~= scope_view(old_scope).push((key@, id)));
            assert forall|i: int, j: int|
                0 <= i < self.scopes@.len() && 0 <= j < self.scopes@[i]@.len() implies (
                #[trigger] self.scopes@[i]@[j]).1 < self.model.symbols@.len() by {
                if i < last {
                    assert(self.scopes@[i] == old(self).scopes@[i]);
                }
            }
        }
    }

    /// Binds a top-level name, unless it is bound already.
    fn define_global(&mut self, symbol: Symbol)
        requires
            consistent(*old(self)),
            old(self).scopes@.len() == 1,
            symbol.id == old(self).model.symbols@.len(),
            model_clean(old(self).model) && old(self).model.diagnostics@.len() == 0 ==> error_free(
                ty_view(symbol.ty),
            ),
        ensures
            grows(*old(self), *final(self)),
            final(self).scopes@.len() == 1,
            final(self).model.expr_types@ == old(self).model.expr_types@,
            final(self).current_return == old(self).current_return,
            final(self).inside_function == old(self).inside_function,
            if scope_find(scope_view(old(self).scopes@[0]@), symbol.name@) is Some {
                &&& final(self).scopes@ == old(self).scopes@
                &&& final(self).model.symbols@ == old(self).model.symbols@
                &&& final(self).model.diagnostics@.drop_last() == old(self).model.diagnostics@
                &&& final(self).model.diagnostics@.len() == old(self).model.diagnostics@.len() + 1
                &&& final(self).model.diagnostics@.last().message@ == "'"@ + symbol.name@ + "' is already defined"@
                &&& final(self).model.diagnostics@.last().span == symbol.span
            } else {
                &&& final(self).model.diagnostics@ == old(self).model.diagnostics@
                &&& final(self).model.symbols@ == old(self).model.symbols@.push(symbol)
                &&& scope_view(final(self).scopes@[0]@) == scope_view(old(self).scopes@[0]@).push(
                    (symbol.name@, symbol.id),
                )
            },
    {
        if find_in_scope(&self.scopes[0], symbol.name.as_str()).is_some() {
            let mut message = owned("'");
            push_str(&mut message, symbol.name.as_str());
            push_str(&mut message, "' is already defined");
            proof {
                assert(message@ =~= "'"@ + symbol.name@ + "' is already defined"@);
            }
            self.error(symbol.span, message);
            return;
        }
        let id = symbol.id;
        let mut scope = self.scopes.pop().unwrap();
        let ghost old_scope = scope@;
        let key = symbol.name.clone();
        scope.push((key, id));
        self.scopes.push(scope);
        self.model.symbols.push(symbol);
        proof {
            assert(scope_view(self.scopes@[0]@) =~= scope_view(old_scope).push((key@, id)));
        }
    }
}

/// A binding a scope gives is one of its entries.
proof fn lemma_scope_find_in(scope: Seq<(Seq<char>, usize)>, name: Seq<char>)
    ensures
        scope_find(scope, name) matches Some(id) ==> exists|j: int| 0 <= j < scope.len() && (#[trigger] scope[j]).1 == id,
    decreases scope.len(),
{
    if scope.len() > 0 && scope.last().0 != name {
        lemma_scope_find_in(scope.drop_last(), name);
        if scope_find(scope.drop_last(), name) is Some {
            let rest = scope.drop_last();
            let j = choose|j: int| 0 <= j < rest.len() && (#[trigger] rest[j]).1 == scope_find(rest, name)->Some_0;
            assert(scope[j] == scope.drop_last()[j]);
        }
    }
}

/// `head`, then ", got " and the two types joined by " and ".
fn pair_message(head: &str, left: &Ty, right: &Ty) -> (s: String)
    ensures
        s@ == head@ + ", got "@ + ty_text(*left) + " and "@ + ty_text(*right),
{
    let mut message = owned(head);
    push_str(&mut message, ", got ");
    let l = display_ty(left);
    push_str(&mut message, l.as_str());
    push_str(&mut message, " and ");
    let r = display_ty(right);
    push_str(&mut message, r.as_str());
    proof {
        assert(message@ =~= head@ + ", got "@ + ty_text(*left) + " and "@ + ty_text(*right));
    }
    message
}

fn ty_compatible(expected: &Ty, actual: &Ty) -> (b: bool)
    ensures
        b == compatible(ty_view(*expected), ty_view(*actual)),
{
    same_ty(expected, actual) || matches!(expected, Ty::Error) || matches!(actual, Ty::Error)
}

/// Every argument of a surface call is a surface expression.
proof fn lemma_surface_arg(args: Seq<Expr>, i: int)
    requires
        surface_args(args),
        0 <= i < args.len(),
    ensures
        surface_expr(args[i]),
    decreases args.len(),
{
    if i < args.len() - 1 {
        lemma_surface_arg(args.drop_last(), i);
    }
}

impl Analyzer {
    fn check_binary(&mut self, op: BinaryOp, left: &Ty, right: &Ty, span: Span) -> (r: Ty)
        requires
            consistent(*old(self)),
        ensures
            expr_step(*old(self), *final(self)),
            final(self).model.expr_types@ == old(self).model.expr_types@,
            final(self).model.references@ == old(self).model.references@,
            ty_view(r) == binary_rule(op, ty_view(*left), ty_view(*right)),
            (final(self).model.diagnostics@.len() > old(self).model.diagnostics@.len()) == binary_complains(
                op,
                ty_view(*left),
                ty_view(*right),
            ),
    {
        let either_error = matches!(left, Ty::Error) || matches!(right, Ty::Error);
        match op {
            BinaryOp::Add => {
                if matches!(left, Ty::String) && matches!(right, Ty::String) {
                    Ty::String
                } else if matches!(left, Ty::Int) && matches!(right, Ty::Int) {
                    Ty::Int
                } else if matches!(left, Ty::Float) && matches!(right, Ty::Float) {
                    Ty::Float
                } else if either_error {
                    Ty::Error
                } else {
                    let message = pair_message(
                        "'+' expects Int/Int, Float/Float, or String/String",
                        left,
                        right,
                    );
                    self.error(span, message);
                    Ty::Error
                }
            },
            BinaryOp::Subtract | BinaryOp::Multiply | BinaryOp::Divide => {
                if matches!(left, Ty::Int) && matches!(right, Ty::Int) {
                    Ty::Int
                } else if matches!(left, Ty::Float) && matches!(right, Ty::Float) {
                    Ty::Float
                } else if either_error {
                    Ty::Error
                } else {
                    let message = pair_message(
                        "numeric operator expects matching numeric types",
                        left,
                        right,
                    );
                    self.error(span, message);
                    Ty::Error
                }
            },
            BinaryOp::Equal | BinaryOp::NotEqual => {
                if ty_compatible(left, right) || ty_compatible(right, left) {
                    Ty::Bool
                } else {
                    let message = pair_message("comparison expects matching types", left, right);
                    self.error(span, message);
                    Ty::Error
                }
            },
            BinaryOp::Greater | BinaryOp::GreaterEqual | BinaryOp::Less | BinaryOp::LessEqual => {
                if (matches!(left, Ty::Int) && matches!(right, Ty::Int)) || (matches!(left, Ty::Float)
                    && matches!(right, Ty::Float)) {
                    Ty::Bool
                } else if either_error {
                    Ty::Error
                } else {
                    let message = pair_message(
                        "ordering comparison expects Int/Int or Float/Float",
                        left,
                        right,
                    );
                    self.error(span, message);
                    Ty::Error
                }
            },
            BinaryOp::And | BinaryOp::Or => {
                if matches!(left, Ty::Bool) && matches!(right, Ty::Bool) {
                    Ty::Bool
                } else if either_error {
                    Ty::Error
                } else {
                    let message = pair_message("logical operator expects Bool/Bool", left, right);
                    self.error(span, message);
                    Ty::Error
                }
            },
        }
    }

    fn check_call(&mut self, callee: &Expr, callee_ty: &Ty, arg_types: &Vec<Ty>, span: Span) -> (r: Ty)
        requires
            consistent(*old(self)),
        ensures
            expr_step(*old(self), *final(self)),
            final(self).model.expr_types@ == old(self).model.expr_types@,
            final(self).model.references@ == old(self).model.references@,
            ty_view(r) == call_rule(ty_view(*callee_ty)),
            (final(self).model.diagnostics@.len() > old(self).model.diagnostics@.len()) == call_complains(
                ty_view(*callee_ty),
                tys_view(arg_types@),
            ),
    {
        proof {
            lemma_tys_view_len(arg_types@);
        }
        match callee_ty {
            Ty::Function(params, ret) => {
                proof {
                    lemma_tys_view_len(params@);
                }
                let ghost start = *self;
                if params.len() != arg_types.len() {
                    let mut message = owned("wrong argument count: expected ");
                    let expected = usize_text(params.len());
                    push_str(&mut message, expected.as_str());
                    push_str(&mut message, ", got ");
                    let got = usize_text(arg_types.len());
                    push_str(&mut message, got.as_str());
                    self.error(span, message);
                }
                let n = if params.len() < arg_types.len() {
                    params.len()
                } else {
                    arg_types.len()
                };
                let mut index: usize = 0;
                while index < n
                    invariant
                        index <= n,
                        n <= params@.len(),
                        n <= arg_types@.len(),
                        n == params@.len() || n == arg_types@.len(),
                        expr_step(start, *self),
                        self.model.expr_types@ == start.model.expr_types@,
                        self.model.references@ == start.model.references@,
                        (self.model.diagnostics@.len() > start.model.diagnostics@.len()) == (params@.len()
                            != arg_types@.len() || exists|j: int|
                            0 <= j < index && !compatible(
                                #[trigger] tys_view(params@)[j],
                                tys_view(arg_types@)[j],
                            )),
                    decreases n - index,
                {
                    proof {
                        lemma_tys_view_index(params@, index as int);
                        lemma_tys_view_index(arg_types@, index as int);
                    }
                    if !ty_compatible(&params[index], &arg_types[index]) {
                        let mut message = owned("argument ");
                        let position = usize_text(index);
                        push_str(&mut message, position.as_str());
                        push_str(&mut message, " mismatch: expected ");
                        let expected = display_ty(&params[index]);
                        push_str(&mut message, expected.as_str());
                        push_str(&mut message, ", got ");
                        let got = display_ty(&arg_types[index]);
                        push_str(&mut message, got.as_str());
                        self.error(span, message);
                    }
                    index = index + 1;
                }
                clone_ty(ret)
            },
            Ty::Builtin(kind) => {
                if arg_types.len() != 1 {
                    let message = match kind {
                        BuiltinKind::Print => owned("print expects exactly 1 argument"),
                        BuiltinKind::Assert => owned("assert expects exactly 1 argument"),
                    };
                    self.error(span, message);
                } else {
                    proof {
                        lemma_tys_view_index(arg_types@, 0);
                    }
                    if !accepts_argument(*kind, &arg_types[0]) {
                        let mut message = match kind {
                            BuiltinKind::Print => owned("print cannot format values of type "),
                            BuiltinKind::Assert => owned("assert expects Bool, got "),
                        };
                        let shown = display_ty(&arg_types[0]);
                        push_str(&mut message, shown.as_str());
                        self.error(span, message);
                    }
                }
                return_type(*kind)
            },
            Ty::Error => Ty::Error,
            _ => {
                let mut message = owned("value of type ");
                let shown = display_ty(callee_ty);
                push_str(&mut message, shown.as_str());
                push_str(&mut message, " is not callable");
                match &callee.kind {
                    ExprKind::Variable(name) => match builtin_by_name(name.as_str()) {
                        Some(builtin) => {
                            push_str(&mut message, " (did you mean native function '");
                            push_str(&mut message, builtin.name);
                            push_str(&mut message, "'?)");
                        },
                        None => {},
                    },
                    _ => {},
                }
                self.error(span, message);
                Ty::Error
            },
        }
    }

    fn check_expr(&mut self, expr: &Expr) -> (r: Ty)
        requires
            consistent(*old(self)),
            surface_expr(*expr),
        ensures
            expr_step(*old(self), *final(self)),
            ty_view(r) == expr_type(env(*old(self)), old(self).model.symbols@, *expr),
            (final(self).model.diagnostics@.len() > old(self).model.diagnostics@.len()) == expr_complains(
                env(*old(self)),
                old(self).model.symbols@,
                *expr,
            ),
            model_clean(old(self).model) && final(self).model.diagnostics@.len() == 0 ==> error_free(
                ty_view(r),
            ),
            final(self).model.expr_types@.len() > 0,
            final(self).model.expr_types@.last().0 == expr.id,
            ty_view(final(self).model.expr_types@.last().1) == ty_view(r),
        decreases expr,
    {
        let ty: Ty = match &expr.kind {
            ExprKind::Int(_) => Ty::Int,
            ExprKind::Float(_) => Ty::Float,
            ExprKind::Bool(_) => Ty::Bool,
            ExprKind::String(_) => Ty::String,
            ExprKind::Variable(name) => match self.lookup_symbol(name.as_str()) {
                Some(symbol_id) => {
                    self.model.references.push(Reference { span: expr.span, target: symbol_id });
                    clone_ty(&self.model.symbols[symbol_id].ty)
                },
                None => {
                    let mut message = owned("unknown name '");
                    push_str(&mut message, name.as_str());
                    push_str(&mut message, "'");
                    self.error(expr.span, message);
                    Ty::Error
                },
            },
            ExprKind::Grouping(inner) => self.check_expr(inner),
            ExprKind::Unary { op, expr: inner } => {
                let inner_ty = self.check_expr(inner);
                match op {
                    UnaryOp::Negate => {
                        if matches!(inner_ty, Ty::Int | Ty::Float | Ty::Error) {
                            inner_ty
                        } else {
                            self.error(expr.span, owned("unary '-' expects Int or Float"));
                            Ty::Error
                        }
                    },
                    UnaryOp::Not => {
                        if matches!(inner_ty, Ty::Bool | Ty::Error) {
                            Ty::Bool
                        } else {
                            self.error(expr.span, owned("unary '!' expects Bool"));
                            Ty::Error
                        }
                    },
                }
            },
            ExprKind::Binary { left, op, right } => {
                let left_ty = self.check_expr(left);
                let right_ty = self.check_expr(right);
                self.check_binary(*op, &left_ty, &right_ty, expr.span)
            },
            ExprKind::Call { callee, args } => {
                let callee_ty = self.check_expr(callee);
                let ghost after_callee = *self;
                let mut arg_types: Vec<Ty> = Vec::new();
                let mut i: usize = 0;
                proof {
                    assert(args@.take(0) =~= Seq::<Expr>::empty());
                }
                while i < args.len()
                    invariant
                        i <= args@.len(),
                        expr.kind is Call,
                        expr.kind->Call_args == *args,
                        surface_args(args@),
                        expr_step(*old(self), after_callee),
                        expr_step(after_callee, *self),
                        tys_view(arg_types@) == args_types(env(*old(self)), old(self).model.symbols@, args@.take(i as int)),
                        (self.model.diagnostics@.len() > after_callee.model.diagnostics@.len()) == args_complain(
                            env(*old(self)),
                            old(self).model.symbols@,
                            args@.take(i as int),
                        ),
                    decreases args@.len() - i,
                {
                    proof {
                        assert(decreases_to!(*expr => expr.kind));
                        assert(decreases_to!(expr.kind => expr.kind->Call_args));
                        assert(decreases_to!(*args => args@));
                        assert(decreases_to!(args@ => args@[i as int]));
                        assert(decreases_to!(*expr => args@[i as int]));
                        lemma_surface_arg(args@, i as int);
                    }
                    let ghost before = *self;
                    let ghost previous = arg_types@;
                    let arg_ty = self.check_expr(&args[i]);
                    arg_types.push(arg_ty);
                    proof {
                        assert(args@.take(i + 1).drop_last() =~= args@.take(i as int));
                        assert(arg_types@.drop_last() =~= previous);
                    }
                    i = i + 1;
                }
                proof {
                    assert(args@.take(args@.len() as int) =~= args@);
                }
                self.check_call(callee, &callee_ty, &arg_types, expr.span)
            },
            _ => Ty::Error,
        };
        let recorded = clone_ty(&ty);
        self.model.expr_types.push((expr.id, recorded));
        ty
    }
}

/// A copy of a written type.
fn copy_type_expr(t: &TypeExpr) -> (c: TypeExpr)
    ensures
        c == *t,
{
    match t {
        TypeExpr::Int => TypeExpr::Int,
        TypeExpr::Float => TypeExpr::Float,
        TypeExpr::Bool => TypeExpr::Bool,
        TypeExpr::String => TypeExpr::String,
        TypeExpr::Tensor => TypeExpr::Tensor,
        TypeExpr::Void => TypeExpr::Void,
        TypeExpr::Record(name) => TypeExpr::Record(name.clone()),
    }
}

/// How a written type is shown.
pub open spec fn type_expr_text(t: TypeExpr) -> Seq<char> {
    match t {
        TypeExpr::Int => "Int"@,
        TypeExpr::Float => "Float"@,
        TypeExpr::Bool => "Bool"@,
        TypeExpr::String => "String"@,
        TypeExpr::Tensor => "Tensor"@,
        TypeExpr::Void => "Void"@,
        TypeExpr::Record(name) => name@,
    }
}

/// `a: Int, b: Int`: the parameters as a signature lists them.
pub open spec fn params_signature(ps: Seq<Param>) -> Seq<char>
    decreases ps.len(),
{
    if ps.len() == 0 {
        Seq::empty()
    } else if ps.len() == 1 {
        ps[0].name@ + ": "@ + type_expr_text(ps[0].ty)
    } else {
        params_signature(ps.drop_last()) + ", "@ + ps.last().name@ + ": "@ + type_expr_text(ps.last().ty)
    }
}

/// `fn name(a: Int, b: Int) -> Int`.
pub open spec fn signature_text(f: FunctionDecl) -> Seq<char> {
    "fn "@ + f.name@ + "("@ + params_signature(f.params@) + ") -> "@ + type_expr_text(f.return_type)
}

/// The parameters that get a symbol, in order: each one whose name no
/// earlier parameter has.
pub open spec fn fresh_params(ps: Seq<Param>) -> Seq<Param>
    decreases ps.len(),
{
    if ps.len() == 0 {
        Seq::empty()
    } else {
        let f = fresh_params(ps.drop_last());
        if exists|k: int| 0 <= k < f.len() && (#[trigger] f[k]).name@ == ps.last().name@ {
            f
        } else {
            f.push(ps.last())
        }
    }
}

/// A symbol for parameter `p` with the given id.
pub open spec fn parameter_symbol(sym: Symbol, p: Param, id: nat) -> bool {
    &&& sym.id == id
    &&& sym.name@ == p.name@
    &&& sym.kind == SymbolKind::Parameter
    &&& sym.span == p.span
    &&& ty_view(sym.ty) == type_expr_view(p.ty)
    &&& sym.detail@ == p.name@ + ": "@ + type_expr_text(p.ty)
    &&& !sym.mutable
}

/// A scope binds a name exactly when one of its entries has that name.
proof fn lemma_scope_find_some(scope: Seq<(Seq<char>, usize)>, name: Seq<char>)
    ensures
        (scope_find(scope, name) is Some) == exists|j: int| 0 <= j < scope.len() && (#[trigger] scope[j]).0 == name,
    decreases scope.len(),
{
    if scope.len() > 0 {
        lemma_scope_find_some(scope.drop_last(), name);
        if scope.last().0 != name {
            if exists|j: int| 0 <= j < scope.len() && (#[trigger] scope[j]).0 == name {
                let j = choose|j: int| 0 <= j < scope.len() && (#[trigger] scope[j]).0 == name;
                assert(scope.drop_last()[j] == scope[j]);
            }
            if exists|j: int| 0 <= j < scope.drop_last().len() && (#[trigger] scope.drop_last()[j]).0 == name {
                let j = choose|j: int| 0 <= j < scope.drop_last().len() && (#[trigger] scope.drop_last()[j]).0 == name;
                assert(scope[j] == scope.drop_last()[j]);
            }
        } else {
            assert(scope[scope.len() - 1].0 == name);
        }
    }
}

/// The index of the first statement that never lets control reach the
/// next one, or the number of statements when there is none.
pub open spec fn first_terminating(ss: Seq<Stmt>) -> int
    decreases ss.len(),
{
    if ss.len() == 0 {
        0
    } else {
        let f = first_terminating(ss.drop_last());
        if f < ss.len() - 1 {
            f
        } else if stmt_terminates(ss.last()) {
            ss.len() - 1
        } else {
            ss.len() as int
        }
    }
}

/// Each statement after the first terminating one is reported as
/// unreachable, in order, by the last diagnostics.
pub open spec fn unreachable_reported(ss: Seq<Stmt>, diags: Seq<MuninnError>) -> bool {
    let t = first_terminating(ss);
    t < ss.len() ==> {
        let u = ss.len() - 1 - t;
        &&& diags.len() >= u
        &&& forall|k: int| 0 <= k < u ==> {
            &&& (#[trigger] diags[diags.len() - u + k]).message@ == "unreachable statement"@
            &&& diags[diags.len() - u + k].span == ss[t + 1 + k].span
        }
    }
}

/// What checking one statement does to the analyzer, as `check_stmt`
/// states it.
spec fn stmt_checked(a: Analyzer, b: Analyzer, stmt: Stmt, top_level: bool) -> bool {
    &&& (grows(a, b))
    &&& (b.scopes@.len() == a.scopes@.len())
    &&& (b.scopes@.drop_last() == a.scopes@.drop_last())
    &&& (b.current_return == a.current_return)
    &&& (b.inside_function == a.inside_function)
    &&& (match stmt.kind {
                StmtKind::Let { name, name_span, mutable, ty, initializer } => {
                    let inner = a.scopes@.len() - 1;
                    let n = a.model.symbols@.len();
                    let bound = scope_find(scope_view(a.scopes@[inner]@), name@) is Some;
                    let found = expr_type(env(a), a.model.symbols@, initializer);
                    &&& b.model.expr_types@.len() > 0
                    &&& b.model.expr_types@.last().0 == initializer.id
                    &&& ty_view(b.model.expr_types@.last().1) == found
                    &&& (b.model.diagnostics@.len() > a.model.diagnostics@.len()) == (
                    expr_complains(env(a), a.model.symbols@, initializer) || bound
                        || match ty {
                        Some(t) => !compatible(type_expr_view(t), found),
                        None => false,
                    })
                    &&& if bound {
                        &&& b.model.symbols@ == a.model.symbols@
                        &&& b.scopes@ == a.scopes@
                    } else {
                        let sym = b.model.symbols@[n as int];
                        &&& b.model.symbols@.len() == n + 1
                        &&& b.model.symbols@.drop_last() == a.model.symbols@
                        &&& sym.id == n
                        &&& sym.name@ == name@
                        &&& sym.span == name_span
                        &&& sym.mutable == mutable
                        &&& sym.kind == (if a.scopes@.len() == 1 {
                            SymbolKind::Global
                        } else {
                            SymbolKind::Local
                        })
                        &&& ty_view(sym.ty) == match ty {
                            Some(t) => type_expr_view(t),
                            None => expr_type(env(a), a.model.symbols@, initializer),
                        }
                        &&& sym.detail@ == name@ + ": "@ + ty_text(sym.ty)
                        &&& b.scopes@.drop_last() == a.scopes@.drop_last()
                        &&& scope_view(b.scopes@[inner]@) == scope_view(a.scopes@[inner]@).push(
                            (name@, n as usize),
                        )
                    }
                },
                StmtKind::Return(value) => if !a.inside_function {
                    only_reported(a, b, stmt.span, "return can only appear inside a function"@)
                } else {
                    let expected = match a.current_return {
                        Some(t) => ty_view(t),
                        None => TyView::Void,
                    };
                    &&& expr_step(a, b)
                    &&& (b.model.diagnostics@.len() > a.model.diagnostics@.len()) == match value {
                        Some(e) => expr_complains(env(a), a.model.symbols@, e) || !compatible(
                            expected,
                            expr_type(env(a), a.model.symbols@, e),
                        ),
                        None => !compatible(expected, TyView::Void),
                    }
                },
                StmtKind::Assign { name, value, .. } => {
                    &&& b.scopes@ == a.scopes@
                    &&& b.model.symbols@ == a.model.symbols@
                    &&& (b.model.diagnostics@.len() > a.model.diagnostics@.len()) == (
                    expr_complains(env(a), a.model.symbols@, value) || match scopes_find(
                        env(a),
                        name@,
                    ) {
                        None => true,
                        Some(id) => {
                            let target = a.model.symbols@[id as int];
                            ||| target.kind is Function
                            ||| target.kind is Builtin
                            ||| !target.mutable
                            ||| !compatible(
                                ty_view(target.ty),
                                expr_type(env(a), a.model.symbols@, value),
                            )
                        },
                    })
                },
                StmtKind::Expr(e) => {
                    &&& expr_step(a, b)
                    &&& b.model.expr_types@.len() > 0
                    &&& b.model.expr_types@.last().0 == e.id
                    &&& ty_view(b.model.expr_types@.last().1) == expr_type(
                        env(a),
                        a.model.symbols@,
                        e,
                    )
                    &&& (b.model.diagnostics@.len() > a.model.diagnostics@.len())
                        == expr_complains(env(a), a.model.symbols@, e)
                },
                StmtKind::While { condition, .. } => {
                    let t = expr_type(env(a), a.model.symbols@, condition);
                    (expr_complains(env(a), a.model.symbols@, condition) || !(t is Bool
                        || t is Error)) ==> b.model.diagnostics@.len() > a.model.diagnostics@.len()
                },
                StmtKind::If { condition, .. } => {
                    let t = expr_type(env(a), a.model.symbols@, condition);
                    (expr_complains(env(a), a.model.symbols@, condition) || !(t is Bool
                        || t is Error)) ==> b.model.diagnostics@.len() > a.model.diagnostics@.len()
                },
                _ => true,
            })
}

/// The analyzer as `Analyzer::new` makes it: the built-ins bound
/// globally, nothing else recorded.
spec fn fresh(a: Analyzer) -> bool {
    &&& consistent(a)
    &&& model_clean(a.model)
    &&& a.scopes@.len() == 1
    &&& scope_view(a.scopes@[0]@) == seq![("print"@, 0usize), ("assert"@, 1usize)]
    &&& a.model.diagnostics@.len() == 0
    &&& a.model.expr_types@.len() == 0
    &&& a.inside_function == false
    &&& a.current_return is None
    &&& a.model.symbols@.len() == 2
    &&& a.model.symbols@[0].kind == SymbolKind::Builtin(BuiltinKind::Print)
    &&& a.model.symbols@[1].kind == SymbolKind::Builtin(BuiltinKind::Assert)
}

/// Declaring the top-level functions of `program`, as `collect_functions`
/// states it.
spec fn functions_collected(a: Analyzer, b: Analyzer, program: Program) -> bool {
    let n = a.model.symbols@.len();
    let d = a.model.diagnostics@.len();
    let (scope, defined, dups) = collected(scope_view(a.scopes@[0]@), n, program.statements@);
    &&& grows(a, b)
    &&& b.scopes@.len() == 1
    &&& b.current_return == a.current_return
    &&& b.inside_function == a.inside_function
    &&& b.model.expr_types@ == a.model.expr_types@
    &&& scope_view(b.scopes@[0]@) == scope
    &&& b.model.symbols@.len() == n + defined.len()
    &&& b.model.diagnostics@.len() == d + dups.len()
    &&& forall|k: int| 0 <= k < dups.len() ==> {
        let e = #[trigger] b.model.diagnostics@[d + k];
        &&& e.message@ == "'"@ + dups[k].name@ + "' is already defined"@
        &&& e.span == dups[k].name_span
    }
}

/// One top-level statement: checked when reachable, else only reported.
spec fn top_checked(a: Analyzer, b: Analyzer, stmt: Stmt, skipped: bool) -> bool {
    if skipped {
        &&& only_reported(a, b, stmt.span, "unreachable statement"@)
        &&& b.current_return == a.current_return
        &&& b.inside_function == a.inside_function
    } else {
        stmt_checked(a, b, stmt, true)
    }
}

/// Statement `k` of `ss` taken from state `trace[k]` to `trace[k + 1]`.
spec fn step_at(trace: Seq<Analyzer>, ss: Seq<Stmt>, k: int) -> bool {
    top_checked(trace[k], trace[k + 1], ss[k], first_terminating(ss.take(k)) < k)
}

/// A run of analyzer states over `program` from `start`: the functions
/// declared first, then each top-level statement in order, those after
/// the first terminating statement reported as unreachable.
spec fn run_of(start: Analyzer, program: Program, trace: Seq<Analyzer>) -> bool {
    let ss = program.statements@;
    &&& trace.len() == ss.len() + 1
    &&& functions_collected(start, trace[0], program)
    &&& forall|k: int| 0 <= k < ss.len() ==> #[trigger] step_at(trace, ss, k)
}

/// `model` is what analyzing `program` gives: some run from the fresh
/// analyzer ends with it, each statement checked as `check_stmt` states.
pub closed spec fn analysis_runs(program: Program, model: SemanticModel) -> bool {
    exists|start: Analyzer, trace: Seq<Analyzer>|
        fresh(start) && run_of(start, program, trace) && trace.last().model == model
}

/// A step whose only effect is one diagnostic with this message and span.
spec fn only_reported(a: Analyzer, b: Analyzer, span: Span, message: Seq<char>) -> bool {
    &&& b.scopes@ == a.scopes@
    &&& b.model.symbols@ == a.model.symbols@
    &&& b.model.expr_types@ == a.model.expr_types@
    &&& b.model.references@ == a.model.references@
    &&& b.model.diagnostics@.len() == a.model.diagnostics@.len() + 1
    &&& b.model.diagnostics@.drop_last() == a.model.diagnostics@
    &&& b.model.diagnostics@.last().message@ == message
    &&& b.model.diagnostics@.last().span == span
}

/// The type a written type stands for, taken by value.
pub open spec fn type_expr_view(t: TypeExpr) -> TyView {
    match t {
        TypeExpr::Int => TyView::Int,
        TypeExpr::Float => TyView::Float,
        TypeExpr::Bool => TyView::Bool,
        TypeExpr::String => TyView::String,
        TypeExpr::Tensor => TyView::Tensor,
        TypeExpr::Void => TyView::Void,
        TypeExpr::Record(name) => TyView::Record(name@),
    }
}

/// The type of a declared function: its parameter types and return type.
pub open spec fn declaration_view(d: FunctionDecl) -> TyView {
    TyView::Function(
        Seq::new(d.params@.len(), |k: int| type_expr_view(d.params@[k].ty)),
        Box::new(type_expr_view(d.return_type)),
    )
}

/// Declaring the top-level functions of `ss` in order into a global scope
/// that holds `scope` while `n` symbols exist: the scope afterwards, the
/// declarations that got a symbol, and those whose name was bound already.
pub open spec fn collected(scope: Seq<(Seq<char>, usize)>, n: nat, ss: Seq<Stmt>) -> (
    Seq<(Seq<char>, usize)>,
    Seq<FunctionDecl>,
    Seq<FunctionDecl>,
)
    decreases ss.len(),
{
    if ss.len() == 0 {
        (scope, Seq::empty(), Seq::empty())
    } else {
        let (sc, defined, dups) = collected(scope, n, ss.drop_last());
        match ss.last().kind {
            StmtKind::Function(d) => if scope_find(sc, d.name@) is Some {
                (sc, defined, dups.push(d))
            } else {
                (sc.push((d.name@, (n + defined.len()) as usize)), defined.push(d), dups)
            },
            _ => (sc, defined, dups),
        }
    }
}

/// The type a written type stands for; it is never the error type.
fn declared_ty(t: &TypeExpr) -> (r: Ty)
    ensures
        ty_view(r) == type_expr_view(*t),
        ty_text(r) == type_expr_text(*t),
        !(r is Error),
        !(r is Function),
        error_free(ty_view(r)),
{
    ty_from_type_expr(copy_type_expr(t))
}

/// `name: Type`, as hovers show a binding.
fn binding_detail(name: &str, ty: &Ty) -> (s: String)
    ensures
        s@ == name@ + ": "@ + ty_text(*ty),
{
    let mut detail = owned(name);
    push_str(&mut detail, ": ");
    let shown = display_ty(ty);
    push_str(&mut detail, shown.as_str());
    proof {
        assert(detail@ =~= name@ + ": "@ + ty_text(*ty));
    }
    detail
}

/// `fn name(a: Int, b: Int) -> Int`.
fn format_function_signature(function: &FunctionDecl) -> (s: String)
    ensures
        s@ == signature_text(*function),
{
    let mut signature = owned("fn ");
    push_str(&mut signature, function.name.as_str());
    push_str(&mut signature, "(");
    let ghost head = "fn "@ + function.name@ + "("@;
    let mut i: usize = 0;
    proof {
        assert(signature@ =~= head + params_signature(function.params@.take(0)));
    }
    while i < function.params.len()
        invariant
            i <= function.params@.len(),
            signature@ == head + params_signature(function.params@.take(i as int)),
        decreases function.params@.len() - i,
    {
        let ghost before = signature@;
        if i > 0 {
            push_str(&mut signature, ", ");
        }
        let ty = declared_ty(&function.params[i].ty);
        let part = binding_detail(function.params[i].name.as_str(), &ty);
        push_str(&mut signature, part.as_str());
        proof {
            let ps = function.params@.take(i + 1);
            assert(ps.drop_last() =~= function.params@.take(i as int));
            assert(ps.last() == function.params@[i as int]);
            if i == 0 {
                assert(signature@ =~= head + params_signature(ps));
            } else {
                assert(signature@ =~= head + params_signature(ps));
            }
        }
        i = i + 1;
    }
    push_str(&mut signature, ") -> ");
    let ret = declared_ty(&function.return_type);
    let shown = display_ty(&ret);
    push_str(&mut signature, shown.as_str());
    proof {
        assert(function.params@.take(i as int) =~= function.params@);
        assert(signature@ =~= signature_text(*function));
    }
    signature
}

/// Once some prefix of the statements returns, all of them do.
proof fn lemma_stmts_return_extend(ss: Seq<Stmt>, k: int)
    requires
        0 <= k <= ss.len(),
        stmts_return(ss.take(k)),
    ensures
        stmts_return(ss),
    decreases ss.len() - k,
{
    if k == ss.len() {
        assert(ss.take(k) =~= ss);
    } else {
        assert(ss.take(k + 1).drop_last() =~= ss.take(k));
        lemma_stmts_return_extend(ss, k + 1);
    }
}

/// Each statement of a surface statement list is a surface statement.
proof fn lemma_surface_stmt_at(ss: Seq<Stmt>, top: bool, i: int)
    requires
        surface_stmts(ss, top),
        0 <= i < ss.len(),
    ensures
        surface_stmt(ss[i], top),
    decreases ss.len(),
{
    if i < ss.len() - 1 {
        lemma_surface_stmt_at(ss.drop_last(), top, i);
    }
}

impl Analyzer {
    fn stmt_guarantees_return(&self, stmt: &Stmt) -> (b: bool)
        ensures
            b == stmt_returns(*stmt),
        decreases stmt,
    {
        match &stmt.kind {
            StmtKind::Return(_) => true,
            StmtKind::If { then_branch, else_branch, .. } => match else_branch {
                Some(else_block) => {
                    proof {
                        assert(decreases_to!(*stmt => stmt.kind));
                    }
                    self.block_guarantees_return(then_branch) && self.block_guarantees_return(else_block)
                },
                None => false,
            },
            _ => false,
        }
    }

    fn stmt_terminates(&self, stmt: &Stmt) -> (b: bool)
        ensures
            b == stmt_terminates(*stmt),
    {
        let endless = match &stmt.kind {
            StmtKind::While { condition, .. } => match condition.kind {
                ExprKind::Bool(value) => value,
                _ => false,
            },
            _ => false,
        };
        endless || self.stmt_guarantees_return(stmt)
    }

    fn block_guarantees_return(&self, block: &Block) -> (b: bool)
        ensures
            b == block_returns(*block),
        decreases block,
    {
        let mut i: usize = 0;
        proof {
            assert(block.statements@.take(0) =~= Seq::<Stmt>::empty());
        }
        while i < block.statements.len()
            invariant
                i <= block.statements@.len(),
                !stmts_return(block.statements@.take(i as int)),
            decreases block.statements@.len() - i,
        {
            proof {
                assert(decreases_to!(*block => block.statements));
                assert(decreases_to!(block.statements => block.statements@));
                assert(decreases_to!(block.statements@ => block.statements@[i as int]));
                assert(block.statements@.take(i + 1).drop_last() =~= block.statements@.take(i as int));
            }
            if self.stmt_guarantees_return(&block.statements[i]) {
                proof {
                    lemma_stmts_return_extend(block.statements@, i + 1);
                }
                return true;
            }
            i = i + 1;
        }
        proof {
            assert(block.statements@.take(i as int) =~= block.statements@);
        }
        false
    }

    fn check_stmt(&mut self, stmt: &Stmt, top_level: bool)
        requires
            consistent(*old(self)),
            surface_stmt(*stmt, top_level),
        ensures
            grows(*old(self), *final(self)),
            final(self).scopes@.len() == old(self).scopes@.len(),
            final(self).scopes@.drop_last() == old(self).scopes@.drop_last(),
            final(self).current_return == old(self).current_return,
            final(self).inside_function == old(self).inside_function,
            match stmt.kind {
                StmtKind::Let { name, name_span, mutable, ty, initializer } => {
                    let inner = old(self).scopes@.len() - 1;
                    let n = old(self).model.symbols@.len();
                    let bound = scope_find(scope_view(old(self).scopes@[inner]@), name@) is Some;
                    let found = expr_type(env(*old(self)), old(self).model.symbols@, initializer);
                    &&& final(self).model.expr_types@.len() > 0
                    &&& final(self).model.expr_types@.last().0 == initializer.id
                    &&& ty_view(final(self).model.expr_types@.last().1) == found
                    &&& (final(self).model.diagnostics@.len() > old(self).model.diagnostics@.len()) == (
                    expr_complains(env(*old(self)), old(self).model.symbols@, initializer) || bound
                        || match ty {
                        Some(t) => !compatible(type_expr_view(t), found),
                        None => false,
                    })
                    &&& if bound {
                        &&& final(self).model.symbols@ == old(self).model.symbols@
                        &&& final(self).scopes@ == old(self).scopes@
                    } else {
                        let sym = final(self).model.symbols@[n as int];
                        &&& final(self).model.symbols@.len() == n + 1
                        &&& final(self).model.symbols@.drop_last() == old(self).model.symbols@
                        &&& sym.id == n
                        &&& sym.name@ == name@
                        &&& sym.span == name_span
                        &&& sym.mutable == mutable
                        &&& sym.kind == (if old(self).scopes@.len() == 1 {
                            SymbolKind::Global
                        } else {
                            SymbolKind::Local
                        })
                        &&& ty_view(sym.ty) == match ty {
                            Some(t) => type_expr_view(t),
                            None => expr_type(env(*old(self)), old(self).model.symbols@, initializer),
                        }
                        &&& sym.detail@ == name@ + ": "@ + ty_text(sym.ty)
                        &&& final(self).scopes@.drop_last() == old(self).scopes@.drop_last()
                        &&& scope_view(final(self).scopes@[inner]@) == scope_view(old(self).scopes@[inner]@).push(
                            (name@, n as usize),
                        )
                    }
                },
                StmtKind::Return(value) => if !old(self).inside_function {
                    only_reported(*old(self), *final(self), stmt.span, "return can only appear inside a function"@)
                } else {
                    let expected = match old(self).current_return {
                        Some(t) => ty_view(t),
                        None => TyView::Void,
                    };
                    &&& expr_step(*old(self), *final(self))
                    &&& (final(self).model.diagnostics@.len() > old(self).model.diagnostics@.len()) == match value {
                        Some(e) => expr_complains(env(*old(self)), old(self).model.symbols@, e) || !compatible(
                            expected,
                            expr_type(env(*old(self)), old(self).model.symbols@, e),
                        ),
                        None => !compatible(expected, TyView::Void),
                    }
                },
                StmtKind::Assign { name, value, .. } => {
                    &&& final(self).scopes@ == old(self).scopes@
                    &&& final(self).model.symbols@ == old(self).model.symbols@
                    &&& (final(self).model.diagnostics@.len() > old(self).model.diagnostics@.len()) == (
                    expr_complains(env(*old(self)), old(self).model.symbols@, value) || match scopes_find(
                        env(*old(self)),
                        name@,
                    ) {
                        None => true,
                        Some(id) => {
                            let target = old(self).model.symbols@[id as int];
                            ||| target.kind is Function
                            ||| target.kind is Builtin
                            ||| !target.mutable
                            ||| !compatible(
                                ty_view(target.ty),
                                expr_type(env(*old(self)), old(self).model.symbols@, value),
                            )
                        },
                    })
                },
                StmtKind::Expr(e) => {
                    &&& expr_step(*old(self), *final(self))
                    &&& final(self).model.expr_types@.len() > 0
                    &&& final(self).model.expr_types@.last().0 == e.id
                    &&& ty_view(final(self).model.expr_types@.last().1) == expr_type(
                        env(*old(self)),
                        old(self).model.symbols@,
                        e,
                    )
                    &&& (final(self).model.diagnostics@.len() > old(self).model.diagnostics@.len())
                        == expr_complains(env(*old(self)), old(self).model.symbols@, e)
                },
                StmtKind::While { condition, .. } => {
                    let t = expr_type(env(*old(self)), old(self).model.symbols@, condition);
                    (expr_complains(env(*old(self)), old(self).model.symbols@, condition) || !(t is Bool
                        || t is Error)) ==> final(self).model.diagnostics@.len() > old(self).model.diagnostics@.len()
                },
                StmtKind::If { condition, .. } => {
                    let t = expr_type(env(*old(self)), old(self).model.symbols@, condition);
                    (expr_complains(env(*old(self)), old(self).model.symbols@, condition) || !(t is Bool
                        || t is Error)) ==> final(self).model.diagnostics@.len() > old(self).model.diagnostics@.len()
                },
                _ => true,
            },
        decreases stmt,
    {
        match &stmt.kind {
            StmtKind::Let { name, name_span, mutable, ty, initializer } => {
                let initializer_ty = self.check_expr(initializer);
                let final_ty = match ty {
                    Some(t) => {
                        let expected = declared_ty(t);
                        if !ty_compatible(&expected, &initializer_ty) {
                            let mut message = owned("expected initializer of type ");
                            let shown_expected = display_ty(&expected);
                            push_str(&mut message, shown_expected.as_str());
                            push_str(&mut message, ", got ");
                            let shown_actual = display_ty(&initializer_ty);
                            push_str(&mut message, shown_actual.as_str());
                            self.error(initializer.span, message);
                        }
                        expected
                    },
                    None => initializer_ty,
                };
                let kind = if self.scopes.len() == 1 {
                    SymbolKind::Global
                } else {
                    SymbolKind::Local
                };
                let detail = binding_detail(name.as_str(), &final_ty);
                self.define_symbol(name.clone(), kind, *name_span, detail, final_ty, *mutable);
            },
            StmtKind::Function(function) => {
                if !top_level {
                    self.error(stmt.span, owned("nested functions are not supported"));
                    return;
                }
                proof {
                    assert(decreases_to!(*stmt => stmt.kind));
                }
                self.check_function(function);
            },
            StmtKind::Return(value) => {
                if !self.inside_function {
                    self.error(stmt.span, owned("return can only appear inside a function"));
                    return;
                }
                let actual = match value {
                    Some(e) => self.check_expr(e),
                    None => Ty::Void,
                };
                let expected = match &self.current_return {
                    Some(t) => clone_ty(t),
                    None => Ty::Void,
                };
                if !ty_compatible(&expected, &actual) {
                    let mut message = owned("return type mismatch: expected ");
                    let shown_expected = display_ty(&expected);
                    push_str(&mut message, shown_expected.as_str());
                    push_str(&mut message, ", got ");
                    let shown_actual = display_ty(&actual);
                    push_str(&mut message, shown_actual.as_str());
                    self.error(stmt.span, message);
                }
            },
            StmtKind::While { condition, body } => {
                let condition_ty = self.check_expr(condition);
                if !matches!(condition_ty, Ty::Bool | Ty::Error) {
                    self.error(condition.span, owned("while condition must be Bool"));
                }
                proof {
                    assert(decreases_to!(*stmt => stmt.kind));
                }
                self.check_block(body);
            },
            StmtKind::If { condition, then_branch, else_branch } => {
                let condition_ty = self.check_expr(condition);
                if !matches!(condition_ty, Ty::Bool | Ty::Error) {
                    self.error(condition.span, owned("if condition must be Bool"));
                }
                proof {
                    assert(decreases_to!(*stmt => stmt.kind));
                }
                self.check_block(then_branch);
                match else_branch {
                    Some(block) => self.check_block(block),
                    None => {},
                }
            },
            StmtKind::Assign { name, name_span, value } => {
                let value_ty = self.check_expr(value);
                match self.lookup_symbol(name.as_str()) {
                    Some(symbol_id) => {
                        self.model.references.push(Reference { span: *name_span, target: symbol_id });
                        let mutable = self.model.symbols[symbol_id].mutable;
                        let kind = self.model.symbols[symbol_id].kind;
                        let symbol_ty = clone_ty(&self.model.symbols[symbol_id].ty);
                        if matches!(kind, SymbolKind::Function | SymbolKind::Builtin(_)) {
                            let mut message = owned("cannot assign to '");
                            push_str(&mut message, name.as_str());
                            push_str(&mut message, "'");
                            self.error(*name_span, message);
                        } else {
                            if !mutable {
                                let mut message = owned("'");
                                push_str(&mut message, name.as_str());
                                push_str(&mut message, "' is not mutable");
                                self.error(*name_span, message);
                            }
                            if !ty_compatible(&symbol_ty, &value_ty) {
                            let mut message = owned("cannot assign ");
                            let shown_value = display_ty(&value_ty);
                            push_str(&mut message, shown_value.as_str());
                            push_str(&mut message, " to ");
                            push_str(&mut message, name.as_str());
                            push_str(&mut message, " of type ");
                            let shown_symbol = display_ty(&symbol_ty);
                                push_str(&mut message, shown_symbol.as_str());
                                self.error(*name_span, message);
                            }
                        }
                    },
                    None => {
                        let mut message = owned("unknown variable '");
                        push_str(&mut message, name.as_str());
                        push_str(&mut message, "'");
                        self.error(*name_span, message);
                    },
                }
            },
            StmtKind::Expr(e) => {
                let _ = self.check_expr(e);
            },
            StmtKind::Record(_) => {},
        }
    }

    fn check_function(&mut self, function: &FunctionDecl)
        requires
            consistent(*old(self)),
            surface_block(function.body),
        ensures
            grows(*old(self), *final(self)),
            final(self).scopes@ == old(self).scopes@,
            final(self).current_return == old(self).current_return,
            final(self).inside_function == old(self).inside_function,
            ({
                let n = old(self).model.symbols@.len();
                let fresh = fresh_params(function.params@);
                &&& final(self).model.symbols@.len() >= n + fresh.len()
                &&& forall|k: int| 0 <= k < fresh.len() ==> parameter_symbol(
                    #[trigger] final(self).model.symbols@[n + k],
                    fresh[k],
                    (n + k) as nat,
                )
            }),
            !(function.return_type is Void) && !block_returns(function.body) ==> {
                &&& final(self).model.diagnostics@.len() > old(self).model.diagnostics@.len()
                &&& final(self).model.diagnostics@.last().message@ == "function '"@ + function.name@
                    + "' may fall through without returning "@ + type_expr_text(function.return_type)
                &&& final(self).model.diagnostics@.last().span == function.name_span
            },
        decreases function,
    {
        let previous_return = self.current_return.take();
        let previous_inside_function = self.inside_function;
        self.current_return = Some(declared_ty(&function.return_type));
        self.inside_function = true;
        self.enter_scope();
        let ghost entered = *self;
        let mut i: usize = 0;
        while i < function.params.len()
            invariant
                i <= function.params@.len(),
                grows(entered, *self),
                self.scopes@.len() == entered.scopes@.len(),
                self.scopes@.drop_last() == old(self).scopes@,
                self.current_return == entered.current_return,
                self.inside_function == entered.inside_function,
                entered.model.symbols@ == old(self).model.symbols@,
                ({
                    let n = old(self).model.symbols@.len();
                    let fresh = fresh_params(function.params@.take(i as int));
                    &&& scope_view(self.scopes@.last()@) == Seq::new(
                        fresh.len(),
                        |k: int| (fresh[k].name@, (n + k) as usize),
                    )
                    &&& self.model.symbols@.len() == n + fresh.len()
                    &&& forall|k: int| 0 <= k < fresh.len() ==> parameter_symbol(
                        #[trigger] self.model.symbols@[n + k],
                        fresh[k],
                        (n + k) as nat,
                    )
                }),
            decreases function.params@.len() - i,
        {
            let ghost before = *self;
            proof {
                assert(function.params@.take(i + 1).drop_last() =~= function.params@.take(i as int));
                let fresh = fresh_params(function.params@.take(i as int));
                let n = old(self).model.symbols@.len();
                let sc = scope_view(self.scopes@.last()@);
                lemma_scope_find_some(sc, function.params@[i as int].name@);
                if exists|k: int| 0 <= k < fresh.len() && (#[trigger] fresh[k]).name@ == function.params@[i as int].name@ {
                    let k = choose|k: int| 0 <= k < fresh.len() && (#[trigger] fresh[k]).name@ == function.params@[i as int].name@;
                    assert(sc[k].0 == function.params@[i as int].name@);
                }
                if exists|j: int| 0 <= j < sc.len() && (#[trigger] sc[j]).0 == function.params@[i as int].name@ {
                    let j = choose|j: int| 0 <= j < sc.len() && (#[trigger] sc[j]).0 == function.params@[i as int].name@;
                    assert(fresh[j].name@ == function.params@[i as int].name@);
                }
            }
            let ty = declared_ty(&function.params[i].ty);
            let detail = binding_detail(function.params[i].name.as_str(), &ty);
            self.define_symbol(
                function.params[i].name.clone(),
                SymbolKind::Parameter,
                function.params[i].span,
                detail,
                ty,
                false,
            );
            proof {
                let fresh = fresh_params(function.params@.take(i as int));
                let fresh2 = fresh_params(function.params@.take(i + 1));
                let n = old(self).model.symbols@.len();
                assert(function.params@.take(i + 1).last() == function.params@[i as int]);
                assert(scope_view(self.scopes@.last()@) =~= Seq::new(
                    fresh2.len(),
                    |k: int| (fresh2[k].name@, (n + k) as usize),
                ));
                assert forall|k: int| 0 <= k < fresh2.len() implies parameter_symbol(
                    #[trigger] self.model.symbols@[n + k],
                    fresh2[k],
                    (n + k) as nat,
                ) by {
                    if k < fresh.len() {
                        assert(self.model.symbols@[n + k] == before.model.symbols@[n + k]);
                    }
                }
            }
            i = i + 1;
        }
        proof {
            assert(function.params@.take(i as int) =~= function.params@);
            assert(decreases_to!(*function => function.body));
        }
        let ghost after_params = *self;
        self.check_block(&function.body);
        let expected_return = match &self.current_return {
            Some(t) => clone_ty(t),
            None => Ty::Void,
        };
        if !matches!(expected_return, Ty::Void) && !self.block_guarantees_return(&function.body) {
            let mut message = owned("function '");
            push_str(&mut message, function.name.as_str());
            push_str(&mut message, "' may fall through without returning ");
            let shown = display_ty(&expected_return);
            push_str(&mut message, shown.as_str());
            proof {
                assert(message@ =~= "function '"@ + function.name@ + "' may fall through without returning "@
                    + type_expr_text(function.return_type));
            }
            self.error(function.name_span, message);
        }
        self.exit_scope();
        self.current_return = previous_return;
        self.inside_function = previous_inside_function;
        proof {
            let n = old(self).model.symbols@.len();
            let fresh = fresh_params(function.params@);
            assert forall|k: int| 0 <= k < fresh.len() implies parameter_symbol(
                #[trigger] self.model.symbols@[n + k],
                fresh[k],
                (n + k) as nat,
            ) by {
                assert(self.model.symbols@[n + k] == after_params.model.symbols@[n + k]);
            }
        }
    }

    fn check_block(&mut self, block: &Block)
        requires
            consistent(*old(self)),
            surface_block(*block),
        ensures
            grows(*old(self), *final(self)),
            final(self).scopes@ == old(self).scopes@,
            final(self).current_return == old(self).current_return,
            final(self).inside_function == old(self).inside_function,
            unreachable_reported(block.statements@, final(self).model.diagnostics@),
        decreases block,
    {
        self.enter_scope();
        let ghost entered = *self;
        let mut reached_terminal = false;
        let ghost mut mark: int = 0;
        let mut i: usize = 0;
        while i < block.statements.len()
            invariant
                i <= block.statements@.len(),
                surface_stmts(block.statements@, false),
                grows(*old(self), entered),
                grows(entered, *self),
                entered.scopes@.len() == old(self).scopes@.len() + 1,
                self.scopes@.len() == entered.scopes@.len(),
                self.scopes@.drop_last() == old(self).scopes@,
                self.current_return == old(self).current_return,
                self.inside_function == old(self).inside_function,
                ({
                    let ss = block.statements@;
                    let f = first_terminating(ss.take(i as int));
                    &&& 0 <= f <= i
                    &&& reached_terminal == (f < i)
                    &&& reached_terminal ==> {
                        &&& self.model.diagnostics@.len() == mark + (i - 1 - f)
                        &&& mark >= 0
                        &&& forall|k: int| 0 <= k < i - 1 - f ==> {
                            &&& (#[trigger] self.model.diagnostics@[mark + k]).message@ == "unreachable statement"@
                            &&& self.model.diagnostics@[mark + k].span == ss[f + 1 + k].span
                        }
                    }
                }),
            decreases block.statements@.len() - i,
        {
            let ghost before = *self;
            proof {
                assert(block.statements@.take(i + 1).drop_last() =~= block.statements@.take(i as int));
            }
            if reached_terminal {
                self.error(block.statements[i].span, owned("unreachable statement"));
                proof {
                    let ss = block.statements@;
                    let f = first_terminating(ss.take(i as int));
                    assert forall|k: int| 0 <= k < i - f implies {
                        &&& (#[trigger] self.model.diagnostics@[mark + k]).message@ == "unreachable statement"@
                        &&& self.model.diagnostics@[mark + k].span == ss[f + 1 + k].span
                    } by {
                        if k < i - 1 - f {
                            assert(self.model.diagnostics@[mark + k] == before.model.diagnostics@[mark + k]);
                        }
                    }
                }
            } else {
                proof {
                    assert(decreases_to!(*block => block.statements));
                    assert(decreases_to!(block.statements => block.statements@));
                    assert(decreases_to!(block.statements@ => block.statements@[i as int]));
                    lemma_surface_stmt_at(block.statements@, false, i as int);
                }
                self.check_stmt(&block.statements[i], false);
                if self.stmt_terminates(&block.statements[i]) {
                    reached_terminal = true;
                    proof {
                        mark = self.model.diagnostics@.len() as int;
                    }
                }
            }
            i = i + 1;
        }
        proof {
            assert(block.statements@.take(i as int) =~= block.statements@);
        }
        self.exit_scope();
    }
}

/// Each statement of a surface program may stand at the top level.
proof fn lemma_surface_top(ss: Seq<Stmt>, i: int)
    requires
        surface_stmts(ss, true),
        0 <= i < ss.len(),
    ensures
        surface_stmt(ss[i], true),
{
    lemma_surface_stmt_at(ss, true, i);
}

impl Analyzer {
    /// An analyzer whose global scope holds the built-ins.
    fn new() -> (a: Analyzer)
        ensures
            consistent(a),
            model_clean(a.model),
            a.scopes@.len() == 1,
            a.model.diagnostics@.len() == 0,
            a.inside_function == false,
            a.current_return is None,
            a.model.symbols@.len() == 2,
            a.model.symbols@[0].kind == SymbolKind::Builtin(BuiltinKind::Print),
            a.model.symbols@[1].kind == SymbolKind::Builtin(BuiltinKind::Assert),
            scope_view(a.scopes@[0]@) == seq![("print"@, 0usize), ("assert"@, 1usize)],
            a.model.expr_types@.len() == 0,
    {
        let mut globals: Vec<(String, usize)> = Vec::new();
        let mut symbols: Vec<Symbol> = Vec::new();
        let all = builtins();
        let mut i: usize = 0;
        while i < all.len()
            invariant
                i <= all@.len(),
                all@.len() == 2,
                all@[0].kind == BuiltinKind::Print,
                all@[1].kind == BuiltinKind::Assert,
                all@[0].name@ == "print"@,
                all@[1].name@ == "assert"@,
                symbols@.len() == i,
                globals@.len() == i,
                forall|k: int| 0 <= k < i ==> (#[trigger] globals@[k]).0@ == all@[k].name@ && globals@[k].1 == k,
                forall|k: int| 0 <= k < i ==> (#[trigger] symbols@[k]).id == k && symbols@[k].kind
                    == SymbolKind::Builtin(all@[k].kind) && symbols@[k].ty == Ty::Builtin(all@[k].kind),
                forall|k: int| 0 <= k < globals@.len() ==> (#[trigger] globals@[k]).1 < symbols@.len(),
            decreases all@.len() - i,
        {
            let builtin = all[i];
            let symbol_id = symbols.len();
            globals.push((owned(builtin.name), symbol_id));
            symbols.push(
                Symbol {
                    id: symbol_id,
                    name: owned(builtin.name),
                    kind: SymbolKind::Builtin(builtin.kind),
                    span: Span::default(),
                    detail: owned(builtin.detail),
                    ty: Ty::Builtin(builtin.kind),
                    mutable: false,
                },
            );
            i = i + 1;
        }
        proof {
            assert(scope_view(globals@) =~= seq![("print"@, 0usize), ("assert"@, 1usize)]);
        }
        let mut scopes: Vec<Vec<(String, usize)>> = Vec::new();
        scopes.push(globals);
        let a = Analyzer {
            model: SemanticModel {
                diagnostics: Vec::new(),
                expr_types: Vec::new(),
                symbols,
                references: Vec::new(),
            },
            scopes,
            current_return: None,
            inside_function: false,
        };
        proof {
            assert forall|x: int, y: int| 0 <= x < a.scopes@.len() && 0 <= y < a.scopes@[x]@.len() implies (
            #[trigger] a.scopes@[x]@[y]).1 < a.model.symbols@.len() by {
                assert(x == 0);
            }
        }
        a
    }

    /// Declares every top-level function before any statement is checked,
    /// so that calls may come before declarations.
    fn collect_functions(&mut self, program: &Program)
        requires
            consistent(*old(self)),
            old(self).scopes@.len() == 1,
        ensures
            grows(*old(self), *final(self)),
            final(self).scopes@.len() == 1,
            final(self).current_return == old(self).current_return,
            final(self).inside_function == old(self).inside_function,
            final(self).model.expr_types@ == old(self).model.expr_types@,
            ({
                let n = old(self).model.symbols@.len();
                let d = old(self).model.diagnostics@.len();
                let (scope, defined, dups) = collected(
                    scope_view(old(self).scopes@[0]@),
                    n,
                    program.statements@,
                );
                &&& scope_view(final(self).scopes@[0]@) == scope
                &&& final(self).model.symbols@.len() == n + defined.len()
                &&& forall|k: int| 0 <= k < defined.len() ==> {
                    let sym = #[trigger] final(self).model.symbols@[n + k];
                    &&& sym.id == n + k
                    &&& sym.name@ == defined[k].name@
                    &&& sym.kind == SymbolKind::Function
                    &&& sym.span == defined[k].name_span
                    &&& sym.detail@ == signature_text(defined[k])
                    &&& ty_view(sym.ty) == declaration_view(defined[k])
                    &&& !sym.mutable
                }
                &&& final(self).model.diagnostics@.len() == d + dups.len()
                &&& forall|k: int| 0 <= k < dups.len() ==> {
                    let e = #[trigger] final(self).model.diagnostics@[d + k];
                    &&& e.message@ == "'"@ + dups[k].name@ + "' is already defined"@
                    &&& e.span == dups[k].name_span
                }
            }),
    {
        let ghost n0 = self.model.symbols@.len();
        let ghost d0 = self.model.diagnostics@.len();
        let ghost scope0 = scope_view(self.scopes@[0]@);
        let mut i: usize = 0;
        proof {
            assert(program.statements@.take(0) =~= Seq::<Stmt>::empty());
        }
        while i < program.statements.len()
            invariant
                i <= program.statements@.len(),
                grows(*old(self), *self),
                self.scopes@.len() == 1,
                self.current_return == old(self).current_return,
                self.inside_function == old(self).inside_function,
                self.model.expr_types@ == old(self).model.expr_types@,
                n0 == old(self).model.symbols@.len(),
                d0 == old(self).model.diagnostics@.len(),
                scope0 == scope_view(old(self).scopes@[0]@),
                ({
                    let (scope, defined, dups) = collected(scope0, n0, program.statements@.take(i as int));
                    &&& scope_view(self.scopes@[0]@) == scope
                    &&& self.model.symbols@.len() == n0 + defined.len()
                    &&& forall|k: int| 0 <= k < defined.len() ==> {
                        let sym = #[trigger] self.model.symbols@[n0 + k];
                        &&& sym.id == n0 + k
                        &&& sym.name@ == defined[k].name@
                        &&& sym.kind == SymbolKind::Function
                        &&& sym.span == defined[k].name_span
                        &&& sym.detail@ == signature_text(defined[k])
                        &&& ty_view(sym.ty) == declaration_view(defined[k])
                        &&& !sym.mutable
                    }
                    &&& self.model.diagnostics@.len() == d0 + dups.len()
                    &&& forall|k: int| 0 <= k < dups.len() ==> {
                        let e = #[trigger] self.model.diagnostics@[d0 + k];
                        &&& e.message@ == "'"@ + dups[k].name@ + "' is already defined"@
                        &&& e.span == dups[k].name_span
                    }
                }),
            decreases program.statements@.len() - i,
        {
            let ghost before = *self;
            proof {
                assert(program.statements@.take(i + 1).drop_last() =~= program.statements@.take(i as int));
            }
            match &program.statements[i].kind {
                StmtKind::Function(function) => {
                    let mut params: Vec<Ty> = Vec::new();
                    let mut j: usize = 0;
                    while j < function.params.len()
                        invariant
                            j <= function.params@.len(),
                            params@.len() == j,
                            forall|k: int| 0 <= k < j ==> !(#[trigger] params@[k] is Error) && !(params@[k] is Function),
                            forall|k: int| 0 <= k < j ==> ty_view(#[trigger] params@[k]) == type_expr_view(function.params@[k].ty),
                        decreases function.params@.len() - j,
                    {
                        params.push(declared_ty(&function.params[j].ty));
                        j = j + 1;
                    }
                    let ret = declared_ty(&function.return_type);
                    let ghost param_views = tys_view(params@);
                    let ty = Ty::Function(params, Box::new(ret));
                    proof {
                        lemma_tys_view_len(params@);
                        assert forall|k: int| 0 <= k < tys_view(params@).len() implies error_free(
                            #[trigger] tys_view(params@)[k],
                        ) by {
                            lemma_tys_view_index(params@, k);
                        }
                        assert(param_views =~= Seq::new(
                            function.params@.len(),
                            |k: int| type_expr_view(function.params@[k].ty),
                        )) by {
                            assert forall|k: int| 0 <= k < param_views.len() implies param_views[k]
                                == type_expr_view(function.params@[k].ty) by {
                                lemma_tys_view_index(params@, k);
                            }
                        }
                        assert(ty_view(ty) == declaration_view(*function));
                    }
                    let symbol = Symbol {
                        id: self.model.symbols.len(),
                        name: function.name.clone(),
                        kind: SymbolKind::Function,
                        span: function.name_span,
                        detail: format_function_signature(function),
                        ty,
                        mutable: false,
                    };
                    let ghost sym = symbol;
                    self.define_global(symbol);
                    proof {
                        let (sc, defined, dups) = collected(scope0, n0, program.statements@.take(i as int));
                        assert(sym.name@ == function.name@);
                        if scope_find(sc, function.name@) is Some {
                            assert forall|k: int| 0 <= k < dups.len() + 1 implies {
                                let e = #[trigger] self.model.diagnostics@[d0 + k];
                                &&& e.message@ == "'"@ + dups.push(*function)[k].name@ + "' is already defined"@
                                &&& e.span == dups.push(*function)[k].name_span
                            } by {
                                if k < dups.len() {
                                    assert(self.model.diagnostics@[d0 + k] == before.model.diagnostics@[d0 + k]);
                                }
                            }
                        } else {
                            assert forall|k: int| 0 <= k < defined.len() + 1 implies {
                                let sy = #[trigger] self.model.symbols@[n0 + k];
                                &&& sy.id == n0 + k
                                &&& sy.name@ == defined.push(*function)[k].name@
                                &&& sy.kind == SymbolKind::Function
                                &&& sy.span == defined.push(*function)[k].name_span
                                &&& sy.detail@ == signature_text(defined.push(*function)[k])
                                &&& ty_view(sy.ty) == declaration_view(defined.push(*function)[k])
                                &&& !sy.mutable
                            } by {
                                if k < defined.len() {
                                    assert(self.model.symbols@[n0 + k] == before.model.symbols@[n0 + k]);
                                } else {
                                    assert(self.model.symbols@[n0 + k] == sym);
                                }
                            }
                        }
                    }
                },
                _ => {},
            }
            i = i + 1;
        }
        proof {
            assert(program.statements@.take(i as int) =~= program.statements@);
        }
    }

    fn analyze(&mut self, program: &Program)
        requires
            consistent(*old(self)),
            old(self).scopes@.len() == 1,
            surface_program(*program),
        ensures
            grows(*old(self), *final(self)),
            final(self).scopes@.len() == 1,
            ({
                let n = old(self).model.symbols@.len();
                let defined = collected(scope_view(old(self).scopes@[0]@), n, program.statements@).1;
                &&& final(self).model.symbols@.len() >= n + defined.len()
                &&& forall|k: int| 0 <= k < defined.len() ==> {
                    let sym = #[trigger] final(self).model.symbols@[n + k];
                    &&& sym.id == n + k
                    &&& sym.name@ == defined[k].name@
                    &&& sym.kind == SymbolKind::Function
                    &&& sym.span == defined[k].name_span
                    &&& sym.detail@ == signature_text(defined[k])
                    &&& ty_view(sym.ty) == declaration_view(defined[k])
                    &&& !sym.mutable
                }
            }),
            unreachable_reported(program.statements@, final(self).model.diagnostics@),
            exists|trace: Seq<Analyzer>| run_of(*old(self), *program, trace) && trace.last() == *final(self),
    {
        self.collect_functions(program);
        let ghost collected_state = *self;
        assert(functions_collected(*old(self), collected_state, *program));
        let ghost mut trace: Seq<Analyzer> = seq![*self];
        let mut reached_terminal = false;
        let ghost mut mark: int = 0;
        let mut i: usize = 0;
        while i < program.statements.len()
            invariant
                i <= program.statements@.len(),
                surface_program(*program),
                grows(*old(self), *self),
                grows(collected_state, *self),
                self.scopes@.len() == 1,
                functions_collected(*old(self), collected_state, *program),
                trace.len() == i + 1,
                trace[0] == collected_state,
                trace.last() == *self,
                forall|k: int| 0 <= k < i ==> #[trigger] step_at(trace, program.statements@, k),
                ({
                    let ss = program.statements@;
                    let f = first_terminating(ss.take(i as int));
                    &&& 0 <= f <= i
                    &&& reached_terminal == (f < i)
                    &&& reached_terminal ==> {
                        &&& self.model.diagnostics@.len() == mark + (i - 1 - f)
                        &&& mark >= 0
                        &&& forall|k: int| 0 <= k < i - 1 - f ==> {
                            &&& (#[trigger] self.model.diagnostics@[mark + k]).message@ == "unreachable statement"@
                            &&& self.model.diagnostics@[mark + k].span == ss[f + 1 + k].span
                        }
                    }
                }),
            decreases program.statements@.len() - i,
        {
            let ghost before = *self;
            proof {
                assert(program.statements@.take(i + 1).drop_last() =~= program.statements@.take(i as int));
            }
            if reached_terminal {
                self.error(program.statements[i].span, owned("unreachable statement"));
                proof {
                    let ss = program.statements@;
                    let f = first_terminating(ss.take(i as int));
                    assert forall|k: int| 0 <= k < i - f implies {
                        &&& (#[trigger] self.model.diagnostics@[mark + k]).message@ == "unreachable statement"@
                        &&& self.model.diagnostics@[mark + k].span == ss[f + 1 + k].span
                    } by {
                        if k < i - 1 - f {
                            assert(self.model.diagnostics@[mark + k] == before.model.diagnostics@[mark + k]);
                        }
                    }
                }
            } else {
                proof {
                    lemma_surface_top(program.statements@, i as int);
                }
                self.check_stmt(&program.statements[i], true);
                if self.stmt_terminates(&program.statements[i]) {
                    reached_terminal = true;
                    proof {
                        mark = self.model.diagnostics@.len() as int;
                    }
                }
            }
            proof {
                assert(top_checked(
                    before,
                    *self,
                    program.statements@[i as int],
                    first_terminating(program.statements@.take(i as int)) < i,
                ));
                let old_trace = trace;
                trace = trace.push(*self);
                assert forall|k: int| 0 <= k < i + 1 implies #[trigger] step_at(trace, program.statements@, k) by {
                    if k < i {
                        assert(step_at(old_trace, program.statements@, k));
                        assert(trace[k] == old_trace[k]);
                        assert(trace[k + 1] == old_trace[k + 1]);
                    }
                }
            }
            i = i + 1;
        }
        proof {
            assert(run_of(*old(self), *program, trace));
        }
        proof {
            assert(program.statements@.take(i as int) =~= program.statements@);
            let n = old(self).model.symbols@.len();
            let defined = collected(scope_view(old(self).scopes@[0]@), n, program.statements@).1;
            assert forall|k: int| 0 <= k < defined.len() implies {
                let sym = #[trigger] self.model.symbols@[n + k];
                &&& sym.id == n + k
                &&& sym.name@ == defined[k].name@
                &&& sym.kind == SymbolKind::Function
                &&& sym.span == defined[k].name_span
                &&& sym.detail@ == signature_text(defined[k])
                &&& ty_view(sym.ty) == declaration_view(defined[k])
                &&& !sym.mutable
            } by {
                assert(self.model.symbols@[n + k] == collected_state.model.symbols@[n + k]);
            }
        }
    }
}

/// What the analysis of a program gives: a consistent model that starts
/// with the built-ins `print` and `assert`, then a symbol for each
/// top-level function declared under a name not taken before (in order,
/// with its name, span, signature and type), that reports each top-level
/// statement after the first terminating one as unreachable, and that,
/// when it has no diagnostics, types no expression and no symbol with the
/// error type; and that is the end of a statement-by-statement run of
/// the checker over the program.
pub open spec fn analyzed(program: Program, model: SemanticModel) -> bool {
    let defined = collected(seq![("print"@, 0usize), ("assert"@, 1usize)], 2, program.statements@).1;
    &&& model_consistent(model)
    &&& model_clean(model)
    &&& model.symbols@.len() >= 2 + defined.len()
    &&& model.symbols@[0].kind == SymbolKind::Builtin(BuiltinKind::Print)
    &&& model.symbols@[1].kind == SymbolKind::Builtin(BuiltinKind::Assert)
    &&& forall|k: int| 0 <= k < defined.len() ==> {
        let sym = #[trigger] model.symbols@[2 + k];
        &&& sym.id == 2 + k
        &&& sym.name@ == defined[k].name@
        &&& sym.kind == SymbolKind::Function
        &&& sym.span == defined[k].name_span
        &&& sym.detail@ == signature_text(defined[k])
        &&& ty_view(sym.ty) == declaration_view(defined[k])
        &&& !sym.mutable
    }
    &&& unreachable_reported(program.statements@, model.diagnostics@)
    &&& analysis_runs(program, model)
}

/// Analyzes a parsed program: binds names, types every expression and
/// collects diagnostics. The model is the end of a run that declares the
/// top-level functions and then checks each reachable top-level statement
/// (reporting the rest as unreachable), each step as `check_stmt` states:
/// a `let` records its initializer's type and binds a symbol, an
/// expression statement records its type, and a statement adds
/// diagnostics exactly when its expression or types are wrong.
pub fn analyze_program(program: &Program) -> (model: SemanticModel)
    requires
        surface_program(*program),
    ensures
        analyzed(*program, model),
{
    let mut analyzer = Analyzer::new();
    let ghost start = analyzer;
    analyzer.analyze(program);
    proof {
        assert(fresh(start));
        let trace = choose|t: Seq<Analyzer>| run_of(start, *program, t) && t.last() == analyzer;
        assert(trace.last().model == analyzer.model);
        assert(analysis_runs(*program, analyzer.model));
        assert(analyzer.model.symbols@[0] == start.model.symbols@[0]);
        assert(analyzer.model.symbols@[1] == start.model.symbols@[1]);
    }
    analyzer.model
}

/// The model of a program that analyzes without diagnostics, or its
/// diagnostics.
pub fn check_program(program: &Program) -> (r: Result<SemanticModel, Vec<MuninnError>>)
    requires
        surface_program(*program),
    ensures
        r matches Ok(model) ==> {
            &&& model.diagnostics@.len() == 0
            &&& analyzed(*program, model)
            &&& forall|i: int|
                0 <= i < model.expr_types@.len() ==> error_free(ty_view(#[trigger] model.expr_types@[i].1))
        },
        r matches Err(errors) ==> errors@.len() > 0 && exists|model: SemanticModel| #[trigger]
            analyzed(*program, model) && model.diagnostics@ == errors@,
{
    let model = analyze_program(program);
    if model.diagnostics.len() == 0 {
        Ok(model)
    } else {
        proof {
            assert(analyzed(*program, model));
        }
        Err(model.diagnostics)
    }
}

} // verus!
