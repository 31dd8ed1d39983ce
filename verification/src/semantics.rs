use vstd::prelude::*;

use crate::builtins::BuiltinKind;
use crate::ast::{NodeId, TypeExpr};
use crate::error::MuninnError;
use crate::span::Span;
use crate::text::{owned, push_str, same_text};

verus! {

/// The static type of a value.
#[derive(Debug, PartialEq, Eq)]
pub enum Ty {
    Int,
    Float,
    Bool,
    String,
    Void,
    Tensor,
    Record(String),
    Function(Vec<Ty>, Box<Ty>),
    Builtin(BuiltinKind),
    Error,
}

/// A type as written in hovers and diagnostics.
pub open spec fn ty_text(ty: Ty) -> Seq<char>
    decreases ty, 0nat,
{
    match ty {
        Ty::Int => "Int"@,
        Ty::Float => "Float"@,
        Ty::Bool => "Bool"@,
        Ty::String => "String"@,
        Ty::Void => "Void"@,
        Ty::Tensor => "Tensor"@,
        Ty::Record(name) => name@,
        Ty::Function(params, ret) => "fn("@ + params_text(params@, params@.len()) + ") -> "@ + ty_text(*ret),
        Ty::Builtin(BuiltinKind::Print) => "builtin print"@,
        Ty::Builtin(BuiltinKind::Assert) => "builtin assert"@,
        Ty::Error => "<error>"@,
    }
}

/// The first `n` parameter types, separated by `, `.
pub open spec fn params_text(ps: Seq<Ty>, n: nat) -> Seq<char>
    decreases ps, n,
{
    if n == 0 || n > ps.len() {
        seq![]
    } else if n == 1 {
        ty_text(ps[0])
    } else {
        params_text(ps, (n - 1) as nat) + ", "@ + ty_text(ps[n - 1])
    }
}

/// Writes `ty` as hovers and diagnostics show it.
pub fn display_ty(ty: &Ty) -> (s: String)
    ensures
        s@ == ty_text(*ty),
    decreases ty,
{
    match ty {
        Ty::Int => owned("Int"),
        Ty::Float => owned("Float"),
        Ty::Bool => owned("Bool"),
        Ty::String => owned("String"),
        Ty::Void => owned("Void"),
        Ty::Tensor => owned("Tensor"),
        Ty::Record(name) => owned(name.as_str()),
        Ty::Function(params, ret) => {
            let mut s = owned("fn(");
            let ghost start = s@;
            let mut i: usize = 0;
            while i < params.len()
                invariant
                    i <= params@.len(),
                    *ty is Function,
                    ty->Function_0 == *params,
                    s@ == start + params_text(params@, i as nat),
                decreases params@.len() - i,
            {
                proof {
                    assert(decreases_to!(*ty => ty->Function_0));
                    assert(decreases_to!(*params => params@));
                    assert(decreases_to!(params@ => params@[i as int]));
                    assert(decreases_to!(*ty => params@[i as int]));
                }
                let part = display_ty(&params[i]);
                if i > 0 {
                    push_str(&mut s, ", ");
                }
                push_str(&mut s, part.as_str());
                proof {
                    if i == 0 {
                        assert(s@ =~= start + params_text(params@, 1));
                    } else {
                        assert(s@ =~= start + params_text(params@, (i + 1) as nat));
                    }
                }
                i = i + 1;
            }
            push_str(&mut s, ") -> ");
            let r = display_ty(ret);
            push_str(&mut s, r.as_str());
            proof {
                assert(s@ =~= ty_text(*ty));
            }
            s
        },
        Ty::Builtin(BuiltinKind::Print) => owned("builtin print"),
        Ty::Builtin(BuiltinKind::Assert) => owned("builtin assert"),
        Ty::Error => owned("<error>"),
    }
}

/// A type as the contracts speak of it.
pub enum TyView {
    Int,
    Float,
    Bool,
    String,
    Void,
    Tensor,
    Record(Seq<char>),
    Function(Seq<TyView>, Box<TyView>),
    Builtin(BuiltinKind),
    Error,
}

pub open spec fn ty_view(ty: Ty) -> TyView
    decreases ty, 1nat,
{
    match ty {
        Ty::Int => TyView::Int,
        Ty::Float => TyView::Float,
        Ty::Bool => TyView::Bool,
        Ty::String => TyView::String,
        Ty::Void => TyView::Void,
        Ty::Tensor => TyView::Tensor,
        Ty::Record(name) => TyView::Record(name@),
        Ty::Function(params, ret) => TyView::Function(tys_view(params@), Box::new(ty_view(*ret))),
        Ty::Builtin(kind) => TyView::Builtin(kind),
        Ty::Error => TyView::Error,
    }
}

pub open spec fn tys_view(tys: Seq<Ty>) -> Seq<TyView>
    decreases tys, 0nat,
{
    if tys.len() == 0 {
        Seq::empty()
    } else {
        tys_view(tys.drop_last()).push(ty_view(tys.last()))
    }
}

/// A type with no error type anywhere inside it.
pub open spec fn error_free(t: TyView) -> bool
    decreases t,
{
    match t {
        TyView::Error => false,
        TyView::Function(params, ret) => error_free(*ret) && forall|i: int|
            0 <= i < params.len() ==> error_free(#[trigger] params[i]),
        _ => true,
    }
}

pub proof fn lemma_tys_view_len(tys: Seq<Ty>)
    ensures
        tys_view(tys).len() == tys.len(),
    decreases tys.len(),
{
    if tys.len() > 0 {
        lemma_tys_view_len(tys.drop_last());
    }
}

/// The views of a prefix of types, one more at a time.
proof fn lemma_tys_view_push(tys: Seq<Ty>, t: Ty)
    ensures
        tys_view(tys.push(t)) == tys_view(tys).push(ty_view(t)),
{
    assert(tys.push(t).drop_last() =~= tys);
}

pub proof fn lemma_tys_view_index(tys: Seq<Ty>, i: int)
    requires
        0 <= i < tys.len(),
    ensures
        tys_view(tys).len() == tys.len(),
        tys_view(tys)[i] == ty_view(tys[i]),
    decreases tys.len(),
{
    lemma_tys_view_len(tys);
    if i < tys.len() - 1 {
        lemma_tys_view_index(tys.drop_last(), i);
    }
}

/// A copy of a type.
pub fn clone_ty(ty: &Ty) -> (r: Ty)
    ensures
        ty_view(r) == ty_view(*ty),
    decreases ty,
{
    match ty {
        Ty::Int => Ty::Int,
        Ty::Float => Ty::Float,
        Ty::Bool => Ty::Bool,
        Ty::String => Ty::String,
        Ty::Void => Ty::Void,
        Ty::Tensor => Ty::Tensor,
        Ty::Record(name) => Ty::Record(name.clone()),
        Ty::Function(params, ret) => {
            let mut copies: Vec<Ty> = Vec::new();
            let mut i: usize = 0;
            while i < params.len()
                invariant
                    i <= params@.len(),
                    *ty is Function,
                    ty->Function_0 == *params,
                    tys_view(copies@) == tys_view(params@.take(i as int)),
                decreases params@.len() - i,
            {
                proof {
                    assert(decreases_to!(*ty => ty->Function_0));
                    assert(decreases_to!(*params => params@));
                    assert(decreases_to!(params@ => params@[i as int]));
                    assert(decreases_to!(*ty => params@[i as int]));
                }
                let copy = clone_ty(&params[i]);
                proof {
                    lemma_tys_view_push(copies@, copy);
                    lemma_tys_view_push(params@.take(i as int), params@[i as int]);
                    assert(params@.take(i as int).push(params@[i as int]) =~= params@.take(i + 1));
                }
                copies.push(copy);
                i = i + 1;
            }
            proof {
                assert(params@.take(params@.len() as int) =~= params@);
            }
            let ret_copy = clone_ty(ret);
            Ty::Function(copies, Box::new(ret_copy))
        },
        Ty::Builtin(kind) => Ty::Builtin(*kind),
        Ty::Error => Ty::Error,
    }
}

/// Whether two types are the same type.
pub fn same_ty(a: &Ty, b: &Ty) -> (r: bool)
    ensures
        r == (ty_view(*a) == ty_view(*b)),
    decreases a,
{
    match (a, b) {
        (Ty::Int, Ty::Int) => true,
        (Ty::Float, Ty::Float) => true,
        (Ty::Bool, Ty::Bool) => true,
        (Ty::String, Ty::String) => true,
        (Ty::Void, Ty::Void) => true,
        (Ty::Tensor, Ty::Tensor) => true,
        (Ty::Record(x), Ty::Record(y)) => same_text(x.as_str(), y.as_str()),
        (Ty::Builtin(x), Ty::Builtin(y)) => *x == *y,
        (Ty::Error, Ty::Error) => true,
        (Ty::Function(ps, pr), Ty::Function(qs, qr)) => {
            if ps.len() != qs.len() {
                proof {
                    lemma_tys_view_len(ps@);
                    lemma_tys_view_len(qs@);
                }
                return false;
            }
            let mut i: usize = 0;
            while i < ps.len()
                invariant
                    i <= ps@.len(),
                    ps@.len() == qs@.len(),
                    *a is Function,
                    a->Function_0 == *ps,
                    *b is Function,
                    b->Function_0 == *qs,
                    forall|j: int| 0 <= j < i ==> ty_view(ps@[j]) == ty_view(qs@[j]),
                decreases ps@.len() - i,
            {
                proof {
                    assert(decreases_to!(*a => a->Function_0));
                    assert(decreases_to!(*ps => ps@));
                    assert(decreases_to!(ps@ => ps@[i as int]));
                    assert(decreases_to!(*a => ps@[i as int]));
                }
                if !same_ty(&ps[i], &qs[i]) {
                    proof {
                        lemma_tys_view_index(ps@, i as int);
                        lemma_tys_view_index(qs@, i as int);
                        assert(tys_view(ps@)[i as int] != tys_view(qs@)[i as int]);
                    }
                    return false;
                }
                i = i + 1;
            }
            proof {
                lemma_tys_view_len(ps@);
                lemma_tys_view_len(qs@);
                assert forall|j: int| 0 <= j < ps@.len() implies tys_view(ps@)[j] == tys_view(qs@)[j] by {
                    lemma_tys_view_index(ps@, j);
                    lemma_tys_view_index(qs@, j);
                }
                assert(tys_view(ps@) =~= tys_view(qs@));
            }
            let r = same_ty(pr, qr);
            proof {
                if r {
                    assert(ty_view(*a) == ty_view(*b));
                } else {
                    assert(ty_view(**pr) != ty_view(**qr));
                    assert(ty_view(*a)->Function_1 != ty_view(*b)->Function_1);
                }
            }
            r
        },
        _ => false,
    }
}

/// The type a written type stands for.
pub fn ty_from_type_expr(ty: TypeExpr) -> (t: Ty)
    ensures
        match ty {
            TypeExpr::Int => t is Int,
            TypeExpr::Float => t is Float,
            TypeExpr::Bool => t is Bool,
            TypeExpr::String => t is String,
            TypeExpr::Tensor => t is Tensor,
            TypeExpr::Void => t is Void,
            TypeExpr::Record(name) => t matches Ty::Record(n) && n@ == name@,
        },
{
    match ty {
        TypeExpr::Int => Ty::Int,
        TypeExpr::Float => Ty::Float,
        TypeExpr::Bool => Ty::Bool,
        TypeExpr::String => Ty::String,
        TypeExpr::Tensor => Ty::Tensor,
        TypeExpr::Void => Ty::Void,
        TypeExpr::Record(name) => Ty::Record(name),
    }
}

/// What a name refers to.
#[derive(Debug, Clone, Copy, PartialEq, Eq, Structural)]
pub enum SymbolKind {
    Global,
    Local,
    Parameter,
    Function,
    Builtin(BuiltinKind),
}

/// A declared name with its type and where it was declared.
#[derive(Debug)]
pub struct Symbol {
    pub id: usize,
    pub name: String,
    pub kind: SymbolKind,
    pub span: Span,
    pub detail: String,
    pub ty: Ty,
    pub mutable: bool,
}

/// A use of a name, pointing at the symbol it resolves to.
#[derive(Debug, Clone, Copy, PartialEq, Eq, Structural)]
pub struct Reference {
    pub span: Span,
    pub target: usize,
}

/// What analysis learned of a program: its diagnostics, the type of each
/// expression node, its symbols (indexed by id) and the references to them.
#[derive(Debug)]
pub struct SemanticModel {
    pub diagnostics: Vec<MuninnError>,
    pub expr_types: Vec<(NodeId, Ty)>,
    pub symbols: Vec<Symbol>,
    pub references: Vec<Reference>,
}

/// Whether `span` covers `offset`; an empty span still owns its first
/// byte, and a synthetic span (line 0, as the built-ins carry) covers
/// nothing.
pub open spec fn covers(span: Span, offset: usize) -> bool {
    span.line != 0 && span.offset <= offset && offset < span.spec_exclusive_end()
}

/// The width that ranks covering spans: narrower wins, empty counts as one.
pub open spec fn rank_width(span: Span) -> int {
    let w = if span.end_offset >= span.offset { span.end_offset - span.offset } else { 0 };
    if w >= 1 { w } else { 1 }
}

/// Index `i` holds the narrowest span covering `offset`, the first such
/// among equals.
pub open spec fn narrowest_at(spans: Seq<Span>, offset: usize, i: int) -> bool {
    &&& 0 <= i < spans.len()
    &&& covers(spans[i], offset)
    &&& forall|j: int| 0 <= j < spans.len() && covers(#[trigger] spans[j], offset) ==> rank_width(spans[i]) <= rank_width(spans[j])
    &&& forall|j: int| 0 <= j < i && covers(#[trigger] spans[j], offset) ==> rank_width(spans[j]) > rank_width(spans[i])
}

/// No span covers `offset`.
pub open spec fn none_covers(spans: Seq<Span>, offset: usize) -> bool {
    forall|j: int| 0 <= j < spans.len() ==> !covers(#[trigger] spans[j], offset)
}

pub open spec fn symbol_spans(symbols: Seq<Symbol>) -> Seq<Span> {
    symbols.map_values(|s: Symbol| s.span)
}

pub open spec fn reference_spans(references: Seq<Reference>) -> Seq<Span> {
    references.map_values(|r: Reference| r.span)
}

/// The first index holding the narrowest span that covers `offset`.
fn narrowest(spans: &Vec<Span>, offset: usize) -> (r: Option<usize>)
    ensures
        match r {
            Some(i) => narrowest_at(spans@, offset, i as int),
            None => none_covers(spans@, offset),
        },
{
    let mut best: Option<usize> = None;
    let mut best_width: usize = 0;
    let mut i: usize = 0;
    while i < spans.len()
        invariant
            i <= spans@.len(),
            match best {
                Some(b) => b < i && narrowest_at(spans@.take(i as int), offset, b as int) && best_width == rank_width(spans@[b as int]),
                None => none_covers(spans@.take(i as int), offset),
            },
        decreases spans@.len() - i,
    {
        let span = spans[i];
        let w0 = span.width();
        let w = if w0 >= 1 { w0 } else { 1 };
        let ghost t = spans@.take(i + 1);
        proof {
            assert(t[i as int] == span);
            assert forall|j: int| 0 <= j < i implies t[j] == spans@.take(i as int)[j] by {}
        }
        if span.line != 0 && span.contains_offset(offset) {
            let better = match best {
                None => true,
                Some(_) => w < best_width,
            };
            if better {
                best = Some(i);
                best_width = w;
            }
        }
        i = i + 1;
    }
    proof {
        assert(spans@.take(spans@.len() as int) =~= spans@);
    }
    best
}

/// The spans of a sequence of symbols, taken as a vector.
fn spans_of_symbols(symbols: &Vec<Symbol>) -> (v: Vec<Span>)
    ensures
        v@ == symbol_spans(symbols@),
{
    let mut v: Vec<Span> = Vec::new();
    let mut i: usize = 0;
    while i < symbols.len()
        invariant
            i <= symbols@.len(),
            v@ == symbol_spans(symbols@).take(i as int),
        decreases symbols@.len() - i,
    {
        v.push(symbols[i].span);
        proof {
            assert(symbol_spans(symbols@).take(i + 1) =~= symbol_spans(symbols@).take(i as int).push(symbols@[i as int].span));
        }
        i = i + 1;
    }
    proof {
        assert(symbol_spans(symbols@).take(symbols@.len() as int) =~= symbol_spans(symbols@));
    }
    v
}

fn spans_of_references(references: &Vec<Reference>) -> (v: Vec<Span>)
    ensures
        v@ == reference_spans(references@),
{
    let mut v: Vec<Span> = Vec::new();
    let mut i: usize = 0;
    while i < references.len()
        invariant
            i <= references@.len(),
            v@ == reference_spans(references@).take(i as int),
        decreases references@.len() - i,
    {
        v.push(references[i].span);
        proof {
            assert(reference_spans(references@).take(i + 1) =~= reference_spans(references@).take(i as int).push(references@[i as int].span));
        }
        i = i + 1;
    }
    proof {
        assert(reference_spans(references@).take(references@.len() as int) =~= reference_spans(references@));
    }
    v
}

/// The symbol declared narrowest around `offset` (the first among
/// equally narrow ones), or none when no declaration covers it.
pub open spec fn symbol_answer(m: SemanticModel, offset: usize, r: Option<&Symbol>) -> bool {
    match r {
        Some(s) => exists|i: int| narrowest_at(symbol_spans(m.symbols@), offset, i) && *s == m.symbols@[i],
        None => none_covers(symbol_spans(m.symbols@), offset),
    }
}

/// The reference narrowest around `offset`, or none.
pub open spec fn reference_answer(m: SemanticModel, offset: usize, r: Option<&Reference>) -> bool {
    match r {
        Some(x) => exists|i: int| narrowest_at(reference_spans(m.references@), offset, i) && *x == m.references@[i],
        None => none_covers(reference_spans(m.references@), offset),
    }
}

/// The target of the reference at `offset`, else the symbol declared there.
pub open spec fn definition_answer(m: SemanticModel, offset: usize, r: Option<&Symbol>) -> bool {
    &&& none_covers(reference_spans(m.references@), offset) ==> symbol_answer(m, offset, r)
    &&& !none_covers(reference_spans(m.references@), offset) ==> exists|i: int|
        narrowest_at(reference_spans(m.references@), offset, i) && match r {
            Some(s) => m.references@[i].target < m.symbols@.len() && *s == m.symbols@[m.references@[i].target as int],
            None => m.references@[i].target >= m.symbols@.len(),
        }
}

impl SemanticModel {
    /// The type recorded for expression `id` (the latest record wins).
    pub fn ty_for_expr(&self, id: NodeId) -> (r: Option<&Ty>)
        ensures
            match r {
                Some(t) => exists|i: int| 0 <= i < self.expr_types@.len() && self.expr_types@[i].0 == id
                    && *t == self.expr_types@[i].1 && forall|j: int| i < j < self.expr_types@.len() ==> self.expr_types@[j].0 != id,
                None => forall|i: int| 0 <= i < self.expr_types@.len() ==> self.expr_types@[i].0 != id,
            },
    {
        let mut i: usize = self.expr_types.len();
        while i > 0
            invariant
                i <= self.expr_types@.len(),
                forall|j: int| i <= j < self.expr_types@.len() ==> self.expr_types@[j].0 != id,
            decreases i,
        {
            if self.expr_types[i - 1].0 == id {
                return Some(&self.expr_types[i - 1].1);
            }
            i = i - 1;
        }
        None
    }

    pub fn symbol_by_id(&self, id: usize) -> (r: Option<&Symbol>)
        ensures
            match r {
                Some(s) => id < self.symbols@.len() && *s == self.symbols@[id as int],
                None => id >= self.symbols@.len(),
            },
    {
        if id < self.symbols.len() {
            Some(&self.symbols[id])
        } else {
            None
        }
    }

    /// The symbol declared narrowest around `offset` (the first among
    /// equally narrow ones).
    pub fn symbol_at_offset(&self, offset: usize) -> (r: Option<&Symbol>)
        ensures
            symbol_answer(*self, offset, r),
    {
        let spans = spans_of_symbols(&self.symbols);
        match narrowest(&spans, offset) {
            Some(i) => Some(&self.symbols[i]),
            None => None,
        }
    }

    /// The reference narrowest around `offset` (the first among equally
    /// narrow ones).
    pub fn reference_at_offset(&self, offset: usize) -> (r: Option<&Reference>)
        ensures
            reference_answer(*self, offset, r),
    {
        let spans = spans_of_references(&self.references);
        match narrowest(&spans, offset) {
            Some(i) => Some(&self.references[i]),
            None => None,
        }
    }

    /// What the name at `offset` refers to: the target of a reference
    /// there, else a symbol declared there.
    pub fn definition_at_offset(&self, offset: usize) -> (r: Option<&Symbol>)
        ensures
            definition_answer(*self, offset, r),
    {
        match self.reference_at_offset(offset) {
            Some(reference) => self.symbol_by_id(reference.target),
            None => self.symbol_at_offset(offset),
        }
    }
}

} // verus!
