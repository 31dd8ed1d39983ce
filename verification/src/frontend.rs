use vstd::prelude::*;

use crate::ast::Program;
use crate::error::MuninnError;
use crate::lexer::{lexed, Lexeme};
use crate::parser::{parse_document, program_tokens, surface_program, MAX_PARSE_TOKENS};
use crate::semantics::{
    definition_answer, reference_answer, symbol_answer, Reference, SemanticModel, Symbol,
};
use crate::span::Span;
use crate::typecheck::{analyze_program, check_program, model_clean, model_consistent};

verus! {

/// What the editor tooling learns of one document: its parse tree and
/// semantic model when it parses, and every diagnostic.
#[derive(Debug)]
pub struct FrontendAnalysis {
    pub parsed: Option<Program>,
    pub semantics: Option<SemanticModel>,
    pub diagnostics: Vec<MuninnError>,
}

impl FrontendAnalysis {
    pub fn is_ok(&self) -> (b: bool)
        ensures
            b == (self.diagnostics@.len() == 0),
    {
        self.diagnostics.len() == 0
    }

    pub fn has_errors(&self) -> (b: bool)
        ensures
            b == (self.diagnostics@.len() > 0),
    {
        !self.is_ok()
    }

    pub fn definition_at_offset(&self, offset: usize) -> (r: Option<&Symbol>)
        ensures
            match self.semantics {
                Some(m) => definition_answer(m, offset, r),
                None => r is None,
            },
    {
        match &self.semantics {
            Some(semantics) => semantics.definition_at_offset(offset),
            None => None,
        }
    }

    pub fn symbol_at_offset(&self, offset: usize) -> (r: Option<&Symbol>)
        ensures
            match self.semantics {
                Some(m) => symbol_answer(m, offset, r),
                None => r is None,
            },
    {
        match &self.semantics {
            Some(semantics) => semantics.symbol_at_offset(offset),
            None => None,
        }
    }

    pub fn reference_at_offset(&self, offset: usize) -> (r: Option<&Reference>)
        ensures
            match self.semantics {
                Some(m) => reference_answer(m, offset, r),
                None => r is None,
            },
    {
        match &self.semantics {
            Some(semantics) => semantics.reference_at_offset(offset),
            None => None,
        }
    }
}

/// The spans of the references to symbol `target`, in order.
pub open spec fn spans_referring(references: Seq<Reference>, target: usize) -> Seq<Span>
    decreases references.len(),
{
    if references.len() == 0 {
        Seq::empty()
    } else {
        let rest = spans_referring(references.drop_last(), target);
        if references.last().target == target {
            rest.push(references.last().span)
        } else {
            rest
        }
    }
}

/// All spans naming symbol `target`: its declaration first, unless that
/// is synthetic (line 0, as for the built-ins), then every reference to
/// it. Same-named symbols stay apart, since nothing matches on text.
pub fn references_to_target(analysis: &FrontendAnalysis, target: usize) -> (spans: Vec<Span>)
    ensures
        match analysis.semantics {
            Some(m) => spans@ == (if target < m.symbols@.len() && m.symbols@[target as int].span.line != 0 {
                seq![m.symbols@[target as int].span]
            } else {
                Seq::<Span>::empty()
            }) + spans_referring(m.references@, target),
            None => spans@.len() == 0,
        },
{
    let mut spans: Vec<Span> = Vec::new();
    let semantics = match &analysis.semantics {
        Some(semantics) => semantics,
        None => return spans,
    };
    match semantics.symbol_by_id(target) {
        Some(symbol) => {
            if symbol.span.line != 0 {
                spans.push(symbol.span);
            }
        },
        None => {},
    }
    let ghost declared = spans@;
    let mut i: usize = 0;
    proof {
        assert(semantics.references@.take(0) =~= Seq::<Reference>::empty());
        assert(spans@ =~= declared + spans_referring(semantics.references@.take(0), target));
    }
    while i < semantics.references.len()
        invariant
            i <= semantics.references@.len(),
            spans@ == declared + spans_referring(semantics.references@.take(i as int), target),
        decreases semantics.references@.len() - i,
    {
        proof {
            assert(semantics.references@.take(i + 1).drop_last() =~= semantics.references@.take(i as int));
        }
        if semantics.references[i].target == target {
            spans.push(semantics.references[i].span);
        }
        i = i + 1;
    }
    proof {
        assert(semantics.references@.take(i as int) =~= semantics.references@);
    }
    spans
}

/// The semantic model of a parsed program, or its diagnostics.
pub fn check_document(program: &Program) -> (r: Result<SemanticModel, Vec<MuninnError>>)
    requires
        surface_program(*program),
    ensures
        r matches Ok(model) ==> model.diagnostics@.len() == 0 && model_consistent(model),
        r matches Err(errors) ==> errors@.len() > 0,
{
    check_program(program)
}

/// A copy of a diagnostic.
fn copy_error(e: &MuninnError) -> (c: MuninnError)
    ensures
        c.phase == e.phase,
        c.message == e.message,
        c.span == e.span,
        c.notes@ == e.notes@,
{
    let mut notes: Vec<String> = Vec::new();
    let mut i: usize = 0;
    while i < e.notes.len()
        invariant
            i <= e.notes@.len(),
            notes@ == e.notes@.take(i as int),
        decreases e.notes@.len() - i,
    {
        notes.push(e.notes[i].clone());
        proof {
            assert(notes@ =~= e.notes@.take(i + 1));
        }
        i = i + 1;
    }
    proof {
        assert(e.notes@.take(i as int) =~= e.notes@);
    }
    MuninnError { phase: e.phase, message: e.message.clone(), span: e.span, notes }
}

/// Two diagnostics that say the same thing at the same place.
pub open spec fn same_error(a: MuninnError, b: MuninnError) -> bool {
    a.phase == b.phase && a.message == b.message && a.span == b.span && a.notes@ == b.notes@
}

/// Lexes, parses and analyzes a document. A document that does not parse
/// gives its lexer or parser diagnostics and nothing more; one that
/// parses gives its tree, its model, and the model's diagnostics.
pub fn analyze_document(source: &str) -> (analysis: FrontendAnalysis)
    requires
        source@.len() < MAX_PARSE_TOKENS,
    ensures
        analysis.parsed is Some <==> analysis.semantics is Some,
        lexed(source@) is Err ==> analysis.parsed is None,
        analysis.parsed is None ==> analysis.diagnostics@.len() > 0,
        analysis.parsed matches Some(p) ==> {
            &&& surface_program(p)
            &&& lexed(source@) matches Ok(ts) && program_tokens(p) == ts.drop_last().map_values(
                |t: (Lexeme, Span)| t.0,
            )
        },
        analysis.semantics matches Some(m) ==> {
            &&& model_consistent(m)
            &&& model_clean(m)
            &&& analysis.diagnostics@.len() == m.diagnostics@.len()
            &&& forall|i: int|
                0 <= i < m.diagnostics@.len() ==> same_error(
                    #[trigger] analysis.diagnostics@[i],
                    m.diagnostics@[i],
                )
        },
{
    let parsed = match parse_document(source) {
        Ok(program) => program,
        Err(diagnostics) => {
            return FrontendAnalysis { parsed: None, semantics: None, diagnostics };
        },
    };
    let semantics = analyze_program(&parsed);
    let mut diagnostics: Vec<MuninnError> = Vec::new();
    let mut i: usize = 0;
    while i < semantics.diagnostics.len()
        invariant
            i <= semantics.diagnostics@.len(),
            diagnostics@.len() == i,
            forall|j: int| 0 <= j < i ==> same_error(#[trigger] diagnostics@[j], semantics.diagnostics@[j]),
        decreases semantics.diagnostics@.len() - i,
    {
        diagnostics.push(copy_error(&semantics.diagnostics[i]));
        i = i + 1;
    }
    FrontendAnalysis { parsed: Some(parsed), semantics: Some(semantics), diagnostics }
}

} // verus!
