use vstd::prelude::*;

use crate::lines::{lines_of, split_lines};
use crate::span::Span;
use crate::text::{chars_of, decimal, owned, push_char, push_str, string_from_chars, usize_text};

verus! {

/// A diagnostic from one compiler or runtime phase, with its source span.
#[derive(Debug, Clone)]
pub struct MuninnError {
    pub phase: &'static str,
    pub message: String,
    pub span: Span,
    pub notes: Vec<String>,
}

/// `n` copies of `c`.
pub open spec fn repeat_char(c: char, n: nat) -> Seq<char> {
    Seq::new(n, |i: int| c)
}

/// `text` right-aligned in a field of `width` characters.
pub open spec fn pad_left(text: Seq<char>, width: nat) -> Seq<char> {
    if text.len() >= width { text } else { repeat_char(' ', (width - text.len()) as nat) + text }
}

/// The notes of a diagnostic, each introduced by `prefix`.
pub open spec fn notes_text(notes: Seq<Seq<char>>, prefix: Seq<char>) -> Seq<char>
    decreases notes.len(),
{
    if notes.len() == 0 { seq![] } else { notes_text(notes.drop_last(), prefix) + prefix + notes.last() }
}

pub open spec fn note_views(notes: Seq<String>) -> Seq<Seq<char>> {
    notes.map_values(|n: String| n@)
}

/// The one-line form: `phase error at line:column: message`, then notes.
pub open spec fn display_text(e: MuninnError) -> Seq<char> {
    e.phase@ + " error at "@ + decimal(e.span.line as nat) + ":"@ + decimal(e.span.column as nat)
        + ": "@ + e.message@ + notes_text(note_views(e.notes@), "\n  note: "@)
}

/// The source line a span starts on, empty when the line does not exist.
pub open spec fn source_line(source: Seq<char>, line: nat) -> Seq<char> {
    if 1 <= line && line - 1 < lines_of(source).len() { lines_of(source)[line - 1] } else { seq![] }
}

/// The caret line under the source text.
pub open spec fn marker_text(span: Span, line_len: nat) -> Seq<char> {
    let start_column: nat = if span.column >= 1 {
        if (span.column - 1) as nat <= line_len { (span.column - 1) as nat } else { line_len }
    } else {
        0
    };
    let raw_width: nat = if span.line == span.end_line {
        if span.end_column >= span.column { (span.end_column - span.column) as nat } else { 0 }
    } else {
        if span.end_offset >= span.offset { (span.end_offset - span.offset) as nat } else { 0 }
    };
    let room: nat = if line_len >= start_column { (line_len - start_column) as nat } else { 0 };
    let at_least_one: nat = if raw_width >= 1 { raw_width } else { 1 };
    let room_one: nat = if room >= 1 { room } else { 1 };
    let width: nat = if at_least_one <= room_one { at_least_one } else { room_one };
    repeat_char(' ', start_column) + repeat_char('^', width)
}

/// The multi-line rendering with the source line and a caret marker.
pub open spec fn rendered_text(e: MuninnError, source: Seq<char>) -> Seq<char> {
    if e.span.line == 0 {
        display_text(e)
    } else {
        let line_text = source_line(source, e.span.line as nat);
        e.phase@ + " error: "@ + e.message@ + "\n --> "@ + decimal(e.span.line as nat) + ":"@
            + decimal(e.span.column as nat) + "\n  |\n"@ + pad_left(decimal(e.span.line as nat), 3)
            + " | "@ + line_text + "\n  | "@ + marker_text(e.span, line_text.len())
            + notes_text(note_views(e.notes@), "\n  = note: "@)
    }
}

fn push_repeat(s: &mut String, c: char, n: usize)
    ensures
        final(s)@ == old(s)@ + repeat_char(c, n as nat),
{
    let ghost start = s@;
    let mut i: usize = 0;
    while i < n
        invariant
            i <= n,
            s@ == start + repeat_char(c, i as nat),
        decreases n - i,
    {
        push_char(s, c);
        proof {
            assert(start + repeat_char(c, (i + 1) as nat) =~= (start + repeat_char(c, i as nat)).push(c));
        }
        i = i + 1;
    }
}

fn push_notes(s: &mut String, notes: &Vec<String>, prefix: &str)
    ensures
        final(s)@ == old(s)@ + notes_text(note_views(notes@), prefix@),
{
    let ghost start = s@;
    let ghost views = note_views(notes@);
    let mut i: usize = 0;
    proof {
        assert(views.take(0) =~= Seq::<Seq<char>>::empty());
        assert(start + notes_text(views.take(0), prefix@) =~= start);
    }
    while i < notes.len()
        invariant
            i <= notes.len(),
            views == note_views(notes@),
            s@ == start + notes_text(views.take(i as int), prefix@),
        decreases notes.len() - i,
    {
        push_str(s, prefix);
        push_str(s, notes[i].as_str());
        proof {
            assert(views.take(i + 1).drop_last() =~= views.take(i as int));
            assert(views.take(i + 1).last() == notes@[i as int]@);
            assert(s@ =~= start + notes_text(views.take(i + 1), prefix@));
        }
        i = i + 1;
    }
    proof {
        assert(views.take(notes.len() as int) =~= views);
    }
}

impl MuninnError {
    pub fn new(phase: &'static str, message: &str, span: Span) -> (e: MuninnError)
        ensures
            e.phase == phase,
            e.message@ == message@,
            e.span == span,
            e.notes@.len() == 0,
    {
        MuninnError { phase, message: owned(message), span, notes: Vec::new() }
    }

    /// Builds a diagnostic that takes ownership of an already built message.
    pub fn from_string(phase: &'static str, message: String, span: Span) -> (e: MuninnError)
        ensures
            e.phase == phase,
            e.message == message,
            e.span == span,
            e.notes@.len() == 0,
    {
        MuninnError { phase, message, span, notes: Vec::new() }
    }

    pub fn with_note(self, note: &str) -> (e: MuninnError)
        ensures
            e.phase == self.phase,
            e.message == self.message,
            e.span == self.span,
            note_views(e.notes@) == note_views(self.notes@).push(note@),
    {
        let mut e = self;
        e.notes.push(owned(note));
        proof {
            assert(note_views(e.notes@) =~= note_views(self.notes@).push(note@));
        }
        e
    }

    /// The one-line form used where no source text is at hand.
    pub fn describe(&self) -> (s: String)
        ensures
            s@ == display_text(*self),
    {
        let mut s = owned(self.phase);
        push_str(&mut s, " error at ");
        let line = usize_text(self.span.line);
        push_str(&mut s, line.as_str());
        push_str(&mut s, ":");
        let column = usize_text(self.span.column);
        push_str(&mut s, column.as_str());
        push_str(&mut s, ": ");
        push_str(&mut s, self.message.as_str());
        push_notes(&mut s, &self.notes, "\n  note: ");
        proof {
            assert(s@ =~= display_text(*self));
        }
        s
    }

    /// Renders the diagnostic with the offending source line and a caret
    /// marker under the span.
    pub fn render_with_source(&self, source: &str) -> (s: String)
        ensures
            s@ == rendered_text(*self, source@),
    {
        if self.span.line == 0 {
            return self.describe();
        }
        let chars = chars_of(source);
        let lines = split_lines(&chars);
        let line_chars: Vec<char> = if self.span.line - 1 < lines.len() {
            lines[self.span.line - 1].clone()
        } else {
            Vec::new()
        };
        let line_text = string_from_chars(&line_chars);
        let line_len = line_chars.len();
        let start_column = if self.span.column >= 1 {
            if self.span.column - 1 <= line_len { self.span.column - 1 } else { line_len }
        } else {
            0
        };
        let raw_width = if self.span.line == self.span.end_line {
            if self.span.end_column >= self.span.column { self.span.end_column - self.span.column } else { 0 }
        } else {
            self.span.width()
        };
        let room = if line_len >= start_column { line_len - start_column } else { 0 };
        let at_least_one = if raw_width >= 1 { raw_width } else { 1 };
        let room_one = if room >= 1 { room } else { 1 };
        let width = if at_least_one <= room_one { at_least_one } else { room_one };

        let line_number = usize_text(self.span.line);
        let mut s = owned(self.phase);
        push_str(&mut s, " error: ");
        push_str(&mut s, self.message.as_str());
        push_str(&mut s, "\n --> ");
        push_str(&mut s, line_number.as_str());
        push_str(&mut s, ":");
        let column = usize_text(self.span.column);
        push_str(&mut s, column.as_str());
        push_str(&mut s, "\n  |\n");
        let ghost before_pad = s@;
        let digits = chars_of(line_number.as_str());
        if digits.len() < 3 {
            push_repeat(&mut s, ' ', 3 - digits.len());
        }
        push_str(&mut s, line_number.as_str());
        proof {
            assert(s@ =~= before_pad + pad_left(decimal(self.span.line as nat), 3));
        }
        push_str(&mut s, " | ");
        push_str(&mut s, line_text.as_str());
        push_str(&mut s, "\n  | ");
        push_repeat(&mut s, ' ', start_column);
        push_repeat(&mut s, '^', width);
        push_notes(&mut s, &self.notes, "\n  = note: ");
        proof {
            assert(line_chars@ == source_line(source@, self.span.line as nat));
            assert(s@ =~= rendered_text(*self, source@));
        }
        s
    }
}

} // verus!
