use vstd::prelude::*;

use crate::project::boundary_index;
use crate::source::{
    char_index_of_byte, compute_line_starts, is_char_boundary, is_line_table, lemma_byte_offset_bound,
    line_start_indices,
};
use crate::text::{byte_offset, chars_of, str_byte_len, string_from_chars, utf8_len};

verus! {

/// Byte offsets at which the lines of an editor document start: 0 and one
/// past every `'\n'`.
pub fn compute_line_offsets(source: &str) -> (offsets: Vec<usize>)
    ensures
        is_line_table(source@, offsets@),
{
    compute_line_starts(source)
}

/// The text of an open document, its version, and where its lines start.
#[derive(Debug)]
pub struct DocumentState {
    pub version: i32,
    pub source: String,
    pub line_offsets: Vec<usize>,
}

/// The start of `line`, or of the last line when `line` is past the end
/// (0 for an empty table).
pub open spec fn line_start_or_last(offsets: Seq<usize>, line: int) -> int {
    if 0 <= line < offsets.len() {
        offsets[line] as int
    } else if offsets.len() > 0 {
        offsets.last() as int
    } else {
        0
    }
}

/// A cursor offset: the line start plus `character` bytes, saturating,
/// and never past the end of the text.
pub open spec fn cursor_offset(offsets: Seq<usize>, len: nat, line: int, character: int) -> int {
    let sum = line_start_or_last(offsets, line) + character;
    let sat: int = if sum > usize::MAX { usize::MAX as int } else { sum };
    if sat <= len { sat } else { len as int }
}

impl DocumentState {
    pub fn new(version: i32, source: String) -> (d: DocumentState)
        ensures
            d.version == version,
            d.source == source,
            is_line_table(source@, d.line_offsets@),
    {
        let line_offsets = compute_line_offsets(source.as_str());
        DocumentState { version, source, line_offsets }
    }

    fn line_start(&self, line: usize) -> (r: usize)
        ensures
            r == line_start_or_last(self.line_offsets@, line as int),
    {
        if line < self.line_offsets.len() {
            self.line_offsets[line]
        } else if self.line_offsets.len() > 0 {
            self.line_offsets[self.line_offsets.len() - 1]
        } else {
            0
        }
    }

    /// The byte offset of a zero-based line and character (counted in
    /// bytes), clamped to the text.
    pub fn offset_at(&self, line_zero_based: u32, character_zero_based: u32) -> (r: usize)
        ensures
            r == cursor_offset(
                self.line_offsets@,
                utf8_len(self.source@),
                line_zero_based as int,
                character_zero_based as int,
            ),
    {
        let start = self.line_start(line_zero_based as usize);
        let len = str_byte_len(self.source.as_str());
        let sum = start.saturating_add(character_zero_based as usize);
        if sum <= len { sum } else { len }
    }

    /// The start of the line and the cursor on it, as byte offsets.
    pub fn line_prefix_bounds(&self, line_zero_based: u32, character_zero_based: u32) -> (r: (usize, usize))
        ensures
            r.0 == line_start_or_last(self.line_offsets@, line_zero_based as int),
            r.1 == cursor_offset(
                self.line_offsets@,
                utf8_len(self.source@),
                line_zero_based as int,
                character_zero_based as int,
            ),
    {
        let start = self.line_start(line_zero_based as usize);
        let cursor = self.offset_at(line_zero_based, character_zero_based);
        let len = str_byte_len(self.source.as_str());
        (start, if cursor <= len { cursor } else { len })
    }
}

// ----- editing a document -----

/// A zero-based line and character, as editors send them.
#[derive(Debug, Clone, Copy, PartialEq, Eq, Structural)]
pub struct Position {
    pub line: u32,
    pub character: u32,
}

#[derive(Debug, Clone, Copy, PartialEq, Eq, Structural)]
pub struct Range {
    pub start: Position,
    pub end: Position,
}

/// One edit: replace `range` with `text`, or the whole document when there
/// is no range.
#[derive(Debug, Clone)]
pub struct ContentChange {
    pub range: Option<Range>,
    pub text: String,
}

/// The byte offset of a position in `s`: its line's start plus the
/// character, clamped to the text; none for a line past the end.
pub open spec fn position_offset(s: Seq<char>, p: Position) -> Option<int> {
    let lines = line_start_indices(s);
    if (p.line as int) < lines.len() {
        let sum = byte_offset(s, lines[p.line as int]) + p.character;
        Some(if sum <= utf8_len(s) { sum } else { utf8_len(s) as int })
    } else {
        None
    }
}

/// How one edit goes: refused (a position past the last line, or a range
/// that ends before it starts), applied, or stopped because a range end
/// falls inside a character.
pub enum EditOutcome {
    Refused,
    Applied(Seq<char>),
    Splits,
}

pub open spec fn edit_outcome(s: Seq<char>, range: Option<Range>, text: Seq<char>) -> EditOutcome {
    match range {
        None => EditOutcome::Applied(text),
        Some(r) => match (position_offset(s, r.start), position_offset(s, r.end)) {
            (Some(a), Some(b)) => if a > b {
                EditOutcome::Refused
            } else if is_char_boundary(s, a) && is_char_boundary(s, b) {
                EditOutcome::Applied(
                    s.take(char_index_of_byte(s, a)) + text + s.skip(char_index_of_byte(s, b)),
                )
            } else {
                EditOutcome::Splits
            },
            _ => EditOutcome::Refused,
        },
    }
}

pub open spec fn change_views(changes: Seq<ContentChange>) -> Seq<(Option<Range>, Seq<char>)> {
    changes.map_values(|c: ContentChange| (c.range, c.text@))
}

/// The edits applied in order.
pub open spec fn edits_outcome(s: Seq<char>, edits: Seq<(Option<Range>, Seq<char>)>) -> EditOutcome
    decreases edits.len(),
{
    if edits.len() == 0 {
        EditOutcome::Applied(s)
    } else {
        match edits_outcome(s, edits.drop_last()) {
            EditOutcome::Applied(t) => edit_outcome(t, edits.last().0, edits.last().1),
            other => other,
        }
    }
}

fn position_to_offset(p: Position, line_offsets: &Vec<usize>, text_len: usize) -> (r: Option<usize>)
    ensures
        r == (if (p.line as int) < line_offsets@.len() {
            let sum = line_offsets@[p.line as int] + p.character;
            Some(if sum <= text_len { sum as usize } else { text_len })
        } else {
            None::<usize>
        }),
{
    let line = p.line as usize;
    if line >= line_offsets.len() {
        return None;
    }
    let start = line_offsets[line];
    let character = p.character as usize;
    match start.checked_add(character) {
        Some(sum) => Some(if sum <= text_len { sum } else { text_len }),
        None => Some(text_len),
    }
}

/// Applies editor changes in order: a change without a range replaces the
/// text, one with a range replaces the bytes between its two positions.
/// `None` when a position names a line past the end or a range ends before
/// it starts. Ranges must not cut through a character.
pub fn apply_content_changes(original: &str, changes: &[ContentChange]) -> (r: Option<String>)
    requires
        !(edits_outcome(original@, change_views(changes@)) is Splits),
    ensures
        match edits_outcome(original@, change_views(changes@)) {
            EditOutcome::Applied(t) => r matches Some(x) && x@ == t,
            _ => r is None,
        },
{
    let ghost edits = change_views(changes@);
    let mut text = chars_of(original);
    let mut i: usize = 0;
    proof {
        assert(edits.take(0) =~= Seq::<(Option<Range>, Seq<char>)>::empty());
    }
    while i < changes.len()
        invariant
            i <= changes@.len(),
            edits == change_views(changes@),
            !(edits_outcome(original@, edits) is Splits),
            edits_outcome(original@, edits.take(i as int)) == EditOutcome::Applied(text@),
        decreases changes@.len() - i,
    {
        proof {
            lemma_outcome_prefix(original@, edits, i as int + 1);
            assert(edits.take(i + 1).drop_last() =~= edits.take(i as int));
            assert(edits.take(i + 1).last() == edits[i as int]);
        }
        let change = &changes[i];
        match change.range {
            None => {
                text = chars_of(change.text.as_str());
            },
            Some(range) => {
                let current = string_from_chars(&text);
                let offsets = compute_line_offsets(current.as_str());
                let len = str_byte_len(current.as_str());
                proof {
                    lemma_positions(text@, offsets@, range.start);
                    lemma_positions(text@, offsets@, range.end);
                }
                let start = match position_to_offset(range.start, &offsets, len) {
                    Some(o) => o,
                    None => {
                        proof {
                            lemma_refusal_stays(original@, edits, i as int + 1);
                        }
                        return None;
                    },
                };
                let end = match position_to_offset(range.end, &offsets, len) {
                    Some(o) => o,
                    None => {
                        proof {
                            lemma_refusal_stays(original@, edits, i as int + 1);
                        }
                        return None;
                    },
                };
                if start > end || end > len {
                    proof {
                        lemma_refusal_stays(original@, edits, i as int + 1);
                    }
                    return None;
                }
                let a = boundary_index(&text, start);
                let b = boundary_index(&text, end);
                match (a, b) {
                    (Some(ia), Some(ib)) => {
                        let replacement = chars_of(change.text.as_str());
                        let mut next: Vec<char> = Vec::new();
                        let mut k: usize = 0;
                        while k < ia
                            invariant
                                k <= ia <= text@.len(),
                                next@ == text@.take(k as int),
                            decreases ia - k,
                        {
                            next.push(text[k]);
                            proof {
                                assert(text@.take(k + 1) =~= text@.take(k as int).push(text@[k as int]));
                            }
                            k = k + 1;
                        }
                        let mut m: usize = 0;
                        while m < replacement.len()
                            invariant
                                m <= replacement@.len(),
                                next@ == text@.take(ia as int) + replacement@.take(m as int),
                            decreases replacement@.len() - m,
                        {
                            next.push(replacement[m]);
                            proof {
                                assert(replacement@.take(m + 1) =~= replacement@.take(m as int).push(
                                    replacement@[m as int],
                                ));
                            }
                            m = m + 1;
                        }
                        proof {
                            assert(replacement@.take(replacement@.len() as int) =~= replacement@);
                        }
                        let mut k: usize = ib;
                        while k < text.len()
                            invariant
                                ib <= k <= text@.len(),
                                next@ == text@.take(ia as int) + replacement@ + text@.subrange(
                                    ib as int,
                                    k as int,
                                ),
                            decreases text@.len() - k,
                        {
                            next.push(text[k]);
                            proof {
                                assert(text@.subrange(ib as int, k + 1) =~= text@.subrange(ib as int, k as int).push(
                                    text@[k as int],
                                ));
                            }
                            k = k + 1;
                        }
                        proof {
                            assert(text@.subrange(ib as int, text@.len() as int) =~= text@.skip(ib as int));
                        }
                        text = next;
                    },
                    _ => {
                        proof {
                            lemma_splits_stay(original@, edits, i as int + 1);
                        }
                        return None;
                    },
                }
            },
        }
        i = i + 1;
    }
    proof {
        assert(edits.take(changes@.len() as int) =~= edits);
    }
    Some(string_from_chars(&text))
}

/// The line table of `s` gives the same offsets as `position_offset`.
proof fn lemma_positions(s: Seq<char>, offsets: Seq<usize>, p: Position)
    requires
        is_line_table(s, offsets),
    ensures
        (p.line as int) < offsets.len() <==> position_offset(s, p) is Some,
        (p.line as int) < offsets.len() ==> offsets[p.line as int] == byte_offset(
            s,
            line_start_indices(s)[p.line as int],
        ),
{
}

/// Once an edit is refused, so is the whole sequence.
proof fn lemma_refusal_stays(s: Seq<char>, edits: Seq<(Option<Range>, Seq<char>)>, k: int)
    requires
        0 <= k <= edits.len(),
        edits_outcome(s, edits.take(k)) is Refused,
    ensures
        edits_outcome(s, edits) is Refused,
    decreases edits.len() - k,
{
    if k < edits.len() {
        assert(edits.take(k + 1).drop_last() =~= edits.take(k));
        lemma_refusal_stays(s, edits, k + 1);
    } else {
        assert(edits.take(k) =~= edits);
    }
}

/// Once an edit splits a character, so does the whole sequence.
proof fn lemma_splits_stay(s: Seq<char>, edits: Seq<(Option<Range>, Seq<char>)>, k: int)
    requires
        0 <= k <= edits.len(),
        edits_outcome(s, edits.take(k)) is Splits,
    ensures
        edits_outcome(s, edits) is Splits,
    decreases edits.len() - k,
{
    if k < edits.len() {
        assert(edits.take(k + 1).drop_last() =~= edits.take(k));
        lemma_splits_stay(s, edits, k + 1);
    } else {
        assert(edits.take(k) =~= edits);
    }
}

/// A prefix of the edits that splits a character makes the whole sequence
/// split one.
proof fn lemma_outcome_prefix(s: Seq<char>, edits: Seq<(Option<Range>, Seq<char>)>, k: int)
    requires
        0 <= k <= edits.len(),
        !(edits_outcome(s, edits) is Splits),
    ensures
        !(edits_outcome(s, edits.take(k)) is Splits),
{
    if edits_outcome(s, edits.take(k)) is Splits {
        lemma_splits_stay(s, edits, k);
    }
}

} // verus!
