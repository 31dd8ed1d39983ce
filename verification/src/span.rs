use vstd::prelude::*;

verus! {

/// A source region: 1-based line/column pairs plus byte offsets for both ends.
/// Line 0 marks a synthetic span that has no place in any source text.
#[derive(Debug, Clone, Copy, PartialEq, Eq, Structural)]
pub struct Span {
    pub line: usize,
    pub column: usize,
    pub offset: usize,
    pub end_line: usize,
    pub end_column: usize,
    pub end_offset: usize,
}

impl Default for Span {
    fn default() -> (span: Span)
        ensures
            span == Span::synthetic(),
    {
        Span { line: 0, column: 0, offset: 0, end_line: 0, end_column: 0, end_offset: 0 }
    }
}

impl View for Span {
    type V = Span;

    open spec fn view(&self) -> Span {
        *self
    }
}

impl Span {
    /// The all-zero span used where no source location exists.
    pub open spec fn synthetic() -> Span {
        Span { line: 0, column: 0, offset: 0, end_line: 0, end_column: 0, end_offset: 0 }
    }

    /// The offset one past the region, never before its start.
    pub open spec fn spec_exclusive_end(self) -> int {
        if self.end_offset > self.offset { self.end_offset as int } else { self.offset + 1 }
    }

    /// A point span whose end coincides with its start.
    pub fn new(line: usize, column: usize, offset: usize) -> (span: Span)
        ensures
            span == (Span {
                line,
                column,
                offset,
                end_line: line,
                end_column: column,
                end_offset: offset,
            }),
    {
        Span { line, column, offset, end_line: line, end_column: column, end_offset: offset }
    }

    pub fn range(
        line: usize,
        column: usize,
        offset: usize,
        end_line: usize,
        end_column: usize,
        end_offset: usize,
    ) -> (span: Span)
        ensures
            span == (Span { line, column, offset, end_line, end_column, end_offset }),
    {
        Span { line, column, offset, end_line, end_column, end_offset }
    }

    /// Number of bytes covered, zero when the end precedes the start.
    pub fn width(&self) -> (w: usize)
        ensures
            w == (if self.end_offset >= self.offset { (self.end_offset - self.offset) as usize } else { 0usize }),
    {
        if self.end_offset >= self.offset {
            self.end_offset - self.offset
        } else {
            0
        }
    }

    /// Whether `offset` falls inside the span; an empty span still owns its
    /// start byte.
    pub fn contains_offset(&self, offset: usize) -> (b: bool)
        ensures
            b == (self.offset <= offset && offset < self.spec_exclusive_end()),
    {
        self.offset <= offset && (offset < self.end_offset || offset == self.offset)
    }

    /// Covers from this span's start to `other`'s end. A synthetic side
    /// (line 0) yields the other span unchanged.
    pub fn merge(self, other: Span) -> (merged: Span)
        ensures
            self.line == 0 ==> merged == other,
            self.line != 0 && other.line == 0 ==> merged == self,
            self.line != 0 && other.line != 0 ==> merged == (Span {
                line: self.line,
                column: self.column,
                offset: self.offset,
                end_line: other.end_line,
                end_column: other.end_column,
                end_offset: other.end_offset,
            }),
    {
        if self.line == 0 {
            return other;
        }
        if other.line == 0 {
            return self;
        }
        Span {
            line: self.line,
            column: self.column,
            offset: self.offset,
            end_line: other.end_line,
            end_column: other.end_column,
            end_offset: other.end_offset,
        }
    }
}

} // verus!
