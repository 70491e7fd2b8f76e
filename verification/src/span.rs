//! Byte spans in a source text, and line/column positions in a document.

use vstd::prelude::*;

verus! {

/// A half-open interval `[start, end)` of byte offsets in a source text.
#[derive(Clone, Copy, Debug, PartialEq, Eq, Structural)]
pub struct Span {
    pub start: usize,
    pub end: usize,
}

impl Span {
    /// Builds the span `[start, end)`.
    pub fn new(start: usize, end: usize) -> (span: Span)
        ensures
            span == (Span { start, end }),
    {
        Span { start, end }
    }

    /// A span covers no byte when its two ends meet.
    pub open spec fn is_empty(self) -> bool {
        self.start == self.end
    }

    /// Whether the span holds `offset`: a span of no width holds only its own
    /// start, any other span holds its start and every offset before its end.
    pub open spec fn holds(self, offset: int) -> bool {
        if self.start == self.end {
            offset == self.start
        } else {
            self.start <= offset < self.end
        }
    }

    /// Whether the span encloses `offset`, its end included.
    pub open spec fn encloses(self, offset: int) -> bool {
        self.start <= offset <= self.end
    }

    /// Executable form of [`Span::holds`].
    pub fn contains(&self, offset: usize) -> (found: bool)
        ensures
            found == self.holds(offset as int),
    {
        if self.start == self.end {
            offset == self.start
        } else {
            self.start <= offset && offset < self.end
        }
    }

    /// Executable form of [`Span::encloses`].
    pub fn surrounds(&self, offset: usize) -> (found: bool)
        ensures
            found == self.encloses(offset as int),
    {
        self.start <= offset && offset <= self.end
    }
}

/// A place in a document: a line, and a column counted in UTF-16 code units.
#[derive(Clone, Copy, Debug, PartialEq, Eq, Structural)]
pub struct Position {
    pub line: u32,
    pub character: u32,
}

impl Position {
    /// Builds the position at `line` and `character`.
    pub fn new(line: u32, character: u32) -> (position: Position)
        ensures
            position == (Position { line, character }),
    {
        Position { line, character }
    }
}

/// The stretch of a document between two positions, the second excluded.
#[derive(Clone, Copy, Debug, PartialEq, Eq, Structural)]
pub struct Range {
    pub start: Position,
    pub end: Position,
}

impl Range {
    /// Builds the range from `start` up to `end`.
    pub fn new(start: Position, end: Position) -> (range: Range)
        ensures
            range == (Range { start, end }),
    {
        Range { start, end }
    }
}

} // verus!
