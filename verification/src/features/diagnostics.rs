//! Diagnostics: the faults of a document, placed by line and column.

use vstd::prelude::*;
use vstd::string::*;
use crate::file::{position_of, saturated, File};
use crate::parser::PatternSyntaxError;
use crate::span::{Position, Range, Span};

verus! {

/// How grave a diagnostic is. Every fault of a pattern file is an error.
#[derive(Clone, Copy, Debug, PartialEq, Eq, Structural)]
pub enum Severity {
    Error,
}

/// One fault of a document as an editor shows it.
#[derive(Debug)]
pub struct Diagnostic {
    pub range: Range,
    pub severity: Severity,
    pub source: String,
    pub message: String,
}

/// Maker of diagnostics.
pub struct Diagnostics {}

/// The name under which diagnostics are reported.
pub open spec fn source_tag() -> Seq<char> {
    "Gitignore Ultimate"@
}

/// The line and column of `offset` in a text, each as a `u32`.
pub open spec fn place_of(bytes: Seq<u8>, offset: int) -> Position {
    Position {
        line: saturated(position_of(bytes, offset).0),
        character: saturated(position_of(bytes, offset).1),
    }
}

/// The range of lines and columns that `span` covers in a text.
pub open spec fn range_of(bytes: Seq<u8>, span: Span) -> Range {
    Range { start: place_of(bytes, span.start as int), end: place_of(bytes, span.end as int) }
}

/// Whether `diagnostic` reports a fault at `span` of a text that says
/// `message`: at the range of the span, as an error, under the fixed name,
/// with that message.
pub open spec fn reports(
    diagnostic: Diagnostic,
    span: Span,
    message: Seq<char>,
    bytes: Seq<u8>,
) -> bool {
    &&& diagnostic.range == range_of(bytes, span)
    &&& diagnostic.severity == Severity::Error
    &&& diagnostic.source@ == source_tag()
    &&& diagnostic.message@ == message
}

impl Diagnostics {
    /// One diagnostic for each of `errors`, in their order; none where there
    /// are no errors.
    pub fn generate(errors: Vec<PatternSyntaxError>, file: &File) -> (diagnostics: Vec<Diagnostic>)
        ensures
            diagnostics@.len() == errors@.len(),
            forall|i: int|
                0 <= i < errors@.len() ==> reports(
                    #[trigger] diagnostics@[i],
                    errors@[i].span,
                    errors@[i].message@,
                    file.bytes(),
                ),
    {
        let mut diagnostics: Vec<Diagnostic> = Vec::new();
        let mut i: usize = 0;
        while i < errors.len()
            invariant
                i <= errors@.len(),
                diagnostics@.len() == i,
                forall|k: int|
                    0 <= k < i ==> reports(
                        #[trigger] diagnostics@[k],
                        errors@[k].span,
                        errors@[k].message@,
                        file.bytes(),
                    ),
            decreases errors@.len() - i,
        {
            let error = &errors[i];
            let (start_line, start_char) = file.get_position_at(error.span.start);
            let (end_line, end_char) = file.get_position_at(error.span.end);
            let range = Range::new(
                Position::new(start_line, start_char),
                Position::new(end_line, end_char),
            );
            diagnostics.push(
                Diagnostic {
                    range,
                    severity: Severity::Error,
                    source: "Gitignore Ultimate".to_owned(),
                    message: error.message.clone(),
                },
            );
            i = i + 1;
        }
        diagnostics
    }
}

} // verus!
