//! The parser of pattern files.

use vstd::prelude::*;
use vstd::string::*;
use vstd::utf8::*;
use crate::grammar::{
    faults_from, file_faults, file_token, is_blank, is_comment, is_escaped, is_negated,
    lemma_file_token_well_formed, lemma_line_end, lemma_next_line_boundary, lemma_path_stop,
    lemma_segment_end, line_end, line_fault, line_token, lines_from, newline_len, next_line,
    path_children, path_items, path_stop, segment_end, span_of, trimmed_end, BACKSLASH, BANG,
    HASH, SLASH,
};
use crate::span::Span;
use crate::text::{bytes_of, lemma_bytes_of_valid, lemma_next_boundary, on_boundary, slice};
use crate::token::{lemma_views_push, views};
pub use crate::token::{Token, TokenView};

verus! {

/// A malformed line, as found while parsing: where the fault lies and what it
/// is.
#[derive(Debug, PartialEq)]
pub struct PatternSyntaxError {
    pub span: Span,
    pub message: String,
}

/// What every fault of this grammar says: a `/` stands where none may.
pub open spec fn fault_message() -> Seq<char> {
    "found '/' where a segment, a line break or the end of the text was expected"@
}

impl Clone for PatternSyntaxError {
    /// A copy with the same span and message.
    fn clone(&self) -> (copy: PatternSyntaxError)
        ensures
            copy.span == self.span,
            copy.message@ == self.message@,
    {
        PatternSyntaxError { span: self.span, message: self.message.clone() }
    }
}

/// The message of a fault, as text.
fn fault_text() -> (text: String)
    ensures
        text@ == fault_message(),
{
    "found '/' where a segment, a line break or the end of the text was expected".to_owned()
}

/// The spans of `errors`, one by one.
pub open spec fn fault_spans(errors: Seq<PatternSyntaxError>) -> Seq<Span> {
    Seq::new(errors.len(), |i: int| errors[i].span)
}

/// Whether `found` is the error that a line with the fault `expected` gives.
pub open spec fn is_fault(found: Option<PatternSyntaxError>, expected: Option<Span>) -> bool {
    match (found, expected) {
        (Some(error), Some(span)) => error.span == span && error.message@ == fault_message(),
        (None, None) => true,
        _ => false,
    }
}

/// The length of the line break that starts at `at`.
fn newline_at(bytes: &[u8], at: usize) -> (len: usize)
    requires
        at <= bytes@.len(),
    ensures
        len == newline_len(bytes@, at as int),
        at + len <= bytes@.len(),
{
    let n = bytes.len();
    if at >= n {
        0
    } else if bytes[at] == 0x0d {
        if at + 1 < n && bytes[at + 1] == 0x0a {
            2
        } else {
            1
        }
    } else if bytes[at] == 0x0a || bytes[at] == 0x0b || bytes[at] == 0x0c {
        1
    } else if bytes[at] == 0xc2 && at + 1 < n && bytes[at + 1] == 0x85 {
        2
    } else if bytes[at] == 0xe2 && n - at > 2 && bytes[at + 1] == 0x80 && (bytes[at + 2] == 0xa8
        || bytes[at + 2] == 0xa9) {
        3
    } else {
        0
    }
}

/// The end of the line that holds `from`.
fn find_line_end(bytes: &[u8], from: usize) -> (end: usize)
    requires
        from <= bytes@.len(),
    ensures
        end == line_end(bytes@, from as int),
        from <= end <= bytes@.len(),
{
    let n = bytes.len();
    let mut at: usize = from;
    while at < n && newline_at(bytes, at) == 0
        invariant
            from <= at <= n,
            n == bytes@.len(),
            line_end(bytes@, at as int) == line_end(bytes@, from as int),
        decreases n - at,
    {
        at = at + 1;
    }
    at
}

/// The end of the segment that starts at `from`.
fn find_segment_end(bytes: &[u8], from: usize, to: usize) -> (end: usize)
    requires
        from <= to <= bytes@.len(),
    ensures
        end == segment_end(bytes@, from as int, to as int),
        from <= end <= to,
{
    let mut at: usize = from;
    while at < to && bytes[at] != SLASH
        invariant
            from <= at <= to <= bytes@.len(),
            segment_end(bytes@, at as int, to as int) == segment_end(
                bytes@,
                from as int,
                to as int,
            ),
        decreases to - at,
    {
        at = at + 1;
    }
    at
}

/// Where the path in `[from, to)` stops.
fn find_path_stop(bytes: &[u8], from: usize, to: usize) -> (stop: usize)
    requires
        from <= to <= bytes@.len(),
    ensures
        stop == path_stop(bytes@, from as int, to as int),
        from <= stop <= to,
{
    let mut at: usize = from;
    while at < to
        invariant
            from <= at <= to <= bytes@.len(),
            path_stop(bytes@, at as int, to as int) == path_stop(bytes@, from as int, to as int),
        decreases to - at,
    {
        if bytes[at] == SLASH && at + 1 < to && bytes[at + 1] == SLASH {
            return at + 1;
        }
        at = at + 1;
    }
    at
}

/// Whether the byte at `at` is a blank.
fn blank_at(bytes: &[u8], at: usize) -> (blank: bool)
    requires
        at < bytes@.len(),
    ensures
        blank == is_blank(bytes@[at as int]),
{
    bytes[at] == 0x20 || bytes[at] == 0x09
}

/// Whether the byte at `at` is escaped by the backslashes before it.
fn escaped_at(bytes: &[u8], from: usize, at: usize) -> (escaped: bool)
    requires
        from <= at <= bytes@.len(),
    ensures
        escaped == is_escaped(bytes@, from as int, at as int),
{
    let mut k: usize = at;
    let mut odd = false;
    while k > from && bytes[k - 1] == BACKSLASH
        invariant
            from <= k <= at <= bytes@.len(),
            is_escaped(bytes@, from as int, at as int) == (odd != is_escaped(
                bytes@,
                from as int,
                k as int,
            )),
        decreases k,
    {
        odd = !odd;
        k = k - 1;
    }
    odd
}

/// The end of the segment `[from, to)` once it is trimmed.
fn find_trimmed_end(bytes: &[u8], from: usize, to: usize) -> (end: usize)
    requires
        from <= to <= bytes@.len(),
    ensures
        end == trimmed_end(bytes@, from as int, to as int),
        from <= end <= to,
        end < to ==> is_blank(bytes@[end as int]),
{
    let mut end: usize = to;
    while end > from && blank_at(bytes, end - 1) && !escaped_at(bytes, from, end - 1)
        invariant
            from <= end <= to <= bytes@.len(),
            trimmed_end(bytes@, from as int, end as int) == trimmed_end(
                bytes@,
                from as int,
                to as int,
            ),
            end < to ==> is_blank(bytes@[end as int]),
        decreases end,
    {
        end = end - 1;
    }
    end
}

/// Parses the path line `[from, to)`.
fn parse_path(input: &str, bytes: &[u8], from: usize, to: usize) -> (out: (
    Token,
    Option<PatternSyntaxError>,
))
    requires
        bytes@ == bytes_of(input@),
        from <= to <= bytes@.len(),
        on_boundary(bytes@, from as int),
        on_boundary(bytes@, to as int),
        !is_comment(bytes@, from as int, to as int),
    ensures
        out.0@ == line_token(bytes@, from as int, to as int),
        is_fault(out.1, line_fault(bytes@, from as int, to as int)),
{
    proof {
        lemma_bytes_of_valid(input@);
    }
    let mut children: Vec<Token> = Vec::new();
    let mut pos: usize = from;
    if from < to && bytes[from] == BANG {
        children.push(Token::Negate { span: Span::new(from, from) });
        proof {
            lemma_next_boundary(bytes@, from as int);
        }
        pos = from + 1;
    }
    let ghost body = pos as int;
    let ghost head = views(children@);
    let stop = find_path_stop(bytes, pos, to);
    proof {
        lemma_path_stop(bytes@, pos as int, to as int);
        assert(head =~= if is_negated(bytes@, from as int, to as int) {
            seq![TokenView::Negate { span: span_of(from as int, from as int) }]
        } else {
            Seq::empty()
        });
    }
    while pos < stop
        invariant
            body <= pos <= stop <= to <= bytes@.len(),
            bytes@ == bytes_of(input@),
            valid_utf8(bytes@),
            on_boundary(bytes@, pos as int),
            on_boundary(bytes@, stop as int),
            views(children@) + path_items(bytes@, pos as int, stop as int) == head + path_items(
                bytes@,
                body,
                stop as int,
            ),
        decreases stop - pos,
    {
        let ghost before = children@;
        let ghost rest = path_items(bytes@, pos as int, stop as int);
        if bytes[pos] == SLASH {
            let token = Token::Separator { span: Span::new(pos, pos) };
            proof {
                lemma_next_boundary(bytes@, pos as int);
                lemma_views_push(before, token);
                assert(rest == seq![token@] + path_items(bytes@, pos + 1, stop as int));
                assert(views(before).push(token@) + path_items(bytes@, pos + 1, stop as int)
                    =~= views(before) + rest);
            }
            children.push(token);
            pos = pos + 1;
        } else {
            let end = find_segment_end(bytes, pos, stop);
            let cut = find_trimmed_end(bytes, pos, end);
            proof {
                lemma_segment_end(bytes@, pos as int, stop as int);
            }
            let value = slice(input, pos, cut).to_owned();
            let token = Token::Segment { span: Span::new(pos, end), value };
            proof {
                lemma_views_push(before, token);
                assert(rest == seq![token@] + path_items(bytes@, end as int, stop as int));
                assert(views(before).push(token@) + path_items(bytes@, end as int, stop as int)
                    =~= views(before) + rest);
            }
            children.push(token);
            pos = end;
        }
    }
    proof {
        assert(views(children@) =~= head + path_items(bytes@, body, stop as int));
        assert(views(children@) == path_children(bytes@, from as int, to as int));
    }
    let fault = if stop < to {
        Some(PatternSyntaxError { span: Span::new(stop, stop + 1), message: fault_text() })
    } else {
        None
    };
    (Token::Path { span: Span::new(from, stop), children }, fault)
}

/// Parses the line `[from, to)`.
fn parse_line(input: &str, bytes: &[u8], from: usize, to: usize) -> (out: (
    Token,
    Option<PatternSyntaxError>,
))
    requires
        bytes@ == bytes_of(input@),
        from <= to <= bytes@.len(),
        on_boundary(bytes@, from as int),
        on_boundary(bytes@, to as int),
    ensures
        out.0@ == line_token(bytes@, from as int, to as int),
        is_fault(out.1, line_fault(bytes@, from as int, to as int)),
{
    if from < to && bytes[from] == HASH {
        (Token::Comment { span: Span::new(from, to) }, None)
    } else {
        parse_path(input, bytes, from, to)
    }
}

/// Parses a whole text. The tree is a file with one child per line, and the
/// errors are those of the malformed lines, in source order. A malformed line
/// keeps the path that was read before its fault; the lines after it are
/// parsed as if it had been well formed.
pub fn parser(input: &str) -> (out: (Token, Vec<PatternSyntaxError>))
    ensures
        out.0@ == file_token(bytes_of(input@)),
        out.0@.well_formed(),
        fault_spans(out.1@) == file_faults(bytes_of(input@)),
        forall|i: int|
            0 <= i < out.1@.len() ==> (#[trigger] out.1@[i]).message@ == fault_message(),
{
    let bytes = input.as_bytes();
    let n = bytes.len();
    let mut children: Vec<Token> = Vec::new();
    let mut errors: Vec<PatternSyntaxError> = Vec::new();
    let mut from: usize = 0;
    proof {
        lemma_bytes_of_valid(input@);
        lemma_file_token_well_formed(bytes@);
        assert(bytes@ == bytes_of(input@));
        assert(views(children@) + lines_from(bytes@, 0) =~= lines_from(bytes@, 0));
        assert(fault_spans(errors@) + faults_from(bytes@, 0) =~= faults_from(bytes@, 0));
    }
    loop
        invariant_except_break
            views(children@) + lines_from(bytes@, from as int) == lines_from(bytes@, 0),
            fault_spans(errors@) + faults_from(bytes@, from as int) == faults_from(bytes@, 0),
        invariant
            from <= n,
            n == bytes@.len(),
            bytes@ == bytes_of(input@),
            valid_utf8(bytes@),
            on_boundary(bytes@, from as int),
            forall|i: int|
                0 <= i < errors@.len() ==> (#[trigger] errors@[i]).message@ == fault_message(),
        ensures
            views(children@) == lines_from(bytes@, 0),
            fault_spans(errors@) == faults_from(bytes@, 0),
        decreases n - from,
    {
        let end = find_line_end(bytes, from);
        let width = newline_at(bytes, end);
        proof {
            lemma_line_end(bytes@, from as int);
            if end < n {
                lemma_next_line_boundary(bytes@, end as int);
            }
        }
        let (token, fault) = parse_line(input, bytes, from, end);
        let ghost lines_before = children@;
        let ghost faults_before = errors@;
        let ghost found = match line_fault(bytes@, from as int, end as int) {
            Some(span) => seq![span],
            None => Seq::empty(),
        };
        proof {
            lemma_views_push(lines_before, token);
        }
        children.push(token);
        match fault {
            Some(error) => {
                errors.push(error);
            },
            None => {},
        }
        proof {
            assert(fault_spans(errors@) =~= fault_spans(faults_before) + found);
        }
        if width == 0 {
            proof {
                assert(views(children@) =~= views(lines_before) + lines_from(bytes@, from as int));
                assert(fault_spans(errors@) =~= fault_spans(faults_before) + faults_from(
                    bytes@,
                    from as int,
                ));
            }
            break ;
        }
        proof {
            let next = next_line(bytes@, end as int);
            assert(views(children@) + lines_from(bytes@, next) =~= views(lines_before)
                + lines_from(bytes@, from as int));
            assert(fault_spans(errors@) + faults_from(bytes@, next) =~= fault_spans(faults_before)
                + faults_from(bytes@, from as int));
        }
        from = end + width;
    }
    (Token::File { span: Span::new(0, n), children }, errors)
}

/// The parse tree of one text.
#[derive(Debug)]
pub struct ParseTree {
    pub root: Token,
}

impl Clone for ParseTree {
    /// A copy of the whole tree.
    fn clone(&self) -> (copy: ParseTree)
        ensures
            copy.root@ == self.root@,
    {
        ParseTree { root: self.root.clone() }
    }
}

impl ParseTree {
    /// Parses `input`. There is always a tree: its root is a file that spans
    /// the whole text and has one child per line. There is one error for each
    /// malformed line, in source order, and none where every line is well
    /// formed.
    pub fn generate_from(input: &str) -> (out: (Option<ParseTree>, Vec<PatternSyntaxError>))
        ensures
            out.0 is Some,
            out.0->0.root@ == file_token(bytes_of(input@)),
            out.0->0.root@.well_formed(),
            fault_spans(out.1@) == file_faults(bytes_of(input@)),
            forall|i: int|
                0 <= i < out.1@.len() ==> (#[trigger] out.1@[i]).message@ == fault_message(),
    {
        let (root, errors) = parser(input);
        (Some(ParseTree { root }), errors)
    }
}

} // verus!
