//! The grammar of a pattern file, stated over the bytes of its text.
//!
//! A file is a run of lines parted by line breaks. A line that starts with
//! `#` is a comment. Every other line is a path: an optional `!`, then
//! segments parted by single `/`. Two `/` in a row are a fault: the path ends
//! before the second one and the rest of the line is skipped.

use vstd::prelude::*;
use vstd::utf8::*;
use crate::text::{lemma_next_boundary, on_boundary};
use crate::token::{lemma_lie_within_joined, lemma_one_lies_within, lie_within, TokenView};
use crate::span::Span;

verus! {

/// The byte `/`, which parts the segments of a path.
pub const SLASH: u8 = 0x2f;

/// The byte `!`, which negates a path at the start of its line.
pub const BANG: u8 = 0x21;

/// The byte `#`, which makes a line a comment at its start.
pub const HASH: u8 = 0x23;

/// The byte `\`, which escapes the byte behind it.
pub const BACKSLASH: u8 = 0x5c;

/// How many bytes the line break takes that starts at `at`; zero where none
/// starts. Line breaks are line feed, carriage return with or without a line
/// feed behind it, vertical tab, form feed, next line (U+0085), line separator
/// (U+2028) and paragraph separator (U+2029).
pub open spec fn newline_len(bytes: Seq<u8>, at: int) -> int {
    if at < 0 || at >= bytes.len() {
        0
    } else if bytes[at] == 0x0d {
        if at + 1 < bytes.len() && bytes[at + 1] == 0x0a {
            2
        } else {
            1
        }
    } else if bytes[at] == 0x0a || bytes[at] == 0x0b || bytes[at] == 0x0c {
        1
    } else if bytes[at] == 0xc2 && at + 1 < bytes.len() && bytes[at + 1] == 0x85 {
        2
    } else if bytes[at] == 0xe2 && at + 2 < bytes.len() && bytes[at + 1] == 0x80 && (bytes[at
        + 2] == 0xa8 || bytes[at + 2] == 0xa9) {
        3
    } else {
        0
    }
}

/// Where the line ends that holds `from`: at the first line break at or after
/// `from`, or at the end of the text.
pub open spec fn line_end(bytes: Seq<u8>, from: int) -> int
    decreases bytes.len() - from,
{
    if from < 0 || from >= bytes.len() {
        bytes.len() as int
    } else if newline_len(bytes, from) > 0 {
        from
    } else {
        line_end(bytes, from + 1)
    }
}

/// Space and horizontal tab are the whitespace that is trimmed.
pub open spec fn is_blank(byte: u8) -> bool {
    byte == 0x20 || byte == 0x09
}

/// How many backslashes stand in a row right before `at`, none of them before
/// `from`.
pub open spec fn backslashes_before(bytes: Seq<u8>, from: int, at: int) -> nat
    decreases at - from,
{
    if at <= from || bytes[at - 1] != BACKSLASH {
        0
    } else {
        1 + backslashes_before(bytes, from, at - 1)
    }
}

/// A byte is escaped when an odd number of backslashes stands right before it.
pub open spec fn is_escaped(bytes: Seq<u8>, from: int, at: int) -> bool {
    backslashes_before(bytes, from, at) % 2 == 1
}

/// Where the segment `[from, to)` ends once its trailing whitespace is
/// trimmed. An escaped blank is kept, and so is everything before it.
pub open spec fn trimmed_end(bytes: Seq<u8>, from: int, to: int) -> int
    decreases to - from,
{
    if to <= from {
        from
    } else if is_blank(bytes[to - 1]) && !is_escaped(bytes, from, to - 1) {
        trimmed_end(bytes, from, to - 1)
    } else {
        to
    }
}

/// Where the segment ends that starts at `from`: at the first `/` at or after
/// `from`, or at `to`.
pub open spec fn segment_end(bytes: Seq<u8>, from: int, to: int) -> int
    decreases to - from,
{
    if from >= to {
        to
    } else if bytes[from] == SLASH {
        from
    } else {
        segment_end(bytes, from + 1, to)
    }
}

/// Where the path in `[from, to)` stops: at the second of the first two `/` in
/// a row, or at `to` where no two stand in a row.
pub open spec fn path_stop(bytes: Seq<u8>, from: int, to: int) -> int
    decreases to - from,
{
    if from >= to {
        to
    } else if bytes[from] == SLASH && from + 1 < to && bytes[from + 1] == SLASH {
        from + 1
    } else {
        path_stop(bytes, from + 1, to)
    }
}

/// The span `[from, to)`.
pub open spec fn span_of(from: int, to: int) -> Span {
    Span { start: from as usize, end: to as usize }
}

/// The text of the segment `[from, to)`: its bytes up to the trimmed end, as
/// characters.
pub open spec fn segment_text(bytes: Seq<u8>, from: int, to: int) -> Seq<char> {
    decode_utf8(bytes.subrange(from, trimmed_end(bytes, from, to)))
}

/// The separators and segments of `[from, to)` in their order. A separator is
/// a mark of no width at its `/`; a segment spans all bytes up to the next `/`.
pub open spec fn path_items(bytes: Seq<u8>, from: int, to: int) -> Seq<TokenView>
    decreases to - from,
    via path_items_ends
{
    if from >= to {
        Seq::empty()
    } else if bytes[from] == SLASH {
        seq![TokenView::Separator { span: span_of(from, from) }] + path_items(bytes, from + 1, to)
    } else {
        let end = segment_end(bytes, from, to);
        seq![
            TokenView::Segment { span: span_of(from, end), value: segment_text(bytes, from, end) },
        ] + path_items(bytes, end, to)
    }
}

/// Why `path_items` comes to an end: the next stretch is shorter.
#[via_fn]
proof fn path_items_ends(bytes: Seq<u8>, from: int, to: int) {
    if from < to {
        lemma_segment_end(bytes, from, to);
    }
}

/// Whether the line `[from, to)` is a comment.
pub open spec fn is_comment(bytes: Seq<u8>, from: int, to: int) -> bool {
    from < to && bytes[from] == HASH
}

/// Whether the line `[from, to)` starts with the negation mark.
pub open spec fn is_negated(bytes: Seq<u8>, from: int, to: int) -> bool {
    from < to && bytes[from] == BANG
}

/// Where the separators and segments of the path line `[from, to)` start:
/// behind the negation mark, if there is one.
pub open spec fn body_start(bytes: Seq<u8>, from: int, to: int) -> int {
    if is_negated(bytes, from, to) {
        from + 1
    } else {
        from
    }
}

/// Where the line `[from, to)` stops being parsed: at its end, or for a path
/// with two `/` in a row at the second of them.
pub open spec fn line_stop(bytes: Seq<u8>, from: int, to: int) -> int {
    if is_comment(bytes, from, to) {
        to
    } else {
        path_stop(bytes, body_start(bytes, from, to), to)
    }
}

/// Whether the line `[from, to)` is malformed.
pub open spec fn has_fault(bytes: Seq<u8>, from: int, to: int) -> bool {
    line_stop(bytes, from, to) < to
}

/// The children of the path line `[from, to)`: the negation mark, of no
/// width, where the line has one, then the separators and segments up to where
/// the path stops.
pub open spec fn path_children(bytes: Seq<u8>, from: int, to: int) -> Seq<TokenView> {
    let body = body_start(bytes, from, to);
    let items = path_items(bytes, body, line_stop(bytes, from, to));
    if is_negated(bytes, from, to) {
        seq![TokenView::Negate { span: span_of(from, from) }] + items
    } else {
        items
    }
}

/// The node of the line `[from, to)`: a comment over the whole line, or a
/// path over what was parsed of it.
pub open spec fn line_token(bytes: Seq<u8>, from: int, to: int) -> TokenView {
    if is_comment(bytes, from, to) {
        TokenView::Comment { span: span_of(from, to) }
    } else {
        TokenView::Path {
            span: span_of(from, line_stop(bytes, from, to)),
            children: path_children(bytes, from, to),
        }
    }
}

/// The span of the fault in the line `[from, to)`, where it has one: the `/`
/// that the path stopped at.
pub open spec fn line_fault(bytes: Seq<u8>, from: int, to: int) -> Option<Span> {
    if has_fault(bytes, from, to) {
        let stop = line_stop(bytes, from, to);
        Some(span_of(stop, stop + 1))
    } else {
        None
    }
}

/// The bytes of `[from, to)` as they are read: every `/`, and every segment
/// up to its trimmed end.
pub open spec fn trimmed_source(bytes: Seq<u8>, from: int, to: int) -> Seq<u8>
    decreases to - from,
    via trimmed_source_ends
{
    if from >= to {
        Seq::empty()
    } else if bytes[from] == SLASH {
        seq![SLASH] + trimmed_source(bytes, from + 1, to)
    } else {
        let end = segment_end(bytes, from, to);
        bytes.subrange(from, trimmed_end(bytes, from, end)) + trimmed_source(bytes, end, to)
    }
}

/// Why `trimmed_source` comes to an end: the next stretch is shorter.
#[via_fn]
proof fn trimmed_source_ends(bytes: Seq<u8>, from: int, to: int) {
    if from < to {
        lemma_segment_end(bytes, from, to);
    }
}

/// Whether no segment of `[from, to)` ends in whitespace that is trimmed.
pub open spec fn is_untrimmed(bytes: Seq<u8>, from: int, to: int) -> bool
    decreases to - from,
    via is_untrimmed_ends
{
    if from >= to {
        true
    } else if bytes[from] == SLASH {
        is_untrimmed(bytes, from + 1, to)
    } else {
        let end = segment_end(bytes, from, to);
        trimmed_end(bytes, from, end) == end && is_untrimmed(bytes, end, to)
    }
}

/// Why `is_untrimmed` comes to an end: the next stretch is shorter.
#[via_fn]
proof fn is_untrimmed_ends(bytes: Seq<u8>, from: int, to: int) {
    if from < to {
        lemma_segment_end(bytes, from, to);
    }
}

/// Whether the line `[from, to)` holds a pattern: it is no comment, and some
/// byte of it is neither a `/` nor a blank.
pub open spec fn has_pattern(bytes: Seq<u8>, from: int, to: int) -> bool {
    !is_comment(bytes, from, to) && exists|k: int| is_pattern_byte(bytes, from, to, k)
}

/// Whether the byte at `at` lies in `[from, to)` and is neither a `/` nor a
/// blank.
pub open spec fn is_pattern_byte(bytes: Seq<u8>, from: int, to: int, at: int) -> bool {
    from <= at < to && bytes[at] != SLASH && !is_blank(bytes[at])
}

/// Where the line starts that follows the line ending at `end`.
pub open spec fn next_line(bytes: Seq<u8>, end: int) -> int {
    end + newline_len(bytes, end)
}

/// The nodes of the lines from the one that starts at `from` on. The text
/// behind the last line break is a line too, also where it is empty.
pub open spec fn lines_from(bytes: Seq<u8>, from: int) -> Seq<TokenView>
    decreases bytes.len() - from,
    via lines_from_ends
{
    let end = line_end(bytes, from);
    let line = seq![line_token(bytes, from, end)];
    if from < 0 || end >= bytes.len() || newline_len(bytes, end) <= 0 {
        line
    } else {
        line + lines_from(bytes, next_line(bytes, end))
    }
}

/// The spans of the faults in the lines from the one that starts at `from` on,
/// in the order of the lines.
pub open spec fn faults_from(bytes: Seq<u8>, from: int) -> Seq<Span>
    decreases bytes.len() - from,
    via faults_from_ends
{
    let end = line_end(bytes, from);
    let fault = match line_fault(bytes, from, end) {
        Some(span) => seq![span],
        None => Seq::empty(),
    };
    if from < 0 || end >= bytes.len() || newline_len(bytes, end) <= 0 {
        fault
    } else {
        fault + faults_from(bytes, next_line(bytes, end))
    }
}

/// Why `lines_from` comes to an end: the next stretch is shorter.
#[via_fn]
proof fn lines_from_ends(bytes: Seq<u8>, from: int) {
    if 0 <= from <= bytes.len() {
        lemma_line_end(bytes, from);
    }
}

/// Why `faults_from` comes to an end: the next stretch is shorter.
#[via_fn]
proof fn faults_from_ends(bytes: Seq<u8>, from: int) {
    if 0 <= from <= bytes.len() {
        lemma_line_end(bytes, from);
    }
}

/// The tree of a whole text: a file over all of it, with one child per line.
pub open spec fn file_token(bytes: Seq<u8>) -> TokenView {
    TokenView::File { span: span_of(0, bytes.len() as int), children: lines_from(bytes, 0) }
}

/// The spans of all faults of a text, in source order.
pub open spec fn file_faults(bytes: Seq<u8>) -> Seq<Span> {
    faults_from(bytes, 0)
}

/// A line ends within the text, at or after where it starts, and no line break
/// starts inside it.
pub proof fn lemma_line_end(bytes: Seq<u8>, from: int)
    requires
        0 <= from <= bytes.len(),
    ensures
        from <= line_end(bytes, from) <= bytes.len(),
        line_end(bytes, from) < bytes.len() ==> newline_len(bytes, line_end(bytes, from)) > 0,
        forall|k: int| from <= k < line_end(bytes, from) ==> newline_len(bytes, k) == 0,
    decreases bytes.len() - from,
{
    if from < bytes.len() && newline_len(bytes, from) <= 0 {
        lemma_line_end(bytes, from + 1);
    }
}

/// A segment ends within its bounds, at a `/` unless at the upper bound, and
/// holds no `/`.
pub proof fn lemma_segment_end(bytes: Seq<u8>, from: int, to: int)
    requires
        from <= to,
    ensures
        from <= segment_end(bytes, from, to) <= to,
        segment_end(bytes, from, to) < to ==> bytes[segment_end(bytes, from, to)] == SLASH,
        forall|k: int| from <= k < segment_end(bytes, from, to) ==> bytes[k] != SLASH,
    decreases to - from,
{
    if from < to && bytes[from] != SLASH {
        lemma_segment_end(bytes, from + 1, to);
    }
}

/// A path stops within its bounds; where it stops early, it stops between two
/// `/`; and no two `/` stand in a row before where it stops.
pub proof fn lemma_path_stop(bytes: Seq<u8>, from: int, to: int)
    requires
        from <= to,
    ensures
        from <= path_stop(bytes, from, to) <= to,
        path_stop(bytes, from, to) < to ==> {
            &&& from < path_stop(bytes, from, to)
            &&& bytes[path_stop(bytes, from, to) - 1] == SLASH
            &&& bytes[path_stop(bytes, from, to)] == SLASH
        },
        forall|k: int|
            from <= k && k + 1 < path_stop(bytes, from, to) ==> !(#[trigger] bytes[k] == SLASH
                && bytes[k + 1] == SLASH),
    decreases to - from,
{
    if from < to && !(bytes[from] == SLASH && from + 1 < to && bytes[from + 1] == SLASH) {
        lemma_path_stop(bytes, from + 1, to);
    }
}

/// Trimming leaves an end within the segment.
pub proof fn lemma_trimmed_end(bytes: Seq<u8>, from: int, to: int)
    requires
        from <= to,
    ensures
        from <= trimmed_end(bytes, from, to) <= to,
        trimmed_end(bytes, from, to) < to ==> is_blank(bytes[trimmed_end(bytes, from, to)]),
    decreases to - from,
{
    if from < to && is_blank(bytes[to - 1]) && !is_escaped(bytes, from, to - 1) {
        lemma_trimmed_end(bytes, from, to - 1);
    }
}

/// Trimming leaves something of a segment exactly where some byte of the
/// segment is no blank.
pub proof fn lemma_trimmed_to_nothing(bytes: Seq<u8>, from: int, to: int)
    requires
        from <= to,
    ensures
        trimmed_end(bytes, from, to) > from <==> exists|k: int|
            from <= k < to && !is_blank(#[trigger] bytes[k]),
    decreases to - from,
{
    if from < to {
        if is_blank(bytes[to - 1]) && !is_escaped(bytes, from, to - 1) {
            lemma_trimmed_to_nothing(bytes, from, to - 1);
            if trimmed_end(bytes, from, to) > from {
                let k = choose|k: int| from <= k < to - 1 && !is_blank(#[trigger] bytes[k]);
                assert(from <= k < to && !is_blank(bytes[k]));
            } else {
                assert forall|k: int| from <= k < to implies is_blank(#[trigger] bytes[k]) by {
                    if k < to - 1 {
                        assert(!(from <= k < to - 1 && !is_blank(bytes[k])));
                    }
                }
            }
        } else if is_blank(bytes[to - 1]) {
            assert(backslashes_before(bytes, from, to - 1) >= 1);
            assert(bytes[to - 2] == BACKSLASH);
            assert(from <= to - 2 < to && !is_blank(bytes[to - 2]));
        } else {
            assert(from <= to - 1 < to && !is_blank(bytes[to - 1]));
        }
    }
}

/// Where nothing is trimmed, what is read of a stretch is all of it.
pub proof fn lemma_untrimmed_source(bytes: Seq<u8>, from: int, to: int)
    requires
        0 <= from <= to <= bytes.len(),
        is_untrimmed(bytes, from, to),
    ensures
        trimmed_source(bytes, from, to) == bytes.subrange(from, to),
    decreases to - from,
{
    if from >= to {
        assert(trimmed_source(bytes, from, to) =~= bytes.subrange(from, to));
    } else if bytes[from] == SLASH {
        lemma_untrimmed_source(bytes, from + 1, to);
        assert(seq![SLASH] + bytes.subrange(from + 1, to) =~= bytes.subrange(from, to));
    } else {
        let end = segment_end(bytes, from, to);
        lemma_segment_end(bytes, from, to);
        lemma_untrimmed_source(bytes, end, to);
        assert(bytes.subrange(from, end) + bytes.subrange(end, to) =~= bytes.subrange(from, to));
    }
}

/// Whether two `/` stand in a row at `at` and behind it, within `[from, to)`.
pub open spec fn is_double_separator(bytes: Seq<u8>, from: int, to: int, at: int) -> bool {
    from <= at && at + 1 < to && bytes[at] == SLASH && bytes[at + 1] == SLASH
}

/// A path stops before its end exactly where it holds two `/` in a row.
pub proof fn lemma_stop_is_double_separator(bytes: Seq<u8>, from: int, to: int)
    requires
        from <= to,
    ensures
        path_stop(bytes, from, to) < to <==> exists|at: int|
            is_double_separator(bytes, from, to, at),
{
    lemma_path_stop(bytes, from, to);
    let stop = path_stop(bytes, from, to);
    if stop < to {
        assert(is_double_separator(bytes, from, to, stop - 1));
    } else {
        assert forall|at: int| !is_double_separator(bytes, from, to, at) by {
            if from <= at && at + 1 < to {
                assert(!(bytes[at] == SLASH && bytes[at + 1] == SLASH));
            }
        }
    }
}

/// After a line break the next line starts on a character boundary.
pub proof fn lemma_next_line_boundary(bytes: Seq<u8>, end: int)
    requires
        valid_utf8(bytes),
        0 <= end < bytes.len(),
        newline_len(bytes, end) > 0,
    ensures
        on_boundary(bytes, end),
        on_boundary(bytes, next_line(bytes, end)),
{
    lemma_next_boundary(bytes, end);
    if bytes[end] == 0x0d && end + 1 < bytes.len() && bytes[end + 1] == 0x0a {
        lemma_next_boundary(bytes, end + 1);
    }
}

/// The separators and segments of a stretch of a line lie within it.
pub proof fn lemma_items_lie_within(bytes: Seq<u8>, from: int, to: int)
    requires
        0 <= from <= to <= bytes.len() <= usize::MAX,
    ensures
        lie_within(path_items(bytes, from, to), from, to),
    decreases to - from,
{
    if from < to {
        if bytes[from] == SLASH {
            let mark = TokenView::Separator { span: span_of(from, from) };
            lemma_items_lie_within(bytes, from + 1, to);
            lemma_one_lies_within(mark, from, from);
            lemma_lie_within_joined(
                seq![mark],
                path_items(bytes, from + 1, to),
                from,
                from,
                from + 1,
                to,
            );
        } else {
            let end = segment_end(bytes, from, to);
            lemma_segment_end(bytes, from, to);
            let segment = TokenView::Segment {
                span: span_of(from, end),
                value: segment_text(bytes, from, end),
            };
            lemma_items_lie_within(bytes, end, to);
            lemma_one_lies_within(segment, from, end);
            lemma_lie_within_joined(seq![segment], path_items(bytes, end, to), from, end, end, to);
        }
    }
}

/// The node of a line is well formed and lies within the line.
pub proof fn lemma_line_token_well_formed(bytes: Seq<u8>, from: int, to: int)
    requires
        0 <= from <= to <= bytes.len() <= usize::MAX,
    ensures
        line_token(bytes, from, to).well_formed(),
        line_token(bytes, from, to).span().start == from,
        line_token(bytes, from, to).span().end <= to,
{
    if !is_comment(bytes, from, to) {
        let body = body_start(bytes, from, to);
        let stop = line_stop(bytes, from, to);
        lemma_path_stop(bytes, body, to);
        lemma_items_lie_within(bytes, body, stop);
        if is_negated(bytes, from, to) {
            let mark = TokenView::Negate { span: span_of(from, from) };
            lemma_one_lies_within(mark, from, from);
            lemma_lie_within_joined(
                seq![mark],
                path_items(bytes, body, stop),
                from,
                from,
                body,
                stop,
            );
        }
    }
}

/// The nodes of the lines from the one that starts at `from` on lie within
/// the text behind `from`.
pub proof fn lemma_lines_lie_within(bytes: Seq<u8>, from: int)
    requires
        0 <= from <= bytes.len() <= usize::MAX,
    ensures
        lie_within(lines_from(bytes, from), from, bytes.len() as int),
    decreases bytes.len() - from,
{
    let end = line_end(bytes, from);
    lemma_line_end(bytes, from);
    lemma_line_token_well_formed(bytes, from, end);
    let line = line_token(bytes, from, end);
    lemma_one_lies_within(line, from, end);
    if end >= bytes.len() || newline_len(bytes, end) <= 0 {
    } else {
        let next = next_line(bytes, end);
        lemma_lines_lie_within(bytes, next);
        lemma_lie_within_joined(
            seq![line],
            lines_from(bytes, next),
            from,
            end,
            next,
            bytes.len() as int,
        );
    }
}

/// The tree of a text is well formed.
pub proof fn lemma_file_token_well_formed(bytes: Seq<u8>)
    requires
        bytes.len() <= usize::MAX,
    ensures
        file_token(bytes).well_formed(),
{
    lemma_lines_lie_within(bytes, 0);
}

/// Where no line from `from` on is malformed, the nodes of the lines cover
/// the text from `from` to its end but for the line breaks: the first starts
/// at `from`, each next one starts behind the line break at which the one
/// before ends, and the last ends where the text ends.
pub proof fn lemma_lines_are_contiguous(bytes: Seq<u8>, from: int)
    requires
        0 <= from <= bytes.len() <= usize::MAX,
        faults_from(bytes, from).len() == 0,
    ensures
        lines_from(bytes, from).len() >= 1,
        lines_from(bytes, from)[0].span().start == from,
        lines_from(bytes, from).last().span().end == bytes.len(),
        forall|i: int|
            0 <= i && i + 1 < lines_from(bytes, from).len() ==> (#[trigger] lines_from(
                bytes,
                from,
            )[i + 1]).span().start == next_line(
                bytes,
                lines_from(bytes, from)[i].span().end as int,
            ),
    decreases bytes.len() - from,
{
    let end = line_end(bytes, from);
    lemma_line_end(bytes, from);
    let line = line_token(bytes, from, end);
    let lines = lines_from(bytes, from);
    assert(line_fault(bytes, from, end) is None);
    lemma_path_stop(bytes, body_start(bytes, from, end), end);
    assert(line.span() == span_of(from, end));
    if end >= bytes.len() || newline_len(bytes, end) <= 0 {
        assert(lines =~= seq![line]);
    } else {
        let next = next_line(bytes, end);
        let rest = lines_from(bytes, next);
        lemma_lines_are_contiguous(bytes, next);
        assert(lines =~= seq![line] + rest);
        assert(lines.last() == rest.last());
        assert forall|i: int| 0 <= i && i + 1 < lines.len() implies (#[trigger] lines[i
            + 1]).span().start == next_line(bytes, lines[i].span().end as int) by {
            assert(lines[i + 1] == rest[i]);
            if i > 0 {
                assert(lines[i] == rest[i - 1]);
                assert(rest[i - 1 + 1] == rest[i]);
            }
        }
    }
}

} // verus!
