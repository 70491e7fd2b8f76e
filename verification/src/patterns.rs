//! Which lines of a text become paths of its syntax tree.

use vstd::prelude::*;
use vstd::utf8::*;
use crate::ast::{derive_node, derive_nodes, NodeView};
use crate::grammar::{
    body_start, faults_from, file_faults, file_token, has_fault, has_pattern, is_blank, is_comment,
    is_negated, is_pattern_byte, lemma_line_end, lemma_next_line_boundary, lemma_path_stop,
    lemma_segment_end, lemma_trimmed_end, lemma_trimmed_to_nothing, line_end, line_fault,
    line_token, lines_from, newline_len, next_line, path_children, path_items, segment_end,
    span_of, trimmed_end, SLASH,
};
use crate::text::{
    bytes_of, lemma_boundary_is_char_boundary, lemma_bytes_of_valid, lemma_decoded_is_empty,
    lemma_next_boundary, lemma_part_is_valid, on_boundary,
};
use crate::token::TokenView;

verus! {

/// The nodes of two lists of tokens joined are the nodes of the first
/// followed by the nodes of the second.
pub proof fn lemma_derive_joined(first: Seq<TokenView>, second: Seq<TokenView>, from: int)
    requires
        0 <= from,
    ensures
        from <= first.len() ==> derive_nodes(first + second, from) == derive_nodes(first, from)
            + derive_nodes(second, 0),
        from >= first.len() ==> derive_nodes(first + second, from) == derive_nodes(
            second,
            from - first.len(),
        ),
    decreases first.len() + second.len() - from,
{
    let both = first + second;
    if from >= both.len() {
        assert(derive_nodes(first, from) + derive_nodes(second, 0) =~= derive_nodes(second, 0));
    } else {
        lemma_derive_joined(first, second, from + 1);
        if from < first.len() {
            assert(both[from] == first[from]);
            match derive_node(first[from]) {
                Some(node) => {
                    assert(seq![node] + (derive_nodes(first, from + 1) + derive_nodes(second, 0))
                        =~= seq![node] + derive_nodes(first, from + 1) + derive_nodes(second, 0));
                },
                None => {},
            }
        } else {
            assert(both[from] == second[from - first.len()]);
            if from == first.len() {
                assert(derive_nodes(first, from) + derive_nodes(second, 0) =~= derive_nodes(
                    second,
                    0,
                ));
            }
        }
    }
}

/// The nodes of one token followed by others.
pub proof fn lemma_derive_first(token: TokenView, others: Seq<TokenView>)
    ensures
        derive_nodes(seq![token] + others, 0) == match derive_node(token) {
            Some(node) => seq![node] + derive_nodes(others, 0),
            None => derive_nodes(others, 0),
        },
{
    lemma_derive_joined(seq![token], others, 0);
    assert(derive_nodes(seq![token], 1) =~= Seq::<NodeView>::empty());
    match derive_node(token) {
        Some(node) => {
            assert(derive_nodes(seq![token], 0) =~= seq![node]);
        },
        None => {
            assert(derive_nodes(seq![token], 0) =~= Seq::<NodeView>::empty());
            assert(Seq::<NodeView>::empty() + derive_nodes(others, 0) =~= derive_nodes(others, 0));
        },
    }
}

/// The separators and segments of a stretch of a line give a node exactly
/// where some byte of the stretch is neither a `/` nor a blank.
pub proof fn lemma_items_give_nodes(bytes: Seq<u8>, from: int, to: int)
    requires
        valid_utf8(bytes),
        0 <= from <= to <= bytes.len(),
        on_boundary(bytes, from),
        on_boundary(bytes, to),
    ensures
        derive_nodes(path_items(bytes, from, to), 0).len() > 0 <==> exists|k: int|
            is_pattern_byte(bytes, from, to, k),
    decreases to - from,
{
    if from < to {
        if bytes[from] == SLASH {
            let next = from + 1;
            lemma_next_boundary(bytes, from);
            lemma_items_give_nodes(bytes, next, to);
            let mark = TokenView::Separator { span: span_of(from, from) };
            lemma_derive_first(mark, path_items(bytes, next, to));
            if exists|k: int| is_pattern_byte(bytes, from, to, k) {
                let k = choose|k: int| is_pattern_byte(bytes, from, to, k);
                assert(is_pattern_byte(bytes, next, to, k));
            }
            if exists|k: int| is_pattern_byte(bytes, next, to, k) {
                let k = choose|k: int| is_pattern_byte(bytes, next, to, k);
                assert(is_pattern_byte(bytes, from, to, k));
            }
        } else {
            let end = segment_end(bytes, from, to);
            let cut = trimmed_end(bytes, from, end);
            lemma_segment_end(bytes, from, to);
            lemma_trimmed_end(bytes, from, end);
            lemma_trimmed_to_nothing(bytes, from, end);
            lemma_part_is_valid(bytes, from, cut);
            lemma_decoded_is_empty(bytes.subrange(from, cut));
            lemma_items_give_nodes(bytes, end, to);
            let value = decode_utf8(bytes.subrange(from, cut));
            let segment = TokenView::Segment { span: span_of(from, end), value };
            lemma_derive_first(segment, path_items(bytes, end, to));
            if cut > from {
                let k = choose|k: int| from <= k < end && !is_blank(#[trigger] bytes[k]);
                assert(is_pattern_byte(bytes, from, to, k));
            } else {
                if exists|k: int| is_pattern_byte(bytes, from, to, k) {
                    let k = choose|k: int| is_pattern_byte(bytes, from, to, k);
                    if k < end {
                        assert(from <= k < end && !is_blank(bytes[k]));
                    }
                    assert(is_pattern_byte(bytes, end, to, k));
                }
            }
            if exists|k: int| is_pattern_byte(bytes, end, to, k) {
                let k = choose|k: int| is_pattern_byte(bytes, end, to, k);
                assert(is_pattern_byte(bytes, from, to, k));
            }
        }
    } else {
        assert(derive_nodes(path_items(bytes, from, to), 0) =~= Seq::<NodeView>::empty());
    }
}

/// The path that the well-formed line `[from, to)` becomes.
pub open spec fn pattern_path(bytes: Seq<u8>, from: int, to: int) -> NodeView {
    NodeView::Path { children: derive_nodes(path_children(bytes, from, to), 0) }
}

/// A well-formed line becomes a node exactly where it holds a pattern, and
/// then a path.
pub proof fn lemma_line_gives_path(bytes: Seq<u8>, from: int, to: int)
    requires
        valid_utf8(bytes),
        0 <= from <= to <= bytes.len(),
        on_boundary(bytes, from),
        on_boundary(bytes, to),
        !has_fault(bytes, from, to),
    ensures
        derive_node(line_token(bytes, from, to)) == if has_pattern(bytes, from, to) {
            Some(pattern_path(bytes, from, to))
        } else {
            None
        },
{
    if !is_comment(bytes, from, to) {
        let body = body_start(bytes, from, to);
        lemma_path_stop(bytes, body, to);
        if is_negated(bytes, from, to) {
            lemma_next_boundary(bytes, from);
            let mark = TokenView::Negate { span: span_of(from, from) };
            lemma_derive_first(mark, path_items(bytes, body, to));
            assert(is_pattern_byte(bytes, from, to, from));
        } else {
            lemma_items_give_nodes(bytes, body, to);
        }
    }
}

/// The paths of the syntax tree for the lines from the one that starts at
/// `from` on: one for each line that holds a pattern, in the order of the
/// lines.
pub open spec fn pattern_paths(bytes: Seq<u8>, from: int) -> Seq<NodeView>
    decreases bytes.len() - from,
    via pattern_paths_ends
{
    let end = line_end(bytes, from);
    let path = if has_pattern(bytes, from, end) {
        seq![pattern_path(bytes, from, end)]
    } else {
        Seq::empty()
    };
    if from < 0 || end >= bytes.len() || newline_len(bytes, end) <= 0 {
        path
    } else {
        path + pattern_paths(bytes, next_line(bytes, end))
    }
}

/// Why `pattern_paths` comes to an end: the next stretch is shorter.
#[via_fn]
proof fn pattern_paths_ends(bytes: Seq<u8>, from: int) {
    if 0 <= from <= bytes.len() {
        lemma_line_end(bytes, from);
    }
}

/// How many lines from the one that starts at `from` on hold a pattern.
pub open spec fn pattern_line_count(bytes: Seq<u8>, from: int) -> nat
    decreases bytes.len() - from,
    via pattern_line_count_ends
{
    let end = line_end(bytes, from);
    let here: nat = if has_pattern(bytes, from, end) {
        1
    } else {
        0
    };
    if from < 0 || end >= bytes.len() || newline_len(bytes, end) <= 0 {
        here
    } else {
        here + pattern_line_count(bytes, next_line(bytes, end))
    }
}

/// Why `pattern_line_count` comes to an end: the next stretch is shorter.
#[via_fn]
proof fn pattern_line_count_ends(bytes: Seq<u8>, from: int) {
    if 0 <= from <= bytes.len() {
        lemma_line_end(bytes, from);
    }
}

/// From a line on behind which no line is malformed, the lines become the
/// paths of the lines that hold a pattern: one path for each such line, and
/// nothing for the others.
pub proof fn lemma_lines_give_paths(bytes: Seq<u8>, from: int)
    requires
        valid_utf8(bytes),
        0 <= from <= bytes.len(),
        on_boundary(bytes, from),
        faults_from(bytes, from).len() == 0,
    ensures
        derive_nodes(lines_from(bytes, from), 0) == pattern_paths(bytes, from),
        pattern_paths(bytes, from).len() == pattern_line_count(bytes, from),
        forall|i: int|
            0 <= i < pattern_paths(bytes, from).len() ==> (#[trigger] pattern_paths(
                bytes,
                from,
            )[i]) is Path,
    decreases bytes.len() - from,
{
    let end = line_end(bytes, from);
    lemma_line_end(bytes, from);
    if end < bytes.len() {
        lemma_next_line_boundary(bytes, end);
    }
    assert(line_fault(bytes, from, end) is None);
    lemma_line_gives_path(bytes, from, end);
    let line = line_token(bytes, from, end);
    if end >= bytes.len() || newline_len(bytes, end) <= 0 {
        lemma_derive_first(line, Seq::empty());
        assert(seq![line] + Seq::<TokenView>::empty() =~= seq![line]);
        assert(derive_nodes(Seq::<TokenView>::empty(), 0) =~= Seq::<NodeView>::empty());
        assert(seq![pattern_path(bytes, from, end)] + Seq::<NodeView>::empty() =~= seq![
            pattern_path(bytes, from, end),
        ]);
    } else {
        let next = next_line(bytes, end);
        lemma_lines_give_paths(bytes, next);
        lemma_derive_first(line, lines_from(bytes, next));
        assert(Seq::<NodeView>::empty() + pattern_paths(bytes, next) =~= pattern_paths(
            bytes,
            next,
        ));
    }
}

/// Of a text with no malformed line, the syntax tree is a file with exactly
/// one path for each line that holds a pattern, in the order of the lines;
/// a comment, an empty line, and a line of nothing but blanks and `/` leave
/// no node.
pub proof fn lemma_one_path_for_each_pattern_line(text: Seq<char>)
    requires
        file_faults(bytes_of(text)).len() == 0,
    ensures
        derive_node(file_token(bytes_of(text))) == Some(
            NodeView::File { children: pattern_paths(bytes_of(text), 0) },
        ),
        pattern_paths(bytes_of(text), 0).len() == pattern_line_count(bytes_of(text), 0),
        forall|i: int|
            0 <= i < pattern_paths(bytes_of(text), 0).len() ==> (#[trigger] pattern_paths(
                bytes_of(text),
                0,
            )[i]) is Path,
{
    let bytes = bytes_of(text);
    lemma_bytes_of_valid(text);
    lemma_boundary_is_char_boundary(bytes, 0);
    is_char_boundary_start_end_of_seq(bytes);
    lemma_lines_give_paths(bytes, 0);
}

} // verus!
