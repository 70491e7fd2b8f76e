//! Completions: the path typed so far on the line of the cursor.

use vstd::prelude::*;
use vstd::string::*;
use vstd::utf8::*;
use crate::grammar::{
    body_start, has_fault, is_comment, is_negated, is_untrimmed, lemma_path_stop,
    lemma_segment_end, lemma_trimmed_end, lemma_untrimmed_source, line_end, path_children,
    path_items, segment_end, span_of, trimmed_end, trimmed_source, SLASH,
};
use crate::text::{
    bytes_of, lemma_bytes_of_valid, lemma_decode_joined, lemma_next_boundary,
    lemma_part_is_valid, on_boundary,
};
use crate::parser::ParseTree;
use crate::token::{lemma_descendants_views, views, Token, TokenView};

verus! {

/// One proposal for the place of the cursor.
#[derive(Debug)]
pub struct Suggestion {
    pub label: String,
    pub detail: String,
    pub insert_text: String,
}

/// Maker of completions.
pub struct Completions {}

/// Whether `token` is a path whose span encloses `position`, its end
/// included: a cursor at the end of a line is still on that line.
pub open spec fn is_path_at(token: TokenView, position: int) -> bool {
    token is Path && token.span().encloses(position)
}

/// The first of `tokens` from `from` on that is a path enclosing `position`.
pub open spec fn first_path_at(tokens: Seq<TokenView>, position: int, from: int) -> Option<
    TokenView,
>
    decreases tokens.len() - from,
{
    if from < 0 || from >= tokens.len() {
        None
    } else if is_path_at(tokens[from], position) {
        Some(tokens[from])
    } else {
        first_path_at(tokens, position, from + 1)
    }
}

/// What a child of a path adds to the text of the path: a segment its text, a
/// separator a `/`, anything else nothing.
pub open spec fn text_of(token: TokenView) -> Seq<char> {
    match token {
        TokenView::Segment { value, .. } => value,
        TokenView::Separator { .. } => seq!['/'],
        _ => Seq::empty(),
    }
}

/// The text of the children from `from` on, up to the first that equals
/// `target`, or of all of them where none does.
pub open spec fn text_until(children: Seq<TokenView>, target: TokenView, from: int) -> Seq<char>
    decreases children.len() - from,
{
    if from < 0 || from >= children.len() || children[from] == target {
        Seq::empty()
    } else {
        text_of(children[from]) + text_until(children, target, from + 1)
    }
}

/// The text to propose at `position` in the tree under `root`: on the first
/// path below the root that encloses the position, the text of the path's
/// children before the node at the position. Nothing where no path encloses
/// the position.
pub open spec fn completion_text(root: TokenView, position: int) -> Option<Seq<char>> {
    match first_path_at(root.descendants(), position, 0) {
        None => None,
        Some(line) => match (line.children(), line.child_at(position)) {
            (Some(children), Some(node)) => Some(text_until(children, node, 0)),
            _ => None,
        },
    }
}

/// Whether `suggestions` is what to propose for `text`: one suggestion whose
/// label, detail and inserted text are all that text, or none.
pub open spec fn proposes(suggestions: Option<Vec<Suggestion>>, text: Option<Seq<char>>) -> bool {
    match (suggestions, text) {
        (Some(list), Some(prefix)) => {
            &&& list@.len() == 1
            &&& list@[0].label@ == prefix
            &&& list@[0].detail@ == prefix
            &&& list@[0].insert_text@ == prefix
        },
        (None, None) => true,
        _ => false,
    }
}

/// The first path among `tokens` is where all before it are none.
proof fn lemma_first_path_at(tokens: Seq<TokenView>, position: int, from: int, at: int)
    requires
        0 <= from <= at <= tokens.len(),
        forall|k: int| from <= k < at ==> !is_path_at(#[trigger] tokens[k], position),
    ensures
        at < tokens.len() && is_path_at(tokens[at], position) ==> first_path_at(
            tokens,
            position,
            from,
        ) == Some(tokens[at]),
        at == tokens.len() ==> first_path_at(tokens, position, from) is None,
    decreases at - from,
{
    if from < at {
        lemma_first_path_at(tokens, position, from + 1, at);
    }
}

/// The text of the children of `line` before the one that equals `node`.
fn text_before(children: &Vec<Token>, node: &Token) -> (text: String)
    ensures
        text@ == text_until(views(children@), node@, 0),
{
    let ghost all = views(children@);
    let mut text = String::new();
    let mut i: usize = 0;
    proof {
        assert(text@ + text_until(all, node@, 0) =~= text_until(all, node@, 0));
    }
    while i < children.len()
        invariant_except_break
            text@ + text_until(all, node@, i as int) == text_until(all, node@, 0),
        invariant
            i <= children@.len(),
            all == views(children@),
        ensures
            text@ == text_until(all, node@, 0),
        decreases children@.len() - i,
    {
        let child = &children[i];
        let ghost before = text@;
        if *child == *node {
            proof {
                assert(before + text_until(all, node@, i as int) =~= before);
            }
            break ;
        }
        match child {
            Token::Segment { value, .. } => {
                text.append(value.as_str());
            },
            Token::Separator { .. } => {
                proof {
                    reveal_strlit("/");
                    assert("/"@ =~= seq!['/']);
                }
                text.append("/");
            },
            _ => {
                proof {
                    assert(before + Seq::<char>::empty() =~= before);
                }
            },
        }
        proof {
            assert(text@ == before + text_of(all[i as int]));
            assert(text@ + text_until(all, node@, i + 1) =~= before + text_until(
                all,
                node@,
                i as int,
            ));
        }
        i = i + 1;
    }
    text
}

impl Completions {
    /// The completions at `position`: those of the path under the cursor.
    pub fn generate(parse_tree: &ParseTree, position: usize) -> (suggestions: Option<
        Vec<Suggestion>,
    >)
        ensures
            proposes(suggestions, completion_text(parse_tree.root@, position as int)),
    {
        Completions::generate_path_completions(parse_tree, position)
    }

    /// One suggestion that holds the path typed before the cursor, as
    /// [`completion_text`] says, or nothing where the cursor is on no path.
    pub fn generate_path_completions(parse_tree: &ParseTree, position: usize) -> (suggestions:
        Option<Vec<Suggestion>>)
        ensures
            proposes(suggestions, completion_text(parse_tree.root@, position as int)),
    {
        let on_path = |token: &Token| -> (keep: bool)
            ensures
                keep == is_path_at(token@, position as int),
            {
                let span = token.get_span();
                span.surrounds(position) && matches!(token, Token::Path { .. })
            };
        let line = parse_tree.root.get_first_child_filtered(&on_path);
        let ghost all = parse_tree.root.descendants();
        proof {
            lemma_descendants_views(parse_tree.root);
            match line {
                Some(token) => {
                    let at = choose|i: int|
                        {
                            &&& 0 <= i < all.len()
                            &&& #[trigger] all[i] == *token
                            &&& call_ensures(on_path, (token,), true)
                            &&& forall|k: int|
                                0 <= k < i ==> call_ensures(on_path, (&#[trigger] all[k],), false)
                        };
                    assert forall|k: int| 0 <= k < at implies !is_path_at(
                        #[trigger] views(all)[k],
                        position as int,
                    ) by {
                        assert(call_ensures(on_path, (&all[k],), false));
                    }
                    lemma_first_path_at(views(all), position as int, 0, at);
                },
                None => {
                    assert forall|k: int| 0 <= k < all.len() implies !is_path_at(
                        #[trigger] views(all)[k],
                        position as int,
                    ) by {
                        assert(call_ensures(on_path, (&all[k],), false));
                    }
                    lemma_first_path_at(views(all), position as int, 0, all.len() as int);
                },
            }
        }
        let line = match line {
            Some(line) => line,
            None => return None,
        };
        let children = match line.get_children() {
            Some(children) => children,
            None => return None,
        };
        let current_node = match line.get_child_at_position(position) {
            Some(node) => node,
            None => return None,
        };
        let path = text_before(children, current_node);
        let mut completions: Vec<Suggestion> = Vec::new();
        completions.push(
            Suggestion { label: path.clone(), detail: path.clone(), insert_text: path },
        );
        Some(completions)
    }
}

/// The text of all children from `from` on: what the text of a completion
/// comes to where nothing stops it.
pub open spec fn path_text(children: Seq<TokenView>, from: int) -> Seq<char>
    decreases children.len() - from,
{
    if from < 0 || from >= children.len() {
        Seq::empty()
    } else {
        text_of(children[from]) + path_text(children, from + 1)
    }
}

/// Where no child equals `target`, the text up to `target` is the text of
/// all children.
pub proof fn lemma_text_until_none(children: Seq<TokenView>, target: TokenView, from: int)
    requires
        forall|k: int| 0 <= k < children.len() ==> children[k] != target,
    ensures
        text_until(children, target, from) == path_text(children, from),
    decreases children.len() - from,
{
    if 0 <= from < children.len() {
        lemma_text_until_none(children, target, from + 1);
    }
}

/// The text of one child followed by others.
proof fn lemma_path_text_first(token: TokenView, others: Seq<TokenView>, from: int)
    requires
        0 <= from,
    ensures
        path_text(seq![token] + others, from + 1) == path_text(others, from),
        from == 0 ==> path_text(seq![token] + others, 0) == text_of(token) + path_text(others, 0),
    decreases others.len() - from,
{
    let all = seq![token] + others;
    if from < others.len() {
        lemma_path_text_first(token, others, from + 1);
        assert(all[from + 1] == others[from]);
    }
    if from == 0 {
        assert(all[0] == token);
    }
}

/// A single `/` decodes to the character `/`.
proof fn lemma_decode_slash()
    ensures
        valid_utf8(seq![SLASH]),
        decode_utf8(seq![SLASH]) == seq!['/'],
{
    let one = seq![SLASH];
    assert(one[0] == 0x2fu8);
    assert(0x2fu8 & 0x7f == 0x2f) by (bit_vector);
    assert(valid_first_scalar(one));
    assert(pop_first_scalar(one) =~= Seq::<u8>::empty());
    assert(valid_utf8(pop_first_scalar(one)));
    assert(valid_utf8(one));
    assert(decode_first_scalar(one) == 0x2fu32);
    assert(0x2fu32 as char == '/');
    assert(decode_utf8(pop_first_scalar(one)) =~= Seq::<char>::empty());
    assert(decode_utf8(one) =~= seq!['/']);
}

/// The text of the separators and segments of a stretch of a line is the
/// stretch as it is read.
proof fn lemma_items_text(bytes: Seq<u8>, from: int, to: int)
    requires
        valid_utf8(bytes),
        0 <= from <= to <= bytes.len(),
        on_boundary(bytes, from),
        on_boundary(bytes, to),
    ensures
        valid_utf8(trimmed_source(bytes, from, to)),
        path_text(path_items(bytes, from, to), 0) == decode_utf8(trimmed_source(bytes, from, to)),
    decreases to - from,
{
    if from >= to {
        assert(path_text(path_items(bytes, from, to), 0) =~= Seq::<char>::empty());
    } else if bytes[from] == SLASH {
        lemma_next_boundary(bytes, from);
        lemma_items_text(bytes, from + 1, to);
        lemma_decode_slash();
        let mark = TokenView::Separator { span: span_of(from, from) };
        lemma_path_text_first(mark, path_items(bytes, from + 1, to), 0);
        lemma_decode_joined(seq![SLASH], trimmed_source(bytes, from + 1, to));
    } else {
        let end = segment_end(bytes, from, to);
        let cut = trimmed_end(bytes, from, end);
        lemma_segment_end(bytes, from, to);
        lemma_trimmed_end(bytes, from, end);
        lemma_part_is_valid(bytes, from, cut);
        lemma_items_text(bytes, end, to);
        let value = decode_utf8(bytes.subrange(from, cut));
        let segment = TokenView::Segment { span: span_of(from, end), value };
        lemma_path_text_first(segment, path_items(bytes, end, to), 0);
        lemma_decode_joined(bytes.subrange(from, cut), trimmed_source(bytes, end, to));
    }
}

/// The text of all children of the path of a well-formed line is the line as
/// it is read, behind its negation mark if it has one: every `/`, and every
/// segment without the whitespace trimmed off its end.
pub proof fn lemma_path_text_is_trimmed_source(text: Seq<char>, from: int, to: int)
    requires
        0 <= from <= to <= bytes_of(text).len(),
        on_boundary(bytes_of(text), from),
        to == line_end(bytes_of(text), from),
        !is_comment(bytes_of(text), from, to),
        !has_fault(bytes_of(text), from, to),
    ensures
        path_text(path_children(bytes_of(text), from, to), 0) == decode_utf8(
            trimmed_source(bytes_of(text), body_start(bytes_of(text), from, to), to),
        ),
{
    let bytes = bytes_of(text);
    let body = body_start(bytes, from, to);
    lemma_bytes_of_valid(text);
    crate::grammar::lemma_line_end(bytes, from);
    assert(on_boundary(bytes, to)) by {
        if to < bytes.len() {
            crate::grammar::lemma_next_line_boundary(bytes, to);
        }
    }
    lemma_path_stop(bytes, body, to);
    if is_negated(bytes, from, to) {
        lemma_next_boundary(bytes, from);
        let mark = TokenView::Negate { span: span_of(from, from) };
        lemma_path_text_first(mark, path_items(bytes, body, to), 0);
        assert(text_of(mark) + path_text(path_items(bytes, body, to), 0) =~= path_text(
            path_items(bytes, body, to),
            0,
        ));
    }
    lemma_items_text(bytes, body, to);
}

/// Where no segment of a well-formed line ends in whitespace that is
/// trimmed, the text of all children of its path is the source of the line,
/// behind its negation mark if it has one.
pub proof fn lemma_path_text_is_source(text: Seq<char>, from: int, to: int)
    requires
        0 <= from <= to <= bytes_of(text).len(),
        on_boundary(bytes_of(text), from),
        to == line_end(bytes_of(text), from),
        !is_comment(bytes_of(text), from, to),
        !has_fault(bytes_of(text), from, to),
        is_untrimmed(bytes_of(text), body_start(bytes_of(text), from, to), to),
    ensures
        path_text(path_children(bytes_of(text), from, to), 0) == decode_utf8(
            bytes_of(text).subrange(body_start(bytes_of(text), from, to), to),
        ),
{
    let bytes = bytes_of(text);
    lemma_path_text_is_trimmed_source(text, from, to);
    lemma_untrimmed_source(bytes, body_start(bytes, from, to), to);
}

} // verus!
