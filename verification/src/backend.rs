//! What a server does for one document between receiving a request and
//! answering it: parse the text again after an edit, and complete at a cursor.

use vstd::prelude::*;
use crate::ast::{derive_node, AST};
use crate::features::completions::{completion_text, proposes, Completions, Suggestion};
use crate::features::diagnostics::{reports, Diagnostic, Diagnostics};
use crate::file::{offset_of, File};
use crate::grammar::{file_faults, file_token};
use crate::parser::{fault_message, fault_spans, parser, ParseTree};
use crate::span::Position;

verus! {

/// What parsing a document again gives: the diagnostics to publish in place
/// of those published before, and the two trees to keep for the document.
#[derive(Debug)]
pub struct Refresh {
    pub diagnostics: Vec<Diagnostic>,
    pub parse_tree: ParseTree,
    pub ast: AST,
}

/// Parses the current text of `file`. The parse tree is that of the text, the
/// syntax tree is derived from it, and there is one diagnostic for each fault
/// of the text, in source order: none where the text has no fault, so that
/// publishing them clears what was reported before.
pub fn refresh_ast(file: &File) -> (refresh: Refresh)
    ensures
        refresh.parse_tree.root@ == file_token(file.bytes()),
        Some(refresh.ast.root@) == derive_node(file_token(file.bytes())),
        refresh.diagnostics@.len() == file_faults(file.bytes()).len(),
        forall|i: int|
            0 <= i < refresh.diagnostics@.len() ==> reports(
                #[trigger] refresh.diagnostics@[i],
                file_faults(file.bytes())[i],
                fault_message(),
                file.bytes(),
            ),
{
    let text = file.get_content();
    let (root, errors) = parser(text.as_str());
    proof {
        assert forall|i: int| 0 <= i < errors@.len() implies errors@[i].span == file_faults(
            file.bytes(),
        )[i] by {
            assert(fault_spans(errors@)[i] == errors@[i].span);
        }
        assert(fault_spans(errors@).len() == errors@.len());
    }
    let diagnostics = Diagnostics::generate(errors, file);
    let parse_tree = ParseTree { root };
    let ast = AST::generate_from(parse_tree.clone());
    Refresh { diagnostics, parse_tree, ast }
}

/// The completions at the line and column `position` of `file`, whose parse
/// tree is `parse_tree`: those at the offset of the position.
pub fn completion(file: &File, parse_tree: &ParseTree, position: Position) -> (suggestions: Option<
    Vec<Suggestion>,
>)
    ensures
        proposes(
            suggestions,
            completion_text(
                parse_tree.root@,
                offset_of(file.bytes(), position.line as int, position.character as int),
            ),
        ),
{
    let index = file.get_offset_at(position.line, position.character);
    Completions::generate(parse_tree, index)
}

} // verus!
