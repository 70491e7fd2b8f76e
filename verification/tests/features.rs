use gitignore_analysis::backend::{completion, refresh_ast};
use gitignore_analysis::ast::Node;
use gitignore_analysis::features::completions::Completions;
use gitignore_analysis::features::diagnostics::{Diagnostics, Severity};
use gitignore_analysis::file::File;
use gitignore_analysis::parser::{ParseTree, Token};
use gitignore_analysis::span::{Position, Range, Span};

fn label_at(input: &str, position: usize) -> Option<String> {
    let (parse_tree, _) = ParseTree::generate_from(input);
    match Completions::generate(&parse_tree.unwrap(), position) {
        Some(mut completions) => {
            assert_eq!(completions.len(), 1);
            let first = completions.remove(0);
            assert_eq!(first.detail, first.label);
            assert_eq!(first.insert_text, first.label);
            Some(first.label)
        }
        None => None,
    }
}

fn range(start: (u32, u32), end: (u32, u32)) -> Range {
    Range::new(Position::new(start.0, start.1), Position::new(end.0, end.1))
}

#[test]
fn it_can_generate_path_completions() {
    let (parse_tree, _) = ParseTree::generate_from("a/b/c");
    let completions = Completions::generate_path_completions(&parse_tree.unwrap(), 3);
    let completions = match completions {
        Some(completions) => completions,
        _ => panic!("Expected array of completions"),
    };
    assert_eq!(completions.len(), 1);
    assert_eq!(completions[0].label, "a/b");
}

#[test]
fn the_completion_is_the_path_before_the_node_at_the_cursor() {
    assert_eq!(label_at("a/b/c", 0), Some("".to_string()));
    assert_eq!(label_at("a/b/c", 1), Some("a".to_string()));
    assert_eq!(label_at("a/b/c", 2), Some("a/".to_string()));
    assert_eq!(label_at("a/b/c", 3), Some("a/b".to_string()));
    assert_eq!(label_at("a/b/c", 4), Some("a/b/".to_string()));
    assert_eq!(label_at("a/b/c", 5), Some("a/b/c".to_string()));
    assert_eq!(label_at("a/b/c", 6), None);
}

#[test]
fn the_node_at_offset_3_of_three_segments_is_the_second_separator() {
    let (parse_tree, _) = ParseTree::generate_from("a/b/c");
    let root = parse_tree.unwrap().root;
    assert_eq!(
        root.get_child_at_position(3).unwrap(),
        &Token::Separator { span: Span::new(3, 3) }
    );
    assert_eq!(
        root.get_child_at_position(2).unwrap(),
        &Token::Segment { span: Span::new(2, 3), value: "b".to_string() }
    );
}

#[test]
fn the_completion_is_that_of_the_line_of_the_cursor() {
    let input = "!a/b\n# c\n\nd/e f /g\n/h//i";
    assert_eq!(label_at(input, 0), Some("".to_string()));
    assert_eq!(label_at(input, 1), Some("".to_string()));
    assert_eq!(label_at(input, 3), Some("a/".to_string()));
    assert_eq!(label_at(input, 4), Some("a/b".to_string()));
    assert_eq!(label_at(input, 6), None);
    assert_eq!(label_at(input, 9), Some("".to_string()));
    assert_eq!(label_at(input, 12), Some("d/".to_string()));
    assert_eq!(label_at(input, 17), Some("d/e f/".to_string()));
    assert_eq!(label_at(input, 18), Some("d/e f/g".to_string()));
    assert_eq!(label_at(input, 20), Some("/".to_string()));
    assert_eq!(label_at(input, 22), Some("/h/".to_string()));
    assert_eq!(label_at(input, 23), None);
}

#[test]
fn the_completion_stops_at_the_first_child_equal_to_the_node_at_the_cursor() {
    let mark = Token::Separator { span: Span::new(4, 4) };
    let twin = Token::Separator { span: Span::new(4, 4) };
    let line = Token::Path {
        span: Span::new(0, 9),
        children: vec![
            Token::Segment { span: Span::new(0, 4), value: "ab".to_string() },
            mark,
            Token::Negate { span: Span::new(5, 5) },
            twin,
            Token::Segment { span: Span::new(6, 9), value: "cd".to_string() },
        ],
    };
    let tree = ParseTree { root: Token::File { span: Span::new(0, 9), children: vec![line] } };
    let at = |position: usize| Completions::generate(&tree, position).unwrap().remove(0).label;
    assert_eq!(at(4), "ab");
    assert_eq!(at(5), "ab/");
    assert_eq!(at(7), "ab//");
    assert_eq!(at(9), "ab//cd");
}

#[test]
fn each_error_becomes_a_diagnostic_at_its_lines_and_columns() {
    let text = "\u{1f600}//b\nc\n!d//";
    let file = File::new("file:///a".to_string(), text.to_string());
    let (_, errors) = ParseTree::generate_from(text);
    assert_eq!(errors.len(), 2);
    let diagnostics = Diagnostics::generate(errors, &file);
    assert_eq!(diagnostics.len(), 2);
    assert_eq!(diagnostics[0].range, range((0, 3), (0, 4)));
    assert_eq!(diagnostics[1].range, range((2, 3), (2, 4)));
    for diagnostic in &diagnostics {
        assert_eq!(diagnostic.severity, Severity::Error);
        assert_eq!(diagnostic.source, "Gitignore Ultimate");
        assert_eq!(
            diagnostic.message,
            "found '/' where a segment, a line break or the end of the text was expected"
        );
    }
}

#[test]
fn no_errors_give_no_diagnostics() {
    let file = File::new("file:///a".to_string(), "a/b\n".to_string());
    assert_eq!(Diagnostics::generate(Vec::new(), &file).len(), 0);
    assert_eq!(refresh_ast(&file).diagnostics.len(), 0);
}

#[test]
fn a_refresh_parses_the_current_text() {
    let mut file = File::new("file:///a".to_string(), "a//b\n!c".to_string());
    let refresh = refresh_ast(&file);
    assert_eq!(refresh.diagnostics.len(), 1);
    assert_eq!(refresh.diagnostics[0].range, range((0, 2), (0, 3)));
    assert_eq!(refresh.parse_tree.root, ParseTree::generate_from("a//b\n!c").0.unwrap().root);
    assert_eq!(
        refresh.ast.root,
        Node::File {
            children: vec![
                Node::Path { children: vec![Node::Segment("a".to_string())] },
                Node::Path { children: vec![Node::Negate, Node::Segment("c".to_string())] },
            ]
        }
    );
    file.apply_change(gitignore_analysis::file::Change {
        range: Some(range((0, 1), (0, 3))),
        text: "/".to_string(),
    });
    let again = refresh_ast(&file);
    assert_eq!(again.diagnostics.len(), 0);
    assert_eq!(again.parse_tree.root, ParseTree::generate_from("a/b\n!c").0.unwrap().root);
}

#[test]
fn a_completion_takes_a_line_and_a_column() {
    let file = File::new("file:///a".to_string(), "x\n\u{1f600}/b/c".to_string());
    let tree = refresh_ast(&file).parse_tree;
    let label = |line: u32, character: u32| {
        completion(&file, &tree, Position::new(line, character)).map(|mut list| list.remove(0).label)
    };
    assert_eq!(label(1, 2), Some("\u{1f600}".to_string()));
    assert_eq!(label(1, 3), Some("\u{1f600}/".to_string()));
    assert_eq!(label(1, 4), Some("\u{1f600}/b".to_string()));
    assert_eq!(label(1, 99), Some("\u{1f600}/b/c".to_string()));
    assert_eq!(label(0, 0), Some("".to_string()));
    assert_eq!(label(0, 1), Some("x".to_string()));
}

#[test]
fn the_text_of_a_whole_path_is_its_source_but_for_trimmed_blanks() {
    assert_eq!(label_at("/a/b/", 5), Some("/a/b/".to_string()));
    assert_eq!(label_at("caf\u{e9}/x\\ y", 10), Some("caf\u{e9}/x\\ y".to_string()));
    assert_eq!(label_at("!a/b", 4), Some("a/b".to_string()));
    assert_eq!(label_at("a \t/b ", 6), Some("a/b".to_string()));
    assert_eq!(label_at("a\\ /b\\  ", 8), Some("a\\ /b\\ ".to_string()));
}
