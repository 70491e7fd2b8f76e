use gitignore_analysis::parser::{parser, ParseTree, PatternSyntaxError, Token};
use gitignore_analysis::span::Span;

fn segment(start: usize, end: usize, value: &str) -> Token {
    Token::Segment { span: Span::new(start, end), value: value.to_string() }
}

fn separator(at: usize) -> Token {
    Token::Separator { span: Span::new(at, at) }
}

fn negate(at: usize) -> Token {
    Token::Negate { span: Span::new(at, at) }
}

fn path(start: usize, end: usize, children: Vec<Token>) -> Token {
    Token::Path { span: Span::new(start, end), children }
}

fn file(start: usize, end: usize, children: Vec<Token>) -> Token {
    Token::File { span: Span::new(start, end), children }
}

fn tree_of(input: &str) -> Token {
    ParseTree::generate_from(input).0.unwrap().root
}

fn errors_of(input: &str) -> Vec<PatternSyntaxError> {
    ParseTree::generate_from(input).1
}

#[test]
fn parser_test_path() {
    let (parse_tree, err) = ParseTree::generate_from("a/b/c/d/e");

    assert_eq!(parse_tree.is_some(), true);
    assert_eq!(err.len(), 0);
    assert_eq!(
        parse_tree.unwrap().root,
        Token::File {
            span: Span::new(0, 9),
            children: vec![Token::Path {
                span: Span::new(0, 9),
                children: vec![
                    Token::Segment { span: Span::new(0, 1), value: "a".to_string() },
                    Token::Separator { span: Span::new(1, 1) },
                    Token::Segment { span: Span::new(2, 3), value: "b".to_string() },
                    Token::Separator { span: Span::new(3, 3) },
                    Token::Segment { span: Span::new(4, 5), value: "c".to_string() },
                    Token::Separator { span: Span::new(5, 5) },
                    Token::Segment { span: Span::new(6, 7), value: "d".to_string() },
                    Token::Separator { span: Span::new(7, 7) },
                    Token::Segment { span: Span::new(8, 9), value: "e".to_string() },
                ]
            }]
        }
    );
}

#[test]
fn parser_test_path_all_separators() {
    let (parse_tree, err) = ParseTree::generate_from("/a/b/c/");

    assert_eq!(parse_tree.is_some(), true);
    assert_eq!(err.len(), 0);
    assert_eq!(
        parse_tree.unwrap().root,
        Token::File {
            span: Span::new(0, 7),
            children: vec![Token::Path {
                span: Span::new(0, 7),
                children: vec![
                    Token::Separator { span: Span::new(0, 0) },
                    Token::Segment { span: Span::new(1, 2), value: "a".to_string() },
                    Token::Separator { span: Span::new(2, 2) },
                    Token::Segment { span: Span::new(3, 4), value: "b".to_string() },
                    Token::Separator { span: Span::new(4, 4) },
                    Token::Segment { span: Span::new(5, 6), value: "c".to_string() },
                    Token::Separator { span: Span::new(6, 6) },
                ]
            }]
        }
    );
}

#[test]
fn parser_test_line_empty() {
    let (parse_tree, err) = ParseTree::generate_from("\n\n");

    assert_eq!(parse_tree.is_some(), true);
    assert_eq!(err.len(), 0);
    assert_eq!(
        parse_tree.unwrap().root,
        Token::File {
            span: Span::new(0, 2),
            children: vec![
                Token::Path { span: Span::new(0, 0), children: vec![] },
                Token::Path { span: Span::new(1, 1), children: vec![] },
                Token::Path { span: Span::new(2, 2), children: vec![] }
            ]
        }
    );
}

#[test]
fn parser_test_comment() {
    let (parse_tree, err) = ParseTree::generate_from("# a comment");

    assert_eq!(parse_tree.is_some(), true);
    assert_eq!(err.len(), 0);
    assert_eq!(
        parse_tree.unwrap().root,
        Token::File {
            span: Span::new(0, 11),
            children: vec![Token::Comment { span: Span::new(0, 11) }]
        }
    );
}

#[test]
fn parser_test_comment_escaped() {
    let (parse_tree, err) = ParseTree::generate_from("\\#not/a/comment");

    assert_eq!(parse_tree.is_some(), true);
    assert_eq!(err.len(), 0);
    assert_eq!(
        parse_tree.unwrap().root,
        Token::File {
            span: Span::new(0, 15),
            children: vec![Token::Path {
                span: Span::new(0, 15),
                children: vec![
                    Token::Segment { span: Span::new(0, 5), value: "\\#not".to_string() },
                    Token::Separator { span: Span::new(5, 5) },
                    Token::Segment { span: Span::new(6, 7), value: "a".to_string() },
                    Token::Separator { span: Span::new(7, 7) },
                    Token::Segment { span: Span::new(8, 15), value: "comment".to_string() },
                ]
            }]
        }
    );
}

#[test]
fn parser_test_path_inverted() {
    let (parse_tree, err) = ParseTree::generate_from("!a/b/c");

    assert_eq!(parse_tree.is_some(), true);
    assert_eq!(err.len(), 0);
    assert_eq!(
        parse_tree.unwrap().root,
        Token::File {
            span: Span::new(0, 6),
            children: vec![Token::Path {
                span: Span::new(0, 6),
                children: vec![
                    Token::Negate { span: Span::new(0, 0) },
                    Token::Segment { span: Span::new(1, 2), value: "a".to_string() },
                    Token::Separator { span: Span::new(2, 2) },
                    Token::Segment { span: Span::new(3, 4), value: "b".to_string() },
                    Token::Separator { span: Span::new(4, 4) },
                    Token::Segment { span: Span::new(5, 6), value: "c".to_string() },
                ]
            }]
        }
    );
}

#[test]
fn parser_test_path_inverted_escaped() {
    let (parse_tree, err) = ParseTree::generate_from("\\!a/b/c");

    assert_eq!(parse_tree.is_some(), true);
    assert_eq!(err.len(), 0);
    assert_eq!(
        parse_tree.unwrap().root,
        Token::File {
            span: Span::new(0, 7),
            children: vec![Token::Path {
                span: Span::new(0, 7),
                children: vec![
                    Token::Segment { span: Span::new(0, 3), value: "\\!a".to_string() },
                    Token::Separator { span: Span::new(3, 3) },
                    Token::Segment { span: Span::new(4, 5), value: "b".to_string() },
                    Token::Separator { span: Span::new(5, 5) },
                    Token::Segment { span: Span::new(6, 7), value: "c".to_string() },
                ]
            }]
        }
    );
}

#[test]
fn test_get_all_children_filtered() {
    let (parse_tree, _) = ParseTree::generate_from("!a/b/c\n/d/e");
    let parse_tree = parse_tree.unwrap();

    let segments = parse_tree
        .root
        .get_all_children_filtered(&|t: &Token| matches!(t, Token::Segment { .. }));
    assert_eq!(segments.len(), 5);

    let negates = parse_tree
        .root
        .get_all_children_filtered(&|t: &Token| matches!(t, Token::Negate { .. }));
    assert_eq!(negates.len(), 1);
}

#[test]
fn test_get_child_at_position() {
    let (parse_tree, _) = ParseTree::generate_from("!a/b/c\n/d/e");
    let parse_tree = parse_tree.unwrap();

    let segment = parse_tree.root.get_child_at_position(1).unwrap();
    assert_eq!(
        segment,
        &Token::Segment { span: Span::new(1, 2), value: "a".to_string() }
    );

    let negate = parse_tree.root.get_child_at_position(0).unwrap();
    assert_eq!(negate, &Token::Negate { span: Span::new(0, 0) });

    let (parse_tree, _) = ParseTree::generate_from("\n\n");
    let parse_tree = parse_tree.unwrap();

    let first = parse_tree.root.get_child_at_position(0).unwrap();
    assert_eq!(first, &Token::Path { span: Span::new(0, 0), children: vec![] });
}

#[test]
fn a_double_separator_is_one_error() {
    let (parse_tree, errors) = ParseTree::generate_from("a//b/c");
    assert_eq!(errors.len(), 1);
    assert_eq!(errors[0].span, Span::new(2, 3));
    assert_eq!(
        errors[0].message,
        "found '/' where a segment, a line break or the end of the text was expected"
    );
    assert_eq!(
        parse_tree.unwrap().root,
        file(0, 6, vec![path(0, 2, vec![segment(0, 1, "a"), separator(1)])])
    );
}

#[test]
fn a_leading_double_separator_is_an_error() {
    let errors = errors_of("//b/c");
    assert_eq!(errors.len(), 1);
    assert_eq!(errors[0].span, Span::new(1, 2));
    assert_eq!(tree_of("//b/c"), file(0, 5, vec![path(0, 1, vec![separator(0)])]));
    assert_eq!(errors_of("!//b")[0].span, Span::new(2, 3));
}

#[test]
fn lines_after_a_malformed_line_are_parsed() {
    let (parse_tree, errors) = ParseTree::generate_from("a//b/c\nd/e\nf//\n!g");
    assert_eq!(errors.len(), 2);
    assert_eq!(errors[0].span, Span::new(2, 3));
    assert_eq!(errors[1].span, Span::new(13, 14));
    assert_eq!(
        parse_tree.unwrap().root,
        file(
            0,
            17,
            vec![
                path(0, 2, vec![segment(0, 1, "a"), separator(1)]),
                path(7, 10, vec![segment(7, 8, "d"), separator(8), segment(9, 10, "e")]),
                path(11, 13, vec![segment(11, 12, "f"), separator(12)]),
                path(15, 17, vec![negate(15), segment(16, 17, "g")]),
            ]
        )
    );
}

#[test]
fn parser_gives_root_and_errors() {
    let (root, errors) = parser("x\n//");
    assert_eq!(errors.len(), 1);
    assert_eq!(errors[0].span, Span::new(3, 4));
    assert_eq!(
        root,
        file(0, 4, vec![path(0, 1, vec![segment(0, 1, "x")]), path(2, 3, vec![separator(2)])])
    );
}

#[test]
fn all_line_breaks_part_lines() {
    let input = "a\rb\r\nc\u{b}d\u{c}e\u{85}f\u{2028}g\u{2029}h";
    assert_eq!(
        tree_of(input),
        file(
            0,
            21,
            vec![
                path(0, 1, vec![segment(0, 1, "a")]),
                path(2, 3, vec![segment(2, 3, "b")]),
                path(5, 6, vec![segment(5, 6, "c")]),
                path(7, 8, vec![segment(7, 8, "d")]),
                path(9, 10, vec![segment(9, 10, "e")]),
                path(12, 13, vec![segment(12, 13, "f")]),
                path(16, 17, vec![segment(16, 17, "g")]),
                path(20, 21, vec![segment(20, 21, "h")]),
            ]
        )
    );
    assert_eq!(errors_of(input).len(), 0);
}

#[test]
fn segments_keep_text_beyond_ascii() {
    assert_eq!(
        tree_of("caf\u{e9}/\u{1f600} \n"),
        file(
            0,
            12,
            vec![
                path(0, 11, vec![segment(0, 5, "caf\u{e9}"), separator(5), segment(6, 11, "\u{1f600}")]),
                path(12, 12, vec![]),
            ]
        )
    );
}

#[test]
fn trailing_blanks_are_trimmed_unless_escaped() {
    assert_eq!(tree_of("a \t "), file(0, 4, vec![path(0, 4, vec![segment(0, 4, "a")])]));
    assert_eq!(tree_of("  a"), file(0, 3, vec![path(0, 3, vec![segment(0, 3, "  a")])]));
    assert_eq!(tree_of("a\\ "), file(0, 3, vec![path(0, 3, vec![segment(0, 3, "a\\ ")])]));
    assert_eq!(tree_of("a\\   "), file(0, 5, vec![path(0, 5, vec![segment(0, 5, "a\\ ")])]));
    assert_eq!(tree_of("a\\\\ "), file(0, 4, vec![path(0, 4, vec![segment(0, 4, "a\\\\")])]));
    assert_eq!(tree_of("   "), file(0, 3, vec![path(0, 3, vec![segment(0, 3, "")])]));
    assert_eq!(
        tree_of("a /b "),
        file(0, 5, vec![path(0, 5, vec![segment(0, 2, "a"), separator(2), segment(3, 5, "b")])])
    );
}

#[test]
fn a_hash_marks_a_comment_only_at_the_start_of_a_line() {
    assert_eq!(
        tree_of("a#b\n#c/d//e"),
        file(
            0,
            11,
            vec![path(0, 3, vec![segment(0, 3, "a#b")]), Token::Comment { span: Span::new(4, 11) }]
        )
    );
    assert_eq!(errors_of("a#b\n#c/d//e").len(), 0);
    assert_eq!(tree_of(" #c"), file(0, 3, vec![path(0, 3, vec![segment(0, 3, " #c")])]));
}

#[test]
fn only_a_leading_bang_negates() {
    assert_eq!(
        tree_of("!!a/!b"),
        file(
            0,
            6,
            vec![path(0, 6, vec![negate(0), segment(1, 3, "!a"), separator(3), segment(4, 6, "!b")])]
        )
    );
    assert_eq!(tree_of("!"), file(0, 1, vec![path(0, 1, vec![negate(0)])]));
    assert_eq!(tree_of("!/"), file(0, 2, vec![path(0, 2, vec![negate(0), separator(1)])]));
}

#[test]
fn spans_and_children_of_tokens() {
    let root = tree_of("a/b\n#c");
    assert_eq!(*root.get_span(), Span::new(0, 6));
    let lines = root.get_children().unwrap();
    assert_eq!(lines.len(), 2);
    assert_eq!(*lines[0].get_span(), Span::new(0, 3));
    assert_eq!(*lines[1].get_span(), Span::new(4, 6));
    assert!(lines[1].get_children().is_none());
    let items = lines[0].get_children().unwrap();
    assert_eq!(*items[1].get_span(), Span::new(1, 1));
    assert!(items[0].get_children().is_none());
}

#[test]
fn a_position_at_the_end_of_a_segment_belongs_to_what_follows() {
    let root = tree_of("a/b/c");
    assert_eq!(root.get_child_at_position(0).unwrap(), &segment(0, 1, "a"));
    assert_eq!(root.get_child_at_position(1).unwrap(), &separator(1));
    assert_eq!(root.get_child_at_position(2).unwrap(), &segment(2, 3, "b"));
    assert_eq!(root.get_child_at_position(3).unwrap(), &separator(3));
    assert_eq!(root.get_child_at_position(4).unwrap(), &segment(4, 5, "c"));
    assert_eq!(root.get_child_at_position(5).unwrap(), &root);
    assert_eq!(segment(0, 1, "a").get_child_at_position(0), None);
}

#[test]
fn a_span_of_some_width_wins_over_a_mark_at_the_same_position() {
    let wide = segment(3, 5, "ab");
    let mark = separator(3);
    let early = separator(1);
    let parent = path(0, 5, vec![early, mark, separator(3), wide]);
    assert_eq!(parent.get_child_at_position(3).unwrap(), &segment(3, 5, "ab"));
    assert_eq!(parent.get_child_at_position(1).unwrap(), &separator(1));
    assert_eq!(parent.get_child_at_position(2).unwrap(), &parent);
    let marks = path(0, 5, vec![negate(3), separator(3)]);
    assert_eq!(marks.get_child_at_position(3).unwrap(), &negate(3));
    assert_eq!(marks.get_child_at_position(4).unwrap(), &marks);
}

#[test]
fn the_first_match_comes_in_document_order() {
    let root = tree_of("!a/b\nc");
    let first = root.get_first_child_filtered(&|t: &Token| matches!(t, Token::Segment { .. }));
    assert_eq!(first.unwrap(), &segment(1, 2, "a"));
    let late = root.get_first_child_filtered(&|t: &Token| t.get_span().start >= 5);
    assert_eq!(late.unwrap(), &path(5, 6, vec![segment(5, 6, "c")]));
    let none = root.get_first_child_filtered(&|t: &Token| matches!(t, Token::Comment { .. }));
    assert_eq!(none, None);
    let all = root.get_all_children_filtered(&|_t: &Token| true);
    assert_eq!(all.len(), 7);
    assert_eq!(all[0], &path(0, 4, vec![negate(0), segment(1, 2, "a"), separator(2), segment(3, 4, "b")]));
    assert_eq!(all[1], &negate(0));
    assert_eq!(all[4], &segment(3, 4, "b"));
    assert_eq!(all[6], &segment(5, 6, "c"));
}

#[test]
fn copies_are_equal_trees() {
    let (parse_tree, errors) = ParseTree::generate_from("!a/b\n//");
    let parse_tree = parse_tree.unwrap();
    assert_eq!(parse_tree.clone().root, parse_tree.root);
    assert_eq!(errors[0].clone(), errors[0]);
    assert_ne!(segment(0, 1, "a"), segment(0, 2, "a"));
    assert_ne!(segment(0, 1, "a"), segment(0, 1, "b"));
    assert_ne!(separator(0), negate(0));
}
