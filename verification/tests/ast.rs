use gitignore_analysis::ast::{Node, AST};
use gitignore_analysis::parser::ParseTree;

fn ast_of(input: &str) -> Node {
    let (parse_tree, _) = ParseTree::generate_from(input);
    AST::generate_from(parse_tree.unwrap()).root
}

fn segment(text: &str) -> Node {
    Node::Segment(text.to_string())
}

#[test]
fn ast_it_can_parse_an_empty_file() {
    assert_eq!(ast_of(""), Node::File { children: vec![] });
}

#[test]
fn ast_it_can_parse_a_file_with_spaces() {
    assert_eq!(ast_of("   \n"), Node::File { children: vec![] });
}

#[test]
fn ast_it_can_parse_a_file_with_path_and_spaces() {
    assert_eq!(
        ast_of("a/b/c  \n"),
        Node::File {
            children: vec![Node::Path {
                children: vec![
                    Node::Segment("a".to_string()),
                    Node::Segment("b".to_string()),
                    Node::Segment("c".to_string()),
                ]
            }]
        }
    );
}

#[test]
fn ast_it_can_parse_a_file_with_path_and_escaped_spaces() {
    assert_eq!(
        ast_of("a/b/c\\ d  \n"),
        Node::File {
            children: vec![Node::Path {
                children: vec![
                    Node::Segment("a".to_string()),
                    Node::Segment("b".to_string()),
                    Node::Segment("c\\ d".to_string()),
                ]
            }]
        }
    );
}

#[test]
fn it_can_parse_path() {
    assert_eq!(
        ast_of("a/b/c"),
        Node::File {
            children: vec![Node::Path {
                children: vec![
                    Node::Segment("a".to_string()),
                    Node::Segment("b".to_string()),
                    Node::Segment("c".to_string()),
                ]
            }]
        }
    );
}

#[test]
fn it_can_parse_path_with_comment() {
    assert_eq!(
        ast_of("a/b\n# a comment"),
        Node::File {
            children: vec![Node::Path {
                children: vec![
                    Node::Segment("a".to_string()),
                    Node::Segment("b".to_string()),
                ]
            }]
        }
    );
}

#[test]
fn it_can_parse_path_with_negate() {
    assert_eq!(
        ast_of("!a/b"),
        Node::File {
            children: vec![Node::Path {
                children: vec![
                    Node::Negate,
                    Node::Segment("a".to_string()),
                    Node::Segment("b".to_string()),
                ]
            }]
        }
    );
}

#[test]
fn it_can_parse_a_file() {
    assert_eq!(
        ast_of("a/b/c\n"),
        Node::File {
            children: vec![Node::Path {
                children: vec![
                    Node::Segment("a".to_string()),
                    Node::Segment("b".to_string()),
                    Node::Segment("c".to_string()),
                ]
            }]
        }
    );
}

#[test]
fn it_can_parse_a_file_with_a_comment() {
    assert_eq!(
        ast_of("a/b\n# a comment\n"),
        Node::File {
            children: vec![Node::Path {
                children: vec![
                    Node::Segment("a".to_string()),
                    Node::Segment("b".to_string()),
                ]
            }]
        }
    );
}

#[test]
fn it_can_parse_a_file_with_a_negate() {
    assert_eq!(
        ast_of("!a/b\n"),
        Node::File {
            children: vec![Node::Path {
                children: vec![
                    Node::Negate,
                    Node::Segment("a".to_string()),
                    Node::Segment("b".to_string()),
                ]
            }]
        }
    );
}

#[test]
fn blank_lines_leave_no_path() {
    assert_eq!(ast_of("\n\n"), Node::File { children: vec![] });
    assert_eq!(ast_of(" \t \n/\n"), Node::File { children: vec![] });
}

#[test]
fn one_path_for_each_line_with_a_pattern() {
    assert_eq!(
        ast_of("a\n\n# note\n!b\n/\nc/d\n"),
        Node::File {
            children: vec![
                Node::Path { children: vec![segment("a")] },
                Node::Path { children: vec![Node::Negate, segment("b")] },
                Node::Path { children: vec![segment("c"), segment("d")] },
            ]
        }
    );
}

#[test]
fn a_lone_negation_mark_is_a_path() {
    assert_eq!(
        ast_of("!"),
        Node::File { children: vec![Node::Path { children: vec![Node::Negate] }] }
    );
}

#[test]
fn children_of_nodes() {
    let root = ast_of("a/b");
    let paths = root.get_children().unwrap();
    assert_eq!(paths.len(), 1);
    let segments = paths[0].get_children().unwrap();
    assert_eq!(segments.len(), 2);
    assert!(segments[0].get_children().is_none());
    assert!(Node::Negate.get_children().is_none());
}

#[test]
fn nodes_differ_by_kind_text_and_children() {
    assert_ne!(segment("a"), segment("b"));
    assert_ne!(segment("a"), Node::Negate);
    assert_ne!(
        Node::File { children: vec![segment("a")] },
        Node::Path { children: vec![segment("a")] }
    );
    assert_ne!(
        Node::Path { children: vec![segment("a")] },
        Node::Path { children: vec![segment("a"), segment("b")] }
    );
    assert_eq!(Node::Negate, Node::Negate);
}
