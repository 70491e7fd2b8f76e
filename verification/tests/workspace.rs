use gitignore_analysis::file::Change;
use gitignore_analysis::span::{Position, Range};
use gitignore_analysis::workspace::Workspace;
use url::Url;

fn replace(start: (u32, u32), end: (u32, u32), text: &str) -> Change {
    Change {
        range: Some(Range::new(Position::new(start.0, start.1), Position::new(end.0, end.1))),
        text: text.to_string(),
    }
}

fn content_of(workspace: &Workspace, uri: &str) -> Option<String> {
    workspace.files.get(uri).map(|file| file.get_content())
}

#[test]
fn it_can_add_and_remove_files() {
    let mut workspace = Workspace::new();

    assert_eq!(workspace.files.len(), 0);

    let urls = vec![
        Url::parse("file:///a").unwrap(),
        Url::parse("file:///b").unwrap(),
    ];

    workspace.open(urls[0].to_string(), "content".to_string());
    workspace.open(urls[1].to_string(), "content".to_string());

    assert_eq!(workspace.files.len(), 2);

    workspace.close(&urls[1].to_string());

    assert_eq!(workspace.files.len(), 1);
}

#[test]
fn an_open_file_is_kept_under_its_identifier() {
    let mut workspace = Workspace::new();
    workspace.open("file:///a".to_string(), "one".to_string());
    workspace.open("file:///b".to_string(), "two".to_string());
    assert_eq!(content_of(&workspace, "file:///a"), Some("one".to_string()));
    assert_eq!(content_of(&workspace, "file:///b"), Some("two".to_string()));
    assert_eq!(workspace.files.get("file:///a").unwrap().url, "file:///a");
    workspace.open("file:///a".to_string(), "three".to_string());
    assert_eq!(workspace.files.len(), 2);
    assert_eq!(content_of(&workspace, "file:///a"), Some("three".to_string()));
    workspace.close(&"file:///c".to_string());
    assert_eq!(workspace.files.len(), 2);
    workspace.close(&"file:///a".to_string());
    assert_eq!(content_of(&workspace, "file:///a"), None);
    assert_eq!(content_of(&workspace, "file:///b"), Some("two".to_string()));
}

#[test]
fn changes_are_applied_in_their_order() {
    let mut workspace = Workspace::new();
    workspace.open("file:///a".to_string(), "a/b\nc".to_string());
    workspace.open("file:///b".to_string(), "keep".to_string());
    let done = workspace.apply_changes(
        &"file:///a".to_string(),
        vec![
            replace((0, 0), (0, 1), "xy"),
            replace((0, 2), (0, 3), "//"),
            replace((1, 0), (1, 1), ""),
            replace((9, 0), (9, 0), "!d"),
        ],
    );
    assert!(done.is_ok());
    assert_eq!(content_of(&workspace, "file:///a"), Some("xy//b\n!d".to_string()));
    assert_eq!(content_of(&workspace, "file:///b"), Some("keep".to_string()));
    assert_eq!(workspace.files.get("file:///a").unwrap().url, "file:///a");
    let done = workspace.apply_changes(
        &"file:///a".to_string(),
        vec![Change { range: None, text: "new".to_string() }, replace((0, 3), (0, 3), "er")],
    );
    assert!(done.is_ok());
    assert_eq!(content_of(&workspace, "file:///a"), Some("newer".to_string()));
    assert!(workspace.apply_changes(&"file:///a".to_string(), Vec::new()).is_ok());
    assert_eq!(content_of(&workspace, "file:///a"), Some("newer".to_string()));
}

#[test]
fn a_change_to_a_file_that_is_not_open_fails() {
    let mut workspace = Workspace::new();
    workspace.open("file:///a".to_string(), "a".to_string());
    let done = workspace.apply_changes(
        &"file:///b".to_string(),
        vec![Change { range: None, text: "x".to_string() }],
    );
    let error = done.unwrap_err();
    assert_eq!(error.url, "file:///b");
    assert_eq!(error.message(), "The file file:///b is not opened on the server.");
    assert_eq!(workspace.files.len(), 1);
    assert_eq!(content_of(&workspace, "file:///a"), Some("a".to_string()));
    workspace.close(&"file:///a".to_string());
    assert!(workspace.apply_changes(&"file:///a".to_string(), Vec::new()).is_err());
}
