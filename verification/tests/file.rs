use gitignore_analysis::file::{Change, File};
use gitignore_analysis::span::{Position, Range};

fn file_of(text: &str) -> File {
    File::new("file:///a".to_string(), text.to_string())
}

fn replace(start: (u32, u32), end: (u32, u32), text: &str) -> Change {
    Change {
        range: Some(Range::new(Position::new(start.0, start.1), Position::new(end.0, end.1))),
        text: text.to_string(),
    }
}

#[test]
fn a_new_file_holds_its_text() {
    let file = file_of("a/b\n");
    assert_eq!(file.url, "file:///a");
    assert_eq!(file.get_content(), "a/b\n");
}

#[test]
fn positions_count_lines_and_columns() {
    let file = file_of("ab\ncd\n\nef");
    assert_eq!(file.get_position_at(0), (0, 0));
    assert_eq!(file.get_position_at(2), (0, 2));
    assert_eq!(file.get_position_at(3), (1, 0));
    assert_eq!(file.get_position_at(5), (1, 2));
    assert_eq!(file.get_position_at(6), (2, 0));
    assert_eq!(file.get_position_at(7), (3, 0));
    assert_eq!(file.get_position_at(9), (3, 2));
    assert_eq!(file.get_position_at(10), (3, 2));
    assert_eq!(file.get_position_at(usize::MAX), (3, 2));
}

#[test]
fn offsets_of_lines_and_columns() {
    let file = file_of("ab\ncd\n\nef");
    assert_eq!(file.get_offset_at(0, 0), 0);
    assert_eq!(file.get_offset_at(0, 2), 2);
    assert_eq!(file.get_offset_at(1, 0), 3);
    assert_eq!(file.get_offset_at(1, 1), 4);
    assert_eq!(file.get_offset_at(2, 0), 6);
    assert_eq!(file.get_offset_at(3, 0), 7);
    assert_eq!(file.get_offset_at(3, 2), 9);
}

#[test]
fn a_column_beyond_the_line_gives_the_end_of_the_line() {
    let file = file_of("ab\ncd\r\nef");
    assert_eq!(file.get_offset_at(0, 3), 2);
    assert_eq!(file.get_offset_at(0, u32::MAX), 2);
    assert_eq!(file.get_offset_at(1, 9), 5);
    assert_eq!(file.get_offset_at(2, 9), 9);
}

#[test]
fn a_line_beyond_the_last_gives_the_end_of_the_text() {
    let file = file_of("ab\ncd");
    assert_eq!(file.get_offset_at(2, 0), 5);
    assert_eq!(file.get_offset_at(u32::MAX, u32::MAX), 5);
    assert_eq!(file_of("").get_offset_at(0, 0), 0);
    assert_eq!(file_of("").get_offset_at(4, 4), 0);
    assert_eq!(file_of("").get_position_at(3), (0, 0));
}

#[test]
fn columns_count_utf16_code_units() {
    let file = file_of("a\u{e9}\u{20ac}\u{1f600}b\n\u{1f600}");
    assert_eq!(file.get_position_at(1), (0, 1));
    assert_eq!(file.get_position_at(3), (0, 2));
    assert_eq!(file.get_position_at(6), (0, 3));
    assert_eq!(file.get_position_at(10), (0, 5));
    assert_eq!(file.get_position_at(11), (0, 6));
    assert_eq!(file.get_position_at(12), (1, 0));
    assert_eq!(file.get_position_at(16), (1, 2));
    assert_eq!(file.get_offset_at(0, 1), 1);
    assert_eq!(file.get_offset_at(0, 2), 3);
    assert_eq!(file.get_offset_at(0, 3), 6);
    assert_eq!(file.get_offset_at(0, 5), 10);
    assert_eq!(file.get_offset_at(0, 6), 11);
    assert_eq!(file.get_offset_at(1, 2), 16);
}

#[test]
fn offsets_and_columns_inside_a_character_fall_back_to_its_start() {
    let file = file_of("a\u{1f600}b");
    assert_eq!(file.get_position_at(2), (0, 1));
    assert_eq!(file.get_position_at(3), (0, 1));
    assert_eq!(file.get_position_at(4), (0, 1));
    assert_eq!(file.get_position_at(5), (0, 3));
    assert_eq!(file.get_offset_at(0, 2), 1);
    assert_eq!(file.get_offset_at(0, 3), 5);
}

#[test]
fn carriage_returns_end_lines() {
    let file = file_of("a\rb\r\nc\n");
    assert_eq!(file.get_position_at(1), (0, 1));
    assert_eq!(file.get_position_at(2), (1, 0));
    assert_eq!(file.get_position_at(3), (1, 1));
    assert_eq!(file.get_position_at(4), (1, 1));
    assert_eq!(file.get_position_at(5), (2, 0));
    assert_eq!(file.get_position_at(6), (2, 1));
    assert_eq!(file.get_position_at(7), (3, 0));
    assert_eq!(file.get_offset_at(1, 0), 2);
    assert_eq!(file.get_offset_at(1, 1), 3);
    assert_eq!(file.get_offset_at(1, 2), 3);
    assert_eq!(file.get_offset_at(2, 0), 5);
    assert_eq!(file.get_offset_at(3, 0), 7);
}

#[test]
fn positions_map_to_offsets_and_back() {
    let text = "a\u{1f600}/b\r\n!c\u{e9}\n\n# d";
    let file = file_of(text);
    for offset in 0..=text.len() {
        let inside_line_break = offset == 8;
        if text.is_char_boundary(offset) && !inside_line_break {
            let (line, character) = file.get_position_at(offset);
            assert_eq!(file.get_offset_at(line, character), offset);
            assert_eq!(file.get_position_at(file.get_offset_at(line, character)), (line, character));
        }
    }
}

#[test]
fn a_change_replaces_its_range() {
    let mut file = file_of("ab\ncd\nef");
    file.apply_change(replace((1, 0), (1, 2), "xyz"));
    assert_eq!(file.get_content(), "ab\nxyz\nef");
    file.apply_change(replace((0, 1), (2, 1), ""));
    assert_eq!(file.get_content(), "af");
    file.apply_change(replace((0, 1), (0, 1), "\n"));
    assert_eq!(file.get_content(), "a\nf");
    assert_eq!(file.url, "file:///a");
}

#[test]
fn a_change_without_a_range_replaces_the_text() {
    let mut file = file_of("ab\ncd");
    file.apply_change(Change { range: None, text: "x/y".to_string() });
    assert_eq!(file.get_content(), "x/y");
    file.apply_change(Change { range: None, text: String::new() });
    assert_eq!(file.get_content(), "");
}

#[test]
fn a_change_works_in_utf16_columns() {
    let mut file = file_of("\u{1f600}a\u{e9}b");
    file.apply_change(replace((0, 2), (0, 4), "-"));
    assert_eq!(file.get_content(), "\u{1f600}-b");
    file.apply_change(replace((0, 1), (0, 3), "+"));
    assert_eq!(file.get_content(), "+b");
}

#[test]
fn a_range_that_ends_before_it_starts_is_empty() {
    let mut file = file_of("abcd");
    file.apply_change(replace((0, 3), (0, 1), "-"));
    assert_eq!(file.get_content(), "abc-d");
}

#[test]
fn a_range_beyond_the_text_appends() {
    let mut file = file_of("ab\n");
    file.apply_change(replace((7, 0), (9, 3), "cd"));
    assert_eq!(file.get_content(), "ab\ncd");
    file.apply_change(replace((0, 9), (0, 9), "!"));
    assert_eq!(file.get_content(), "ab!\ncd");
}
