use diffr::lines::{is_all_whitespace, split_on_newlines};

#[test]
fn test_split_line_empty() {
    assert_eq!(split_on_newlines(""), vec![""]);
}

#[test]
fn test_split_line_single() {
    assert_eq!(split_on_newlines("foo"), vec!["foo"]);
}

#[test]
fn test_split_line_with_newline() {
    assert_eq!(split_on_newlines("foo\nbar"), vec!["foo", "bar"]);
}

#[test]
fn test_split_line_with_crlf() {
    assert_eq!(split_on_newlines("foo\r\nbar"), vec!["foo", "bar"]);
}

#[test]
fn test_split_line_with_trailing_newline() {
    assert_eq!(split_on_newlines("foo\nbar\n"), vec!["foo", "bar", ""]);
}

#[test]
fn test_is_all_whitespace() {
    assert!(is_all_whitespace(" \n\t"));
}

#[test]
fn text_with_anything_else_is_not_all_whitespace() {
    assert!(is_all_whitespace(""));
    assert!(is_all_whitespace("\u{3000}\r"));
    assert!(!is_all_whitespace(" x "));
}

#[test]
fn only_one_carriage_return_ending_each_line_is_dropped() {
    assert_eq!(split_on_newlines("a\r\r\nb\r"), vec!["a\r", "b"]);
}
