use diffr::docstrings::{comment_above, python_docstring};

fn lines(text: &str) -> Vec<&str> {
    text.split_terminator('\n').collect()
}

#[test]
fn rust_doc_comments_above_a_signature_are_a_docstring() {
    let text = "fn keep() -> u32 {\n    1\n}\n\n/// Adds one.\n/// Twice, really.\nfn add(\n    a: u32,\n) -> u32 {\n    a + 2\n}\n\n// Plain comment.\nfn sub(a: u32) -> u32 {\n    a - 1\n}\n";
    let lines = lines(text);
    // `add`'s body opens on line 8, below a three-line signature.
    assert_eq!(comment_above(&lines, 8, "//"), Some((4, 6)));
    // `sub`'s body opens on its signature line.
    assert_eq!(comment_above(&lines, 13, "//"), Some((12, 13)));
    // `keep` has nothing above it.
    assert_eq!(comment_above(&lines, 0, "//"), None);
}

#[test]
fn a_comment_separated_by_code_is_no_docstring() {
    let lines = lines("// About the constant.\nconst X: u32 = 1;\nfn f() -> u32 {\n    X\n}\n");
    assert_eq!(comment_above(&lines, 2, "//"), None);
    // Blank lines between the comment and the signature are skipped.
    let lines = self::lines("# Says hi.\n\n\ndef hi():\n    pass\n");
    assert_eq!(comment_above(&lines, 3, "#"), Some((0, 1)));
    // A line past the text finds nothing.
    assert_eq!(comment_above(&lines, 9, "#"), None);
}

#[test]
fn block_comments_count_where_comments_open_with_slashes() {
    let lines = lines("/**\n * Adds.\n */\nfunction add(a) {\n  return a + 1;\n}\n");
    assert_eq!(comment_above(&lines, 3, "//"), Some((0, 3)));
    assert_eq!(comment_above(&lines, 3, "#"), None);
}

#[test]
fn a_python_string_first_in_the_body_is_its_docstring() {
    let lines = lines("def f(a):\n    \"\"\"Double a.\n\n    Returns an int.\n    \"\"\"\n    return a * 2\n");
    assert_eq!(python_docstring(&lines, 1), Some((1, 5)));
    let lines = self::lines("def g():\n    r'''Raw, on one line.'''\n    return 1\n");
    assert_eq!(python_docstring(&lines, 1), Some((1, 2)));
    let lines = self::lines("def h():\n    'single'\n    return 1\n");
    assert_eq!(python_docstring(&lines, 1), Some((1, 2)));
    let lines = self::lines("def k():\n    return 1\n");
    assert_eq!(python_docstring(&lines, 1), None);
    assert_eq!(python_docstring(&lines, 7), None);
    let lines = self::lines("def u():\n    \"\"\"Never closed.\n    return 1\n");
    assert_eq!(python_docstring(&lines, 1), None);
}
