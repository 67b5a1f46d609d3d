use diffr::mutate::{comment_marker, summary_label, HiddenCategories};
use diffr::protocol::{FileChange, FileRef};
use diffr::tree::Pairing;
use diffr::types::{FileStatus, Visibility};

fn manifest(category: Option<&str>) -> FileChange {
    FileChange {
        file: Pairing::RightOnly {
            rhs: FileRef {
                path: "x".to_owned(),
                oid: String::new(),
                mode: String::new(),
            },
        },
        status: FileStatus::Added,
        category: category.map(str::to_owned),
        language: None,
        visibility: Visibility::default(),
    }
}

#[test]
fn hidden_categories_follow_the_switches() {
    let rule = HiddenCategories {
        generated: true,
        tests: false,
    };
    let mut file = manifest(Some("generated"));
    rule.apply(&mut file).unwrap();
    assert!(file.visibility.collapsed);
    assert_eq!(file.visibility.label, "Generated file · hidden by default");
    let mut file = manifest(Some("test"));
    rule.apply(&mut file).unwrap();
    assert!(!file.visibility.collapsed);
    let mut file = manifest(None);
    rule.apply(&mut file).unwrap();
    assert!(!file.visibility.collapsed);
}

#[test]
fn hidden_test_files_take_their_own_label() {
    let rule = HiddenCategories {
        generated: false,
        tests: true,
    };
    let mut file = manifest(Some("test"));
    rule.apply(&mut file).unwrap();
    assert!(file.visibility.collapsed);
    assert_eq!(file.visibility.label, "Test file · hidden by default");
    let mut file = manifest(Some("generated"));
    rule.apply(&mut file).unwrap();
    assert_eq!(file, manifest(Some("generated")));
}

#[test]
fn comment_markers_follow_the_language() {
    assert_eq!(comment_marker(Some("Python")), "#");
    assert_eq!(comment_marker(Some("Rust")), "//");
    assert_eq!(comment_marker(Some("TypeScript TSX")), "//");
    assert_eq!(comment_marker(Some("Lua")), "--");
    assert_eq!(comment_marker(Some("Clojure")), ";");
    assert_eq!(comment_marker(Some("Erlang")), "%");
    assert_eq!(comment_marker(None), "#");
    assert_eq!(
        summary_label(Some("Go"), "x = 1\nreturn x\n"),
        "// pseudocode\nx = 1\nreturn x"
    );
}

#[test]
fn a_summary_label_keeps_leading_space_and_drops_trailing_space() {
    assert_eq!(summary_label(Some("Pascal"), "  a\t\n \n"), "// pseudocode\n  a");
    assert_eq!(summary_label(None, ""), "# pseudocode\n");
}
