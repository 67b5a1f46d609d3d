use diffr::git::{file_change, order_files, rank, Comparison, DeltaKind, FileChange, FileError, FileStatus, Operand};
use diffr::protocol::FileRef;
use diffr::tree::Pairing;

#[test]
fn reversing_swaps_the_sides() {
    let mut comparison = Comparison { before: Operand::revision("HEAD".to_owned()), after: Operand::WorkingTree };
    assert!(comparison.diffs_reversed() == false);
    comparison.reverse();
    assert!(matches!(comparison.before, Operand::WorkingTree));
    assert!(matches!(&comparison.after, Operand::Revision { reference } if reference == "HEAD"));
    assert!(comparison.diffs_reversed());
    let index_to_tree = Comparison { before: Operand::Index, after: Operand::EmptyTree };
    assert!(index_to_tree.diffs_reversed());
    let tree_to_index = Comparison { before: Operand::EmptyTree, after: Operand::Index };
    assert!(!tree_to_index.diffs_reversed());
}

#[test]
fn a_standalone_comparison_takes_dev_null_for_a_missing_side() {
    let both = FileChange::standalone("a.rs", "b.rs");
    assert_eq!(both.status, FileStatus::Modified);
    assert_eq!(both.path(), "b.rs");
    assert!(both.tags.is_empty());
    match &both.sides {
        Pairing::Both { lhs, rhs } => {
            assert_eq!((lhs.path.as_str(), lhs.oid.as_str(), lhs.mode.as_str()), ("a.rs", "", ""));
            assert_eq!(rhs.path, "b.rs");
        }
        _ => panic!("expected both sides"),
    }
    let deleted = FileChange::standalone("gone.rs", "/dev/null");
    assert_eq!(deleted.status, FileStatus::Deleted);
    assert_eq!(deleted.new_path, None);
    assert_eq!(deleted.path(), "gone.rs");
    assert!(matches!(deleted.sides, Pairing::LeftOnly { .. }));
    let added = FileChange::standalone("/dev/null", "new.rs");
    assert_eq!(added.status, FileStatus::Added);
    assert_eq!(added.old_path, None);
    assert!(matches!(added.sides, Pairing::RightOnly { .. }));
}

#[test]
fn files_rank_by_the_first_order_tag_they_carry() {
    let order = vec!["source".to_owned(), "test".to_owned(), "docs".to_owned()];
    assert_eq!(rank(&order, &["docs".to_owned(), "test".to_owned()]), 1);
    assert_eq!(rank(&order, &["source".to_owned()]), 0);
    assert_eq!(rank(&order, &["generated".to_owned()]), 3);
    assert_eq!(rank(&[], &["source".to_owned()]), 0);
}

#[test]
fn file_errors_have_codes_and_messages() {
    assert_eq!(FileError::UnsupportedFileType.code(), "unsupported_file_type");
    assert_eq!(FileError::ReadFailed.code(), "read_failed");
    assert_eq!(FileError::NotUtf8.code(), "not_utf8");
    assert_eq!(FileError::Unmerged.code(), "unmerged");
    assert_eq!(FileError::NotUtf8.message(), "the source is not valid UTF-8");
    assert_eq!(
        FileError::Unmerged.message(),
        "unmerged index entry: resolve the conflict before requesting a structural diff"
    );
}

fn file_ref(path: &str) -> FileRef {
    FileRef { path: path.to_owned(), oid: "abc".to_owned(), mode: "100644".to_owned() }
}

#[test]
fn deltas_become_files_by_their_kind() {
    let added = file_change(DeltaKind::Added, file_ref("old"), file_ref("new")).unwrap();
    assert_eq!(added.status, FileStatus::Added);
    assert_eq!(added.old_path, None);
    assert_eq!(added.new_path.as_deref(), Some("new"));
    assert!(matches!(added.sides, Pairing::RightOnly { .. }));
    let deleted = file_change(DeltaKind::Deleted, file_ref("old"), file_ref("new")).unwrap();
    assert_eq!(deleted.new_path, None);
    assert!(matches!(deleted.sides, Pairing::LeftOnly { .. }));
    let renamed = file_change(DeltaKind::Renamed, file_ref("a"), file_ref("b")).unwrap();
    assert_eq!(renamed.status, FileStatus::Renamed);
    assert!(matches!(renamed.sides, Pairing::Both { .. }));
    let changed_type = file_change(DeltaKind::Typechange, file_ref("a"), file_ref("a")).unwrap();
    assert_eq!(changed_type.status, FileStatus::TypeChanged);
    assert!(file_change(DeltaKind::Other, file_ref("a"), file_ref("a")).is_none());
}

#[test]
fn files_are_ordered_by_rank_then_path() {
    let file = |path: &str, tags: &[&str]| {
        let mut f = file_change(DeltaKind::Modified, file_ref(path), file_ref(path)).unwrap();
        f.tags = tags.iter().map(|t| t.to_string()).collect();
        f
    };
    let files = vec![file("z.rs", &[]), file("b.rs", &["test"]), file("a.rs", &[]), file("c.md", &["docs"])];
    let order = vec!["docs".to_string(), "test".to_string()];
    let sorted = order_files(files, &order);
    let paths: Vec<&str> = sorted.iter().map(|f| f.path()).collect();
    assert_eq!(paths, vec!["c.md", "b.rs", "a.rs", "z.rs"]);
}
