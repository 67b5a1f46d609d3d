use diffr::deleted_bodies::{self, DeletedBodies};
use diffr::hide_files::{self, capitalized, HideFiles};
use diffr::test_bodies::{self, test_body_entries, TestBodies};
use diffr::tree::{Node, Pairing, Region, Source};
use diffr::types::{FileEntry, FileStatus, Move, Position, Range, Visibility, ROOT};

fn entry(status: FileStatus, tags: &[&str]) -> FileEntry {
    FileEntry {
        path: "a.rs".to_owned(),
        old_path: None,
        status,
        tags: tags.iter().map(|tag| tag.to_string()).collect(),
    }
}

fn leaf(id: u32, alignment: u32, start: u32, end: u32) -> Region {
    Region {
        id,
        fold_state_id: id,
        range: Range {
            start: Position { line: start, column: 0 },
            end: Position { line: end, column: 0 },
        },
        tags: vec![],
        visibility: Visibility::default(),
        node: Node::Leaf { alignment_id: alignment, changed: vec![] },
    }
}

fn fold(id: u32, tags: &[&str], children: Vec<Region>) -> Region {
    Region {
        id,
        fold_state_id: id,
        range: Range { start: children[0].range.start, end: children[children.len() - 1].range.end },
        tags: tags.iter().map(|tag| tag.to_string()).collect(),
        visibility: Visibility::default(),
        node: Node::Fold { children },
    }
}

#[test]
fn capitalized_uppercases_the_first_character() {
    assert_eq!(capitalized("generated"), "Generated");
    assert_eq!(capitalized(""), "");
    assert_eq!(capitalized("ßx"), "SSx");
}

#[test]
fn hidden_files_name_the_status_or_the_first_listed_tag() {
    let plugin = HideFiles {
        options: hide_files::Options { tags: vec!["vendored".to_owned(), "generated".to_owned()], deleted: true },
    };
    let sides = Pairing::LeftOnly { lhs: Source { text: String::new(), regions: vec![] } };
    assert_eq!(
        plugin.mutate(&entry(FileStatus::Deleted, &[]), &sides).unwrap(),
        vec![
            Move::SetCollapsed { region: ROOT, collapsed: true },
            Move::SetLabel { region: ROOT, label: Some("Deleted file · hidden by default".to_owned()) },
        ]
    );
    assert_eq!(
        plugin.mutate(&entry(FileStatus::Modified, &["generated", "vendored"]), &sides).unwrap()[1],
        Move::SetLabel { region: ROOT, label: Some("Vendored file · hidden by default".to_owned()) }
    );
    assert!(plugin.mutate(&entry(FileStatus::Modified, &["docs"]), &sides).unwrap().is_empty());
    assert!(plugin.classify(&entry(FileStatus::Added, &[])).unwrap().is_empty());
}

#[test]
fn deleted_bodies_collapse_when_one_sided_and_long_enough() {
    let body = fold(2, &["deleted-bodies:function"], vec![leaf(3, 1, 1, 5)]);
    let kept = fold(4, &["deleted-bodies:function"], vec![leaf(5, 2, 5, 9)]);
    let short = fold(6, &["deleted-bodies:function"], vec![leaf(7, 3, 9, 10)]);
    let sides = Pairing::Both {
        lhs: Source { text: String::new(), regions: vec![leaf(1, 0, 0, 1), body, kept, short] },
        rhs: Source { text: String::new(), regions: vec![leaf(8, 2, 0, 4)] },
    };
    let plugin = DeletedBodies { options: deleted_bodies::Options { min_lines: 2 } };
    assert_eq!(
        plugin.mutate(&entry(FileStatus::Modified, &[]), &sides).unwrap(),
        vec![
            Move::SetCollapsed { region: 2, collapsed: true },
            Move::SetLabel { region: 2, label: Some("4 lines removed".to_owned()) },
        ]
    );
    let added = Pairing::RightOnly { rhs: Source { text: String::new(), regions: vec![leaf(1, 0, 0, 1)] } };
    assert!(plugin.mutate(&entry(FileStatus::Added, &[]), &added).unwrap().is_empty());
}

#[test]
fn test_bodies_collapse_on_both_sides_under_their_labels() {
    let module = fold(2, &["test-bodies:module"], vec![leaf(3, 1, 1, 5)]);
    let mut body = fold(6, &["test-bodies:test"], vec![leaf(7, 2, 0, 4)]);
    body.visibility.label = "mine".to_owned();
    let sides = Pairing::Both {
        lhs: Source { text: String::new(), regions: vec![leaf(1, 0, 0, 1), module] },
        rhs: Source { text: String::new(), regions: vec![body] },
    };
    let entries = test_body_entries(&sides, 3);
    assert_eq!(
        entries,
        vec![(2, "test module".to_owned(), None), (6, "mine".to_owned(), None)]
    );
    let plugin = TestBodies { options: test_bodies::Options { min_lines: 3 } };
    assert_eq!(
        plugin.mutate(&entry(FileStatus::Modified, &[]), &sides).unwrap(),
        vec![
            Move::SetCollapsed { region: 2, collapsed: true },
            Move::SetLabel { region: 2, label: Some("test module".to_owned()) },
            Move::SetCollapsed { region: 6, collapsed: true },
            Move::SetLabel { region: 6, label: Some("mine".to_owned()) },
        ]
    );
}
