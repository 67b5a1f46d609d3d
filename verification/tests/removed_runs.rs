use diffr::removed_runs::{removed_leaves, Gates, Options, RemovedRuns};
use diffr::tree::{Node, OtherSide, Pairing, Region, Source};
use diffr::types::{FileEntry, FileStatus, Move, Position, Range, Visibility};
use std::collections::BTreeSet;

fn leaf(id: u32, alignment: u32, start: u32, end: u32) -> Region {
    Region {
        id,
        fold_state_id: id,
        range: Range { start: Position { line: start, column: 0 }, end: Position { line: end, column: 0 } },
        tags: vec![],
        visibility: Visibility::default(),
        node: Node::Leaf { alignment_id: alignment, changed: vec![] },
    }
}

fn fold(id: u32, tags: &[&str], children: Vec<Region>) -> Region {
    Region {
        id,
        fold_state_id: id,
        range: Range { start: children[0].range.start, end: children[children.len() - 1].range.end },
        tags: tags.iter().map(|tag| tag.to_string()).collect(),
        visibility: Visibility::default(),
        node: Node::Fold { children },
    }
}

fn entry() -> FileEntry {
    FileEntry { path: "a.rs".to_owned(), old_path: None, status: FileStatus::Deleted, tags: vec![] }
}

#[test]
fn a_long_removed_leaf_keeps_its_first_and_last_line_open() {
    let sides = Pairing::LeftOnly { lhs: Source { text: String::new(), regions: vec![leaf(1, 100, 0, 10)] } };
    let plugin = RemovedRuns { options: Options { min_lines: 4 } };
    assert_eq!(
        plugin.mutate(&entry(), &sides, &BTreeSet::new()).unwrap(),
        vec![
            Move::Cut { region: 1, at: 1 },
            Move::Cut { region: 2, at: 8 },
            Move::SetCollapsed { region: 2, collapsed: true },
            Move::SetLabel { region: 2, label: Some("8 lines removed".to_owned()) },
        ]
    );
    let highlighted: BTreeSet<u32> = [1].into_iter().collect();
    assert!(plugin.mutate(&entry(), &sides, &highlighted).unwrap().is_empty());
}

#[test]
fn the_threshold_is_never_below_three_lines() {
    let lhs = Source { text: String::new(), regions: vec![leaf(1, 100, 0, 2), leaf(2, 101, 2, 5)] };
    assert_eq!(removed_leaves(&lhs, &OtherSide::none(), 3, &BTreeSet::new()), vec![(2, 3)]);
    let plugin = RemovedRuns { options: Options { min_lines: 1 } };
    let sides = Pairing::LeftOnly { lhs };
    let moves = plugin.mutate(&entry(), &sides, &BTreeSet::new()).unwrap();
    assert_eq!(moves[0], Move::Cut { region: 2, at: 1 });
    assert_eq!(moves.len(), 4);
}

#[test]
fn leaves_in_a_paired_function_or_under_a_collapsed_fold_stay_open() {
    let function = fold(3, &["removed-runs:function"], vec![leaf(1, 100, 0, 1), leaf(2, 101, 1, 9)]);
    let mut hidden = fold(4, &[], vec![leaf(5, 102, 9, 19)]);
    hidden.visibility.collapsed = true;
    let lhs = Source { text: String::new(), regions: vec![function, hidden] };
    let rhs = Source { text: String::new(), regions: vec![leaf(6, 100, 0, 1)] };
    let other = OtherSide::of(&rhs.regions);
    assert!(removed_leaves(&lhs, &other, 3, &BTreeSet::new()).is_empty());
    assert_eq!(removed_leaves(&lhs, &OtherSide::none(), 3, &BTreeSet::new()), vec![(2, 8)]);
    let added = Pairing::RightOnly { rhs };
    let plugin = RemovedRuns { options: Options { min_lines: 3 } };
    assert!(plugin.mutate(&entry(), &added, &BTreeSet::new()).unwrap().is_empty());
}

#[test]
fn gates_open_at_the_top_level() {
    assert!(Gates::default().open());
    assert!(!Gates { function: Some(false), any: Some(true) }.open());
    assert!(Gates { function: None, any: Some(true) }.open());
}
