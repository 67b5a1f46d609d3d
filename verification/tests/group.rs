use diffr::group::{label, runs, shape, Group, Options, Shape};
use diffr::tree::{Node, Pairing, Region, Source};
use diffr::types::{FileEntry, FileStatus, Move, Position, Range, Visibility};
use std::collections::BTreeSet;

fn leaf(id: u32, alignment: u32, start: u32, end: u32, collapsed: bool) -> Region {
    Region {
        id,
        fold_state_id: id,
        range: Range { start: Position { line: start, column: 0 }, end: Position { line: end, column: 0 } },
        tags: vec![],
        visibility: Visibility { collapsed, label: String::new() },
        node: Node::Leaf { alignment_id: alignment, changed: vec![] },
    }
}

fn fold(id: u32, children: Vec<Region>) -> Region {
    Region {
        id,
        fold_state_id: id,
        range: Range { start: children[0].range.start, end: children[children.len() - 1].range.end },
        tags: vec![],
        visibility: Visibility::default(),
        node: Node::Fold { children },
    }
}

fn entry() -> FileEntry {
    FileEntry { path: "a.rs".to_owned(), old_path: None, status: FileStatus::Added, tags: vec![] }
}

#[test]
fn an_open_fold_showing_only_collapsed_regions_counts_as_collapsed() {
    let inner = fold(9, vec![leaf(1, 1, 0, 3, true), leaf(2, 2, 3, 4, false), leaf(3, 3, 4, 8, true)]);
    assert_eq!(shape(&inner), Some(Shape { collapsed: 2, leading: 0, trailing: 0 }));
    let padded = fold(9, vec![leaf(1, 1, 0, 3, false), leaf(3, 3, 3, 8, true)]);
    assert_eq!(shape(&padded), None);
    let header = fold(9, vec![leaf(1, 1, 0, 2, false), leaf(3, 3, 2, 8, true)]);
    assert_eq!(shape(&header), Some(Shape { collapsed: 1, leading: 2, trailing: 0 }));
    assert_eq!(shape(&leaf(1, 1, 0, 3, true)), Some(Shape { collapsed: 1, leading: 0, trailing: 0 }));
    assert_eq!(shape(&leaf(1, 1, 0, 3, false)), None);
}

#[test]
fn collapsed_siblings_with_a_short_gap_make_one_group() {
    let regions = vec![leaf(1, 1, 0, 5, true), leaf(2, 2, 5, 6, false), leaf(3, 3, 6, 10, true)];
    let found = runs(&regions, &BTreeSet::new());
    assert_eq!(found.len(), 1);
    assert_eq!(found[0].members.iter().map(|r| r.id).collect::<Vec<_>>(), vec![1, 2, 3]);
    assert_eq!(found[0].collapsed, 2);
    assert_eq!(label(&found[0]), "2 collapsed regions · 10 lines");
    assert!(diffr::group::matches(&found[0].members, &found[0].members));
    let sides = Pairing::RightOnly { rhs: Source { text: String::new(), regions: regions.clone() } };
    let plugin = Group { options: Options {} };
    assert_eq!(
        plugin.mutate(&entry(), &sides, &BTreeSet::new()).unwrap(),
        vec![
            Move::JoinFolds { regions: vec![1, 2, 3] },
            Move::SetCollapsed { region: 4, collapsed: true },
            Move::SetLabel { region: 4, label: Some("2 collapsed regions · 10 lines".to_owned()) },
        ]
    );
}

#[test]
fn a_search_highlight_or_a_long_gap_breaks_the_run() {
    let regions = vec![leaf(1, 1, 0, 5, true), leaf(2, 2, 5, 6, false), leaf(3, 3, 6, 10, true)];
    let highlighted: BTreeSet<u32> = [2].into_iter().collect();
    assert!(runs(&regions, &highlighted).is_empty());
    let gap = vec![leaf(1, 1, 0, 5, true), leaf(2, 2, 5, 8, false), leaf(3, 3, 8, 10, true)];
    assert!(runs(&gap, &BTreeSet::new()).is_empty());
    let sides = Pairing::RightOnly { rhs: Source { text: String::new(), regions } };
    let plugin = Group { options: Options {} };
    assert!(plugin.mutate(&entry(), &sides, &highlighted).unwrap().is_empty());
}

#[test]
fn runs_under_open_folds_come_before_their_siblings_runs() {
    let nested = fold(
        20,
        vec![leaf(4, 4, 0, 2, false), leaf(5, 5, 2, 4, true), leaf(6, 6, 4, 6, true), leaf(7, 7, 6, 9, false)],
    );
    let regions = vec![nested, leaf(8, 8, 9, 10, true), leaf(9, 9, 10, 12, true)];
    let found = runs(&regions, &BTreeSet::new());
    assert_eq!(found.len(), 2);
    assert_eq!(found[0].members.iter().map(|r| r.id).collect::<Vec<_>>(), vec![5, 6]);
    assert_eq!(found[1].members.iter().map(|r| r.id).collect::<Vec<_>>(), vec![8, 9]);
}
