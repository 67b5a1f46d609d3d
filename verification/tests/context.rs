use diffr::context::{hidden_stretches, scope_rows, segments, unchanged_label, Context, Member, Options};
use diffr::tree::{Node, Pairing, Region, Source};
use diffr::types::{FileEntry, FileStatus, Move, Position, Range, Span, Visibility};
use std::collections::BTreeSet;

fn range(start: u32, end: u32) -> Range {
    Range { start: Position { line: start, column: 0 }, end: Position { line: end, column: 0 } }
}

fn leaf(id: u32, state: u32, alignment: u32, start: u32, end: u32, changed: bool) -> Region {
    Region {
        id,
        fold_state_id: state,
        range: range(start, end),
        tags: vec![],
        visibility: Visibility::default(),
        node: Node::Leaf {
            alignment_id: alignment,
            changed: if changed {
                vec![Span { line: start, start_column: 0, end_column: 1 }]
            } else {
                vec![]
            },
        },
    }
}

fn fold(id: u32, tags: &[&str], children: Vec<Region>) -> Region {
    Region {
        id,
        fold_state_id: id,
        range: Range { start: children[0].range.start, end: children[children.len() - 1].range.end },
        tags: tags.iter().map(|tag| tag.to_string()).collect(),
        visibility: Visibility::default(),
        node: Node::Fold { children },
    }
}

fn lines(count: usize) -> String {
    (0..count).map(|i| format!("line {i}\n")).collect()
}

fn entry() -> FileEntry {
    FileEntry { path: "a.rs".to_owned(), old_path: None, status: FileStatus::Modified, tags: vec![] }
}

#[test]
fn labels_count_unchanged_lines() {
    assert_eq!(unchanged_label(1), "1 unchanged line");
    assert_eq!(unchanged_label(5), "5 unchanged lines");
    assert_eq!(unchanged_label(0), "0 unchanged lines");
}

#[test]
fn a_scope_holding_a_change_keeps_its_edges_and_header() {
    let scope = fold(
        10,
        &["context:scope"],
        vec![leaf(1, 1, 1, 0, 2, false), fold(11, &["context:body"], vec![leaf(2, 2, 2, 2, 4, false)]), leaf(3, 3, 3, 4, 5, false)],
    );
    let regions = vec![scope];
    let changed: BTreeSet<u32> = [3].into_iter().collect();
    let expected: BTreeSet<u32> = [0, 1, 4].into_iter().collect();
    assert_eq!(scope_rows(&regions, &changed), expected);
    let elsewhere: BTreeSet<u32> = [7].into_iter().collect();
    assert!(scope_rows(&regions, &elsewhere).is_empty());
}

#[test]
fn a_stretch_is_cut_at_region_edges() {
    let regions = vec![
        leaf(1, 1, 100, 0, 4, false),
        fold(2, &[], vec![leaf(3, 3, 101, 4, 6, false), leaf(4, 4, 102, 6, 10, false)]),
        leaf(5, 5, 103, 10, 12, false),
    ];
    let mut parts = Vec::new();
    segments(&regions, 2, 11, &mut parts);
    assert_eq!(
        parts,
        vec![vec![
            Member::Part { id: 1, alignment: 100, start: 2, end: 4 },
            Member::Whole { id: 2, lines: 6, state: Some(2), alignment: None },
            Member::Part { id: 5, alignment: 103, start: 0, end: 1 },
        ]]
    );
    let mut inner = Vec::new();
    segments(&regions, 5, 8, &mut inner);
    assert_eq!(
        inner,
        vec![vec![
            Member::Part { id: 3, alignment: 101, start: 1, end: 2 },
            Member::Part { id: 4, alignment: 102, start: 0, end: 2 },
        ]]
    );
    assert_eq!(Member::Part { id: 3, alignment: 101, start: 1, end: 2 }.key(), (false, 101, 2));
    assert_eq!(Member::Whole { id: 2, lines: 6, state: Some(2), alignment: None }.key(), (true, 2, 0));
    assert_eq!(Member::Whole { id: 2, lines: 6, state: Some(2), alignment: None }.lines(), 6);
}

#[test]
fn a_file_with_no_change_collapses_whole() {
    let sides = Pairing::Both {
        lhs: Source { text: lines(10), regions: vec![leaf(1, 50, 100, 0, 10, false)] },
        rhs: Source { text: lines(10), regions: vec![leaf(2, 50, 100, 0, 10, false)] },
    };
    let plugin = Context { options: Options { lines: 2 } };
    let label = Some("10 unchanged lines".to_owned());
    assert_eq!(
        plugin.mutate(&entry(), &sides).unwrap(),
        vec![
            Move::SetCollapsed { region: 1, collapsed: true },
            Move::SetLabel { region: 1, label: label.clone() },
            Move::SetLabel { region: 2, label },
        ]
    );
}

#[test]
fn lines_near_a_change_stay_in_view() {
    let sides = Pairing::Both {
        lhs: Source {
            text: lines(21),
            regions: vec![
                leaf(1, 50, 100, 0, 10, false),
                leaf(3, 51, 101, 10, 11, true),
                leaf(5, 52, 102, 11, 21, false),
            ],
        },
        rhs: Source {
            text: lines(21),
            regions: vec![
                leaf(2, 50, 100, 0, 10, false),
                leaf(4, 51, 101, 10, 11, true),
                leaf(6, 52, 102, 11, 21, false),
            ],
        },
    };
    let plugin = Context { options: Options { lines: 2 } };
    let label = Some("8 unchanged lines".to_owned());
    assert_eq!(
        plugin.mutate(&entry(), &sides).unwrap(),
        vec![
            Move::Cut { region: 5, at: 2 },
            Move::SetCollapsed { region: 7, collapsed: true },
            Move::SetLabel { region: 7, label: label.clone() },
            Move::SetLabel { region: 8, label: label.clone() },
            Move::Cut { region: 1, at: 8 },
            Move::SetCollapsed { region: 1, collapsed: true },
            Move::SetLabel { region: 1, label: label.clone() },
            Move::SetLabel { region: 2, label },
        ]
    );
}

#[test]
fn a_one_sided_file_keeps_everything_in_view() {
    let sides = Pairing::RightOnly { rhs: Source { text: lines(10), regions: vec![leaf(1, 1, 100, 0, 10, false)] } };
    let plugin = Context { options: Options { lines: 2 } };
    assert!(plugin.mutate(&entry(), &sides).unwrap().is_empty());
    assert!(plugin.classify(&entry()).unwrap().is_empty());
}

#[test]
fn hidden_stretches_skip_lines_near_a_change() {
    let lhs = Source {
        text: lines(21),
        regions: vec![leaf(1, 50, 100, 0, 10, false), leaf(3, 51, 101, 10, 11, true), leaf(5, 52, 102, 11, 21, false)],
    };
    let rhs = Source {
        text: lines(21),
        regions: vec![leaf(2, 50, 100, 0, 10, false), leaf(4, 51, 101, 10, 11, true), leaf(6, 52, 102, 11, 21, false)],
    };
    let (stretches, changed) = hidden_stretches(&lhs, &rhs, 2);
    assert!(changed);
    assert_eq!(stretches, vec![((0, 8), (0, 8)), ((13, 21), (13, 21))]);
    let (all, changed) = hidden_stretches(&lhs, &lhs, 2);
    assert!(changed);
    assert_eq!(all, vec![((0, 8), (0, 8)), ((13, 21), (13, 21))]);
}

#[test]
fn hidden_stretches_cover_an_unchanged_file() {
    let lhs = Source { text: lines(6), regions: vec![leaf(1, 50, 100, 0, 6, false)] };
    let rhs = Source { text: lines(6), regions: vec![leaf(2, 50, 100, 2, 8, false)] };
    let (stretches, changed) = hidden_stretches(&lhs, &rhs, 1);
    assert!(!changed);
    assert_eq!(stretches, vec![((0, 6), (2, 8))]);
}

#[test]
fn a_short_file_with_no_change_still_collapses_whole() {
    let sides = Pairing::Both {
        lhs: Source { text: "a\nb\n".to_owned(), regions: vec![leaf(1, 1, 0, 0, 2, false)] },
        rhs: Source { text: "a\nb\n".to_owned(), regions: vec![leaf(2, 1, 0, 0, 2, false)] },
    };
    let plugin = Context { options: Options { lines: 3 } };
    let label = Some("2 unchanged lines".to_owned());
    assert_eq!(
        plugin.mutate(&entry(), &sides).unwrap(),
        vec![
            Move::SetCollapsed { region: 1, collapsed: true },
            Move::SetLabel { region: 1, label: label.clone() },
            Move::SetLabel { region: 2, label },
        ]
    );
}

#[test]
fn lines_all_near_a_change_stay_open() {
    let sides = Pairing::Both {
        lhs: Source {
            text: lines(3),
            regions: vec![leaf(1, 50, 100, 0, 1, false), leaf(3, 51, 101, 1, 2, true), leaf(5, 52, 102, 2, 3, false)],
        },
        rhs: Source {
            text: lines(3),
            regions: vec![leaf(2, 50, 100, 0, 1, false), leaf(4, 51, 101, 1, 2, true), leaf(6, 52, 102, 2, 3, false)],
        },
    };
    let plugin = Context { options: Options { lines: 3 } };
    assert!(plugin.mutate(&entry(), &sides).unwrap().is_empty());
}
