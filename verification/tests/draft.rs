use diffr::apply::{apply, MoveError};
use diffr::draft::Draft;
use diffr::tree::{Node, Pairing, Region, Source};
use diffr::types::{Move, Position, Range, Visibility};

fn leaf(id: u32, alignment: u32, start: u32, end: u32) -> Region {
    Region {
        id,
        fold_state_id: id,
        range: Range {
            start: Position { line: start, column: 0 },
            end: Position { line: end, column: 0 },
        },
        tags: vec![],
        visibility: Visibility::default(),
        node: Node::Leaf { alignment_id: alignment, changed: vec![] },
    }
}

fn fold(id: u32, children: Vec<Region>) -> Region {
    Region {
        id,
        fold_state_id: id,
        range: Range { start: children[0].range.start, end: children[children.len() - 1].range.end },
        tags: vec![],
        visibility: Visibility::default(),
        node: Node::Fold { children },
    }
}

fn both(lhs: Vec<Region>, rhs: Vec<Region>) -> Pairing<Source> {
    Pairing::Both {
        lhs: Source { text: "text".to_owned(), regions: lhs },
        rhs: Source { text: String::new(), regions: rhs },
    }
}

fn paired() -> Pairing<Source> {
    let mut rhs_leaf = leaf(3, 1, 0, 6);
    rhs_leaf.fold_state_id = 2;
    both(vec![leaf(1, 0, 0, 2), leaf(2, 1, 2, 8)], vec![rhs_leaf, leaf(4, 2, 6, 7)])
}

#[test]
fn a_draft_collapse_labels_the_pair_and_predicts_apply() {
    let sides = paired();
    let mut draft = Draft::new(&sides);
    assert_eq!(draft.paired_leaf(2).unwrap(), Some(3));
    assert_eq!(draft.paired_leaf(1).unwrap(), None);
    assert_eq!(draft.paired_leaf(9), Err(MoveError::NoRegion(9)));
    draft.collapse(2, "six lines".to_owned()).unwrap();
    let moves = draft.into_moves();
    assert_eq!(
        moves,
        vec![
            Move::SetCollapsed { region: 2, collapsed: true },
            Move::SetLabel { region: 2, label: Some("six lines".to_owned()) },
            Move::SetLabel { region: 3, label: Some("six lines".to_owned()) },
        ]
    );
    let mut applied = paired();
    let mut file = Visibility::default();
    apply(moves, &mut applied, &mut file).unwrap();
    let Pairing::Both { lhs, rhs } = &applied else { panic!("both") };
    assert!(lhs.regions[1].visibility.collapsed && rhs.regions[0].visibility.collapsed);
    assert_eq!(rhs.regions[0].visibility.label, "six lines");
}

#[test]
fn cutting_lines_returns_the_piece_that_holds_them() {
    let mut draft = Draft::new(&paired());
    let piece = draft.cut_lines(2, 1, 3).unwrap();
    assert_eq!(piece, 5);
    assert_eq!(
        draft.into_moves(),
        vec![Move::Cut { region: 2, at: 1 }, Move::Cut { region: 5, at: 2 }]
    );
    let mut draft = Draft::new(&paired());
    assert_eq!(draft.cut_lines(2, 0, 6).unwrap(), 2);
    assert!(draft.into_moves().is_empty());
    let mut draft = Draft::new(&paired());
    assert_eq!(
        draft.cut_lines(2, 3, 9),
        Err(MoveError::LinesOutside { start: 3, end: 9, region: 2, lines: 6 })
    );
}

#[test]
fn a_link_collapses_when_one_of_its_states_is_collapsed() {
    let mut closed = fold(5, vec![leaf(6, 3, 0, 2)]);
    closed.visibility = Visibility { collapsed: true, label: String::new() };
    let mut labelled = leaf(7, 4, 2, 3);
    labelled.visibility.label = "note".to_owned();
    let sides = both(vec![labelled, closed], vec![]);
    let mut draft = Draft::new(&sides);
    draft.link(&vec![7, 5]).unwrap();
    assert_eq!(
        draft.into_moves(),
        vec![
            Move::LinkFoldState { regions: vec![7, 5] },
            Move::SetCollapsed { region: 7, collapsed: true },
            Move::SetLabel { region: 7, label: None },
        ]
    );
    let mut draft = Draft::new(&sides);
    assert_eq!(draft.link(&vec![7, 99]), Err(MoveError::NoRegion(99)));
}

#[test]
fn a_group_wraps_and_labels_the_new_folds() {
    let sides = both(vec![leaf(1, 0, 0, 1), leaf(2, 1, 1, 2), leaf(3, 2, 2, 3)], vec![leaf(4, 9, 0, 1)]);
    let mut draft = Draft::new(&sides);
    draft.group(vec![2, 3], "two".to_owned()).unwrap();
    assert_eq!(
        draft.into_moves(),
        vec![
            Move::JoinFolds { regions: vec![2, 3] },
            Move::SetCollapsed { region: 5, collapsed: true },
            Move::SetLabel { region: 5, label: Some("two".to_owned()) },
        ]
    );
}
