use diffr::apply::{apply, Applier, Fresh, ListMove, MoveError};
use diffr::tree::{walk, Node, Pairing, Region, Source};
use diffr::types::{Move, Position, Range, Span, Visibility, ROOT};

fn range(start: u32, end: u32) -> Range {
    Range {
        start: Position {
            line: start,
            column: 0,
        },
        end: Position {
            line: end,
            column: 0,
        },
    }
}

/// A leaf whose `fold_state_id` is its `id`.
fn leaf(id: u32, alignment: u32, start: u32, end: u32, changed: &[u32]) -> Region {
    Region {
        id,
        fold_state_id: id,
        range: range(start, end),
        tags: vec![],
        visibility: Visibility::default(),
        node: Node::Leaf {
            alignment_id: alignment,
            changed: changed
                .iter()
                .map(|&line| Span {
                    line,
                    start_column: 0,
                    end_column: 1,
                })
                .collect(),
        },
    }
}

/// A fold whose `fold_state_id` is its `id`.
fn fold(id: u32, collapsed: bool, children: Vec<Region>) -> Region {
    Region {
        id,
        fold_state_id: id,
        range: Range {
            start: children[0].range.start,
            end: children[children.len() - 1].range.end,
        },
        tags: vec![],
        visibility: Visibility {
            collapsed,
            label: String::new(),
        },
        node: Node::Fold { children },
    }
}

/// The region sharing another's fold state: the second of a pair.
fn in_state(mut region: Region, state: u32) -> Region {
    region.fold_state_id = state;
    region
}

fn source(regions: Vec<Region>) -> Source {
    Source {
        text: String::new(),
        regions,
    }
}

fn both(lhs: Vec<Region>, rhs: Vec<Region>) -> Pairing<Source> {
    Pairing::Both {
        lhs: source(lhs),
        rhs: source(rhs),
    }
}

fn run(moves: Vec<Move>, sides: &mut Pairing<Source>) -> Result<Visibility, MoveError> {
    let mut visibility = Visibility::default();
    apply(moves, sides, &mut visibility)?;
    Ok(visibility)
}

type Shape = (u32, Option<u32>, u32, u32, u32, bool, String);

/// `(id, alignment_id, fold_state_id, start, end, collapsed, label)` in
/// preorder.
fn shape(regions: &[Region]) -> Vec<Shape> {
    walk(regions)
        .into_iter()
        .map(|region| {
            (
                region.id,
                region.alignment_id(),
                region.fold_state_id,
                region.range.start.line,
                region.range.end.line,
                region.visibility.collapsed,
                region.visibility.label.clone(),
            )
        })
        .collect()
}

fn sides_of(sides: &Pairing<Source>) -> (&Source, &Source) {
    let Pairing::Both { lhs, rhs } = sides else {
        panic!("both sides");
    };
    (lhs, rhs)
}

#[test]
fn cutting_a_paired_leaf_cuts_both_sides_with_fresh_ids_and_a_shared_alignment() {
    // Leaves 2 (lhs) and 3 (rhs) are paired: alignment 1, fold state 2.
    // Cutting either side cuts both the same way.
    for target in [2, 3] {
        let mut sides = both(
            vec![leaf(1, 0, 0, 2, &[]), leaf(2, 1, 2, 8, &[3, 6])],
            vec![
                in_state(leaf(3, 1, 0, 6, &[1, 4]), 2),
                leaf(4, 2, 6, 7, &[]),
            ],
        );
        let moves = vec![
            Move::Cut {
                region: target,
                at: 2,
            },
            Move::Cut { region: 5, at: 2 },
        ];
        run(moves, &mut sides).unwrap();
        let (lhs, rhs) = sides_of(&sides);
        let open = String::new;
        assert_eq!(
            shape(&lhs.regions),
            [
                (1, Some(0), 1, 0, 2, false, open()),
                (2, Some(1), 2, 2, 4, false, open()),
                (5, Some(3), 5, 4, 6, false, open()),
                (7, Some(4), 7, 6, 8, false, open()),
            ],
            "target {target}"
        );
        assert_eq!(
            shape(&rhs.regions),
            [
                (3, Some(1), 2, 0, 2, false, open()),
                (6, Some(3), 5, 2, 4, false, open()),
                (8, Some(4), 7, 4, 6, false, open()),
                (4, Some(2), 4, 6, 7, false, open()),
            ],
            "target {target}"
        );
        let Node::Leaf { changed, .. } = &lhs.regions[3].node else {
            panic!("a leaf");
        };
        assert_eq!(
            changed.iter().map(|span| span.line).collect::<Vec<_>>(),
            [6]
        );
    }
}

#[test]
fn cutting_a_one_sided_leaf_takes_fresh_ids() {
    let mut sides = both(
        vec![leaf(1, 0, 0, 1, &[]), leaf(2, 1, 1, 6, &[])],
        vec![in_state(leaf(3, 0, 0, 1, &[]), 1)],
    );
    run(vec![Move::Cut { region: 2, at: 1 }], &mut sides).unwrap();
    let (lhs, rhs) = sides_of(&sides);
    assert_eq!(
        shape(&lhs.regions),
        [
            (1, Some(0), 1, 0, 1, false, String::new()),
            (2, Some(1), 2, 1, 2, false, String::new()),
            (4, Some(2), 4, 2, 6, false, String::new()),
        ]
    );
    assert_eq!(rhs.regions.len(), 1);
}

#[test]
fn set_collapsed_reaches_every_region_in_the_fold_state_and_labels_reach_one() {
    // Folds 2 (lhs) and 4 (rhs) are matched.
    let mut sides = both(
        vec![
            leaf(1, 0, 0, 2, &[]),
            fold(2, false, vec![leaf(3, 1, 2, 5, &[])]),
        ],
        vec![in_state(fold(4, false, vec![leaf(5, 2, 0, 4, &[])]), 2)],
    );
    let moves = vec![
        Move::LinkFoldState {
            regions: vec![2, 1],
        },
        Move::SetCollapsed {
            region: 4,
            collapsed: true,
        },
        Move::SetLabel {
            region: 2,
            label: Some("summary".to_owned()),
        },
    ];
    run(moves, &mut sides).unwrap();
    let (lhs, rhs) = sides_of(&sides);
    assert_eq!(
        shape(&lhs.regions),
        [
            (1, Some(0), 2, 0, 2, true, String::new()),
            (2, None, 2, 2, 5, true, "summary".to_owned()),
            (3, Some(1), 3, 2, 5, false, String::new()),
        ]
    );
    assert_eq!(
        shape(&rhs.regions)[0],
        (4, None, 2, 0, 4, true, String::new())
    );
    run(
        vec![
            Move::SetCollapsed {
                region: 1,
                collapsed: false,
            },
            Move::SetLabel {
                region: 2,
                label: None,
            },
        ],
        &mut sides,
    )
    .unwrap();
    let (lhs, rhs) = sides_of(&sides);
    assert!(lhs
        .regions
        .iter()
        .all(|region| region.visibility == Visibility::default()));
    assert!(!rhs.regions[0].visibility.collapsed);
}

#[test]
fn a_link_takes_the_first_regions_fold_state_and_collapsed_state() {
    // Folds 1 (lhs) and 5 (rhs) are a matched pair, as are 3 (lhs) and
    // 8 (rhs).
    let tree = || {
        both(
            vec![
                fold(1, false, vec![leaf(2, 0, 0, 3, &[])]),
                fold(3, true, vec![leaf(4, 1, 3, 6, &[])]),
            ],
            vec![
                in_state(fold(8, true, vec![leaf(7, 2, 0, 3, &[])]), 3),
                in_state(fold(5, false, vec![leaf(6, 3, 3, 6, &[])]), 1),
            ],
        )
    };
    let mut sides = tree();
    run(
        vec![Move::LinkFoldState {
            regions: vec![7, 5],
        }],
        &mut sides,
    )
    .unwrap();
    let (lhs, rhs) = sides_of(&sides);
    assert_eq!(lhs.regions[0].fold_state_id, 7, "the pair stays together");
    assert_eq!(rhs.regions[1].fold_state_id, 7);
    assert_eq!(rhs.regions[0].fold_state_id, 3);

    let mut sides = tree();
    run(
        vec![Move::LinkFoldState {
            regions: vec![8, 1],
        }],
        &mut sides,
    )
    .unwrap();
    let (lhs, rhs) = sides_of(&sides);
    for region in [&lhs.regions[0], &lhs.regions[1], &rhs.regions[1]] {
        assert_eq!(
            (region.fold_state_id, region.visibility.collapsed),
            (3, true)
        );
    }
}

#[test]
fn a_join_listing_both_sides_runs_wraps_each_with_one_fold_state() {
    // Folds 1 and 3 on the lhs are matched with 5 and 6 on the rhs; the
    // one-line leaves 2 (lhs) and 7 (rhs) between them are paired.
    let mut sides = both(
        vec![
            fold(1, true, vec![leaf(10, 0, 0, 3, &[])]),
            leaf(2, 1, 3, 4, &[]),
            fold(3, true, vec![leaf(11, 2, 4, 7, &[])]),
        ],
        vec![
            leaf(4, 3, 0, 1, &[]),
            in_state(fold(5, true, vec![leaf(12, 4, 1, 4, &[])]), 1),
            in_state(leaf(7, 1, 4, 5, &[]), 2),
            in_state(fold(6, true, vec![leaf(13, 5, 5, 8, &[])]), 3),
        ],
    );
    let moves = vec![Move::JoinFolds {
        regions: vec![1, 2, 3, 5, 7, 6],
    }];
    run(moves, &mut sides).unwrap();
    let (lhs, rhs) = sides_of(&sides);
    assert_eq!(lhs.regions.len(), 1);
    assert_eq!(
        shape(&lhs.regions)[0],
        (14, None, 14, 0, 7, false, String::new())
    );
    assert_eq!(rhs.regions.len(), 2);
    assert_eq!(
        shape(&rhs.regions[1..])[0],
        (15, None, 14, 1, 8, false, String::new())
    );
}

#[test]
fn a_join_wraps_consecutive_siblings_on_each_side_that_holds_them() {
    let mut sides = both(
        vec![
            leaf(1, 0, 0, 1, &[]),
            fold(2, false, vec![leaf(3, 1, 1, 4, &[])]),
            leaf(4, 2, 4, 5, &[]),
            fold(5, true, vec![leaf(6, 3, 5, 8, &[])]),
        ],
        vec![in_state(leaf(7, 0, 0, 1, &[]), 1)],
    );
    let moves = vec![Move::JoinFolds {
        regions: vec![2, 4, 5],
    }];
    run(moves, &mut sides).unwrap();
    let (lhs, rhs) = sides_of(&sides);
    assert_eq!(lhs.regions.len(), 2);
    assert_eq!(
        shape(&lhs.regions[1..])[0],
        (8, None, 8, 1, 8, false, String::new())
    );
    assert_eq!(rhs.regions.len(), 1);
}

#[test]
fn moves_that_cannot_be_carried_out_are_errors() {
    let tree = || {
        both(
            vec![
                leaf(1, 0, 0, 1, &[]),
                fold(2, false, vec![leaf(3, 1, 1, 4, &[])]),
                leaf(4, 2, 4, 5, &[]),
            ],
            vec![
                in_state(leaf(5, 0, 0, 1, &[]), 1),
                in_state(leaf(6, 2, 1, 2, &[]), 4),
            ],
        )
    };
    let error = |next: Move| run(vec![next], &mut tree()).unwrap_err().message();
    assert!(error(Move::SetCollapsed {
        region: 9,
        collapsed: true
    })
    .contains("no region 9"));
    assert!(error(Move::Cut { region: 3, at: 3 }).contains("not inside region 3"));
    assert!(error(Move::Cut { region: 3, at: 0 }).contains("not inside region 3"));
    assert!(error(Move::Cut { region: 2, at: 1 }).contains("is a fold"));
    assert!(error(Move::Cut {
        region: ROOT,
        at: 1
    })
    .contains("the file cannot be cut"));
    assert!(error(Move::JoinFolds {
        regions: vec![1, 4]
    })
    .contains("not consecutive"));
    assert!(error(Move::JoinFolds {
        regions: vec![1, 2, 99]
    })
    .contains("no region 99"));
    assert!(error(Move::JoinFolds {
        regions: vec![ROOT, 1]
    })
    .contains("cannot include the file"));
    assert!(error(Move::JoinFolds {
        regions: vec![1, 2, 5]
    })
    .contains("holds only one"));
    assert!(error(Move::LinkFoldState { regions: vec![1] }).contains("at least two"));
    assert!(error(Move::LinkFoldState {
        regions: vec![1, 1]
    })
    .contains("twice"));
    assert!(error(Move::SetTags {
        region: ROOT,
        tags: vec![]
    })
    .contains("manifest"));
}

#[test]
fn the_root_is_the_file() {
    let mut sides = both(
        vec![leaf(1, 0, 0, 1, &[])],
        vec![in_state(leaf(2, 0, 0, 1, &[]), 1)],
    );
    let visibility = run(
        vec![
            Move::SetLabel {
                region: ROOT,
                label: Some("first".to_owned()),
            },
            Move::SetCollapsed {
                region: ROOT,
                collapsed: true,
            },
            Move::SetLabel {
                region: ROOT,
                label: Some("Generated file".to_owned()),
            },
            Move::SetTags {
                region: 2,
                tags: vec!["mine:tag".to_owned()],
            },
        ],
        &mut sides,
    )
    .unwrap();
    assert_eq!(
        visibility,
        Visibility {
            collapsed: true,
            label: "Generated file".to_owned()
        }
    );
    let (lhs, rhs) = sides_of(&sides);
    assert_eq!(lhs.regions[0].visibility, Visibility::default());
    assert_eq!(rhs.regions[0].tags, ["mine:tag"]);
}

#[test]
fn fresh_ids_start_above_every_id_and_alignment() {
    let sides = both(
        vec![leaf(3, 7, 0, 1, &[]), fold(9, false, vec![leaf(4, 2, 1, 2, &[])])],
        vec![in_state(leaf(5, 7, 0, 1, &[]), 3)],
    );
    assert_eq!(Fresh::of(&sides), Fresh { id: 10, alignment: 8 });
    let empty = Pairing::LeftOnly { lhs: source(vec![]) };
    assert_eq!(Fresh::of(&empty), Fresh { id: ROOT + 1, alignment: 0 });
    let mut fresh = Fresh { id: 4, alignment: 6 };
    assert_eq!(fresh.id(), 4);
    assert_eq!(fresh.alignment(), 6);
    assert_eq!(fresh, Fresh { id: 5, alignment: 7 });
}

#[test]
fn a_failed_move_stops_the_rest() {
    let mut sides = both(vec![leaf(1, 0, 0, 1, &[])], vec![in_state(leaf(2, 0, 0, 1, &[]), 1)]);
    let mut file = Visibility::default();
    let result = apply(
        vec![
            Move::SetLabel { region: 9, label: Some("x".to_owned()) },
            Move::SetCollapsed { region: ROOT, collapsed: true },
        ],
        &mut sides,
        &mut file,
    );
    assert_eq!(result, Err(MoveError::NoRegion(9)));
    assert!(!file.collapsed);
}

#[test]
fn a_cut_splits_changed_spans_and_keeps_tags_and_visibility() {
    let mut tagged = leaf(1, 0, 0, 4, &[0, 1, 2, 3]);
    tagged.tags = vec!["p:t".to_owned()];
    tagged.visibility = Visibility { collapsed: true, label: "hidden".to_owned() };
    let mut sides = Pairing::LeftOnly { lhs: source(vec![tagged]) };
    let mut applier = Applier::new(&sides);
    let mut file = Visibility::default();
    applier.apply(Move::Cut { region: 1, at: 3 }, &mut sides, &mut file).unwrap();
    let Pairing::LeftOnly { lhs } = &sides else { panic!("one side") };
    assert_eq!(lhs.regions.len(), 2);
    for (region, lines) in lhs.regions.iter().zip([vec![0, 1, 2], vec![3]]) {
        assert_eq!(region.tags, ["p:t"]);
        assert_eq!(region.visibility.label, "hidden");
        let Node::Leaf { changed, .. } = &region.node else { panic!("a leaf") };
        assert_eq!(changed.iter().map(|span| span.line).collect::<Vec<_>>(), lines);
    }
    assert_eq!((lhs.regions[1].id, lhs.regions[1].fold_state_id, lhs.regions[1].alignment_id()), (2, 2, Some(1)));
}

#[test]
fn a_cut_of_paired_leaves_of_different_lengths_is_an_error() {
    let mut sides = both(vec![leaf(1, 0, 0, 4, &[])], vec![in_state(leaf(2, 0, 0, 2, &[]), 1)]);
    let error = run(vec![Move::Cut { region: 2, at: 1 }], &mut sides).unwrap_err();
    assert_eq!(error, MoveError::DifferentLength(2));
    assert!(error.message().contains("different length"));
}

#[test]
fn move_errors_read_as_sentences() {
    assert_eq!(MoveError::NoRegion(12).message(), "no region 12");
    assert_eq!(MoveError::TooFew(ListMove::Link).message(), "a link needs at least two regions");
    assert_eq!(MoveError::Twice(ListMove::Join).message(), "a join lists a region twice");
    assert_eq!(
        MoveError::LinesOutside { start: 2, end: 9, region: 4, lines: 5 }.message(),
        "lines 2..9 are outside region 4, which has 5 lines"
    );
    assert_eq!(MoveError::NoNextSibling(3).message(), "region 3 has no next sibling");
}
