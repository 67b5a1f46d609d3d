use diffr::tree::{docstring_of, one_sided, path_to, siblings_of, sides, walk, Node, OtherSide, Pairing, Region, Source};
use diffr::types::{self, Position, Range, SourceSides, Visibility, ROOT};

/// A one-line leaf, or a fold holding one, with `id`. A leaf's
/// `alignment_id` is `alignment`; the fold's child takes ids of its own.
fn region(id: u32, alignment: u32, fold_state_id: u32, line: u32, fold: bool) -> Region {
    let range = Range {
        start: Position { line, column: 0 },
        end: Position {
            line: line + 1,
            column: 0,
        },
    };
    let leaf = Region {
        id,
        fold_state_id,
        range,
        tags: vec![],
        visibility: Visibility::default(),
        node: Node::Leaf {
            alignment_id: alignment,
            changed: vec![],
        },
    };
    if !fold {
        return leaf;
    }
    Region {
        node: Node::Fold {
            children: vec![Region {
                id: id + 100,
                fold_state_id: id + 100,
                node: Node::Leaf {
                    alignment_id: alignment + 100,
                    changed: vec![],
                },
                ..leaf.clone()
            }],
        },
        ..leaf
    }
}

#[test]
fn leaves_pair_by_alignment_id_and_folds_by_fold_state_on_the_other_side() {
    // lhs: a paired leaf (1), a matched fold (2), and an unmatched fold
    // (3) linked on this side with a leaf (4). rhs: the leaf paired with
    // 1, which shares its alignment id (5), and the fold matched with 2,
    // which shares its fold state (6).
    let lhs = vec![
        region(1, 1, 1, 0, false),
        region(2, 2, 2, 1, true),
        region(3, 3, 3, 2, true),
        region(4, 4, 3, 3, false),
    ];
    let rhs = vec![region(5, 1, 1, 0, false), region(6, 6, 2, 1, true)];
    let from_lhs = OtherSide::of(&rhs);
    let from_rhs = OtherSide::of(&lhs);
    assert!(from_lhs.pairs(&lhs[0]));
    assert!(from_lhs.pairs(&lhs[1]), "the matched fold is paired");
    assert!(
        !from_lhs.pairs(&lhs[2]),
        "a fold state shared only on its own side does not pair"
    );
    assert!(
        !from_lhs.pairs(&lhs[3]),
        "a leaf pairs by alignment id alone"
    );
    assert!(from_rhs.pairs(&rhs[0]));
    assert!(from_rhs.pairs(&rhs[1]));
}

#[test]
fn newness_comes_from_the_leaves_not_the_fold_state() {
    // A fold matched across sides (both in fold state 2) whose leaves
    // align with nothing there: nothing inside it survived, so it is
    // one-sided, whatever the matcher made of the two nodes.
    let moved = region(2, 2, 2, 1, true);
    let elsewhere = region(6, 6, 2, 1, true);
    let other = OtherSide::of(std::slice::from_ref(&elsewhere));
    assert!(other.pairs(&moved), "the fold itself is matched");
    assert!(one_sided(&moved, &other));
    // The same fold, with a leaf inside it that does align: a rewrite.
    let kept = region(6, 2, 9, 1, true);
    let other = OtherSide::of(std::slice::from_ref(&kept));
    assert!(!other.pairs(&moved), "the folds are not matched");
    assert!(!one_sided(&moved, &other));
}

#[test]
fn a_tree_survives_the_round_trip_through_its_record() {
    let source = Source {
        text: "a\nb\nc\n".to_owned(),
        regions: vec![region(1, 1, 1, 0, false), region(2, 2, 2, 1, true)],
    };
    let record = source.to_record();
    assert_eq!(
        record
            .regions
            .iter()
            .map(|region| (region.id, region.parent))
            .collect::<Vec<_>>(),
        [(1, ROOT), (2, ROOT), (102, 2)]
    );
    assert_eq!(Source::from_record(&record).unwrap(), source);
}

#[test]
fn a_record_with_a_stray_parent_is_refused() {
    let source = Source {
        text: String::new(),
        regions: vec![region(2, 2, 2, 1, true)],
    };
    let mut record = source.to_record();
    record.regions[1].parent = 7;
    let error = Source::from_record(&record).unwrap_err();
    assert!(error.message().contains("7"));
    let both = SourceSides::Both {
        lhs: source.to_record(),
        rhs: record.clone(),
    };
    assert!(sides(&both).is_err());
    let one = SourceSides::LeftOnly(source.to_record());
    let rebuilt = sides(&one).unwrap();
    assert_eq!(rebuilt, Pairing::LeftOnly { lhs: source });
    let _: types::Source = record;
}

#[test]
fn paths_and_siblings_lead_to_the_region() {
    let regions = vec![region(1, 1, 1, 0, false), region(2, 2, 2, 1, true)];
    assert_eq!(path_to(&regions, 102), Some(vec![1, 0]));
    assert_eq!(path_to(&regions, 9), None);
    assert_eq!(siblings_of(&regions, 102).map(|s| s.len()), Some(1));
    assert_eq!(siblings_of(&regions, 2).map(|s| s[0].id), Some(1));
    assert_eq!(
        walk(&regions).iter().map(|region| region.id).collect::<Vec<_>>(),
        [1, 2, 102]
    );
}

#[test]
fn a_docstring_is_the_tagged_fold_just_before_the_body() {
    let mut docstring = region(1, 1, 1, 0, true);
    docstring.tags = vec!["p:docstring".to_owned()];
    let signature = region(3, 3, 3, 2, false);
    let body = region(4, 4, 4, 3, true);
    let side = Source {
        text: String::new(),
        regions: vec![docstring, signature, body.clone()],
    };
    assert_eq!(docstring_of(&side, &body, "p"), Some(1));
    assert_eq!(docstring_of(&side, &body, "q"), None);
    // Too many lines between them.
    let mut long = region(3, 3, 3, 2, false);
    long.range.end.line = 40;
    let mut docstring = region(1, 1, 1, 0, true);
    docstring.tags = vec!["p:docstring".to_owned()];
    let side = Source {
        text: String::new(),
        regions: vec![docstring, long, body.clone()],
    };
    assert_eq!(docstring_of(&side, &body, "p"), None);
}

#[test]
fn a_stray_record_reads_as_a_sentence() {
    let error = diffr::tree::RecordError::Stray { id: 5, parent: 7 };
    assert_eq!(error.message(), "region 5 names parent 7, which does not precede it");
}
