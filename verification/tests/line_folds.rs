use diffr::line_folds::{line_span, pair, pairing, Fold, FoldMatch, SourcePosition, SourceRange};

fn range(start: u32, end: u32) -> SourceRange {
    SourceRange {
        start: SourcePosition { line: start, byte_column: 0 },
        end: SourcePosition { line: end, byte_column: 0 },
    }
}

fn fold(tag: &str, start: u32, end: u32) -> Fold {
    Fold { tags: vec![tag.to_owned()], range: range(start, end), match_kind: FoldMatch::Novel }
}

fn text(lines: usize) -> String {
    (0..lines).map(|i| format!("{i}\n")).collect()
}

#[test]
fn line_spans_are_whole_lines_clamped_to_the_file() {
    assert_eq!(line_span(&range(2, 5), 10), (2, 5));
    let open_end = SourceRange {
        start: SourcePosition { line: 2, byte_column: 4 },
        end: SourcePosition { line: 5, byte_column: 1 },
    };
    assert_eq!(line_span(&open_end, 10), (2, 6));
    assert_eq!(line_span(&open_end, 4), (2, 4));
    assert_eq!(line_span(&range(7, 9), 4), (4, 4));
}

#[test]
fn folds_pair_by_aligned_header_lines_and_tags() {
    let rows: Vec<(Option<usize>, Option<usize>)> = (0..10).map(|i| (Some(i), Some(i))).collect();
    let lhs = vec![fold("function", 0, 4), fold("function", 5, 9), fold("class", 0, 9)];
    let rhs = vec![fold("class", 0, 9), fold("function", 0, 4), fold("function", 5, 9)];
    let (l, r) = pairing(&rows, (10, 10), &lhs, &rhs);
    assert_eq!(l, vec![Some(1), Some(2), Some(0)]);
    assert_eq!(r, vec![Some(2), Some(0), Some(1)]);
}

#[test]
fn a_reflowed_header_pairs_through_the_lines_the_fold_holds() {
    // The rhs signature takes two lines, so the header rows no longer pair.
    let rows = vec![
        (Some(0), None),
        (None, Some(0)),
        (None, Some(1)),
        (Some(1), Some(2)),
        (Some(2), Some(3)),
        (Some(3), Some(4)),
    ];
    let lhs = vec![fold("function", 0, 4)];
    let rhs = vec![fold("function", 0, 5), fold("class", 0, 5)];
    let (l, r) = pairing(&rows, (4, 5), &lhs, &rhs);
    assert_eq!(l, vec![Some(0)]);
    assert_eq!(r, vec![Some(0), None]);
    let mut lhs = lhs;
    let mut rhs = rhs;
    pair(&rows, (&text(4), &text(5)), &mut lhs, &mut rhs);
    assert_eq!(lhs[0].match_kind, FoldMatch::Unchanged { opposite: range(0, 5) });
    assert_eq!(rhs[0].match_kind, FoldMatch::Unchanged { opposite: range(0, 4) });
    assert_eq!(rhs[1].match_kind, FoldMatch::Novel);
}

#[test]
fn single_line_folds_and_other_tags_stay_unpaired() {
    let rows: Vec<(Option<usize>, Option<usize>)> = (0..6).map(|i| (Some(i), Some(i))).collect();
    let lhs = vec![fold("function", 0, 1), fold("function", 2, 6)];
    let rhs = vec![fold("function", 0, 1), fold("class", 2, 6)];
    let (l, r) = pairing(&rows, (6, 6), &lhs, &rhs);
    assert_eq!(l, vec![None, None]);
    assert_eq!(r, vec![None, None]);
}

#[test]
fn a_pair_that_would_cross_one_made_is_not_made() {
    // lhs folds A (0..3) and B (3..6); rhs folds X (0..3) and Y (3..6).
    // A's header pairs with Y's; B's lines pair into X, whose header row
    // comes before the A-Y pair while B's comes after it.
    let rows = vec![
        (None, Some(0)),
        (Some(0), Some(3)),
        (Some(1), Some(4)),
        (Some(2), Some(5)),
        (Some(3), None),
        (Some(4), Some(1)),
        (Some(5), Some(2)),
    ];
    let lhs = vec![fold("function", 0, 3), fold("function", 3, 6)];
    let rhs = vec![fold("function", 0, 3), fold("function", 3, 6)];
    let (l, r) = pairing(&rows, (6, 6), &lhs, &rhs);
    assert_eq!(l, vec![Some(1), None]);
    assert_eq!(r, vec![None, Some(0)]);
}
