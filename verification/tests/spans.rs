use diffr::spans::{nested_spans, split_lines};
use std::collections::BTreeSet;

#[test]
fn crossing_folds_give_the_shared_line_to_the_later_fold() {
    // A collection closing on line 5 where a body opens: `for x in [ … ] {`.
    let spans = [(0, 6), (5, 9), (7, 8)];
    assert_eq!(
        nested_spans(&spans),
        vec![Some((0, 5)), Some((5, 9)), None],
        "the earlier fold ends where the later starts; one-line spans go"
    );
    // Clipping cascades through every open ancestor that would cross.
    assert_eq!(
        nested_spans(&[(0, 10), (2, 6), (4, 8)]),
        vec![Some((0, 10)), Some((2, 4)), Some((4, 8))]
    );
    // An ancestor that is clipped down to its header line disappears.
    assert_eq!(nested_spans(&[(3, 5), (4, 9)]), vec![None, Some((4, 9))]);
    // Nested and disjoint spans are untouched, whatever their input order.
    assert_eq!(
        nested_spans(&[(5, 9), (0, 4), (1, 3)]),
        vec![Some((5, 9)), Some((0, 4)), Some((1, 3))]
    );
}

#[test]
fn a_span_ends_where_the_earliest_crossing_span_starts() {
    let out = nested_spans(&[(0, 10), (6, 12), (3, 14), (4, 4)]);
    assert_eq!(out, vec![Some((0, 3)), Some((6, 12)), Some((3, 14)), None]);
    // Whatever is left is a strict tree.
    let kept: Vec<(usize, usize)> = out.into_iter().flatten().collect();
    for a in &kept {
        for b in &kept {
            let crossing = a.0 < b.0 && b.0 < a.1 && a.1 < b.1;
            assert!(!crossing, "{a:?} crosses {b:?}");
        }
    }
    assert_eq!(nested_spans(&[]), Vec::new());
}

#[test]
fn leaves_split_where_spans_start_and_end() {
    let lines = split_lines(&[(0, 6), (5, 9), (6, 8)]);
    assert_eq!(lines, BTreeSet::from([0, 5, 6, 8, 9]));
    assert!(split_lines(&[]).is_empty());
}
