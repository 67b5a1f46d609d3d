use diffr::hunks::{prepare, select_candidates, ContextCandidate, Hunk};
use std::collections::BTreeSet;

type Row = (Option<usize>, Option<usize>);

fn rows(n: usize) -> Vec<Row> {
    (0..n).map(|i| (Some(i), Some(i))).collect()
}

fn hunk(line: u32) -> Hunk {
    Hunk { lines: vec![(Some(line), Some(line))], novel_lhs: vec![line], novel_rhs: vec![line] }
}

fn lines_of(hunk: &Hunk) -> Vec<(Option<u32>, Option<u32>)> {
    hunk.lines.clone()
}

#[test]
fn context_comes_from_constructs_that_hold_a_change() {
    let candidates = vec![
        ContextCandidate { contains: (0, 9), rows: vec![0, 9] },
        ContextCandidate { contains: (20, 29), rows: vec![20] },
        ContextCandidate { contains: (2, 4), rows: vec![2, 4] },
    ];
    assert_eq!(select_candidates(&candidates, &[3]), vec![0, 9, 2, 4]);
    assert_eq!(select_candidates(&candidates, &[25]), vec![20]);
    assert_eq!(select_candidates(&candidates, &[15]), Vec::<usize>::new());
}

#[test]
fn apart_hunks_stay_apart_and_come_in_row_order() {
    let rows = rows(10);
    let novel = BTreeSet::from([3, 8]);
    let out = prepare(&[hunk(8), hunk(3)], &rows, &novel, &novel, &[], &[], 1);
    assert_eq!(out.len(), 2);
    assert_eq!(lines_of(&out[0]), vec![(Some(2), Some(2)), (Some(3), Some(3)), (Some(4), Some(4))]);
    assert_eq!(out[0].novel_lhs, vec![3]);
    assert_eq!(out[0].novel_rhs, vec![3]);
    assert_eq!(lines_of(&out[1]), vec![(Some(7), Some(7)), (Some(8), Some(8)), (Some(9), Some(9))]);
    assert_eq!(out[1].novel_lhs, vec![8]);
}

#[test]
fn touching_windows_share_a_hunk() {
    let rows = rows(10);
    let novel = BTreeSet::from([3, 8]);
    let out = prepare(&[hunk(3), hunk(8)], &rows, &novel, &novel, &[], &[], 2);
    assert_eq!(out.len(), 1);
    let expected: Vec<(Option<u32>, Option<u32>)> = (1..10).map(|i| (Some(i), Some(i))).collect();
    assert_eq!(lines_of(&out[0]), expected);
    assert_eq!(out[0].novel_lhs, vec![3, 8]);
}

#[test]
fn a_change_shows_the_header_of_its_enclosing_construct() {
    let rows = rows(10);
    let novel = BTreeSet::from([3]);
    let candidates = vec![ContextCandidate { contains: (0, 9), rows: vec![0] }];
    let out = prepare(&[hunk(3)], &rows, &novel, &novel, &candidates, &[], 0);
    assert_eq!(out.len(), 1);
    assert_eq!(lines_of(&out[0]), vec![(Some(0), Some(0)), (Some(3), Some(3))]);
    // A context line that is itself novel is not shown for context.
    let novel = BTreeSet::from([0, 3]);
    let out = prepare(&[hunk(3)], &rows, &novel, &novel, &candidates, &[], 0);
    assert_eq!(lines_of(&out[0]), vec![(Some(3), Some(3))]);
}
