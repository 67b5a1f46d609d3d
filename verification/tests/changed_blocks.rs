use diffr::changed_blocks::{align_changed_blocks, block_lines, changed_blocks};
use std::collections::BTreeSet;

type Row = (Option<usize>, Option<usize>);

/// A signature changed under a new comment line: lhs `fn a(x: u32) {`,
/// `    x`, `}`; rhs `// Doubles.`, `fn a(x: u64) {`, `    x`, `}`.
fn rows() -> (Vec<Row>, BTreeSet<usize>, BTreeSet<usize>) {
    let rows = vec![(Some(0), Some(0)), (None, Some(1)), (Some(1), Some(2)), (Some(2), Some(3))];
    (rows, BTreeSet::from([0]), BTreeSet::from([0, 1]))
}

#[test]
fn changed_blocks_are_the_stretches_between_unchanged_rows() {
    let (rows, lhs_novel, rhs_novel) = rows();
    assert_eq!(changed_blocks(&rows, &lhs_novel, &rhs_novel), vec![(0, 2)]);
    assert_eq!(block_lines(&rows, 0, 2), (vec![0], vec![0, 1]));
    let all_changed = vec![(Some(0), None), (Some(1), Some(0))];
    assert_eq!(changed_blocks(&all_changed, &BTreeSet::from([1]), &BTreeSet::new()), vec![(0, 2)]);
    assert_eq!(changed_blocks(&[], &BTreeSet::new(), &BTreeSet::new()), Vec::new());
}

#[test]
fn a_block_reading_better_from_the_bottom_pairs_its_last_lines() {
    let (rows, lhs_novel, rhs_novel) = rows();
    assert_eq!(
        align_changed_blocks(&rows, &lhs_novel, &rhs_novel, &[true]),
        vec![(None, Some(0)), (Some(0), Some(1)), (Some(1), Some(2)), (Some(2), Some(3))]
    );
}

#[test]
fn blocks_reading_no_better_from_the_bottom_keep_their_rows() {
    let (rows, lhs_novel, rhs_novel) = rows();
    assert_eq!(align_changed_blocks(&rows, &lhs_novel, &rhs_novel, &[false]), rows);
    assert_eq!(align_changed_blocks(&rows, &lhs_novel, &rhs_novel, &[]), rows);
    // A block of equal sides, or of one side only, keeps its rows whatever
    // its flag says.
    let equal = vec![(Some(0), Some(0)), (Some(1), Some(1))];
    assert_eq!(align_changed_blocks(&equal, &BTreeSet::from([0, 1]), &BTreeSet::new(), &[true]), equal);
    let one_sided = vec![(Some(0), None), (Some(1), None), (Some(2), Some(0))];
    assert_eq!(
        align_changed_blocks(&one_sided, &BTreeSet::from([0, 1]), &BTreeSet::new(), &[true]),
        one_sided
    );
}

#[test]
fn realigning_keeps_each_side_in_order() {
    let rows = vec![(Some(0), Some(0)), (Some(1), None), (Some(2), None), (Some(3), Some(1)), (Some(4), Some(2))];
    let lhs_novel = BTreeSet::from([0, 1, 2, 3]);
    let rhs_novel = BTreeSet::from([0, 1]);
    let out = align_changed_blocks(&rows, &lhs_novel, &rhs_novel, &[true]);
    assert_eq!(
        out,
        vec![(Some(0), None), (Some(1), None), (Some(2), Some(0)), (Some(3), Some(1)), (Some(4), Some(2))]
    );
    let lefts: Vec<usize> = out.iter().filter_map(|row| row.0).collect();
    let rights: Vec<usize> = out.iter().filter_map(|row| row.1).collect();
    assert_eq!(lefts, vec![0, 1, 2, 3, 4]);
    assert_eq!(rights, vec![0, 1, 2]);
}
