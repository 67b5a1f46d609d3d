use diffr::line_layout::aligned_rows;

#[test]
fn includes_blank_and_one_sided_sources_without_tokens() {
    for (lhs, rhs) in [
        ("", "\nhello\n\n"),
        ("hello\n\n", ""),
        ("\n\n", "\n"),
        ("a\nb\n", "c\n"),
    ] {
        let rows = aligned_rows((lhs, rhs), &[]);
        assert_eq!(
            rows.iter().filter_map(|row| row.0).collect::<Vec<_>>(),
            (0..lhs.split_terminator('\n').count()).collect::<Vec<_>>()
        );
        assert_eq!(
            rows.iter().filter_map(|row| row.1).collect::<Vec<_>>(),
            (0..rhs.split_terminator('\n').count()).collect::<Vec<_>>()
        );
    }
}

#[test]
fn equal_sources_pair_every_line() {
    assert_eq!(
        aligned_rows(("a\nb", "a\nb"), &[(Some(1), None)]),
        vec![(Some(0), Some(0)), (Some(1), Some(1))]
    );
}

#[test]
fn anchors_keep_their_pairing_and_padding_fills_the_rest() {
    let rows = aligned_rows(
        ("a\nb\nc\n", "x\nb\ny\nz\n"),
        &[(Some(1), Some(1)), (Some(1), Some(3)), (Some(9), None)],
    );
    assert_eq!(
        rows,
        vec![
            (Some(0), Some(0)),
            (Some(1), Some(1)),
            (None, Some(2)),
            (None, Some(3)),
            (Some(2), None),
        ]
    );
}

use diffr::line_layout::{runs, Run, RunKind};
use diffr::tree::Pairing;
use std::collections::BTreeSet;

#[test]
fn runs_merge_consecutive_rows_of_one_kind_and_shape() {
    let rows = vec![
        (Some(0), Some(0)),
        (Some(1), Some(1)),
        (Some(2), None),
        (Some(3), None),
        (None, Some(2)),
        (Some(4), Some(3)),
    ];
    let lhs_novel: BTreeSet<usize> = [2, 3].into_iter().collect();
    let rhs_novel: BTreeSet<usize> = [2].into_iter().collect();
    let got = runs(&rows, &lhs_novel, &rhs_novel);
    assert_eq!(
        got,
        vec![
            Run { kind: RunKind::Unchanged, sides: Pairing::Both { lhs: (0, 2), rhs: (0, 2) } },
            Run { kind: RunKind::Novel, sides: Pairing::LeftOnly { lhs: (2, 4) } },
            Run { kind: RunKind::Novel, sides: Pairing::RightOnly { rhs: (2, 3) } },
            Run { kind: RunKind::Unchanged, sides: Pairing::Both { lhs: (4, 5), rhs: (3, 4) } },
        ]
    );
    assert_eq!(got[0].len(), 2);
    assert_eq!(got[1].len(), 2);
    assert_eq!(got[2].len(), 1);
}

#[test]
fn a_novel_line_on_one_side_makes_a_paired_row_novel() {
    let rows = vec![(Some(0), Some(0)), (Some(1), Some(1)), (Some(2), Some(2))];
    let lhs_novel: BTreeSet<usize> = BTreeSet::new();
    let rhs_novel: BTreeSet<usize> = [1].into_iter().collect();
    let got = runs(&rows, &lhs_novel, &rhs_novel);
    assert_eq!(got.len(), 3);
    assert_eq!(got[1].kind, RunKind::Novel);
    assert_eq!(got[1].sides, Pairing::Both { lhs: (1, 2), rhs: (1, 2) });
}

#[test]
fn a_gap_in_lines_starts_a_new_run() {
    let rows = vec![(Some(0), None), (Some(2), None)];
    let got = runs(&rows, &BTreeSet::new(), &BTreeSet::new());
    assert_eq!(got.len(), 2);
    assert_eq!(got[1].sides, Pairing::LeftOnly { lhs: (2, 3) });
}

#[test]
fn rising_anchors_show_every_line_once_in_order() {
    let lhs = "a\nb\nc\nd\n";
    let rhs = "a\nx\nc\n";
    let rows = aligned_rows((lhs, rhs), &[(Some(0), Some(0)), (Some(2), Some(2))]);
    assert_eq!(rows.iter().filter_map(|row| row.0).collect::<Vec<_>>(), vec![0, 1, 2, 3]);
    assert_eq!(rows.iter().filter_map(|row| row.1).collect::<Vec<_>>(), vec![0, 1, 2]);
}
