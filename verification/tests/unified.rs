use diffr::unified::{unified_rows, UnifiedRow};

fn lines(items: &[&str]) -> Vec<String> {
    items.iter().map(|s| s.to_string()).collect()
}

#[test]
fn removed_lines_come_before_added_ones() {
    let lhs = lines(&["a", "b", "c"]);
    let rhs = lines(&["a", "x", "c"]);
    let rows = unified_rows(&[(Some(0), Some(0)), (Some(1), Some(1)), (Some(2), Some(2))], &lhs, &rhs);
    assert_eq!(
        rows,
        vec![
            UnifiedRow::Same { lhs: 0 },
            UnifiedRow::Removed { lhs: 1 },
            UnifiedRow::Added { rhs: 1 },
            UnifiedRow::Same { lhs: 2 },
        ]
    );
}

#[test]
fn a_skip_shows_a_gap() {
    let lhs = lines(&["a", "b", "c", "d", "e"]);
    let rhs = lines(&["a", "b", "c", "d", "z"]);
    let rows = unified_rows(&[(Some(0), Some(0)), (None, Some(1)), (Some(4), Some(4))], &lhs, &rhs);
    assert_eq!(
        rows,
        vec![
            UnifiedRow::Same { lhs: 0 },
            UnifiedRow::Added { rhs: 1 },
            UnifiedRow::Gap,
            UnifiedRow::Removed { lhs: 4 },
            UnifiedRow::Added { rhs: 4 },
        ]
    );
}
