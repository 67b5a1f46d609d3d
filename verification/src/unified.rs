//! The rows of a hunk in a unified display: lines alike on both sides shown
//! once, and between them the removed lines, then the added ones, with a
//! gap row where either side skips lines.
use crate::text::str_eq;
use vstd::prelude::*;

verus! {

broadcast use vstd::std_specs::vec::group_vec_axioms, vstd::seq::group_seq_axioms;

/// One row of a unified hunk: a gap where lines are skipped, a line alike
/// on both sides (by its lhs number), a removed lhs line or an added rhs
/// line.
#[derive(Clone, Copy, Debug, PartialEq, Eq, Structural)]
pub enum UnifiedRow {
    Gap,
    Same { lhs: u32 },
    Removed { lhs: u32 },
    Added { rhs: u32 },
}

/// Whether a line comes more than one line after the one before it on its
/// side.
pub open spec fn skips(line: Option<u32>, previous: Option<u32>) -> bool {
    match (line, previous) {
        (Some(l), Some(p)) => l > p + 1,
        _ => false,
    }
}

/// The rows so far, the removed and the added rows not yet shown, and the
/// last line met on each side.
pub type LayoutState = (Seq<UnifiedRow>, Seq<UnifiedRow>, Seq<UnifiedRow>, Option<u32>, Option<u32>);

/// The line met last: this one when there is one, else the one before.
pub open spec fn or_previous(line: Option<u32>, previous: Option<u32>) -> Option<u32> {
    match line {
        Some(l) => Some(l),
        None => previous,
    }
}

/// Whether a pair of lines is alike on both sides.
pub open spec fn alike(pair: (Option<u32>, Option<u32>), lhs: Seq<String>, rhs: Seq<String>) -> bool {
    match pair {
        (Some(l), Some(r)) => lhs[l as int]@ == rhs[r as int]@,
        _ => false,
    }
}

/// The layout after one more pair of lines: a skip on either side shows
/// what is pending and a gap; a pair alike shows what is pending and the
/// line once; any other pair adds its lhs line to the removed rows and its
/// rhs line to the added ones.
pub open spec fn layout_step(
    st: LayoutState,
    pair: (Option<u32>, Option<u32>),
    lhs: Seq<String>,
    rhs: Seq<String>,
) -> LayoutState {
    let (out, removed, added, prev_l, prev_r) = st;
    let gap = skips(pair.0, prev_l) || skips(pair.1, prev_r);
    let (out, removed, added) = if gap {
        (out + removed + added + seq![UnifiedRow::Gap], Seq::empty(), Seq::empty())
    } else {
        (out, removed, added)
    };
    let prev_l = or_previous(pair.0, prev_l);
    let prev_r = or_previous(pair.1, prev_r);
    if alike(pair, lhs, rhs) {
        (out + removed + added + seq![UnifiedRow::Same { lhs: pair.0->0 }], Seq::empty(), Seq::empty(), prev_l, prev_r)
    } else {
        let removed = match pair.0 {
            Some(l) => removed.push(UnifiedRow::Removed { lhs: l }),
            None => removed,
        };
        let added = match pair.1 {
            Some(r) => added.push(UnifiedRow::Added { rhs: r }),
            None => added,
        };
        (out, removed, added, prev_l, prev_r)
    }
}

/// The layout after the pairs of lines `lines`.
pub open spec fn layout(lines: Seq<(Option<u32>, Option<u32>)>, lhs: Seq<String>, rhs: Seq<String>) -> LayoutState
    decreases lines.len(),
{
    if lines.len() == 0 {
        (Seq::empty(), Seq::empty(), Seq::empty(), None, None)
    } else {
        layout_step(layout(lines.drop_last(), lhs, rhs), lines.last(), lhs, rhs)
    }
}

/// The rows of a hunk: the layout, then what is still pending, removed
/// rows first.
pub open spec fn unified_spec(lines: Seq<(Option<u32>, Option<u32>)>, lhs: Seq<String>, rhs: Seq<String>) -> Seq<
    UnifiedRow,
> {
    let (out, removed, added, _, _) = layout(lines, lhs, rhs);
    out + removed + added
}

/// Every line a pair names is a line of its side.
pub open spec fn lines_fit(lines: Seq<(Option<u32>, Option<u32>)>, lhs_len: nat, rhs_len: nat) -> bool {
    forall|k: int|
        0 <= k < lines.len() ==> (match (#[trigger] lines[k]).0 {
            Some(l) => l < lhs_len,
            None => true,
        }) && (match lines[k].1 {
            Some(r) => r < rhs_len,
            None => true,
        })
}

/// Move `pending` onto the end of `out`, leaving it empty.
fn flush(out: &mut Vec<UnifiedRow>, pending: &mut Vec<UnifiedRow>)
    ensures
        final(out)@ == old(out)@ + old(pending)@,
        final(pending)@.len() == 0,
{
    out.append(pending);
}

/// The rows of a hunk whose pairs of lines are `lines`, the sides' lines
/// being `lhs` and `rhs`.
pub fn unified_rows(lines: &[(Option<u32>, Option<u32>)], lhs: &[String], rhs: &[String]) -> (rows: Vec<UnifiedRow>)
    requires
        lines_fit(lines@, lhs@.len(), rhs@.len()),
    ensures
        rows@ == unified_spec(lines@, lhs@, rhs@),
{
    let mut out: Vec<UnifiedRow> = Vec::new();
    let mut removed: Vec<UnifiedRow> = Vec::new();
    let mut added: Vec<UnifiedRow> = Vec::new();
    let mut prev_l: Option<u32> = None;
    let mut prev_r: Option<u32> = None;
    let mut i: usize = 0;
    assert(lines@.take(0) =~= Seq::<(Option<u32>, Option<u32>)>::empty());
    while i < lines.len()
        invariant
            i <= lines@.len(),
            lines_fit(lines@, lhs@.len(), rhs@.len()),
            layout(lines@.take(i as int), lhs@, rhs@) == (out@, removed@, added@, prev_l, prev_r),
        decreases lines@.len() - i,
    {
        let (l, r) = lines[i];
        let ghost before = (out@, removed@, added@, prev_l, prev_r);
        proof {
            assert(lines@.take(i + 1).drop_last() =~= lines@.take(i as int));
            assert(lines@.take(i + 1).last() == lines@[i as int]);
            assert(lines_fit(lines@, lhs@.len(), rhs@.len()));
            assert(match lines@[i as int].0 {
                Some(x) => x < lhs@.len(),
                None => true,
            });
            assert(match lines@[i as int].1 {
                Some(x) => x < rhs@.len(),
                None => true,
            });
        }
        let gap_l = match (l, prev_l) {
            (Some(a), Some(p)) => a as u64 > p as u64 + 1,
            _ => false,
        };
        let gap_r = match (r, prev_r) {
            (Some(a), Some(p)) => a as u64 > p as u64 + 1,
            _ => false,
        };
        if gap_l || gap_r {
            flush(&mut out, &mut removed);
            flush(&mut out, &mut added);
            out.push(UnifiedRow::Gap);
        }
        if l.is_some() {
            prev_l = l;
        }
        if r.is_some() {
            prev_r = r;
        }
        let same = match (l, r) {
            (Some(a), Some(b)) => str_eq(lhs[a as usize].as_str(), rhs[b as usize].as_str()),
            _ => false,
        };
        if same {
            flush(&mut out, &mut removed);
            flush(&mut out, &mut added);
            out.push(UnifiedRow::Same { lhs: l.unwrap() });
        } else {
            if let Some(a) = l {
                removed.push(UnifiedRow::Removed { lhs: a });
            }
            if let Some(b) = r {
                added.push(UnifiedRow::Added { rhs: b });
            }
        }
        proof {
            let after = layout_step(before, (l, r), lhs@, rhs@);
            assert(out@ =~= after.0);
            assert(removed@ =~= after.1);
            assert(added@ =~= after.2);
        }
        i += 1;
    }
    assert(lines@.take(lines@.len() as int) =~= lines@);
    flush(&mut out, &mut removed);
    flush(&mut out, &mut added);
    out
}

} // verus!
