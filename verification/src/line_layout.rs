//! Line alignment: the rows a side-by-side view shows, each a line of one
//! side, of the other, or of both.
use crate::text::{chars_of, str_eq};
use crate::tree::Pairing;
use vstd::prelude::*;

verus! {

/// A row: the line shown on each side, if any.
pub type Row = (Option<usize>, Option<usize>);

/// How many lines `s` holds when each `\n` ends one: a last line without a
/// newline counts too.
pub open spec fn line_total(s: Seq<char>) -> nat
    decreases s.len(),
{
    if s.len() == 0 {
        0
    } else if s.drop_last().len() == 0 || s.drop_last().last() == '\n' {
        line_total(s.drop_last()) + 1
    } else {
        line_total(s.drop_last())
    }
}

/// How many lines `s` holds, counted as [`line_total`] says.
fn count_lines(s: &str) -> (count: usize)
    ensures
        count == line_total(s@),
{
    let chars = chars_of(s);
    let mut count: usize = 0;
    let mut i: usize = 0;
    while i < chars.len()
        invariant
            i <= chars@.len(),
            chars@ == s@,
            count == line_total(s@.take(i as int)),
            count <= i,
        decreases chars@.len() - i,
    {
        assert(s@.take(i + 1).drop_last() =~= s@.take(i as int));
        if i == 0 || chars[i - 1] == '\n' {
            count += 1;
        }
        i += 1;
    }
    assert(s@.take(s@.len() as int) =~= s@);
    count
}

/// Whether a side's line is taken by an earlier kept anchor.
pub open spec fn taken_left(kept: Seq<Row>, line: usize) -> bool {
    exists|k: int| 0 <= k < kept.len() && #[trigger] kept[k].0 == Some(line)
}

pub open spec fn taken_right(kept: Seq<Row>, line: usize) -> bool {
    exists|k: int| 0 <= k < kept.len() && #[trigger] kept[k].1 == Some(line)
}

/// The anchors that count: each side's line kept only when it is a line of
/// that side and no earlier anchor took it, and an anchor left with no line
/// on either side dropped.
pub open spec fn kept_anchors(anchors: Seq<Row>, lhs: nat, rhs: nat) -> Seq<Row>
    decreases anchors.len(),
{
    if anchors.len() == 0 {
        Seq::empty()
    } else {
        let earlier = kept_anchors(anchors.drop_last(), lhs, rhs);
        let (l, r) = anchors.last();
        let l = match l {
            Some(line) => if line < lhs && !taken_left(earlier, line) {
                Some(line)
            } else {
                None
            },
            None => None,
        };
        let r = match r {
            Some(line) => if line < rhs && !taken_right(earlier, line) {
                Some(line)
            } else {
                None
            },
            None => None,
        };
        if l is None && r is None {
            earlier
        } else {
            earlier.push((l, r))
        }
    }
}

/// The rows that pad from lines `left` and `right` up to `left_end` and
/// `right_end`: each takes the next line of every side not yet there.
pub open spec fn padding(left: int, left_end: int, right: int, right_end: int) -> Seq<Row> {
    let count = vstd::math::max(0, vstd::math::max(left_end - left, right_end - right));
    Seq::new(
        count as nat,
        |k: int|
            (
                if left + k < left_end {
                    Some((left + k) as usize)
                } else {
                    None
                },
                if right + k < right_end {
                    Some((right + k) as usize)
                } else {
                    None
                },
            ),
    )
}

/// Where a side's padding stops before an anchor: at its line, or where it
/// is when the anchor has none.
pub open spec fn anchor_end(line: Option<usize>, at: int) -> int {
    match line {
        Some(line) => line as int,
        None => at,
    }
}

/// An anchor's line when it is one of the side's `total` lines.
pub open spec fn within(line: Option<usize>, total: nat) -> Option<usize> {
    match line {
        Some(line) => if line < total {
            Some(line)
        } else {
            None
        },
        None => None,
    }
}

/// Where a side goes on after an anchor: past its line, or where padding
/// left it.
pub open spec fn after(line: Option<usize>, padded: int) -> int {
    match line {
        Some(line) => line + 1,
        None => padded,
    }
}

/// An anchor's own row, if it has a line on some side.
pub open spec fn anchor_row(l: Option<usize>, r: Option<usize>) -> Seq<Row> {
    if l is Some || r is Some {
        seq![(l, r)]
    } else {
        Seq::empty()
    }
}

/// The rows for `anchors` from lines `left` and `right` on, with `lhs` and
/// `rhs` lines: before each anchor, padding up to its lines; then the
/// anchor's row, with the lines that exist; then the lines after it.
pub open spec fn fill(anchors: Seq<Row>, left: int, right: int, lhs: nat, rhs: nat) -> Seq<Row>
    decreases anchors.len(),
{
    if anchors.len() == 0 {
        Seq::empty()
    } else {
        let (l, r) = anchors[0];
        let left_end = anchor_end(l, left);
        let right_end = anchor_end(r, right);
        let lf = within(l, lhs);
        let rf = within(r, rhs);
        padding(left, left_end, right, right_end) + anchor_row(lf, rf) + fill(
            anchors.drop_first(),
            after(lf, vstd::math::max(left, left_end)),
            after(rf, vstd::math::max(right, right_end)),
            lhs,
            rhs,
        )
    }
}

/// The rows of two sources: line by line when they are equal, else the
/// anchors that count, in order, with every line between them padded in,
/// and the lines after the last.
pub open spec fn rows_of(lhs: Seq<char>, rhs: Seq<char>, anchors: Seq<Row>) -> Seq<Row> {
    let n = line_total(lhs);
    let m = line_total(rhs);
    if lhs == rhs {
        Seq::new(n, |i: int| (Some(i as usize), Some(i as usize)))
    } else {
        fill(kept_anchors(anchors, n, m).push((Some(n as usize), Some(m as usize))), 0, 0, n, m)
    }
}

} // verus!

verus! {

/// `count` marks, none set.
fn unmarked(count: usize) -> (marks: Vec<bool>)
    ensures
        marks@.len() == count,
        forall|i: int| 0 <= i < count ==> !#[trigger] marks@[i],
{
    let mut marks: Vec<bool> = Vec::new();
    let mut i: usize = 0;
    while i < count
        invariant
            i <= count,
            marks@.len() == i,
            forall|k: int| 0 <= k < i ==> !#[trigger] marks@[k],
        decreases count - i,
    {
        marks.push(false);
        i += 1;
    }
    marks
}

/// The anchors that count, as [`kept_anchors`] says.
fn keep_anchors(anchors: &[Row], lhs: usize, rhs: usize) -> (kept: Vec<Row>)
    ensures
        kept@ == kept_anchors(anchors@, lhs as nat, rhs as nat),
        forall|k: int| 0 <= k < kept@.len() ==> ((#[trigger] kept@[k]).0 matches Some(line) ==> line < lhs),
        forall|k: int| 0 <= k < kept@.len() ==> ((#[trigger] kept@[k]).1 matches Some(line) ==> line < rhs),
{
    let mut seen_left = unmarked(lhs);
    let mut seen_right = unmarked(rhs);
    let mut kept: Vec<Row> = Vec::new();
    let mut i: usize = 0;
    while i < anchors.len()
        invariant
            i <= anchors@.len(),
            seen_left@.len() == lhs,
            seen_right@.len() == rhs,
            kept@ == kept_anchors(anchors@.take(i as int), lhs as nat, rhs as nat),
            forall|x: int| 0 <= x < lhs ==> #[trigger] seen_left@[x] == taken_left(kept@, x as usize),
            forall|x: int| 0 <= x < rhs ==> #[trigger] seen_right@[x] == taken_right(kept@, x as usize),
            forall|k: int| 0 <= k < kept@.len() ==> ((#[trigger] kept@[k]).0 matches Some(line) ==> line < lhs),
            forall|k: int| 0 <= k < kept@.len() ==> ((#[trigger] kept@[k]).1 matches Some(line) ==> line < rhs),
        decreases anchors@.len() - i,
    {
        let (l, r) = anchors[i];
        proof {
            assert(anchors@.take(i + 1).drop_last() =~= anchors@.take(i as int));
            assert(anchors@.take(i + 1).last() == anchors@[i as int]);
        }
        let l = match l {
            Some(line) => if line < lhs && !seen_left[line] {
                Some(line)
            } else {
                None
            },
            None => None,
        };
        let r = match r {
            Some(line) => if line < rhs && !seen_right[line] {
                Some(line)
            } else {
                None
            },
            None => None,
        };
        if l.is_some() || r.is_some() {
            let ghost before = kept@;
            kept.push((l, r));
            if let Some(line) = l {
                seen_left.set(line, true);
            }
            if let Some(line) = r {
                seen_right.set(line, true);
            }
            proof {
                assert forall|x: int| 0 <= x < lhs implies #[trigger] seen_left@[x] == taken_left(kept@, x as usize) by {
                    if taken_left(before, x as usize) {
                        let k = choose|k: int| 0 <= k < before.len() && #[trigger] before[k].0 == Some(x as usize);
                        assert(kept@[k] == before[k]);
                    }
                    if taken_left(kept@, x as usize) {
                        let k = choose|k: int| 0 <= k < kept@.len() && #[trigger] kept@[k].0 == Some(x as usize);
                        if k < before.len() {
                            assert(kept@[k] == before[k]);
                        }
                    }
                    if l == Some(x as usize) {
                        assert(kept@[before.len() as int].0 == Some(x as usize));
                    }
                }
                assert forall|x: int| 0 <= x < rhs implies #[trigger] seen_right@[x] == taken_right(kept@, x as usize) by {
                    if taken_right(before, x as usize) {
                        let k = choose|k: int| 0 <= k < before.len() && #[trigger] before[k].1 == Some(x as usize);
                        assert(kept@[k] == before[k]);
                    }
                    if taken_right(kept@, x as usize) {
                        let k = choose|k: int| 0 <= k < kept@.len() && #[trigger] kept@[k].1 == Some(x as usize);
                        if k < before.len() {
                            assert(kept@[k] == before[k]);
                        }
                    }
                    if r == Some(x as usize) {
                        assert(kept@[before.len() as int].1 == Some(x as usize));
                    }
                }
            }
        }
        i += 1;
    }
    assert(anchors@.take(anchors@.len() as int) =~= anchors@);
    kept
}

/// Pad `rows` from lines `left` and `right` up to `left_end` and
/// `right_end`, as [`padding`] says; where each side then is comes back.
fn pad_rows(rows: &mut Vec<Row>, left: usize, left_end: usize, right: usize, right_end: usize) -> (at: (
    usize,
    usize,
))
    ensures
        final(rows)@ == old(rows)@ + padding(left as int, left_end as int, right as int, right_end as int),
        at.0 == vstd::math::max(left as int, left_end as int),
        at.1 == vstd::math::max(right as int, right_end as int),
{
    let ghost base = rows@;
    let ghost pad = padding(left as int, left_end as int, right as int, right_end as int);
    let mut l = left;
    let mut r = right;
    let mut k: usize = 0;
    while l < left_end || r < right_end
        invariant
            pad == padding(left as int, left_end as int, right as int, right_end as int),
            k <= pad.len(),
            l == (if left + k < left_end { left + k } else { vstd::math::max(left as int, left_end as int) }),
            r == (if right + k < right_end { right + k } else { vstd::math::max(right as int, right_end as int) }),
            rows@ == base + pad.take(k as int),
        decreases pad.len() - k,
    {
        let row = (
            if l < left_end {
                Some(l)
            } else {
                None
            },
            if r < right_end {
                Some(r)
            } else {
                None
            },
        );
        assert(pad[k as int] == row);
        rows.push(row);
        assert(pad.take(k + 1) =~= pad.take(k as int).push(row));
        if l < left_end {
            l += 1;
        }
        if r < right_end {
            r += 1;
        }
        k += 1;
    }
    assert(pad.take(k as int) =~= pad);
    (l, r)
}

/// An anchor's line when it is one of the side's `total` lines.
fn within_exec(line: Option<usize>, total: usize) -> (kept: Option<usize>)
    ensures
        kept == within(line, total as nat),
{
    match line {
        Some(line) => if line < total {
            Some(line)
        } else {
            None
        },
        None => None,
    }
}

/// The rows for `anchors`, as [`fill`] says, from the first lines on.
fn fill_rows(anchors: &Vec<Row>, lhs: usize, rhs: usize) -> (rows: Vec<Row>)
    requires
        forall|k: int| 0 <= k < anchors@.len() ==> ((#[trigger] anchors@[k]).0 matches Some(line) ==> line <= lhs),
        forall|k: int| 0 <= k < anchors@.len() ==> ((#[trigger] anchors@[k]).1 matches Some(line) ==> line <= rhs),
    ensures
        rows@ == fill(anchors@, 0, 0, lhs as nat, rhs as nat),
{
    let mut rows: Vec<Row> = Vec::new();
    let mut left: usize = 0;
    let mut right: usize = 0;
    let mut i: usize = 0;
    assert(anchors@.skip(0) =~= anchors@);
    while i < anchors.len()
        invariant
            i <= anchors@.len(),
            left <= lhs,
            right <= rhs,
            forall|k: int| 0 <= k < anchors@.len() ==> ((#[trigger] anchors@[k]).0 matches Some(line) ==> line <= lhs),
            forall|k: int| 0 <= k < anchors@.len() ==> ((#[trigger] anchors@[k]).1 matches Some(line) ==> line <= rhs),
            rows@ + fill(anchors@.skip(i as int), left as int, right as int, lhs as nat, rhs as nat) == fill(
                anchors@,
                0,
                0,
                lhs as nat,
                rhs as nat,
            ),
        decreases anchors@.len() - i,
    {
        let (l, r) = anchors[i];
        let ghost rest = anchors@.skip(i as int);
        let ghost (left0, right0) = (left, right);
        let ghost base = rows@;
        proof {
            assert(rest[0] == anchors@[i as int]);
            assert(rest.drop_first() =~= anchors@.skip(i + 1));
        }
        let left_end = match l {
            Some(line) => line,
            None => left,
        };
        let right_end = match r {
            Some(line) => line,
            None => right,
        };
        let (padded_left, padded_right) = pad_rows(&mut rows, left, left_end, right, right_end);
        let lf = within_exec(l, lhs);
        let rf = within_exec(r, rhs);
        let ghost before_row = rows@;
        if lf.is_some() || rf.is_some() {
            rows.push((lf, rf));
        }
        left = match lf {
            Some(line) => line + 1,
            None => padded_left,
        };
        right = match rf {
            Some(line) => line + 1,
            None => padded_right,
        };
        proof {
            assert(rows@ =~= before_row + anchor_row(lf, rf));
            assert(fill(rest, left0 as int, right0 as int, lhs as nat, rhs as nat) == padding(
                left0 as int,
                left_end as int,
                right0 as int,
                right_end as int,
            ) + anchor_row(lf, rf) + fill(anchors@.skip(i + 1), left as int, right as int, lhs as nat, rhs as nat));
            assert(rows@ + fill(anchors@.skip(i + 1), left as int, right as int, lhs as nat, rhs as nat) =~= base
                + fill(rest, left0 as int, right0 as int, lhs as nat, rhs as nat));
        }
        i += 1;
    }
    assert(anchors@.skip(anchors@.len() as int) =~= Seq::<Row>::empty());
    assert(rows@ =~= rows@ + Seq::<Row>::empty());
    rows
}

/// The rows of two sources: line by line when they are equal, else the
/// anchors that count (lines the matcher paired, or one side's line alone),
/// in order, with every line between and after them padded in so that each
/// side's lines are all shown.
pub fn aligned_rows(sources: (&str, &str), anchors: &[Row]) -> (rows: Vec<Row>)
    ensures
        rows@ == rows_of(sources.0@, sources.1@, anchors@),
{
    let (lhs_src, rhs_src) = sources;
    let lhs = count_lines(lhs_src);
    let rhs = count_lines(rhs_src);
    if str_eq(lhs_src, rhs_src) {
        let mut rows: Vec<Row> = Vec::new();
        let mut i: usize = 0;
        while i < lhs
            invariant
                i <= lhs,
                rows@ == Seq::new(i as nat, |k: int| (Some(k as usize), Some(k as usize))),
            decreases lhs - i,
        {
            rows.push((Some(i), Some(i)));
            assert(rows@ =~= Seq::new((i + 1) as nat, |k: int| (Some(k as usize), Some(k as usize))));
            i += 1;
        }
        return rows;
    }
    let mut kept = keep_anchors(anchors, lhs, rhs);
    let ghost counted = kept@;
    kept.push((Some(lhs), Some(rhs)));
    assert(kept@ == counted.push((Some(lhs), Some(rhs))));
    fill_rows(&kept, lhs, rhs)
}

} // verus!

verus! {

/// Whether a run's rows are unchanged on both sides or show a change.
#[derive(Clone, Copy, Debug, PartialEq, Eq, Structural)]
pub enum RunKind {
    Unchanged,
    Novel,
}

/// A maximal run of aligned rows of one kind before fold splitting. Each
/// side present holds a half-open line span.
#[derive(Clone, Debug, PartialEq, Eq)]
pub struct Run {
    pub kind: RunKind,
    pub sides: Pairing<(usize, usize)>,
}

impl Run {
    /// How many rows the run holds: the span of its lhs, or of its rhs when
    /// it has no lhs.
    pub open spec fn len_spec(&self) -> int {
        let (start, end) = match self.sides {
            Pairing::Both { lhs, .. } => lhs,
            Pairing::LeftOnly { lhs } => lhs,
            Pairing::RightOnly { rhs } => rhs,
        };
        end - start
    }

    /// Its spans do not end before they start.
    pub open spec fn ordered(&self) -> bool {
        match self.sides {
            Pairing::Both { lhs, rhs } => lhs.0 <= lhs.1 && rhs.0 <= rhs.1,
            Pairing::LeftOnly { lhs } => lhs.0 <= lhs.1,
            Pairing::RightOnly { rhs } => rhs.0 <= rhs.1,
        }
    }

    /// How many rows the run holds.
    pub fn len(&self) -> (len: usize)
        requires
            self.ordered(),
        ensures
            len == self.len_spec(),
    {
        let (start, end) = match self.sides {
            Pairing::Both { lhs, .. } => lhs,
            Pairing::LeftOnly { lhs } => lhs,
            Pairing::RightOnly { rhs } => rhs,
        };
        end - start
    }
}

/// A row's lines as the sides it has.
pub open spec fn row_sides(row: Row) -> Pairing<usize> {
    match row {
        (Some(lhs), Some(rhs)) => Pairing::Both { lhs, rhs },
        (Some(lhs), None) => Pairing::LeftOnly { lhs },
        (None, Some(rhs)) => Pairing::RightOnly { rhs },
        (None, None) => Pairing::LeftOnly { lhs: 0 },
    }
}

/// A row is unchanged when both sides hold a line and neither is novel.
pub open spec fn row_kind(row: Row, lhs_novel: Set<usize>, rhs_novel: Set<usize>) -> RunKind {
    match row {
        (Some(lhs), Some(rhs)) => if !lhs_novel.contains(lhs) && !rhs_novel.contains(rhs) {
            RunKind::Unchanged
        } else {
            RunKind::Novel
        },
        _ => RunKind::Novel,
    }
}

/// The run a row starts: one line on each side it has.
pub open spec fn run_of(kind: RunKind, sides: Pairing<usize>) -> Run {
    Run {
        kind,
        sides: match sides {
            Pairing::Both { lhs, rhs } => Pairing::Both {
                lhs: (lhs, (lhs + 1) as usize),
                rhs: (rhs, (rhs + 1) as usize),
            },
            Pairing::LeftOnly { lhs } => Pairing::LeftOnly { lhs: (lhs, (lhs + 1) as usize) },
            Pairing::RightOnly { rhs } => Pairing::RightOnly { rhs: (rhs, (rhs + 1) as usize) },
        },
    }
}

/// The run extended by a row of the same kind and sides that continues it.
pub open spec fn extended(run: Run, kind: RunKind, sides: Pairing<usize>) -> Option<Run> {
    if run.kind != kind {
        None
    } else {
        match (run.sides, sides) {
            (Pairing::Both { lhs: (a, l), rhs: (b, r) }, Pairing::Both { lhs, rhs }) => if l == lhs && r == rhs {
                Some(Run { kind, sides: Pairing::Both { lhs: (a, (l + 1) as usize), rhs: (b, (r + 1) as usize) } })
            } else {
                None
            },
            (Pairing::LeftOnly { lhs: (a, e) }, Pairing::LeftOnly { lhs }) => if e == lhs {
                Some(Run { kind, sides: Pairing::LeftOnly { lhs: (a, (e + 1) as usize) } })
            } else {
                None
            },
            (Pairing::RightOnly { rhs: (a, e) }, Pairing::RightOnly { rhs }) => if e == rhs {
                Some(Run { kind, sides: Pairing::RightOnly { rhs: (a, (e + 1) as usize) } })
            } else {
                None
            },
            _ => None,
        }
    }
}

/// Rows in order, run-length encoded by kind and side presence.
pub open spec fn runs_spec(rows: Seq<Row>, lhs_novel: Set<usize>, rhs_novel: Set<usize>) -> Seq<Run>
    decreases rows.len(),
{
    if rows.len() == 0 {
        Seq::empty()
    } else {
        let earlier = runs_spec(rows.drop_last(), lhs_novel, rhs_novel);
        let row = rows.last();
        let kind = row_kind(row, lhs_novel, rhs_novel);
        let sides = row_sides(row);
        if earlier.len() > 0 && extended(earlier.last(), kind, sides) is Some {
            earlier.update(earlier.len() - 1, extended(earlier.last(), kind, sides)->0)
        } else {
            earlier.push(run_of(kind, sides))
        }
    }
}

/// Rows in order, run-length encoded by kind and side presence. Every row
/// has a line on some side, and no line is the largest a `usize` holds.
pub fn runs(
    rows: &[Row],
    lhs_novel: &std::collections::BTreeSet<usize>,
    rhs_novel: &std::collections::BTreeSet<usize>,
) -> (runs: Vec<Run>)
    requires
        forall|i: int| 0 <= i < rows@.len() ==> (#[trigger] rows@[i]).0 is Some || rows@[i].1 is Some,
        forall|i: int| 0 <= i < rows@.len() ==> ((#[trigger] rows@[i]).0 matches Some(l) ==> l < usize::MAX),
        forall|i: int| 0 <= i < rows@.len() ==> ((#[trigger] rows@[i]).1 matches Some(r) ==> r < usize::MAX),
    ensures
        runs@ == runs_spec(rows@, lhs_novel@, rhs_novel@),
{
    let mut runs: Vec<Run> = Vec::new();
    let mut i: usize = 0;
    while i < rows.len()
        invariant
            i <= rows@.len(),
            forall|k: int| 0 <= k < rows@.len() ==> (#[trigger] rows@[k]).0 is Some || rows@[k].1 is Some,
            forall|k: int| 0 <= k < rows@.len() ==> ((#[trigger] rows@[k]).0 matches Some(l) ==> l < usize::MAX),
            forall|k: int| 0 <= k < rows@.len() ==> ((#[trigger] rows@[k]).1 matches Some(r) ==> r < usize::MAX),
            runs@ == runs_spec(rows@.take(i as int), lhs_novel@, rhs_novel@),
        decreases rows@.len() - i,
    {
        let row = rows[i];
        proof {
            assert(rows@.take(i + 1).drop_last() =~= rows@.take(i as int));
            assert(rows@.take(i + 1).last() == row);
        }
        let sides = match row {
            (Some(lhs), Some(rhs)) => Pairing::Both { lhs, rhs },
            (Some(lhs), None) => Pairing::LeftOnly { lhs },
            (None, Some(rhs)) => Pairing::RightOnly { rhs },
            (None, None) => {
                assert(false);
                Pairing::LeftOnly { lhs: 0 }
            },
        };
        let kind = match row {
            (Some(lhs), Some(rhs)) => if !crate::tree::line_set_contains(lhs_novel, lhs)
                && !crate::tree::line_set_contains(rhs_novel, rhs) {
                RunKind::Unchanged
            } else {
                RunKind::Novel
            },
            _ => RunKind::Novel,
        };
        let ghost earlier = runs@;
        let extension = if runs.len() > 0 && runs[runs.len() - 1].kind == kind {
            let last = &runs[runs.len() - 1];
            match (&last.sides, &sides) {
                (Pairing::Both { lhs: (a, l), rhs: (b, r) }, Pairing::Both { lhs, rhs }) => {
                    if *l == *lhs && *r == *rhs {
                        Some(Run { kind, sides: Pairing::Both { lhs: (*a, *l + 1), rhs: (*b, *r + 1) } })
                    } else {
                        None
                    }
                },
                (Pairing::LeftOnly { lhs: (a, e) }, Pairing::LeftOnly { lhs }) => {
                    if *e == *lhs {
                        Some(Run { kind, sides: Pairing::LeftOnly { lhs: (*a, *e + 1) } })
                    } else {
                        None
                    }
                },
                (Pairing::RightOnly { rhs: (a, e) }, Pairing::RightOnly { rhs }) => {
                    if *e == *rhs {
                        Some(Run { kind, sides: Pairing::RightOnly { rhs: (*a, *e + 1) } })
                    } else {
                        None
                    }
                },
                _ => None,
            }
        } else {
            None
        };
        proof {
            if earlier.len() > 0 {
                assert(extension == extended(earlier.last(), kind, sides));
            }
        }
        match extension {
            Some(run) => {
                let last = runs.len() - 1;
                runs.set(last, run);
            },
            None => {
                let run = match sides {
                    Pairing::Both { lhs, rhs } => Run {
                        kind,
                        sides: Pairing::Both { lhs: (lhs, lhs + 1), rhs: (rhs, rhs + 1) },
                    },
                    Pairing::LeftOnly { lhs } => Run { kind, sides: Pairing::LeftOnly { lhs: (lhs, lhs + 1) } },
                    Pairing::RightOnly { rhs } => Run { kind, sides: Pairing::RightOnly { rhs: (rhs, rhs + 1) } },
                };
                runs.push(run);
            },
        }
        i += 1;
    }
    assert(rows@.take(rows@.len() as int) =~= rows@);
    runs
}

} // verus!

verus! {

/// The lines one side shows in `rows`, in order: the lhs when `left` is
/// set, else the rhs.
pub open spec fn shown(rows: Seq<Row>, left: bool) -> Seq<int>
    decreases rows.len(),
{
    if rows.len() == 0 {
        Seq::empty()
    } else {
        let rest = shown(rows.drop_last(), left);
        let line = if left {
            rows.last().0
        } else {
            rows.last().1
        };
        match line {
            Some(l) => rest.push(l as int),
            None => rest,
        }
    }
}

/// The lines `from..to`.
pub open spec fn upto(from: int, to: int) -> Seq<int> {
    Seq::new(vstd::math::max(0, to - from) as nat, |k: int| from + k)
}

/// The anchors' lines rise strictly on each side.
pub open spec fn rising(anchors: Seq<Row>) -> bool {
    &&& forall|i: int, j: int|
        0 <= i < j < anchors.len() ==> ((#[trigger] anchors[i]).0 matches Some(x) ==> ((#[trigger] anchors[j]).0 matches Some(
            y,
        ) ==> x < y))
    &&& forall|i: int, j: int|
        0 <= i < j < anchors.len() ==> ((#[trigger] anchors[i]).1 matches Some(x) ==> ((#[trigger] anchors[j]).1 matches Some(
            y,
        ) ==> x < y))
}

proof fn lemma_shown_concat(a: Seq<Row>, b: Seq<Row>, left: bool)
    ensures
        shown(a + b, left) == shown(a, left) + shown(b, left),
    decreases b.len(),
{
    if b.len() == 0 {
        assert(a + b =~= a);
        assert(shown(a, left) + Seq::<int>::empty() =~= shown(a, left));
    } else {
        lemma_shown_concat(a, b.drop_last(), left);
        assert((a + b).drop_last() =~= a + b.drop_last());
        assert((a + b).last() == b.last());
        let line = if left {
            b.last().0
        } else {
            b.last().1
        };
        match line {
            Some(l) => {
                assert(shown(a, left) + shown(b.drop_last(), left).push(l as int) =~= (shown(a, left) + shown(
                    b.drop_last(),
                    left,
                )).push(l as int));
            },
            None => {},
        }
    }
}

proof fn lemma_shown_padding(left: int, left_end: int, right: int, right_end: int, count: int)
    requires
        left <= left_end,
        right <= right_end,
        0 <= count <= vstd::math::max(0, vstd::math::max(left_end - left, right_end - right)),
        left_end <= usize::MAX,
        right_end <= usize::MAX,
        left >= 0,
        right >= 0,
    ensures
        shown(padding(left, left_end, right, right_end).take(count), true) == upto(left, vstd::math::min(left + count, left_end)),
        shown(padding(left, left_end, right, right_end).take(count), false) == upto(right, vstd::math::min(right + count, right_end)),
    decreases count,
{
    let pad = padding(left, left_end, right, right_end);
    if count == 0 {
        assert(pad.take(0) =~= Seq::<Row>::empty());
        assert(upto(left, left) =~= Seq::<int>::empty());
        assert(upto(right, right) =~= Seq::<int>::empty());
    } else {
        lemma_shown_padding(left, left_end, right, right_end, count - 1);
        assert(pad.take(count).drop_last() =~= pad.take(count - 1));
        assert(pad.take(count).last() == pad[count - 1]);
        if left + count - 1 < left_end {
            assert(upto(left, left + count) =~= upto(left, left + count - 1).push(left + count - 1));
        } else {
            assert(upto(left, vstd::math::min(left + count, left_end)) =~= upto(left, vstd::math::min(left + count - 1, left_end)));
        }
        if right + count - 1 < right_end {
            assert(upto(right, right + count) =~= upto(right, right + count - 1).push(right + count - 1));
        } else {
            assert(upto(right, vstd::math::min(right + count, right_end)) =~= upto(right, vstd::math::min(right + count - 1, right_end)));
        }
    }
}

/// The anchors after the first still meet what [`lemma_fill_shown`] needs,
/// from where the first leaves each side.
proof fn lemma_rest_in_order(anchors: Seq<Row>, left: int, right: int, lhs: nat, rhs: nat)
    requires
        anchors.len() > 1,
        rising(anchors.drop_last()),
        forall|k: int| 0 <= k < anchors.len() - 1 ==> ((#[trigger] anchors[k]).0 matches Some(x) ==> left <= x < lhs),
        forall|k: int| 0 <= k < anchors.len() - 1 ==> ((#[trigger] anchors[k]).1 matches Some(x) ==> right <= x < rhs),
    ensures
        ({
            let (l, r) = anchors[0];
            let rest = anchors.drop_first();
            let next_left = after(within(l, lhs), vstd::math::max(left, anchor_end(l, left)));
            let next_right = after(within(r, rhs), vstd::math::max(right, anchor_end(r, right)));
            &&& rising(rest.drop_last())
            &&& forall|k: int| 0 <= k < rest.len() - 1 ==> ((#[trigger] rest[k]).0 matches Some(x) ==> next_left <= x < lhs)
            &&& forall|k: int| 0 <= k < rest.len() - 1 ==> ((#[trigger] rest[k]).1 matches Some(x) ==> next_right <= x < rhs)
        }),
{
    let rest = anchors.drop_first();
    assert(anchors.drop_last()[0] == anchors[0]);
    assert forall|i: int, j: int|
        0 <= i < j < rest.drop_last().len() implies ((#[trigger] rest.drop_last()[i]).0 matches Some(x)
            ==> ((#[trigger] rest.drop_last()[j]).0 matches Some(y) ==> x < y)) by {
        assert(rest.drop_last()[i] == anchors.drop_last()[i + 1]);
        assert(rest.drop_last()[j] == anchors.drop_last()[j + 1]);
    }
    assert forall|i: int, j: int|
        0 <= i < j < rest.drop_last().len() implies ((#[trigger] rest.drop_last()[i]).1 matches Some(x)
            ==> ((#[trigger] rest.drop_last()[j]).1 matches Some(y) ==> x < y)) by {
        assert(rest.drop_last()[i] == anchors.drop_last()[i + 1]);
        assert(rest.drop_last()[j] == anchors.drop_last()[j + 1]);
    }
    let (l, r) = anchors[0];
    let next_left = after(within(l, lhs), vstd::math::max(left, anchor_end(l, left)));
    let next_right = after(within(r, rhs), vstd::math::max(right, anchor_end(r, right)));
    assert forall|k: int| 0 <= k < rest.len() - 1 implies ((#[trigger] rest[k]).0 matches Some(x) ==> next_left <= x < lhs) by {
        assert(rest[k] == anchors[k + 1]);
        assert(anchors.drop_last()[k + 1] == anchors[k + 1]);
    }
    assert forall|k: int| 0 <= k < rest.len() - 1 implies ((#[trigger] rest[k]).1 matches Some(x) ==> next_right <= x < rhs) by {
        assert(rest[k] == anchors[k + 1]);
        assert(anchors.drop_last()[k + 1] == anchors[k + 1]);
    }
}

/// What one side shows of the rows for the first anchor: its padding, then
/// the anchor's line when it is one of the side's lines.
proof fn lemma_first_shown(anchors: Seq<Row>, left: int, right: int, lhs: nat, rhs: nat, side: bool)
    requires
        anchors.len() > 0,
        0 <= left <= lhs <= usize::MAX,
        0 <= right <= rhs <= usize::MAX,
        anchors[0].0 matches Some(x) ==> left <= x <= lhs,
        anchors[0].1 matches Some(x) ==> right <= x <= rhs,
    ensures
        ({
            let (l, r) = anchors[0];
            let left_end = anchor_end(l, left);
            let right_end = anchor_end(r, right);
            let lf = within(l, lhs);
            let rf = within(r, rhs);
            let next_left = after(lf, vstd::math::max(left, left_end));
            let next_right = after(rf, vstd::math::max(right, right_end));
            let rest = fill(anchors.drop_first(), next_left, next_right, lhs, rhs);
            &&& side ==> shown(fill(anchors, left, right, lhs, rhs), true) == upto(left, left_end) + (match lf {
                Some(x) => seq![x as int],
                None => Seq::empty(),
            }) + shown(rest, true)
            &&& !side ==> shown(fill(anchors, left, right, lhs, rhs), false) == upto(right, right_end) + (match rf {
                Some(x) => seq![x as int],
                None => Seq::empty(),
            }) + shown(rest, false)
        }),
{
    let (l, r) = anchors[0];
    let left_end = anchor_end(l, left);
    let right_end = anchor_end(r, right);
    let lf = within(l, lhs);
    let rf = within(r, rhs);
    let pad = padding(left, left_end, right, right_end);
    let row = anchor_row(lf, rf);
    let next_left = after(lf, vstd::math::max(left, left_end));
    let next_right = after(rf, vstd::math::max(right, right_end));
    let rest = fill(anchors.drop_first(), next_left, next_right, lhs, rhs);
    assert(fill(anchors, left, right, lhs, rhs) == pad + row + rest);
    lemma_shown_padding(left, left_end, right, right_end, pad.len() as int);
    assert(pad.take(pad.len() as int) =~= pad);
    lemma_shown_concat(pad, row, side);
    lemma_shown_concat(pad + row, rest, side);
    let one = match lf {
        Some(x) => seq![x as int],
        None => Seq::<int>::empty(),
    };
    let other = match rf {
        Some(x) => seq![x as int],
        None => Seq::<int>::empty(),
    };
    assert(shown(Seq::<Row>::empty(), true) == Seq::<int>::empty());
    assert(shown(Seq::<Row>::empty(), false) == Seq::<int>::empty());
    if lf is Some || rf is Some {
        assert(row.drop_last() =~= Seq::<Row>::empty());
        assert(row.last() == (lf, rf));
        assert(shown(row, true) =~= one);
        assert(shown(row, false) =~= other);
    } else {
        assert(row =~= Seq::<Row>::empty());
        assert(shown(row, true) =~= one);
        assert(shown(row, false) =~= other);
    }
    assert(upto(left, vstd::math::min(left + pad.len(), left_end)) == upto(left, left_end));
    assert(upto(right, vstd::math::min(right + pad.len(), right_end)) == upto(right, right_end));
}

/// The rows for anchors that rise on each side, and end with one past each
/// side's last line, show every line of each side from where they start,
/// once and in order.
proof fn lemma_fill_shown(anchors: Seq<Row>, left: int, right: int, lhs: nat, rhs: nat)
    requires
        anchors.len() > 0,
        lhs <= usize::MAX,
        rhs <= usize::MAX,
        anchors.last() == (Some(lhs as usize), Some(rhs as usize)),
        0 <= left <= lhs,
        0 <= right <= rhs,
        rising(anchors.drop_last()),
        forall|k: int| 0 <= k < anchors.len() - 1 ==> ((#[trigger] anchors[k]).0 matches Some(x) ==> left <= x < lhs),
        forall|k: int| 0 <= k < anchors.len() - 1 ==> ((#[trigger] anchors[k]).1 matches Some(x) ==> right <= x < rhs),
    ensures
        shown(fill(anchors, left, right, lhs, rhs), true) == upto(left, lhs as int),
        shown(fill(anchors, left, right, lhs, rhs), false) == upto(right, rhs as int),
    decreases anchors.len(),
{
    let (l, r) = anchors[0];
    let left_end = anchor_end(l, left);
    let right_end = anchor_end(r, right);
    let lf = within(l, lhs);
    let rf = within(r, rhs);
    let next_left = after(lf, vstd::math::max(left, left_end));
    let next_right = after(rf, vstd::math::max(right, right_end));
    let rest = fill(anchors.drop_first(), next_left, next_right, lhs, rhs);
    if anchors.len() > 1 {
        assert(anchors.drop_last()[0] == anchors[0]);
    }
    lemma_first_shown(anchors, left, right, lhs, rhs, true);
    lemma_first_shown(anchors, left, right, lhs, rhs, false);
    if anchors.len() == 1 {
        assert(anchors.drop_first().len() == 0);
        assert(rest =~= Seq::<Row>::empty());
        assert(upto(left, lhs as int) + Seq::<int>::empty() + Seq::<int>::empty() =~= upto(left, lhs as int));
        assert(upto(right, rhs as int) + Seq::<int>::empty() + Seq::<int>::empty() =~= upto(right, rhs as int));
    } else {
        lemma_rest_in_order(anchors, left, right, lhs, rhs);
        assert(anchors.drop_first().last() == anchors.last());
        lemma_fill_shown(anchors.drop_first(), next_left, next_right, lhs, rhs);
        match lf {
            Some(x) => {
                assert(upto(left, x as int) + seq![x as int] + upto(x + 1, lhs as int) =~= upto(left, lhs as int));
            },
            None => {
                assert(upto(left, left) + Seq::<int>::empty() + upto(left, lhs as int) =~= upto(left, lhs as int));
            },
        }
        match rf {
            Some(x) => {
                assert(upto(right, x as int) + seq![x as int] + upto(x + 1, rhs as int) =~= upto(right, rhs as int));
            },
            None => {
                assert(upto(right, right) + Seq::<int>::empty() + upto(right, rhs as int) =~= upto(right, rhs as int));
            },
        }
    }
}

/// The anchors that count hold only lines of their sides.
proof fn lemma_kept_within(anchors: Seq<Row>, lhs: nat, rhs: nat)
    ensures
        forall|k: int|
            0 <= k < kept_anchors(anchors, lhs, rhs).len() ==> ((#[trigger] kept_anchors(anchors, lhs, rhs)[k]).0 matches Some(
                x,
            ) ==> x < lhs),
        forall|k: int|
            0 <= k < kept_anchors(anchors, lhs, rhs).len() ==> ((#[trigger] kept_anchors(anchors, lhs, rhs)[k]).1 matches Some(
                x,
            ) ==> x < rhs),
    decreases anchors.len(),
{
    if anchors.len() > 0 {
        lemma_kept_within(anchors.drop_last(), lhs, rhs);
    }
}

/// Line by line, the rows show each side's first `count` lines.
proof fn lemma_shown_diagonal(count: nat, left: bool)
    requires
        count <= usize::MAX + 1,
    ensures
        shown(Seq::new(count, |i: int| (Some(i as usize), Some(i as usize))), left) == upto(0, count as int),
    decreases count,
{
    let rows = Seq::new(count, |i: int| (Some(i as usize), Some(i as usize)));
    if count == 0 {
        assert(upto(0, 0) =~= Seq::<int>::empty());
    } else {
        lemma_shown_diagonal((count - 1) as nat, left);
        assert(rows.drop_last() =~= Seq::new((count - 1) as nat, |i: int| (Some(i as usize), Some(i as usize))));
        assert(upto(0, count as int) =~= upto(0, count - 1).push(count - 1));
    }
}

/// Each line of each side appears once, in order, in the rows of two
/// sources, when the anchors that count rise on each side.
pub proof fn rows_cover_every_line(lhs: Seq<char>, rhs: Seq<char>, anchors: Seq<Row>)
    requires
        line_total(lhs) <= usize::MAX,
        line_total(rhs) <= usize::MAX,
        rising(kept_anchors(anchors, line_total(lhs), line_total(rhs))),
    ensures
        shown(rows_of(lhs, rhs, anchors), true) == upto(0, line_total(lhs) as int),
        shown(rows_of(lhs, rhs, anchors), false) == upto(0, line_total(rhs) as int),
{
    let n = line_total(lhs);
    let m = line_total(rhs);
    if lhs == rhs {
        lemma_shown_diagonal(n, true);
        lemma_shown_diagonal(n, false);
    } else {
        let kept = kept_anchors(anchors, n, m);
        let all = kept.push((Some(n as usize), Some(m as usize)));
        lemma_kept_within(anchors, n, m);
        assert(all.drop_last() =~= kept);
        assert forall|k: int| 0 <= k < all.len() - 1 implies ((#[trigger] all[k]).0 matches Some(x) ==> 0 <= x < n) by {
            assert(all[k] == kept[k]);
        }
        assert forall|k: int| 0 <= k < all.len() - 1 implies ((#[trigger] all[k]).1 matches Some(x) ==> 0 <= x < m) by {
            assert(all[k] == kept[k]);
        }
        lemma_fill_shown(all, 0, 0, n, m);
    }
}

} // verus!
