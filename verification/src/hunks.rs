//! The rows a display shows around its changes: each hunk's changed rows and
//! the syntax context enclosing them, widened by padding, and merged into one
//! hunk wherever two selections touch or interleave.
//!
//! Rows are the aligned rows of a diff (see [`crate::line_layout`]); a row
//! set is held as a mask over their indices.
use crate::changed_blocks::unchanged_row;
use crate::line_layout::Row;
use crate::tree::line_set_contains;
use vstd::prelude::*;

verus! {

broadcast use vstd::std_specs::vec::group_vec_axioms, vstd::seq::group_seq_axioms;

/// A construct that gives a change its context: the lines it spans, both
/// ends included, and the lines to show when it holds a change.
pub struct ContextCandidate {
    pub contains: (usize, usize),
    pub rows: Vec<usize>,
}

/// The construct spans one of the changed lines.
pub open spec fn holds_change(candidate: ContextCandidate, changed: Seq<u32>) -> bool {
    exists|j: int|
        0 <= j < changed.len() && candidate.contains.0 <= #[trigger] changed[j] && changed[j] <= candidate.contains.1
}

/// The context lines to show for the changed lines: the lines of every
/// construct that spans one of them, construct by construct.
pub open spec fn selected_lines(candidates: Seq<ContextCandidate>, changed: Seq<u32>) -> Seq<usize>
    decreases candidates.len(),
{
    if candidates.len() == 0 {
        Seq::empty()
    } else {
        selected_lines(candidates.drop_last(), changed) + if holds_change(candidates.last(), changed) {
            candidates.last().rows@
        } else {
            Seq::empty()
        }
    }
}

/// Whether the construct spans one of the changed lines.
fn spans_change(candidate: &ContextCandidate, changed: &[u32]) -> (found: bool)
    ensures
        found == holds_change(*candidate, changed@),
{
    let mut j: usize = 0;
    while j < changed.len()
        invariant
            j <= changed@.len(),
            forall|k: int|
                0 <= k < j ==> !(candidate.contains.0 <= #[trigger] changed@[k] && changed@[k] <= candidate.contains.1),
        decreases changed@.len() - j,
    {
        let line = changed[j] as usize;
        if candidate.contains.0 <= line && line <= candidate.contains.1 {
            assert(candidate.contains.0 <= changed@[j as int] && changed@[j as int] <= candidate.contains.1);
            return true;
        }
        j += 1;
    }
    false
}

/// The context lines to show for the changed lines: every line of every
/// construct that spans one of them.
pub fn select_candidates(candidates: &[ContextCandidate], changed: &[u32]) -> (lines: Vec<usize>)
    ensures
        lines@ == selected_lines(candidates@, changed@),
{
    let mut lines: Vec<usize> = Vec::new();
    let mut k: usize = 0;
    while k < candidates.len()
        invariant
            k <= candidates@.len(),
            lines@ == selected_lines(candidates@.take(k as int), changed@),
        decreases candidates@.len() - k,
    {
        assert(candidates@.take(k + 1).drop_last() =~= candidates@.take(k as int));
        assert(candidates@.take(k + 1).last() == candidates@[k as int]);
        let candidate = &candidates[k];
        let ghost before = lines@;
        if spans_change(candidate, changed) {
            let mut r: usize = 0;
            while r < candidate.rows.len()
                invariant
                    r <= candidate.rows@.len(),
                    lines@ == before + candidate.rows@.take(r as int),
                decreases candidate.rows@.len() - r,
            {
                lines.push(candidate.rows[r]);
                assert(candidate.rows@.take(r + 1) =~= candidate.rows@.take(r as int).push(candidate.rows@[r as int]));
                r += 1;
            }
            assert(candidate.rows@.take(candidate.rows@.len() as int) =~= candidate.rows@);
        } else {
            assert(lines@ =~= before + Seq::<usize>::empty());
        }
        k += 1;
    }
    assert(candidates@.take(candidates@.len() as int) =~= candidates@);
    lines
}

/// A hunk: the lines of each of its rows, and which of those are novel on
/// each side.
pub struct Hunk {
    pub lines: Vec<(Option<u32>, Option<u32>)>,
    pub novel_lhs: Vec<u32>,
    pub novel_rhs: Vec<u32>,
}

/// Whether a row shows lhs line `line`.
pub open spec fn shows_left(row: Row, line: int) -> bool {
    match row.0 {
        Some(l) => l == line,
        None => false,
    }
}

/// Whether a row shows rhs line `line`.
pub open spec fn shows_right(row: Row, line: int) -> bool {
    match row.1 {
        Some(r) => r == line,
        None => false,
    }
}

/// The last row that shows lhs line `line`.
pub open spec fn left_row(rows: Seq<Row>, line: int) -> Option<int>
    decreases rows.len(),
{
    if rows.len() == 0 {
        None
    } else if shows_left(rows.last(), line) {
        Some(rows.len() - 1)
    } else {
        left_row(rows.drop_last(), line)
    }
}

/// The last row that shows rhs line `line`.
pub open spec fn right_row(rows: Seq<Row>, line: int) -> Option<int>
    decreases rows.len(),
{
    if rows.len() == 0 {
        None
    } else if shows_right(rows.last(), line) {
        Some(rows.len() - 1)
    } else {
        right_row(rows.drop_last(), line)
    }
}

/// The row of an optional lhs line.
pub open spec fn left_of(rows: Seq<Row>, line: Option<u32>) -> Option<int> {
    match line {
        Some(l) => left_row(rows, l as int),
        None => None,
    }
}

/// The row of an optional rhs line.
pub open spec fn right_of(rows: Seq<Row>, line: Option<u32>) -> Option<int> {
    match line {
        Some(r) => right_row(rows, r as int),
        None => None,
    }
}

/// Row `i` shows one of a hunk's lines.
pub open spec fn hit_by_lines(rows: Seq<Row>, lines: Seq<(Option<u32>, Option<u32>)>, i: int) -> bool {
    exists|j: int| 0 <= j < lines.len() && (left_of(rows, (#[trigger] lines[j]).0) == Some(i) || right_of(rows, lines[j].1) == Some(i))
}

/// Row `i` shows one of the context lines, and pairs two unchanged lines.
pub open spec fn hit_by_context(
    rows: Seq<Row>,
    lhs_context: Seq<usize>,
    rhs_context: Seq<usize>,
    lhs_novel: Set<usize>,
    rhs_novel: Set<usize>,
    i: int,
) -> bool {
    &&& 0 <= i < rows.len()
    &&& unchanged_row(rows[i], lhs_novel, rhs_novel)
    &&& (exists|x: int| 0 <= x < lhs_context.len() && left_row(rows, #[trigger] lhs_context[x] as int) == Some(i))
        || (exists|y: int| 0 <= y < rhs_context.len() && right_row(rows, #[trigger] rhs_context[y] as int) == Some(i))
}

/// Row `s` is within `padding` rows of row `i`, which is a row.
pub open spec fn near(s: int, i: int, padding: int, n: int) -> bool {
    &&& 0 <= i < n
    &&& s - padding <= i
    &&& i < s + padding + 1
}

/// What one hunk selects: the rows within `padding` of a row that shows one
/// of its lines, or one of the context lines its changes call for.
pub open spec fn selection(
    rows: Seq<Row>,
    hunk: Hunk,
    lhs_candidates: Seq<ContextCandidate>,
    rhs_candidates: Seq<ContextCandidate>,
    lhs_novel: Set<usize>,
    rhs_novel: Set<usize>,
    padding: int,
) -> Seq<bool> {
    let lhs_context = selected_lines(lhs_candidates, hunk.novel_lhs@);
    let rhs_context = selected_lines(rhs_candidates, hunk.novel_rhs@);
    Seq::new(
        rows.len(),
        |i: int|
            exists|s: int|
                0 <= s < rows.len() && (hit_by_lines(rows, hunk.lines@, s) || hit_by_context(
                    rows,
                    lhs_context,
                    rhs_context,
                    lhs_novel,
                    rhs_novel,
                    s,
                )) && #[trigger] near(s, i, padding, rows.len() as int),
    )
}

/// The first row a mask selects.
pub open spec fn first_true(m: Seq<bool>) -> Option<int>
    decreases m.len(),
{
    if m.len() == 0 {
        None
    } else {
        match first_true(m.drop_last()) {
            Some(i) => Some(i),
            None => if m.last() {
                Some(m.len() - 1)
            } else {
                None
            },
        }
    }
}

/// The last row a mask selects.
pub open spec fn last_true(m: Seq<bool>) -> Option<int>
    decreases m.len(),
{
    if m.len() == 0 {
        None
    } else if m.last() {
        Some(m.len() - 1)
    } else {
        last_true(m.drop_last())
    }
}

/// Selections ordered by their first row, an empty one first.
pub open spec fn key_le(a: Option<int>, b: Option<int>) -> bool {
    match (a, b) {
        (None, _) => true,
        (Some(_), None) => false,
        (Some(x), Some(y)) => x <= y,
    }
}

/// `x` put among the ordered selections after every one whose first row
/// is no later than its own.
pub open spec fn insert_by_first(sorted: Seq<Seq<bool>>, x: Seq<bool>) -> Seq<Seq<bool>>
    decreases sorted.len(),
{
    if sorted.len() == 0 {
        seq![x]
    } else if key_le(first_true(sorted.last()), first_true(x)) {
        sorted.push(x)
    } else {
        insert_by_first(sorted.drop_last(), x).push(sorted.last())
    }
}

/// The selections ordered by first row, ties kept in order.
pub open spec fn sorted_by_first(selections: Seq<Seq<bool>>) -> Seq<Seq<bool>>
    decreases selections.len(),
{
    if selections.len() == 0 {
        Seq::empty()
    } else {
        insert_by_first(sorted_by_first(selections.drop_last()), selections.last())
    }
}

/// The rows either mask selects.
pub open spec fn either(a: Seq<bool>, b: Seq<bool>) -> Seq<bool> {
    Seq::new(a.len(), |i: int| a[i] || b[i])
}

/// Whether a selection starts no later than the row after the last row
/// of a group.
pub open spec fn touches(group: Seq<bool>, x: Seq<bool>) -> bool {
    match (first_true(x), last_true(group)) {
        (Some(first), Some(last)) => first <= last + 1,
        _ => false,
    }
}

/// The ordered selections, each merged into the group before it when it
/// touches or interleaves with it.
pub open spec fn merged(sorted: Seq<Seq<bool>>) -> Seq<Seq<bool>>
    decreases sorted.len(),
{
    if sorted.len() == 0 {
        Seq::empty()
    } else {
        let groups = merged(sorted.drop_last());
        let x = sorted.last();
        if groups.len() > 0 && touches(groups.last(), x) {
            groups.drop_last().push(either(groups.last(), x))
        } else {
            groups.push(x)
        }
    }
}

/// A row's lines as line numbers.
pub open spec fn line_pair(row: Row) -> (Option<u32>, Option<u32>) {
    (
        match row.0 {
            Some(l) => Some(l as u32),
            None => None,
        },
        match row.1 {
            Some(r) => Some(r as u32),
            None => None,
        },
    )
}

/// The lines of the rows a mask selects, in row order.
pub open spec fn picked(mask: Seq<bool>, rows: Seq<Row>) -> Seq<(Option<u32>, Option<u32>)>
    decreases mask.len(),
{
    if mask.len() == 0 {
        Seq::empty()
    } else {
        picked(mask.drop_last(), rows) + if mask.last() {
            seq![line_pair(rows[mask.len() - 1])]
        } else {
            Seq::empty()
        }
    }
}

/// The novel lhs lines among a hunk's lines, in order.
pub open spec fn novel_left(lines: Seq<(Option<u32>, Option<u32>)>, novel: Set<usize>) -> Seq<u32>
    decreases lines.len(),
{
    if lines.len() == 0 {
        Seq::empty()
    } else {
        novel_left(lines.drop_last(), novel) + match lines.last().0 {
            Some(l) => if novel.contains(l as usize) {
                seq![l]
            } else {
                Seq::empty()
            },
            None => Seq::empty(),
        }
    }
}

/// The novel rhs lines among a hunk's lines, in order.
pub open spec fn novel_right(lines: Seq<(Option<u32>, Option<u32>)>, novel: Set<usize>) -> Seq<u32>
    decreases lines.len(),
{
    if lines.len() == 0 {
        Seq::empty()
    } else {
        novel_right(lines.drop_last(), novel) + match lines.last().1 {
            Some(r) => if novel.contains(r as usize) {
                seq![r]
            } else {
                Seq::empty()
            },
            None => Seq::empty(),
        }
    }
}

/// An optional row index as an integer.
pub open spec fn index_view(i: Option<usize>) -> Option<int> {
    match i {
        Some(k) => Some(k as int),
        None => None,
    }
}

/// The row a search by line finds lies among the rows and shows the line.
proof fn lemma_row_bounds(rows: Seq<Row>, line: int)
    ensures
        left_row(rows, line) matches Some(i) ==> 0 <= i < rows.len() && shows_left(rows[i], line),
        right_row(rows, line) matches Some(i) ==> 0 <= i < rows.len() && shows_right(rows[i], line),
    decreases rows.len(),
{
    if rows.len() > 0 {
        lemma_row_bounds(rows.drop_last(), line);
    }
}

/// The last row that shows lhs line `line`.
fn find_left(rows: &[Row], line: usize) -> (found: Option<usize>)
    ensures
        index_view(found) == left_row(rows@, line as int),
{
    let mut k: usize = rows.len();
    assert(rows@.take(k as int) =~= rows@);
    while k > 0
        invariant
            k <= rows@.len(),
            left_row(rows@, line as int) == left_row(rows@.take(k as int), line as int),
        decreases k,
    {
        assert(rows@.take(k as int).drop_last() =~= rows@.take(k - 1));
        assert(rows@.take(k as int).last() == rows@[k - 1]);
        if let Some(l) = rows[k - 1].0 {
            if l == line {
                return Some(k - 1);
            }
        }
        k -= 1;
    }
    None
}

/// The last row that shows rhs line `line`.
fn find_right(rows: &[Row], line: usize) -> (found: Option<usize>)
    ensures
        index_view(found) == right_row(rows@, line as int),
{
    let mut k: usize = rows.len();
    assert(rows@.take(k as int) =~= rows@);
    while k > 0
        invariant
            k <= rows@.len(),
            right_row(rows@, line as int) == right_row(rows@.take(k as int), line as int),
        decreases k,
    {
        assert(rows@.take(k as int).drop_last() =~= rows@.take(k - 1));
        assert(rows@.take(k as int).last() == rows@[k - 1]);
        if let Some(r) = rows[k - 1].1 {
            if r == line {
                return Some(k - 1);
            }
        }
        k -= 1;
    }
    None
}

/// Whether a row pairs two unchanged lines.
fn is_unchanged(
    row: Row,
    lhs_novel: &std::collections::BTreeSet<usize>,
    rhs_novel: &std::collections::BTreeSet<usize>,
) -> (unchanged: bool)
    ensures
        unchanged == unchanged_row(row, lhs_novel@, rhs_novel@),
{
    match row {
        (Some(l), Some(r)) => !line_set_contains(lhs_novel, l) && !line_set_contains(rhs_novel, r),
        _ => false,
    }
}

/// The rows that show one of a hunk's lines, or one of the context lines
/// its changes call for.
fn seeds_of(
    rows: &[Row],
    hunk: &Hunk,
    lhs_candidates: &[ContextCandidate],
    rhs_candidates: &[ContextCandidate],
    lhs_novel: &std::collections::BTreeSet<usize>,
    rhs_novel: &std::collections::BTreeSet<usize>,
) -> (seeds: Vec<bool>)
    ensures
        seeds@.len() == rows@.len(),
        forall|i: int|
            0 <= i < rows@.len() ==> #[trigger] seeds@[i] == (hit_by_lines(rows@, hunk.lines@, i) || hit_by_context(
                rows@,
                selected_lines(lhs_candidates@, hunk.novel_lhs@),
                selected_lines(rhs_candidates@, hunk.novel_rhs@),
                lhs_novel@,
                rhs_novel@,
                i,
            )),
{
    let n = rows.len();
    let mut seeds: Vec<bool> = Vec::new();
    while seeds.len() < n
        invariant
            seeds@.len() <= n,
            forall|i: int| 0 <= i < seeds@.len() ==> !(#[trigger] seeds@[i]),
        decreases n - seeds@.len(),
    {
        seeds.push(false);
    }
    let mut j: usize = 0;
    while j < hunk.lines.len()
        invariant
            n == rows@.len(),
            seeds@.len() == n,
            j <= hunk.lines@.len(),
            forall|i: int|
                0 <= i < n ==> #[trigger] seeds@[i] == exists|q: int|
                    0 <= q < j && (left_of(rows@, (#[trigger] hunk.lines@[q]).0) == Some(i) || right_of(
                        rows@,
                        hunk.lines@[q].1,
                    ) == Some(i)),
        decreases hunk.lines@.len() - j,
    {
        let (l, r) = hunk.lines[j];
        let ghost before = seeds@;
        if let Some(l) = l {
            if let Some(i) = find_left(rows, l as usize) {
                proof {
                    lemma_row_bounds(rows@, l as int);
                }
                seeds.set(i, true);
            }
        }
        let ghost middle = seeds@;
        if let Some(r) = r {
            if let Some(i) = find_right(rows, r as usize) {
                proof {
                    lemma_row_bounds(rows@, r as int);
                }
                seeds.set(i, true);
            }
        }
        assert forall|i: int|
            0 <= i < n implies #[trigger] seeds@[i] == exists|q: int|
                0 <= q < j + 1 && (left_of(rows@, (#[trigger] hunk.lines@[q]).0) == Some(i) || right_of(
                    rows@,
                    hunk.lines@[q].1,
                ) == Some(i)) by {
            if left_of(rows@, hunk.lines@[j as int].0) == Some(i) || right_of(rows@, hunk.lines@[j as int].1) == Some(i) {
                assert(seeds@[i]);
            } else {
                assert(seeds@[i] == before[i]);
                if exists|q: int|
                    0 <= q < j + 1 && (left_of(rows@, (#[trigger] hunk.lines@[q]).0) == Some(i) || right_of(
                        rows@,
                        hunk.lines@[q].1,
                    ) == Some(i)) {
                    let q = choose|q: int|
                        0 <= q < j + 1 && (left_of(rows@, (#[trigger] hunk.lines@[q]).0) == Some(i) || right_of(
                            rows@,
                            hunk.lines@[q].1,
                        ) == Some(i));
                    assert(q < j);
                }
            }
        }
        j += 1;
    }
    let lhs_context = select_candidates(lhs_candidates, hunk.novel_lhs.as_slice());
    let rhs_context = select_candidates(rhs_candidates, hunk.novel_rhs.as_slice());
    let mut x: usize = 0;
    while x < lhs_context.len()
        invariant
            n == rows@.len(),
            seeds@.len() == n,
            x <= lhs_context@.len(),
            forall|i: int|
                0 <= i < n ==> #[trigger] seeds@[i] == (hit_by_lines(rows@, hunk.lines@, i) || (unchanged_row(
                    rows@[i],
                    lhs_novel@,
                    rhs_novel@,
                ) && exists|q: int| 0 <= q < x && left_row(rows@, #[trigger] lhs_context@[q] as int) == Some(i))),
        decreases lhs_context@.len() - x,
    {
        let ghost before = seeds@;
        if let Some(i) = find_left(rows, lhs_context[x]) {
            proof {
                lemma_row_bounds(rows@, lhs_context@[x as int] as int);
            }
            if is_unchanged(rows[i], lhs_novel, rhs_novel) {
                seeds.set(i, true);
            }
        }
        assert forall|i: int|
            0 <= i < n implies #[trigger] seeds@[i] == (hit_by_lines(rows@, hunk.lines@, i) || (unchanged_row(
                rows@[i],
                lhs_novel@,
                rhs_novel@,
            ) && exists|q: int| 0 <= q < x + 1 && left_row(rows@, #[trigger] lhs_context@[q] as int) == Some(i))) by {
            if unchanged_row(rows@[i], lhs_novel@, rhs_novel@) && left_row(rows@, lhs_context@[x as int] as int) == Some(i) {
                assert(seeds@[i]);
            } else {
                assert(seeds@[i] == before[i]);
                if exists|q: int| 0 <= q < x + 1 && left_row(rows@, #[trigger] lhs_context@[q] as int) == Some(i) {
                    let q = choose|q: int| 0 <= q < x + 1 && left_row(rows@, #[trigger] lhs_context@[q] as int) == Some(i);
                    if q == x {
                        assert(!unchanged_row(rows@[i], lhs_novel@, rhs_novel@));
                    }
                }
            }
        }
        x += 1;
    }
    let mut y: usize = 0;
    while y < rhs_context.len()
        invariant
            n == rows@.len(),
            seeds@.len() == n,
            y <= rhs_context@.len(),
            forall|i: int|
                0 <= i < n ==> #[trigger] seeds@[i] == (hit_by_lines(rows@, hunk.lines@, i) || (unchanged_row(
                    rows@[i],
                    lhs_novel@,
                    rhs_novel@,
                ) && ((exists|q: int| 0 <= q < lhs_context@.len() && left_row(rows@, #[trigger] lhs_context@[q] as int) == Some(i))
                    || exists|q: int| 0 <= q < y && right_row(rows@, #[trigger] rhs_context@[q] as int) == Some(i)))),
        decreases rhs_context@.len() - y,
    {
        let ghost before = seeds@;
        if let Some(i) = find_right(rows, rhs_context[y]) {
            proof {
                lemma_row_bounds(rows@, rhs_context@[y as int] as int);
            }
            if is_unchanged(rows[i], lhs_novel, rhs_novel) {
                seeds.set(i, true);
            }
        }
        assert forall|i: int|
            0 <= i < n implies #[trigger] seeds@[i] == (hit_by_lines(rows@, hunk.lines@, i) || (unchanged_row(
                rows@[i],
                lhs_novel@,
                rhs_novel@,
            ) && ((exists|q: int| 0 <= q < lhs_context@.len() && left_row(rows@, #[trigger] lhs_context@[q] as int) == Some(i))
                || exists|q: int| 0 <= q < y + 1 && right_row(rows@, #[trigger] rhs_context@[q] as int) == Some(i)))) by {
            if unchanged_row(rows@[i], lhs_novel@, rhs_novel@) && right_row(rows@, rhs_context@[y as int] as int) == Some(i) {
                assert(seeds@[i]);
            } else {
                assert(seeds@[i] == before[i]);
                if exists|q: int| 0 <= q < y + 1 && right_row(rows@, #[trigger] rhs_context@[q] as int) == Some(i) {
                    let q = choose|q: int| 0 <= q < y + 1 && right_row(rows@, #[trigger] rhs_context@[q] as int) == Some(i);
                    if q == y {
                        assert(!unchanged_row(rows@[i], lhs_novel@, rhs_novel@));
                    }
                }
            }
        }
        y += 1;
    }
    seeds
}

/// The rows within `padding` of a seed row.
fn widen(seeds: &Vec<bool>, padding: usize) -> (selected: Vec<bool>)
    requires
        seeds@.len() + padding < usize::MAX,
    ensures
        selected@.len() == seeds@.len(),
        forall|i: int|
            0 <= i < seeds@.len() ==> #[trigger] selected@[i] == exists|s: int|
                0 <= s < seeds@.len() && seeds@[s] && #[trigger] near(s, i, padding as int, seeds@.len() as int),
{
    let n = seeds.len();
    let mut selected: Vec<bool> = Vec::new();
    while selected.len() < n
        invariant
            selected@.len() <= n,
            forall|i: int| 0 <= i < selected@.len() ==> !(#[trigger] selected@[i]),
        decreases n - selected@.len(),
    {
        selected.push(false);
    }
    let mut s: usize = 0;
    while s < n
        invariant
            n == seeds@.len(),
            n + padding < usize::MAX,
            selected@.len() == n,
            s <= n,
            forall|i: int|
                0 <= i < n ==> #[trigger] selected@[i] == exists|t: int|
                    0 <= t < s && seeds@[t] && #[trigger] near(t, i, padding as int, n as int),
        decreases n - s,
    {
        if seeds[s] {
            let from: usize = if s >= padding { s - padding } else { 0 };
            let to: usize = if s + padding + 1 < n { s + padding + 1 } else { n };
            let ghost before = selected@;
            let mut i: usize = from;
            while i < to
                invariant
                    n == seeds@.len(),
                    selected@.len() == n,
                    from <= i <= to <= n,
                    forall|k: int|
                        0 <= k < n ==> #[trigger] selected@[k] == (before[k] || (from <= k < i)),
                decreases to - i,
            {
                selected.set(i, true);
                i += 1;
            }
            assert forall|k: int|
                0 <= k < n implies #[trigger] selected@[k] == exists|t: int|
                    0 <= t < s + 1 && seeds@[t] && #[trigger] near(t, k, padding as int, n as int) by {
                if near(s as int, k, padding as int, n as int) {
                    assert(from <= k < to);
                } else if from <= k < to {
                    assert(near(s as int, k, padding as int, n as int));
                }
                if exists|t: int| 0 <= t < s + 1 && seeds@[t] && #[trigger] near(t, k, padding as int, n as int) {
                    let t = choose|t: int| 0 <= t < s + 1 && seeds@[t] && #[trigger] near(t, k, padding as int, n as int);
                    if t < s {
                        assert(before[k]);
                    }
                }
            }
        } else {
            assert forall|k: int|
                0 <= k < n implies #[trigger] selected@[k] == exists|t: int|
                    0 <= t < s + 1 && seeds@[t] && #[trigger] near(t, k, padding as int, n as int) by {
                if exists|t: int| 0 <= t < s + 1 && seeds@[t] && #[trigger] near(t, k, padding as int, n as int) {
                    let t = choose|t: int| 0 <= t < s + 1 && seeds@[t] && #[trigger] near(t, k, padding as int, n as int);
                    assert(t < s);
                }
            }
        }
        s += 1;
    }
    selected
}

/// The first row a mask selects.
fn first_index(mask: &Vec<bool>) -> (first: Option<usize>)
    ensures
        index_view(first) == first_true(mask@),
{
    let mut i: usize = 0;
    while i < mask.len()
        invariant
            i <= mask@.len(),
            first_true(mask@.take(i as int)) is None,
        decreases mask@.len() - i,
    {
        assert(mask@.take(i + 1).drop_last() =~= mask@.take(i as int));
        if mask[i] {
            proof {
                lemma_first_true_prefix(mask@, i + 1);
            }
            return Some(i);
        }
        i += 1;
    }
    assert(mask@.take(mask@.len() as int) =~= mask@);
    None
}

/// A prefix whose first selected row is found keeps it as the mask's first.
proof fn lemma_first_true_prefix(m: Seq<bool>, k: int)
    requires
        0 <= k <= m.len(),
        first_true(m.take(k)) is Some,
    ensures
        first_true(m) == first_true(m.take(k)),
    decreases m.len() - k,
{
    if k < m.len() {
        assert(m.take(k + 1).drop_last() =~= m.take(k));
        lemma_first_true_prefix(m, k + 1);
    } else {
        assert(m.take(k) =~= m);
    }
}

/// The last row a mask selects.
fn last_index(mask: &Vec<bool>) -> (last: Option<usize>)
    ensures
        index_view(last) == last_true(mask@),
{
    let mut k: usize = mask.len();
    assert(mask@.take(k as int) =~= mask@);
    while k > 0
        invariant
            k <= mask@.len(),
            last_true(mask@) == last_true(mask@.take(k as int)),
        decreases k,
    {
        assert(mask@.take(k as int).drop_last() =~= mask@.take(k - 1));
        if mask[k - 1] {
            return Some(k - 1);
        }
        k -= 1;
    }
    None
}

/// Whether an optional first row comes no later than another.
fn key_before(a: Option<usize>, b: Option<usize>) -> (yes: bool)
    ensures
        yes == key_le(index_view(a), index_view(b)),
{
    match (a, b) {
        (None, _) => true,
        (Some(_), None) => false,
        (Some(x), Some(y)) => x <= y,
    }
}

/// Placing `x` where the selections before start no later and those after
/// start later is inserting it by first row.
proof fn lemma_insert_at(sorted: Seq<Seq<bool>>, x: Seq<bool>, p: int)
    requires
        0 <= p <= sorted.len(),
        forall|q: int| p <= q < sorted.len() ==> !key_le(first_true(#[trigger] sorted[q]), first_true(x)),
        p == 0 || key_le(first_true(sorted[p - 1]), first_true(x)),
    ensures
        insert_by_first(sorted, x) == sorted.take(p) + seq![x] + sorted.skip(p),
    decreases sorted.len(),
{
    if sorted.len() == 0 {
        assert(sorted.take(p) + seq![x] + sorted.skip(p) =~= seq![x]);
    } else if p == sorted.len() {
        assert(sorted.take(p) + seq![x] + sorted.skip(p) =~= sorted.push(x));
    } else {
        let front = sorted.drop_last();
        assert forall|q: int| p <= q < front.len() implies !key_le(first_true(#[trigger] front[q]), first_true(x)) by {
            assert(front[q] == sorted[q]);
        }
        if p > 0 {
            assert(front[p - 1] == sorted[p - 1]);
        }
        assert(!key_le(first_true(sorted[sorted.len() - 1]), first_true(x)));
        lemma_insert_at(front, x, p);
        assert(front.take(p) + seq![x] + front.skip(p) + seq![sorted.last()] =~= sorted.take(p) + seq![x]
            + sorted.skip(p));
    }
}

/// The masks of a list of masks.
pub open spec fn views(masks: Seq<Vec<bool>>) -> Seq<Seq<bool>> {
    masks.map_values(|m: Vec<bool>| m@)
}

/// The selections ordered by their first row, ties kept in order.
fn sort_by_first(selections: Vec<Vec<bool>>) -> (sorted: Vec<Vec<bool>>)
    ensures
        views(sorted@) == sorted_by_first(views(selections@)),
{
    let ghost all = views(selections@);
    let mut rest = selections;
    let mut sorted: Vec<Vec<bool>> = Vec::new();
    let mut keys: Vec<Option<usize>> = Vec::new();
    let ghost mut t: int = 0;
    assert(all.take(0) =~= Seq::<Seq<bool>>::empty());
    assert(views(sorted@) =~= Seq::<Seq<bool>>::empty());
    assert(views(rest@) =~= all.skip(0));
    while rest.len() > 0
        invariant
            0 <= t <= all.len(),
            views(rest@) == all.skip(t),
            views(sorted@) == sorted_by_first(all.take(t)),
            keys@.len() == sorted@.len(),
            forall|q: int| 0 <= q < keys@.len() ==> index_view(#[trigger] keys@[q]) == first_true(sorted@[q]@),
        decreases rest@.len(),
    {
        let ghost before = views(sorted@);
        let ghost old_rest = rest@;
        assert(views(old_rest).len() == old_rest.len());
        assert(t < all.len());
        let x = rest.remove(0);
        assert(x@ == all[t]) by {
            assert(views(old_rest)[0] == old_rest[0]@);
            assert(all.skip(t)[0] == all[t]);
        }
        assert(views(rest@) =~= all.skip(t + 1)) by {
            assert forall|q: int| 0 <= q < views(rest@).len() implies views(rest@)[q] == all.skip(t + 1)[q] by {
                assert(rest@[q] == old_rest[q + 1]);
                assert(views(old_rest)[q + 1] == all.skip(t)[q + 1]);
            }
        }
        let kx = first_index(&x);
        let mut p: usize = sorted.len();
        while p > 0 && !key_before(keys[p - 1], kx)
            invariant
                p <= sorted@.len(),
                keys@.len() == sorted@.len(),
                before == views(sorted@),
                index_view(kx) == first_true(x@),
                forall|q: int| 0 <= q < keys@.len() ==> index_view(#[trigger] keys@[q]) == first_true(sorted@[q]@),
                forall|q: int| p <= q < before.len() ==> !key_le(first_true(#[trigger] before[q]), first_true(x@)),
            decreases p,
        {
            assert(before[p - 1] == sorted@[p - 1]@);
            p -= 1;
        }
        proof {
            if p > 0 {
                assert(before[p - 1] == sorted@[p - 1]@);
            }
            lemma_insert_at(before, x@, p as int);
            assert(all.take(t + 1).drop_last() =~= all.take(t));
            assert(all.take(t + 1).last() == all[t]);
        }
        let ghost old_sorted = sorted@;
        let ghost old_keys = keys@;
        sorted.insert(p, x);
        keys.insert(p, kx);
        proof {
            assert forall|q: int| 0 <= q < sorted@.len() implies views(sorted@)[q] == (before.take(p as int) + seq![all[t]]
                + before.skip(p as int))[q] by {
                if q < p {
                    assert(sorted@[q] == old_sorted[q]);
                } else if q > p {
                    assert(sorted@[q] == old_sorted[q - 1]);
                }
            }
            assert(views(sorted@) =~= before.take(p as int) + seq![all[t]] + before.skip(p as int));
            assert forall|q: int| 0 <= q < keys@.len() implies index_view(#[trigger] keys@[q]) == first_true(sorted@[q]@) by {
                if q < p {
                    assert(keys@[q] == old_keys[q] && sorted@[q] == old_sorted[q]);
                } else if q > p {
                    assert(keys@[q] == old_keys[q - 1] && sorted@[q] == old_sorted[q - 1]);
                }
            }
            t = t + 1;
        }
    }
    assert(all.take(t) =~= all) by {
        assert(all.skip(t).len() == 0);
    }
    sorted
}

/// The rows either mask selects.
fn either_of(a: &Vec<bool>, b: &Vec<bool>) -> (both: Vec<bool>)
    requires
        a@.len() == b@.len(),
    ensures
        both@ == either(a@, b@),
{
    let mut both: Vec<bool> = Vec::new();
    let mut i: usize = 0;
    while i < a.len()
        invariant
            a@.len() == b@.len(),
            i <= a@.len(),
            both@ == either(a@, b@).take(i as int),
        decreases a@.len() - i,
    {
        both.push(a[i] || b[i]);
        assert(either(a@, b@).take(i + 1) =~= either(a@, b@).take(i as int).push(a@[i as int] || b@[i as int]));
        i += 1;
    }
    assert(either(a@, b@).take(a@.len() as int) =~= either(a@, b@));
    both
}

/// Masks all of one length.
pub open spec fn all_of_len(masks: Seq<Seq<bool>>, n: nat) -> bool {
    forall|q: int| 0 <= q < masks.len() ==> (#[trigger] masks[q]).len() == n
}

/// Merging keeps every mask at its length.
proof fn lemma_merged_len(sorted: Seq<Seq<bool>>, n: nat)
    requires
        all_of_len(sorted, n),
    ensures
        all_of_len(merged(sorted), n),
    decreases sorted.len(),
{
    if sorted.len() > 0 {
        assert(all_of_len(sorted.drop_last(), n)) by {
            assert forall|q: int| 0 <= q < sorted.drop_last().len() implies (#[trigger] sorted.drop_last()[q]).len() == n by {
                assert(sorted.drop_last()[q] == sorted[q]);
            }
        }
        lemma_merged_len(sorted.drop_last(), n);
    }
}

/// Sorting keeps every mask at its length.
proof fn lemma_sorted_len(selections: Seq<Seq<bool>>, n: nat)
    requires
        all_of_len(selections, n),
    ensures
        all_of_len(sorted_by_first(selections), n),
        sorted_by_first(selections).len() == selections.len(),
    decreases selections.len(),
{
    if selections.len() > 0 {
        assert(all_of_len(selections.drop_last(), n)) by {
            assert forall|q: int| 0 <= q < selections.drop_last().len() implies (#[trigger] selections.drop_last()[q]).len() == n by {
                assert(selections.drop_last()[q] == selections[q]);
            }
        }
        lemma_sorted_len(selections.drop_last(), n);
        lemma_insert_len(sorted_by_first(selections.drop_last()), selections.last(), n);
    }
}

proof fn lemma_insert_len(sorted: Seq<Seq<bool>>, x: Seq<bool>, n: nat)
    requires
        all_of_len(sorted, n),
        x.len() == n,
    ensures
        all_of_len(insert_by_first(sorted, x), n),
        insert_by_first(sorted, x).len() == sorted.len() + 1,
    decreases sorted.len(),
{
    if sorted.len() > 0 {
        assert(all_of_len(sorted.drop_last(), n)) by {
            assert forall|q: int| 0 <= q < sorted.drop_last().len() implies (#[trigger] sorted.drop_last()[q]).len() == n by {
                assert(sorted.drop_last()[q] == sorted[q]);
            }
        }
        lemma_insert_len(sorted.drop_last(), x, n);
    }
}

/// The ordered selections, each merged into the group before it when it
/// touches or interleaves with it.
fn merge_touching(sorted: Vec<Vec<bool>>, n: usize) -> (groups: Vec<Vec<bool>>)
    requires
        all_of_len(views(sorted@), n as nat),
    ensures
        views(groups@) == merged(views(sorted@)),
{
    let ghost all = views(sorted@);
    let mut rest = sorted;
    let mut groups: Vec<Vec<bool>> = Vec::new();
    let ghost mut t: int = 0;
    assert(all.take(0) =~= Seq::<Seq<bool>>::empty());
    assert(views(groups@) =~= Seq::<Seq<bool>>::empty());
    assert(views(rest@) =~= all.skip(0));
    while rest.len() > 0
        invariant
            0 <= t <= all.len(),
            all_of_len(all, n as nat),
            views(rest@) == all.skip(t),
            views(groups@) == merged(all.take(t)),
            all_of_len(views(groups@), n as nat),
        decreases rest@.len(),
    {
        let ghost old_rest = rest@;
        let ghost before = views(groups@);
        assert(views(old_rest).len() == old_rest.len());
        let x = rest.remove(0);
        assert(x@ == all[t]) by {
            assert(views(old_rest)[0] == old_rest[0]@);
            assert(all.skip(t)[0] == all[t]);
        }
        assert(views(rest@) =~= all.skip(t + 1)) by {
            assert forall|q: int| 0 <= q < views(rest@).len() implies views(rest@)[q] == all.skip(t + 1)[q] by {
                assert(rest@[q] == old_rest[q + 1]);
                assert(views(old_rest)[q + 1] == all.skip(t)[q + 1]);
            }
        }
        assert(all.take(t + 1).drop_last() =~= all.take(t));
        assert(all.take(t + 1).last() == all[t]);
        assert(x@.len() == n);
        let g = groups.len();
        let joined = if g > 0 {
            let first = first_index(&x);
            let last = last_index(&groups[g - 1]);
            match (first, last) {
                (Some(f), Some(l)) => f <= l || f - l == 1,
                _ => false,
            }
        } else {
            false
        };
        proof {
            if g > 0 {
                assert(before.last() == groups@[g - 1]@);
            }
        }
        if joined {
            let last = groups.pop().unwrap();
            assert(last@ == before.last());
            assert(views(groups@) =~= before.drop_last());
            let union = either_of(&last, &x);
            groups.push(union);
            assert(views(groups@) =~= before.drop_last().push(either(before.last(), x@)));
        } else {
            groups.push(x);
            assert(views(groups@) =~= before.push(all[t]));
        }
        proof {
            t = t + 1;
            assert forall|q: int| 0 <= q < views(groups@).len() implies (#[trigger] views(groups@)[q]).len() == n by {
                if q < before.len() - 1 || (!joined && q < before.len()) {
                    assert(views(groups@)[q] == before[q]);
                }
            }
        }
    }
    assert(all.take(t) =~= all) by {
        assert(all.skip(t).len() == 0);
    }
    groups
}

/// Every line a row shows fits a line number.
pub open spec fn rows_fit(rows: Seq<Row>) -> bool {
    forall|i: int|
        0 <= i < rows.len() ==> ((#[trigger] rows[i]).0 matches Some(l) ==> l <= u32::MAX) && (rows[i].1 matches Some(
            r,
        ) ==> r <= u32::MAX)
}

/// The hunk a group of rows makes: its rows' lines, and the novel ones on
/// each side.
pub open spec fn hunk_view(mask: Seq<bool>, rows: Seq<Row>, lhs_novel: Set<usize>, rhs_novel: Set<usize>) -> (
    Seq<(Option<u32>, Option<u32>)>,
    Seq<u32>,
    Seq<u32>,
) {
    let lines = picked(mask, rows);
    (lines, novel_left(lines, lhs_novel), novel_right(lines, rhs_novel))
}

/// A hunk's lines and novel lines.
pub open spec fn hunk_parts(hunk: Hunk) -> (Seq<(Option<u32>, Option<u32>)>, Seq<u32>, Seq<u32>) {
    (hunk.lines@, hunk.novel_lhs@, hunk.novel_rhs@)
}

/// The hunk a group of rows makes.
fn hunk_of(
    mask: &Vec<bool>,
    rows: &[Row],
    lhs_novel: &std::collections::BTreeSet<usize>,
    rhs_novel: &std::collections::BTreeSet<usize>,
) -> (hunk: Hunk)
    requires
        mask@.len() == rows@.len(),
        rows_fit(rows@),
    ensures
        hunk_parts(hunk) == hunk_view(mask@, rows@, lhs_novel@, rhs_novel@),
{
    let mut lines: Vec<(Option<u32>, Option<u32>)> = Vec::new();
    let mut k: usize = 0;
    while k < mask.len()
        invariant
            mask@.len() == rows@.len(),
            rows_fit(rows@),
            k <= mask@.len(),
            lines@ == picked(mask@.take(k as int), rows@),
        decreases mask@.len() - k,
    {
        assert(mask@.take(k + 1).drop_last() =~= mask@.take(k as int));
        assert(mask@.take(k + 1).last() == mask@[k as int]);
        let ghost before = lines@;
        if mask[k] {
            let (l, r) = rows[k];
            let left: Option<u32> = match l {
                Some(l) => Some(l as u32),
                None => None,
            };
            let right: Option<u32> = match r {
                Some(r) => Some(r as u32),
                None => None,
            };
            lines.push((left, right));
            assert(lines@ =~= before + seq![line_pair(rows@[k as int])]);
        } else {
            assert(lines@ =~= before + Seq::<(Option<u32>, Option<u32>)>::empty());
        }
        k += 1;
    }
    assert(mask@.take(mask@.len() as int) =~= mask@);
    let mut novel_lhs: Vec<u32> = Vec::new();
    let mut novel_rhs: Vec<u32> = Vec::new();
    let mut j: usize = 0;
    while j < lines.len()
        invariant
            j <= lines@.len(),
            novel_lhs@ == novel_left(lines@.take(j as int), lhs_novel@),
            novel_rhs@ == novel_right(lines@.take(j as int), rhs_novel@),
        decreases lines@.len() - j,
    {
        assert(lines@.take(j + 1).drop_last() =~= lines@.take(j as int));
        assert(lines@.take(j + 1).last() == lines@[j as int]);
        let ghost left_before = novel_lhs@;
        let ghost right_before = novel_rhs@;
        let (l, r) = lines[j];
        match l {
            Some(l) => {
                if line_set_contains(lhs_novel, l as usize) {
                    novel_lhs.push(l);
                    assert(novel_lhs@ =~= left_before + seq![l]);
                } else {
                    assert(novel_lhs@ =~= left_before + Seq::<u32>::empty());
                }
            },
            None => {
                assert(novel_lhs@ =~= left_before + Seq::<u32>::empty());
            },
        }
        match r {
            Some(r) => {
                if line_set_contains(rhs_novel, r as usize) {
                    novel_rhs.push(r);
                    assert(novel_rhs@ =~= right_before + seq![r]);
                } else {
                    assert(novel_rhs@ =~= right_before + Seq::<u32>::empty());
                }
            },
            None => {
                assert(novel_rhs@ =~= right_before + Seq::<u32>::empty());
            },
        }
        j += 1;
    }
    assert(lines@.take(lines@.len() as int) =~= lines@);
    Hunk { lines, novel_lhs, novel_rhs }
}

/// The hunks a display shows: the rows each hunk selects (its own rows and
/// the context rows its changes call for, each widened by `padding` rows),
/// ordered by their first row, and merged into one hunk wherever one starts
/// no later than the row after the last of the hunk before it.
pub open spec fn prepared(
    hunks: Seq<Hunk>,
    rows: Seq<Row>,
    lhs_novel: Set<usize>,
    rhs_novel: Set<usize>,
    lhs_candidates: Seq<ContextCandidate>,
    rhs_candidates: Seq<ContextCandidate>,
    padding: nat,
) -> Seq<(Seq<(Option<u32>, Option<u32>)>, Seq<u32>, Seq<u32>)> {
    let selections = Seq::new(
        hunks.len(),
        |t: int| selection(rows, hunks[t], lhs_candidates, rhs_candidates, lhs_novel, rhs_novel, padding as int),
    );
    let groups = merged(sorted_by_first(selections));
    Seq::new(groups.len(), |t: int| hunk_view(groups[t], rows, lhs_novel, rhs_novel))
}

/// Complete the selected rows: every hunk's own rows and the syntax context
/// its changes call for, widened by `padding` rows and merged where they
/// touch or interleave, each group of rows making one hunk of its lines and
/// the novel ones among them.
pub fn prepare(
    hunks: &[Hunk],
    rows: &[Row],
    lhs_novel: &std::collections::BTreeSet<usize>,
    rhs_novel: &std::collections::BTreeSet<usize>,
    lhs_candidates: &[ContextCandidate],
    rhs_candidates: &[ContextCandidate],
    padding: usize,
) -> (prepared_hunks: Vec<Hunk>)
    requires
        rows@.len() + padding < usize::MAX,
        rows_fit(rows@),
    ensures
        prepared_hunks@.map_values(|h: Hunk| hunk_parts(h)) == prepared(
            hunks@,
            rows@,
            lhs_novel@,
            rhs_novel@,
            lhs_candidates@,
            rhs_candidates@,
            padding as nat,
        ),
{
    let n = rows.len();
    let ghost expected = Seq::new(
        hunks@.len(),
        |t: int| selection(rows@, hunks@[t], lhs_candidates@, rhs_candidates@, lhs_novel@, rhs_novel@, padding as int),
    );
    let mut selections: Vec<Vec<bool>> = Vec::new();
    let mut t: usize = 0;
    while t < hunks.len()
        invariant
            n == rows@.len(),
            n + padding < usize::MAX,
            t <= hunks@.len(),
            expected == Seq::new(
                hunks@.len(),
                |t: int| selection(rows@, hunks@[t], lhs_candidates@, rhs_candidates@, lhs_novel@, rhs_novel@, padding as int),
            ),
            views(selections@) == expected.take(t as int),
            all_of_len(views(selections@), n as nat),
        decreases hunks@.len() - t,
    {
        let seeds = seeds_of(rows, &hunks[t], lhs_candidates, rhs_candidates, lhs_novel, rhs_novel);
        let selected = widen(&seeds, padding);
        let ghost before = views(selections@);
        let ghost sel = selection(rows@, hunks@[t as int], lhs_candidates@, rhs_candidates@, lhs_novel@, rhs_novel@, padding as int);
        assert(expected[t as int] == sel);
        assert(selected@ =~= sel) by {
            let lhs_context = selected_lines(lhs_candidates@, hunks@[t as int].novel_lhs@);
            let rhs_context = selected_lines(rhs_candidates@, hunks@[t as int].novel_rhs@);
            assert forall|i: int| 0 <= i < n implies selected@[i] == sel[i] by {
                if selected@[i] {
                    let s = choose|s: int| 0 <= s < n && seeds@[s] && #[trigger] near(s, i, padding as int, n as int);
                    assert(seeds@[s]);
                    assert(hit_by_lines(rows@, hunks@[t as int].lines@, s) || hit_by_context(
                        rows@,
                        lhs_context,
                        rhs_context,
                        lhs_novel@,
                        rhs_novel@,
                        s,
                    ));
                }
                if sel[i] {
                    let s = choose|s: int|
                        0 <= s < n && (hit_by_lines(rows@, hunks@[t as int].lines@, s) || hit_by_context(
                            rows@,
                            lhs_context,
                            rhs_context,
                            lhs_novel@,
                            rhs_novel@,
                            s,
                        )) && #[trigger] near(s, i, padding as int, n as int);
                    assert(seeds@[s] == (hit_by_lines(rows@, hunks@[t as int].lines@, s) || hit_by_context(
                        rows@,
                        lhs_context,
                        rhs_context,
                        lhs_novel@,
                        rhs_novel@,
                        s,
                    )));
                    assert(seeds@[s]);
                }
            }
        }
        selections.push(selected);
        assert(views(selections@) =~= before.push(expected[t as int]));
        assert(expected.take(t + 1) =~= expected.take(t as int).push(expected[t as int]));
        t += 1;
    }
    assert(expected.take(hunks@.len() as int) =~= expected);
    let sorted = sort_by_first(selections);
    proof {
        lemma_sorted_len(views(selections@), n as nat);
    }
    let groups = merge_touching(sorted, n);
    proof {
        lemma_merged_len(views(sorted@), n as nat);
    }
    let mut out: Vec<Hunk> = Vec::new();
    let mut g: usize = 0;
    let ghost want = merged(sorted_by_first(expected));
    while g < groups.len()
        invariant
            n == rows@.len(),
            rows_fit(rows@),
            g <= groups@.len(),
            views(groups@) == want,
            all_of_len(want, n as nat),
            out@.len() == g,
            out@.map_values(|h: Hunk| hunk_parts(h)) == Seq::new(
                g as nat,
                |q: int| hunk_view(want[q], rows@, lhs_novel@, rhs_novel@),
            ),
        decreases groups@.len() - g,
    {
        assert(groups@[g as int]@ == want[g as int]);
        let hunk = hunk_of(&groups[g], rows, lhs_novel, rhs_novel);
        let ghost before = out@.map_values(|h: Hunk| hunk_parts(h));
        let ghost made = hunk_parts(hunk);
        let ghost old_out = out@;
        out.push(hunk);
        assert(out@.len() == g + 1);
        assert(hunk_parts(out@[g as int]) == made);
        assert forall|q: int| 0 <= q < g + 1 implies out@.map_values(|h: Hunk| hunk_parts(h))[q] == hunk_view(
            want[q],
            rows@,
            lhs_novel@,
            rhs_novel@,
        ) by {
            if q < g {
                assert(out@[q] == old_out[q]);
                assert(before[q] == hunk_view(want[q], rows@, lhs_novel@, rhs_novel@));
            }
        }
        assert(out@.map_values(|h: Hunk| hunk_parts(h)) =~= Seq::new(
            (g + 1) as nat,
            |q: int| hunk_view(want[q], rows@, lhs_novel@, rhs_novel@),
        ));
        g += 1;
    }
    out
}

/// The earlier of two optional rows.
pub open spec fn earlier(a: Option<int>, b: Option<int>) -> Option<int> {
    match (a, b) {
        (None, y) => y,
        (x, None) => x,
        (Some(x), Some(y)) => if x <= y {
            Some(x)
        } else {
            Some(y)
        },
    }
}

/// The later of two optional rows.
pub open spec fn later(a: Option<int>, b: Option<int>) -> Option<int> {
    match (a, b) {
        (None, y) => y,
        (x, None) => x,
        (Some(x), Some(y)) => if x >= y {
            Some(x)
        } else {
            Some(y)
        },
    }
}

/// The first row of either of two masks of one length is the earlier of
/// their first rows, and its last row the later of their last rows.
proof fn lemma_either_ends(a: Seq<bool>, b: Seq<bool>)
    requires
        a.len() == b.len(),
    ensures
        first_true(either(a, b)) == earlier(first_true(a), first_true(b)),
        last_true(either(a, b)) == later(last_true(a), last_true(b)),
    decreases a.len(),
{
    if a.len() > 0 {
        assert(either(a, b).drop_last() =~= either(a.drop_last(), b.drop_last()));
        lemma_either_ends(a.drop_last(), b.drop_last());
        lemma_first_bound(a.drop_last());
        lemma_first_bound(b.drop_last());
        lemma_last_bound(a.drop_last());
        lemma_last_bound(b.drop_last());
    }
}

/// A mask's first and last rows lie within it.
proof fn lemma_first_bound(m: Seq<bool>)
    ensures
        first_true(m) matches Some(i) ==> 0 <= i < m.len(),
    decreases m.len(),
{
    if m.len() > 0 {
        lemma_first_bound(m.drop_last());
    }
}

/// A mask has a first row exactly when it has a last one.
proof fn lemma_ends_exist(m: Seq<bool>)
    ensures
        first_true(m) is Some <==> last_true(m) is Some,
    decreases m.len(),
{
    if m.len() > 0 {
        lemma_ends_exist(m.drop_last());
    }
}

proof fn lemma_last_bound(m: Seq<bool>)
    ensures
        last_true(m) matches Some(i) ==> 0 <= i < m.len(),
    decreases m.len(),
{
    if m.len() > 0 {
        lemma_last_bound(m.drop_last());
    }
}

/// The first rows of a list of masks never decrease.
pub open spec fn firsts_ascend(s: Seq<Seq<bool>>) -> bool {
    forall|i: int, j: int| 0 <= i < j < s.len() ==> key_le(first_true(#[trigger] s[i]), first_true(#[trigger] s[j]))
}

proof fn lemma_insert_ascends(sorted: Seq<Seq<bool>>, x: Seq<bool>)
    requires
        firsts_ascend(sorted),
    ensures
        firsts_ascend(insert_by_first(sorted, x)),
        forall|y: Seq<bool>| #[trigger] insert_by_first(sorted, x).contains(y) ==> sorted.contains(y) || y == x,
    decreases sorted.len(),
{
    if sorted.len() > 0 {
        let front = sorted.drop_last();
        assert(firsts_ascend(front)) by {
            assert forall|i: int, j: int| 0 <= i < j < front.len() implies key_le(first_true(#[trigger] front[i]), first_true(#[trigger] front[j])) by {
                assert(front[i] == sorted[i] && front[j] == sorted[j]);
            }
        }
        if !key_le(first_true(sorted.last()), first_true(x)) {
            lemma_insert_ascends(front, x);
            let inner = insert_by_first(front, x);
            let out = inner.push(sorted.last());
            assert forall|i: int, j: int| 0 <= i < j < out.len() implies key_le(first_true(#[trigger] out[i]), first_true(#[trigger] out[j])) by {
                if j == out.len() - 1 {
                    assert(inner.contains(out[i]));
                    if out[i] == x {
                    } else {
                        assert(front.contains(out[i]));
                        let k = choose|k: int| 0 <= k < front.len() && front[k] == out[i];
                        assert(sorted[k] == front[k]);
                        assert(key_le(first_true(sorted[k]), first_true(sorted[sorted.len() - 1])));
                    }
                } else {
                    assert(out[i] == inner[i] && out[j] == inner[j]);
                }
            }
            assert forall|y: Seq<bool>| #[trigger] out.contains(y) implies sorted.contains(y) || y == x by {
                let k = choose|k: int| 0 <= k < out.len() && out[k] == y;
                if k < inner.len() {
                    assert(inner.contains(y));
                    if y != x {
                        let m = choose|m: int| 0 <= m < front.len() && front[m] == y;
                        assert(sorted[m] == y);
                    }
                } else {
                    assert(sorted[sorted.len() - 1] == y);
                }
            }
        } else {
            let out = sorted.push(x);
            assert forall|i: int, j: int| 0 <= i < j < out.len() implies key_le(first_true(#[trigger] out[i]), first_true(#[trigger] out[j])) by {
                if j == out.len() - 1 {
                    if i < sorted.len() - 1 {
                        assert(key_le(first_true(sorted[i]), first_true(sorted[sorted.len() - 1])));
                    }
                }
            }
            assert forall|y: Seq<bool>| #[trigger] out.contains(y) implies sorted.contains(y) || y == x by {
                let k = choose|k: int| 0 <= k < out.len() && out[k] == y;
                if k < sorted.len() {
                    assert(sorted[k] == y);
                }
            }
        }
    } else {
        assert forall|y: Seq<bool>| #[trigger] seq![x].contains(y) implies sorted.contains(y) || y == x by {
            let k = choose|k: int| 0 <= k < 1 && seq![x][k] == y;
        }
    }
}

proof fn lemma_sorted_ascends(selections: Seq<Seq<bool>>)
    ensures
        firsts_ascend(sorted_by_first(selections)),
    decreases selections.len(),
{
    if selections.len() > 0 {
        lemma_sorted_ascends(selections.drop_last());
        lemma_insert_ascends(sorted_by_first(selections.drop_last()), selections.last());
    }
}

/// Consecutive groups leave a row between them, and start in row order.
pub open spec fn apart(groups: Seq<Seq<bool>>) -> bool {
    forall|t: int|
        0 <= t < groups.len() - 1 ==> {
            &&& key_le(first_true(#[trigger] groups[t]), first_true(groups[t + 1]))
            &&& (first_true(groups[t + 1]) matches Some(f) ==> (last_true(groups[t]) matches Some(l) ==> l + 1 < f))
        }
}

/// A selection that does not touch the last group, and starts no earlier,
/// leaves the groups apart when pushed after it.
proof fn lemma_apart_push(groups: Seq<Seq<bool>>, x: Seq<bool>)
    requires
        apart(groups),
        groups.len() > 0 ==> key_le(first_true(groups.last()), first_true(x)) && !touches(groups.last(), x),
    ensures
        apart(groups.push(x)),
{
    let out = groups.push(x);
    assert forall|t: int| 0 <= t < out.len() - 1 implies {
        &&& key_le(first_true(#[trigger] out[t]), first_true(out[t + 1]))
        &&& (first_true(out[t + 1]) matches Some(f) ==> (last_true(out[t]) matches Some(l) ==> l + 1 < f))
    } by {
        assert(out[t] == groups[t]);
        if t + 1 < out.len() - 1 {
            assert(out[t + 1] == groups[t + 1]);
        }
    }
}

/// A selection that touches the last group, and starts no earlier, leaves
/// the groups apart when merged into it, and the group's first row as it
/// was.
proof fn lemma_apart_merge(groups: Seq<Seq<bool>>, x: Seq<bool>)
    requires
        apart(groups),
        groups.len() > 0,
        groups.last().len() == x.len(),
        key_le(first_true(groups.last()), first_true(x)),
        touches(groups.last(), x),
    ensures
        apart(groups.drop_last().push(either(groups.last(), x))),
        first_true(either(groups.last(), x)) == first_true(groups.last()),
{
    let last = groups.last();
    lemma_either_ends(last, x);
    lemma_first_bound(last);
    lemma_last_bound(last);
    lemma_ends_exist(last);
    assert(first_true(last) is Some);
    let out = groups.drop_last().push(either(last, x));
    assert forall|t: int| 0 <= t < out.len() - 1 implies {
        &&& key_le(first_true(#[trigger] out[t]), first_true(out[t + 1]))
        &&& (first_true(out[t + 1]) matches Some(f) ==> (last_true(out[t]) matches Some(l) ==> l + 1 < f))
    } by {
        assert(out[t] == groups[t]);
        if t + 1 < out.len() - 1 {
            assert(out[t + 1] == groups[t + 1]);
        } else {
            assert(first_true(out[t + 1]) == first_true(groups[t + 1]));
        }
    }
}

/// Merging ascending selections of one length gives groups apart, the last
/// starting no later than the last selection.
proof fn lemma_merged_apart(sorted: Seq<Seq<bool>>, n: nat)
    requires
        firsts_ascend(sorted),
        all_of_len(sorted, n),
    ensures
        apart(merged(sorted)),
        sorted.len() > 0 ==> merged(sorted).len() > 0 && key_le(
            first_true(merged(sorted).last()),
            first_true(sorted.last()),
        ),
    decreases sorted.len(),
{
    if sorted.len() > 0 {
        let front = sorted.drop_last();
        assert(firsts_ascend(front)) by {
            assert forall|i: int, j: int| 0 <= i < j < front.len() implies key_le(first_true(#[trigger] front[i]), first_true(#[trigger] front[j])) by {
                assert(front[i] == sorted[i] && front[j] == sorted[j]);
            }
        }
        assert(all_of_len(front, n)) by {
            assert forall|q: int| 0 <= q < front.len() implies (#[trigger] front[q]).len() == n by {
                assert(front[q] == sorted[q]);
            }
        }
        lemma_merged_apart(front, n);
        lemma_merged_len(front, n);
        let groups = merged(front);
        let x = sorted.last();
        assert(x.len() == n);
        if groups.len() > 0 {
            assert(key_le(first_true(front.last()), first_true(x))) by {
                assert(front.last() == sorted[sorted.len() - 2]);
            }
            assert(groups.last().len() == n);
        }
        if groups.len() > 0 && touches(groups.last(), x) {
            lemma_apart_merge(groups, x);
        } else {
            lemma_apart_push(groups, x);
        }
    }
}

/// The hunks a display shows never touch: each starts no earlier than the
/// one before it, and a row the display skips lies between any two.
pub proof fn prepared_hunks_are_apart(
    hunks: Seq<Hunk>,
    rows: Seq<Row>,
    lhs_candidates: Seq<ContextCandidate>,
    rhs_candidates: Seq<ContextCandidate>,
    lhs_novel: Set<usize>,
    rhs_novel: Set<usize>,
    padding: nat,
)
    ensures
        apart(
            merged(
                sorted_by_first(
                    Seq::new(
                        hunks.len(),
                        |t: int| selection(rows, hunks[t], lhs_candidates, rhs_candidates, lhs_novel, rhs_novel, padding as int),
                    ),
                ),
            ),
        ),
{
    let selections = Seq::new(
        hunks.len(),
        |t: int| selection(rows, hunks[t], lhs_candidates, rhs_candidates, lhs_novel, rhs_novel, padding as int),
    );
    lemma_sorted_ascends(selections);
    assert(all_of_len(selections, rows.len())) by {
        assert forall|q: int| 0 <= q < selections.len() implies (#[trigger] selections[q]).len() == rows.len() by {}
    }
    lemma_sorted_len(selections, rows.len());
    lemma_merged_apart(sorted_by_first(selections), rows.len());
}

} // verus!
