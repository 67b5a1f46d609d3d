//! Fold pairing for files that fell back to a line diff.
//!
//! A line diff has no matcher, so folds pair through the line alignment
//! instead: first by header line, then through the lines they hold.
use crate::line_layout::Row;
use crate::tree::tags_model;
use vstd::prelude::*;

verus! {

broadcast use vstd::std_specs::vec::group_vec_axioms, vstd::seq::group_seq_axioms;

/// A position in a source: 0-based line, and 0-based UTF-8 byte offset
/// within the line.
#[derive(Debug, Clone, Copy, PartialEq, Eq, Structural)]
pub struct SourcePosition {
    pub line: u32,
    pub byte_column: usize,
}

/// A source interval with an exclusive end.
#[derive(Debug, Clone, Copy, PartialEq, Eq, Structural)]
pub struct SourceRange {
    pub start: SourcePosition,
    pub end: SourcePosition,
}

/// How a fold relates to the other side.
#[derive(Debug, Clone, Copy, PartialEq, Eq, Structural)]
pub enum FoldMatch {
    /// Paired with the fold over `opposite` on the other side.
    Unchanged { opposite: SourceRange },
    Novel,
}

/// A fold as pairing reads and marks it.
pub struct Fold {
    pub tags: Vec<String>,
    /// Source on this side.
    pub range: SourceRange,
    pub match_kind: FoldMatch,
}

/// Half-open whole lines a range touches, clamped to the file.
pub open spec fn line_span_spec(range: SourceRange, line_count: nat) -> (nat, nat) {
    let start = range.start.line as nat;
    let end: nat = if range.end.byte_column == 0 {
        range.end.line as nat
    } else {
        (range.end.line + 1) as nat
    };
    let first = vstd::math::min(start as int, line_count as int) as nat;
    (first, vstd::math::max(vstd::math::min(end as int, line_count as int), first as int) as nat)
}

/// Half-open whole lines a range touches, clamped to the file.
pub fn line_span(range: &SourceRange, line_count: usize) -> (span: (usize, usize))
    ensures
        (span.0 as nat, span.1 as nat) == line_span_spec(*range, line_count as nat),
{
    let start: u64 = range.start.line as u64;
    let end: u64 = if range.end.byte_column == 0 {
        range.end.line as u64
    } else {
        range.end.line as u64 + 1
    };
    let count = line_count as u64;
    let first: u64 = if start < count {
        start
    } else {
        count
    };
    let last: u64 = if end < count {
        end
    } else {
        count
    };
    let last = if last > first {
        last
    } else {
        first
    };
    (first as usize, last as usize)
}

/// The whole lines a fold covers, or `None` for a fold that hides nothing
/// (a single line).
pub open spec fn span_of(fold: Fold, line_count: nat) -> Option<(usize, usize)> {
    let (start, end) = line_span_spec(fold.range, line_count);
    if end - start >= 2 {
        Some((start as usize, end as usize))
    } else {
        None
    }
}

/// The whole lines each fold covers.
pub open spec fn spans_spec(folds: Seq<Fold>, line_count: nat) -> Seq<Option<(usize, usize)>> {
    folds.map_values(|fold: Fold| span_of(fold, line_count))
}

/// The whole lines each fold covers, or `None` for a fold that hides
/// nothing (a single line).
fn spans(folds: &Vec<Fold>, line_count: usize) -> (found: Vec<Option<(usize, usize)>>)
    ensures
        found@ == spans_spec(folds@, line_count as nat),
        forall|k: int| 0 <= k < found@.len() ==> (#[trigger] found@[k] matches Some((s, e)) ==> s + 2 <= e),
{
    let mut found: Vec<Option<(usize, usize)>> = Vec::new();
    let mut i: usize = 0;
    while i < folds.len()
        invariant
            i <= folds@.len(),
            found@ == spans_spec(folds@.take(i as int), line_count as nat),
            forall|k: int| 0 <= k < found@.len() ==> (#[trigger] found@[k] matches Some((s, e)) ==> s + 2 <= e),
        decreases folds@.len() - i,
    {
        let (start, end) = line_span(&folds[i].range, line_count);
        let span = if end - start >= 2 {
            Some((start, end))
        } else {
            None
        };
        found.push(span);
        assert(spans_spec(folds@.take(i + 1), line_count as nat) =~= spans_spec(folds@.take(i as int), line_count as nat).push(
            span_of(folds@[i as int], line_count as nat),
        ));
        i += 1;
    }
    assert(folds@.take(folds@.len() as int) =~= folds@);
    found
}

/// Whether two folds carry the same tags.
fn same_tags(a: &Vec<String>, b: &Vec<String>) -> (same: bool)
    ensures
        same == (tags_model(a@) == tags_model(b@)),
{
    if a.len() != b.len() {
        assert(tags_model(a@).len() != tags_model(b@).len());
        return false;
    }
    let mut i: usize = 0;
    while i < a.len()
        invariant
            i <= a@.len(),
            a@.len() == b@.len(),
            forall|k: int| 0 <= k < i ==> a@[k]@ == b@[k]@,
        decreases a@.len() - i,
    {
        if !crate::text::str_eq(a[i].as_str(), b[i].as_str()) {
            assert(tags_model(a@)[i as int] != tags_model(b@)[i as int]);
            return false;
        }
        i += 1;
    }
    assert(tags_model(a@) =~= tags_model(b@));
    true
}

} // verus!

verus! {

/// The header line of a span.
pub open spec fn header_of(span: Option<(usize, usize)>) -> usize {
    match span {
        Some((start, _)) => start,
        None => 0,
    }
}

/// What pairing reads of a file's two sides: the rows, each side's fold
/// spans and tags.
pub struct Layout {
    pub rows: Seq<Row>,
    pub lhs_spans: Seq<Option<(usize, usize)>>,
    pub rhs_spans: Seq<Option<(usize, usize)>>,
    pub lhs_tags: Seq<Seq<Seq<char>>>,
    pub rhs_tags: Seq<Seq<Seq<char>>>,
}

/// Which fold each fold is paired with, on each side, by index.
#[verifier::ext_equal]
pub struct Matching {
    pub lhs: Seq<Option<usize>>,
    pub rhs: Seq<Option<usize>>,
}

/// The rhs line the rows pair with lhs line `line`: that of the last row
/// pairing it.
pub open spec fn aligned_line(rows: Seq<Row>, line: usize) -> Option<usize>
    decreases rows.len(),
{
    if rows.len() == 0 {
        None
    } else if rows.last().0 == Some(line) && rows.last().1 is Some {
        rows.last().1
    } else {
        aligned_line(rows.drop_last(), line)
    }
}

/// Fold `a` comes before fold `b` on one side: an earlier header line, then
/// the longer span, then the lower index.
pub open spec fn header_before(spans: Seq<Option<(usize, usize)>>, a: usize, b: usize) -> bool {
    let (sa, ea) = spans[a as int]->0;
    let (sb, eb) = spans[b as int]->0;
    sa < sb || (sa == sb && (ea - sa > eb - sb || (ea - sa == eb - sb && a < b)))
}

/// Where `i` goes in `order`: before the first fold it comes before.
pub open spec fn insert_pos(order: Seq<usize>, i: usize, spans: Seq<Option<(usize, usize)>>) -> nat
    decreases order.len(),
{
    if order.len() == 0 || header_before(spans, i, order[0]) {
        0
    } else {
        1 + insert_pos(order.drop_first(), i, spans)
    }
}

/// The first `n` folds that cover whole lines, in header order.
pub open spec fn header_order(spans: Seq<Option<(usize, usize)>>, n: nat) -> Seq<usize>
    decreases n,
{
    if n == 0 {
        Seq::empty()
    } else {
        let order = header_order(spans, (n - 1) as nat);
        let i = (n - 1) as usize;
        if spans[i as int] is Some {
            order.insert(insert_pos(order, i, spans) as int, i)
        } else {
            order
        }
    }
}

/// The first rhs fold in `order` on header line `line`, still unpaired,
/// with the tags `tags`.
pub open spec fn pick_by_header(lay: Layout, st: Matching, order: Seq<usize>, tags: Seq<Seq<char>>, line: usize) -> Option<
    usize,
>
    decreases order.len(),
{
    if order.len() == 0 {
        None
    } else {
        let c = order[0];
        if header_of(lay.rhs_spans[c as int]) == line && st.rhs[c as int] is None && lay.rhs_tags[c as int] == tags {
            Some(c)
        } else {
            pick_by_header(lay, st, order.drop_first(), tags, line)
        }
    }
}

/// `i` and `c` paired.
pub open spec fn paired(st: Matching, i: usize, c: usize) -> Matching {
    Matching { lhs: st.lhs.update(i as int, Some(c)), rhs: st.rhs.update(c as int, Some(i)) }
}

/// Rule 1 for lhs fold `i`: the rows pair its header line with a line on
/// which an rhs fold with its tags, still unpaired, starts; the longest
/// such, then the first.
pub open spec fn header_step(lay: Layout, st: Matching, rhs_order: Seq<usize>, i: usize) -> Matching {
    match aligned_line(lay.rows, header_of(lay.lhs_spans[i as int])) {
        None => st,
        Some(line) => match pick_by_header(lay, st, rhs_order, lay.lhs_tags[i as int], line) {
            None => st,
            Some(c) => paired(st, i, c),
        },
    }
}

/// Rule 1 over the lhs folds in `order`.
pub open spec fn by_headers(lay: Layout, st: Matching, rhs_order: Seq<usize>, order: Seq<usize>) -> Matching
    decreases order.len(),
{
    if order.len() == 0 {
        st
    } else {
        header_step(lay, by_headers(lay, st, rhs_order, order.drop_last()), rhs_order, order.last())
    }
}

/// Nothing paired yet.
pub open spec fn unpaired(n: nat, m: nat) -> Matching {
    Matching { lhs: Seq::new(n, |i: int| None), rhs: Seq::new(m, |i: int| None) }
}

/// The rhs line the rows pair with lhs line `line`.
fn aligned_line_exec(rows: &[Row], line: usize) -> (found: Option<usize>)
    ensures
        found == aligned_line(rows@, line),
{
    let mut k: usize = rows.len();
    assert(rows@.take(rows@.len() as int) =~= rows@);
    while k > 0
        invariant
            k <= rows@.len(),
            aligned_line(rows@, line) == aligned_line(rows@.take(k as int), line),
        decreases k,
    {
        assert(rows@.take(k as int).drop_last() =~= rows@.take(k - 1));
        assert(rows@.take(k as int).last() == rows@[k - 1]);
        let (l, r) = rows[k - 1];
        if l == Some(line) && r.is_some() {
            return r;
        }
        k -= 1;
    }
    None
}

/// Whether `a` comes before `b` in header order.
fn header_before_exec(spans: &Vec<Option<(usize, usize)>>, a: usize, b: usize) -> (before: bool)
    requires
        a < spans@.len(),
        b < spans@.len(),
        spans@[a as int] matches Some((s, e)) && s <= e,
        spans@[b as int] matches Some((s, e)) && s <= e,
    ensures
        before == header_before(spans@, a, b),
{
    let (sa, ea) = spans[a].unwrap();
    let (sb, eb) = spans[b].unwrap();
    sa < sb || (sa == sb && (ea - sa > eb - sb || (ea - sa == eb - sb && a < b)))
}

/// The folds that cover whole lines, in header order.
fn order_by_header(spans: &Vec<Option<(usize, usize)>>) -> (order: Vec<usize>)
    requires
        forall|k: int| 0 <= k < spans@.len() ==> (#[trigger] spans@[k] matches Some((s, e)) ==> s <= e),
    ensures
        order@ == header_order(spans@, spans@.len() as nat),
        forall|k: int| 0 <= k < order@.len() ==> (#[trigger] order@[k]) < spans@.len() && spans@[order@[k] as int] is Some,
{
    let mut order: Vec<usize> = Vec::new();
    let mut i: usize = 0;
    while i < spans.len()
        invariant
            i <= spans@.len(),
            forall|k: int| 0 <= k < spans@.len() ==> (#[trigger] spans@[k] matches Some((s, e)) ==> s <= e),
            order@ == header_order(spans@, i as nat),
            forall|k: int| 0 <= k < order@.len() ==> (#[trigger] order@[k]) < i && spans@[order@[k] as int] is Some,
        decreases spans@.len() - i,
    {
        if spans[i].is_some() {
            let mut pos: usize = 0;
            let ghost whole = order@;
            assert(whole.skip(0) =~= whole);
            while pos < order.len() && !header_before_exec(spans, i, order[pos])
                invariant
                    pos <= order@.len(),
                    i < spans@.len(),
                    order@ == whole,
                    spans@[i as int] is Some,
                    forall|k: int| 0 <= k < spans@.len() ==> (#[trigger] spans@[k] matches Some((s, e)) ==> s <= e),
                    forall|k: int| 0 <= k < order@.len() ==> (#[trigger] order@[k]) < i && spans@[order@[k] as int] is Some,
                    insert_pos(whole, i, spans@) == pos + insert_pos(whole.skip(pos as int), i, spans@),
                decreases order@.len() - pos,
            {
                assert(whole.skip(pos as int)[0] == whole[pos as int]);
                assert(whole.skip(pos as int).drop_first() =~= whole.skip(pos + 1));
                pos += 1;
            }
            proof {
                if pos < whole.len() {
                    assert(whole.skip(pos as int)[0] == whole[pos as int]);
                } else {
                    assert(whole.skip(pos as int).len() == 0);
                }
            }
            order.insert(pos, i);
        }
        i += 1;
    }
    order
}

/// The first rhs fold in `order` on header line `line`, still unpaired,
/// with the tags of `fold`.
fn pick_by_header_exec(
    rhs_folds: &Vec<Fold>,
    rhs_spans: &Vec<Option<(usize, usize)>>,
    rhs_pair: &Vec<Option<usize>>,
    order: &Vec<usize>,
    fold: &Fold,
    line: usize,
    Ghost(lay): Ghost<Layout>,
    Ghost(st): Ghost<Matching>,
) -> (found: Option<usize>)
    requires
        lay.rhs_spans == rhs_spans@,
        lay.rhs_tags == rhs_folds@.map_values(|f: Fold| tags_model(f.tags@)),
        st.rhs == rhs_pair@,
        rhs_spans@.len() == rhs_folds@.len(),
        rhs_pair@.len() == rhs_folds@.len(),
        forall|k: int| 0 <= k < order@.len() ==> (#[trigger] order@[k]) < rhs_spans@.len() && rhs_spans@[order@[k] as int] is Some,
    ensures
        found == pick_by_header(lay, st, order@, tags_model(fold.tags@), line),
        found matches Some(c) ==> c < rhs_folds@.len(),
{
    let mut k: usize = 0;
    assert(order@.skip(0) =~= order@);
    while k < order.len()
        invariant
            k <= order@.len(),
            lay.rhs_spans == rhs_spans@,
            lay.rhs_tags == rhs_folds@.map_values(|f: Fold| tags_model(f.tags@)),
            st.rhs == rhs_pair@,
            rhs_spans@.len() == rhs_folds@.len(),
            rhs_pair@.len() == rhs_folds@.len(),
            forall|j: int| 0 <= j < order@.len() ==> (#[trigger] order@[j]) < rhs_spans@.len() && rhs_spans@[order@[j] as int] is Some,
            pick_by_header(lay, st, order@, tags_model(fold.tags@), line) == pick_by_header(
                lay,
                st,
                order@.skip(k as int),
                tags_model(fold.tags@),
                line,
            ),
        decreases order@.len() - k,
    {
        let c = order[k];
        assert(order@.skip(k as int)[0] == c);
        assert(order@.skip(k as int).drop_first() =~= order@.skip(k + 1));
        assert(lay.rhs_tags[c as int] == tags_model(rhs_folds@[c as int].tags@));
        if rhs_spans[c].unwrap().0 == line && rhs_pair[c].is_none() && same_tags(&rhs_folds[c].tags, &fold.tags) {
            return Some(c);
        }
        k += 1;
    }
    None
}

} // verus!

verus! {

/// The first row showing `line`: on the lhs when `left` is set, else on
/// the rhs.
pub open spec fn first_row(rows: Seq<Row>, line: usize, left: bool) -> Option<usize>
    decreases rows.len(),
{
    if rows.len() == 0 {
        None
    } else {
        match first_row(rows.drop_last(), line, left) {
            Some(k) => Some(k),
            None => if (if left {
                rows.last().0
            } else {
                rows.last().1
            }) == Some(line) {
                Some((rows.len() - 1) as usize)
            } else {
                None
            },
        }
    }
}

/// The row of a fold's header line.
pub open spec fn header_row(rows: Seq<Row>, span: Option<(usize, usize)>, left: bool) -> Option<usize> {
    match span {
        Some((start, _)) => first_row(rows, start, left),
        None => None,
    }
}

/// The header rows of the pairs made, in lhs order, for crossing checks:
/// of the first `n` lhs folds that are paired, where both headers have a
/// row.
pub open spec fn pair_rows(lay: Layout, st: Matching, n: nat) -> Seq<(usize, usize)>
    decreases n,
{
    if n == 0 {
        Seq::empty()
    } else {
        let rest = pair_rows(lay, st, (n - 1) as nat);
        let i = n - 1;
        match st.lhs[i as int] {
            Some(c) => match (
                header_row(lay.rows, lay.lhs_spans[i as int], true),
                header_row(lay.rows, lay.rhs_spans[c as int], false),
            ) {
                (Some(a), Some(b)) => rest.push((a, b)),
                _ => rest,
            },
            None => rest,
        }
    }
}

/// How many rows pair a line of lhs span `ls` with a line of rhs span `rs`.
pub open spec fn hits(rows: Seq<Row>, ls: (usize, usize), rs: (usize, usize)) -> nat
    decreases rows.len(),
{
    if rows.len() == 0 {
        0
    } else {
        hits(rows.drop_last(), ls, rs) + match rows.last() {
            (Some(l), Some(r)) => if ls.0 <= l < ls.1 && rs.0 <= r < rs.1 {
                1nat
            } else {
                0nat
            },
            _ => 0nat,
        }
    }
}

/// How many lines of the lhs fold over `ls` with `tags` the rows pair into
/// rhs fold `c`, counted when `c` is free and has the same tags.
pub open spec fn score(lay: Layout, st: Matching, ls: (usize, usize), tags: Seq<Seq<char>>, c: usize) -> nat {
    match lay.rhs_spans[c as int] {
        Some(rs) => if st.rhs[c as int] is None && lay.rhs_tags[c as int] == tags {
            hits(lay.rows, ls, rs)
        } else {
            0
        },
        None => 0,
    }
}

/// A pair with header rows `a` and `b` would cross one of `pairs`.
pub open spec fn crosses(pairs: Seq<(usize, usize)>, a: usize, b: usize) -> bool {
    exists|k: int| 0 <= k < pairs.len() && ((#[trigger] pairs[k]).0 < a) != (pairs[k].1 < b)
}

/// How far apart two rows are.
pub open spec fn distance(a: usize, b: usize) -> nat {
    if a >= b {
        (a - b) as nat
    } else {
        (b - a) as nat
    }
}

/// Rule 2's choice among the first `m` rhs folds, with its header row: the
/// one holding the most of the lhs fold's lines, then the nearest header,
/// then the first, among those with a header row whose pair crosses none
/// made.
pub open spec fn best_partner(
    lay: Layout,
    st: Matching,
    pairs: Seq<(usize, usize)>,
    ls: (usize, usize),
    tags: Seq<Seq<char>>,
    lhs_row: usize,
    m: nat,
) -> Option<(usize, usize)>
    decreases m,
{
    if m == 0 {
        None
    } else {
        let best = best_partner(lay, st, pairs, ls, tags, lhs_row, (m - 1) as nat);
        let c = (m - 1) as usize;
        let s = score(lay, st, ls, tags, c);
        match header_row(lay.rows, lay.rhs_spans[c as int], false) {
            Some(b) => if s > 0 && !crosses(pairs, lhs_row, b) {
                match best {
                    None => Some((c, b)),
                    Some((d, bd)) => {
                        let sd = score(lay, st, ls, tags, d);
                        if s > sd || (s == sd && distance(b, lhs_row) < distance(bd, lhs_row)) {
                            Some((c, b))
                        } else {
                            best
                        }
                    },
                }
            } else {
                best
            },
            None => best,
        }
    }
}

/// Rule 2 for lhs fold `i`, left unpaired by rule 1: the free rhs fold with
/// its tags holding the most of its lines, as [`best_partner`] picks it.
pub open spec fn lines_step(lay: Layout, st: Matching, pairs: Seq<(usize, usize)>, i: nat) -> (Matching, Seq<
    (usize, usize),
>) {
    match lay.lhs_spans[i as int] {
        None => (st, pairs),
        Some(ls) => if st.lhs[i as int] is Some {
            (st, pairs)
        } else {
            match first_row(lay.rows, ls.0, true) {
                None => (st, pairs),
                Some(lhs_row) => match best_partner(
                    lay,
                    st,
                    pairs,
                    ls,
                    lay.lhs_tags[i as int],
                    lhs_row,
                    lay.rhs_spans.len(),
                ) {
                    None => (st, pairs),
                    Some((c, b)) => (paired(st, i as usize, c), pairs.push((lhs_row, b))),
                },
            }
        },
    }
}

/// Rule 2 over the first `n` lhs folds, in order.
pub open spec fn by_lines(lay: Layout, st: Matching, pairs: Seq<(usize, usize)>, n: nat) -> (Matching, Seq<
    (usize, usize),
>)
    decreases n,
{
    if n == 0 {
        (st, pairs)
    } else {
        let (st, pairs) = by_lines(lay, st, pairs, (n - 1) as nat);
        lines_step(lay, st, pairs, (n - 1) as nat)
    }
}

/// The pairing of a line-diff fallback's folds: rule 1 by header line, in
/// header order, then rule 2 through the lines they hold.
pub open spec fn pairing_spec(lay: Layout) -> Matching {
    let n = lay.lhs_spans.len();
    let m = lay.rhs_spans.len();
    let first = by_headers(
        lay,
        unpaired(n, m),
        header_order(lay.rhs_spans, m),
        header_order(lay.lhs_spans, n),
    );
    by_lines(lay, first, pair_rows(lay, first, n), n).0
}

} // verus!

verus! {

/// The first row showing `line`.
fn first_row_exec(rows: &[Row], line: usize, left: bool) -> (found: Option<usize>)
    ensures
        found == first_row(rows@, line, left),
        found matches Some(k) ==> k < rows@.len(),
{
    let mut found: Option<usize> = None;
    let mut k: usize = 0;
    while k < rows.len()
        invariant
            k <= rows@.len(),
            found == first_row(rows@.take(k as int), line, left),
            found matches Some(j) ==> j < k,
        decreases rows@.len() - k,
    {
        assert(rows@.take(k + 1).drop_last() =~= rows@.take(k as int));
        assert(rows@.take(k + 1).last() == rows@[k as int]);
        let shown = if left {
            rows[k].0
        } else {
            rows[k].1
        };
        if found.is_none() && shown == Some(line) {
            found = Some(k);
        }
        k += 1;
    }
    assert(rows@.take(rows@.len() as int) =~= rows@);
    found
}

/// The row of a fold's header line.
fn header_row_exec(rows: &[Row], span: Option<(usize, usize)>, left: bool) -> (found: Option<usize>)
    ensures
        found == header_row(rows@, span, left),
{
    match span {
        Some((start, _)) => first_row_exec(rows, start, left),
        None => None,
    }
}

/// How many rows pair a line of `ls` with a line of `rs`.
fn hits_exec(rows: &[Row], ls: (usize, usize), rs: (usize, usize)) -> (count: usize)
    ensures
        count == hits(rows@, ls, rs),
{
    let mut count: usize = 0;
    let mut k: usize = 0;
    while k < rows.len()
        invariant
            k <= rows@.len(),
            count == hits(rows@.take(k as int), ls, rs),
            count <= k,
        decreases rows@.len() - k,
    {
        assert(rows@.take(k + 1).drop_last() =~= rows@.take(k as int));
        assert(rows@.take(k + 1).last() == rows@[k as int]);
        if let (Some(l), Some(r)) = rows[k] {
            if ls.0 <= l && l < ls.1 && rs.0 <= r && r < rs.1 {
                count += 1;
            }
        }
        k += 1;
    }
    assert(rows@.take(rows@.len() as int) =~= rows@);
    count
}

/// Whether a pair with header rows `a` and `b` would cross one of `pairs`.
fn crosses_exec(pairs: &Vec<(usize, usize)>, a: usize, b: usize) -> (found: bool)
    ensures
        found == crosses(pairs@, a, b),
{
    let mut k: usize = 0;
    while k < pairs.len()
        invariant
            k <= pairs@.len(),
            forall|j: int| 0 <= j < k ==> !(((#[trigger] pairs@[j]).0 < a) != (pairs@[j].1 < b)),
        decreases pairs@.len() - k,
    {
        if (pairs[k].0 < a) != (pairs[k].1 < b) {
            assert(((pairs@[k as int]).0 < a) != (pairs@[k as int].1 < b));
            return true;
        }
        k += 1;
    }
    false
}

/// The rhs fold a lhs fold is paired with through the lines it holds.
fn best_partner_exec(
    rows: &[Row],
    rhs_folds: &Vec<Fold>,
    rhs_spans: &Vec<Option<(usize, usize)>>,
    rhs_pair: &Vec<Option<usize>>,
    pairs: &Vec<(usize, usize)>,
    ls: (usize, usize),
    fold: &Fold,
    lhs_row: usize,
    Ghost(lay): Ghost<Layout>,
    Ghost(st): Ghost<Matching>,
) -> (found: Option<(usize, usize)>)
    requires
        lay.rows == rows@,
        lay.rhs_spans == rhs_spans@,
        lay.rhs_tags == rhs_folds@.map_values(|f: Fold| tags_model(f.tags@)),
        st.rhs == rhs_pair@,
        rhs_spans@.len() == rhs_folds@.len(),
        rhs_pair@.len() == rhs_folds@.len(),
    ensures
        found == best_partner(lay, st, pairs@, ls, tags_model(fold.tags@), lhs_row, rhs_spans@.len() as nat),
        found matches Some((c, _)) ==> c < rhs_folds@.len(),
{
    let ghost tags = tags_model(fold.tags@);
    let mut best: Option<(usize, usize)> = None;
    let mut best_score: usize = 0;
    let mut c: usize = 0;
    while c < rhs_spans.len()
        invariant
            c <= rhs_spans@.len(),
            lay.rows == rows@,
            lay.rhs_spans == rhs_spans@,
            lay.rhs_tags == rhs_folds@.map_values(|f: Fold| tags_model(f.tags@)),
            st.rhs == rhs_pair@,
            rhs_spans@.len() == rhs_folds@.len(),
            rhs_pair@.len() == rhs_folds@.len(),
            tags == tags_model(fold.tags@),
            best == best_partner(lay, st, pairs@, ls, tags, lhs_row, c as nat),
            best matches Some((d, _)) ==> d < c && best_score == score(lay, st, ls, tags, d),
        decreases rhs_spans@.len() - c,
    {
        assert(lay.rhs_tags[c as int] == tags_model(rhs_folds@[c as int].tags@));
        let s: usize = match rhs_spans[c] {
            Some(rs) => {
                if rhs_pair[c].is_none() && same_tags(&rhs_folds[c].tags, &fold.tags) {
                    hits_exec(rows, ls, rs)
                } else {
                    0
                }
            },
            None => 0,
        };
        assert(s == score(lay, st, ls, tags, c as usize));
        if let Some(b) = header_row_exec(rows, rhs_spans[c], false) {
            if s > 0 && !crosses_exec(pairs, lhs_row, b) {
                match best {
                    None => {
                        best = Some((c, b));
                        best_score = s;
                    },
                    Some((_, bd)) => {
                        let near = if b >= lhs_row {
                            b - lhs_row
                        } else {
                            lhs_row - b
                        };
                        let far = if bd >= lhs_row {
                            bd - lhs_row
                        } else {
                            lhs_row - bd
                        };
                        if s > best_score || (s == best_score && near < far) {
                            best = Some((c, b));
                            best_score = s;
                        }
                    },
                }
            }
        }
        c += 1;
    }
    best
}

/// What pairing reads of the two sides' rows and folds.
pub open spec fn layout(rows: Seq<Row>, lhs: Seq<Fold>, rhs: Seq<Fold>, counts: (nat, nat)) -> Layout {
    Layout {
        rows,
        lhs_spans: spans_spec(lhs, counts.0),
        rhs_spans: spans_spec(rhs, counts.1),
        lhs_tags: lhs.map_values(|f: Fold| tags_model(f.tags@)),
        rhs_tags: rhs.map_values(|f: Fold| tags_model(f.tags@)),
    }
}

/// Every pairing points into the other side.
pub open spec fn in_bounds(st: Matching, n: nat, m: nat) -> bool {
    &&& st.lhs.len() == n
    &&& st.rhs.len() == m
    &&& forall|i: int| 0 <= i < n ==> (#[trigger] st.lhs[i] matches Some(c) ==> c < m)
    &&& forall|c: int| 0 <= c < m ==> (#[trigger] st.rhs[c] matches Some(i) ==> i < n)
}

/// `count` copies of `None`.
fn nones(count: usize) -> (v: Vec<Option<usize>>)
    ensures
        v@ == Seq::new(count as nat, |i: int| None::<usize>),
{
    let mut v: Vec<Option<usize>> = Vec::new();
    let mut i: usize = 0;
    while i < count
        invariant
            i <= count,
            v@ == Seq::new(i as nat, |k: int| None::<usize>),
        decreases count - i,
    {
        v.push(None);
        assert(v@ =~= Seq::new((i + 1) as nat, |k: int| None::<usize>));
        i += 1;
    }
    v
}

/// Pair the folds of a line-diff fallback, as the lhs and rhs fold each
/// fold is paired with, by index. Rule 1: two folds pair when the rows
/// pair their header lines and their tags agree, folds sharing a header
/// line pairing longest first. Rule 2, for a lhs fold rule 1 left unpaired:
/// the free rhs fold with equal tags that holds the most rows of its lines
/// (ties by the nearest header row, then the first), provided the pair does
/// not cross one made.
pub fn pairing(rows: &[Row], line_counts: (usize, usize), lhs_folds: &Vec<Fold>, rhs_folds: &Vec<Fold>) -> (matched: (
    Vec<Option<usize>>,
    Vec<Option<usize>>,
))
    ensures
        matched.0@ == pairing_spec(
            layout(rows@, lhs_folds@, rhs_folds@, (line_counts.0 as nat, line_counts.1 as nat)),
        ).lhs,
        matched.1@ == pairing_spec(
            layout(rows@, lhs_folds@, rhs_folds@, (line_counts.0 as nat, line_counts.1 as nat)),
        ).rhs,
        matched.0@.len() == lhs_folds@.len(),
        matched.1@.len() == rhs_folds@.len(),
        forall|i: int| 0 <= i < lhs_folds@.len() ==> (#[trigger] matched.0@[i] matches Some(c) ==> c < rhs_folds@.len()),
{
    let ghost lay = layout(rows@, lhs_folds@, rhs_folds@, (line_counts.0 as nat, line_counts.1 as nat));
    let n = lhs_folds.len();
    let m = rhs_folds.len();
    let lhs_spans = spans(lhs_folds, line_counts.0);
    let rhs_spans = spans(rhs_folds, line_counts.1);
    let mut lhs_pair = nones(n);
    let mut rhs_pair = nones(m);
    let lhs_order = order_by_header(&lhs_spans);
    let rhs_order = order_by_header(&rhs_spans);
    let ghost start = unpaired(n as nat, m as nat);
    assert(lhs_order@.take(0) =~= Seq::<usize>::empty());
    assert((Matching { lhs: lhs_pair@, rhs: rhs_pair@ }) =~= start);
    // Rule 1: by header line.
    let mut k: usize = 0;
    while k < lhs_order.len()
        invariant
            k <= lhs_order@.len(),
            lay == layout(rows@, lhs_folds@, rhs_folds@, (line_counts.0 as nat, line_counts.1 as nat)),
            lhs_spans@ == lay.lhs_spans,
            rhs_spans@ == lay.rhs_spans,
            n == lhs_folds@.len(),
            m == rhs_folds@.len(),
            lhs_spans@.len() == n,
            rhs_spans@.len() == m,
            rhs_order@ == header_order(rhs_spans@, m as nat),
            lhs_order@ == header_order(lhs_spans@, n as nat),
            forall|j: int| 0 <= j < lhs_order@.len() ==> (#[trigger] lhs_order@[j]) < n && lhs_spans@[lhs_order@[j] as int] is Some,
            forall|j: int| 0 <= j < rhs_order@.len() ==> (#[trigger] rhs_order@[j]) < m && rhs_spans@[rhs_order@[j] as int] is Some,
            in_bounds(Matching { lhs: lhs_pair@, rhs: rhs_pair@ }, n as nat, m as nat),
            (Matching { lhs: lhs_pair@, rhs: rhs_pair@ }) == by_headers(lay, start, rhs_order@, lhs_order@.take(k as int)),
        decreases lhs_order@.len() - k,
    {
        let i = lhs_order[k];
        assert(lhs_order@.take(k + 1).drop_last() =~= lhs_order@.take(k as int));
        assert(lhs_order@.take(k + 1).last() == i);
        let ghost st = Matching { lhs: lhs_pair@, rhs: rhs_pair@ };
        assert(lay.lhs_tags[i as int] == tags_model(lhs_folds@[i as int].tags@));
        let header = lhs_spans[i].unwrap().0;
        if let Some(line) = aligned_line_exec(rows, header) {
            if let Some(c) = pick_by_header_exec(
                rhs_folds,
                &rhs_spans,
                &rhs_pair,
                &rhs_order,
                &lhs_folds[i],
                line,
                Ghost(lay),
                Ghost(st),
            ) {
                lhs_pair.set(i, Some(c));
                rhs_pair.set(c, Some(i));
                assert((Matching { lhs: lhs_pair@, rhs: rhs_pair@ }) =~= paired(st, i, c));
            }
        }
        k += 1;
    }
    assert(lhs_order@.take(lhs_order@.len() as int) =~= lhs_order@);
    let ghost first = Matching { lhs: lhs_pair@, rhs: rhs_pair@ };
    // The header rows of the pairs made, for crossing checks.
    let mut pairs: Vec<(usize, usize)> = Vec::new();
    let mut i: usize = 0;
    while i < n
        invariant
            i <= n,
            lay == layout(rows@, lhs_folds@, rhs_folds@, (line_counts.0 as nat, line_counts.1 as nat)),
            lhs_spans@ == lay.lhs_spans,
            rhs_spans@ == lay.rhs_spans,
            lhs_spans@.len() == n,
            rhs_spans@.len() == m,
            first == (Matching { lhs: lhs_pair@, rhs: rhs_pair@ }),
            in_bounds(first, n as nat, m as nat),
            pairs@ == pair_rows(lay, first, i as nat),
        decreases n - i,
    {
        if let Some(c) = lhs_pair[i] {
            let a = header_row_exec(rows, lhs_spans[i], true);
            let b = header_row_exec(rows, rhs_spans[c], false);
            if let (Some(a), Some(b)) = (a, b) {
                pairs.push((a, b));
            }
        }
        i += 1;
    }
    // Rule 2: through the lines a fold holds.
    let mut i: usize = 0;
    assert(by_lines(lay, first, pair_rows(lay, first, n as nat), 0) == (first, pair_rows(lay, first, n as nat)));
    let ghost initial = pairs@;
    while i < n
        invariant
            i <= n,
            lay == layout(rows@, lhs_folds@, rhs_folds@, (line_counts.0 as nat, line_counts.1 as nat)),
            lhs_spans@ == lay.lhs_spans,
            rhs_spans@ == lay.rhs_spans,
            n == lhs_folds@.len(),
            m == rhs_folds@.len(),
            lhs_spans@.len() == n,
            rhs_spans@.len() == m,
            initial == pair_rows(lay, first, n as nat),
            in_bounds(Matching { lhs: lhs_pair@, rhs: rhs_pair@ }, n as nat, m as nat),
            ((Matching { lhs: lhs_pair@, rhs: rhs_pair@ }), pairs@) == by_lines(lay, first, initial, i as nat),
        decreases n - i,
    {
        let ghost st = Matching { lhs: lhs_pair@, rhs: rhs_pair@ };
        let ghost made = pairs@;
        match lhs_spans[i] {
            Some(ls) => {
                if lhs_pair[i].is_none() {
                    if let Some(lhs_row) = first_row_exec(rows, ls.0, true) {
                        assert(lay.lhs_tags[i as int] == tags_model(lhs_folds@[i as int].tags@));
                        if let Some((c, b)) = best_partner_exec(
                            rows,
                            rhs_folds,
                            &rhs_spans,
                            &rhs_pair,
                            &pairs,
                            ls,
                            &lhs_folds[i],
                            lhs_row,
                            Ghost(lay),
                            Ghost(st),
                        ) {
                            lhs_pair.set(i, Some(c));
                            rhs_pair.set(c, Some(i));
                            pairs.push((lhs_row, b));
                            assert((Matching { lhs: lhs_pair@, rhs: rhs_pair@ }) =~= paired(st, i, c));
                        }
                    }
                }
            },
            None => {},
        }
        i += 1;
    }
    (lhs_pair, rhs_pair)
}

} // verus!

verus! {

/// The last lhs fold `lhs` pairs with rhs fold `c`.
pub open spec fn last_partner(lhs: Seq<Option<usize>>, c: usize) -> Option<usize>
    decreases lhs.len(),
{
    if lhs.len() == 0 {
        None
    } else if lhs.last() == Some(c) {
        Some((lhs.len() - 1) as usize)
    } else {
        last_partner(lhs.drop_last(), c)
    }
}

/// `fold` with its match kind set to `kind`.
fn marked(fold: Fold, kind: FoldMatch) -> (out: Fold)
    ensures
        out.tags == fold.tags,
        out.range == fold.range,
        out.match_kind == kind,
{
    let mut out = fold;
    out.match_kind = kind;
    out
}

/// Pair the folds of a line-diff fallback (see [`pairing`]) and mark each
/// pair as unchanged, each fold naming the other's range as its opposite.
pub fn pair(rows: &[Row], sources: (&str, &str), lhs_folds: &mut Vec<Fold>, rhs_folds: &mut Vec<Fold>)
    ensures
        ({
            let counts = (
                crate::summarize::terminated_lines(sources.0@).len(),
                crate::summarize::terminated_lines(sources.1@).len(),
            );
            let matched = pairing_spec(layout(rows@, old(lhs_folds)@, old(rhs_folds)@, counts));
            &&& final(lhs_folds)@.len() == old(lhs_folds)@.len()
            &&& final(rhs_folds)@.len() == old(rhs_folds)@.len()
            &&& forall|i: int|
                0 <= i < final(lhs_folds)@.len() ==> {
                    &&& (#[trigger] final(lhs_folds)@[i]).tags == old(lhs_folds)@[i].tags
                    &&& final(lhs_folds)@[i].range == old(lhs_folds)@[i].range
                    &&& final(lhs_folds)@[i].match_kind == match matched.lhs[i] {
                        Some(c) => FoldMatch::Unchanged { opposite: old(rhs_folds)@[c as int].range },
                        None => old(lhs_folds)@[i].match_kind,
                    }
                }
            &&& forall|c: int|
                0 <= c < final(rhs_folds)@.len() ==> {
                    &&& (#[trigger] final(rhs_folds)@[c]).tags == old(rhs_folds)@[c].tags
                    &&& final(rhs_folds)@[c].range == old(rhs_folds)@[c].range
                    &&& final(rhs_folds)@[c].match_kind == match last_partner(matched.lhs, c as usize) {
                        Some(i) => FoldMatch::Unchanged { opposite: old(lhs_folds)@[i as int].range },
                        None => old(rhs_folds)@[c].match_kind,
                    }
                }
        }),
{
    let lhs_count = crate::summarize::split_terminated(sources.0).len();
    let rhs_count = crate::summarize::split_terminated(sources.1).len();
    let (lhs_pair, rhs_pair) = pairing(rows, (lhs_count, rhs_count), lhs_folds, rhs_folds);
    let ghost lhs_before = lhs_folds@;
    let ghost rhs_before = rhs_folds@;
    // The ranges each side's folds had, which the marks name.
    let mut lhs_ranges: Vec<SourceRange> = Vec::new();
    let mut i: usize = 0;
    while i < lhs_folds.len()
        invariant
            i <= lhs_folds@.len(),
            lhs_folds@ == lhs_before,
            lhs_ranges@.len() == i,
            forall|k: int| 0 <= k < i ==> lhs_ranges@[k] == lhs_before[k].range,
        decreases lhs_folds@.len() - i,
    {
        lhs_ranges.push(lhs_folds[i].range);
        i += 1;
    }
    let mut rhs_ranges: Vec<SourceRange> = Vec::new();
    let mut c: usize = 0;
    while c < rhs_folds.len()
        invariant
            c <= rhs_folds@.len(),
            rhs_folds@ == rhs_before,
            rhs_ranges@.len() == c,
            forall|k: int| 0 <= k < c ==> rhs_ranges@[k] == rhs_before[k].range,
        decreases rhs_folds@.len() - c,
    {
        rhs_ranges.push(rhs_folds[c].range);
        c += 1;
    }
    // The last lhs fold each rhs fold is paired with.
    let mut partner: Vec<Option<usize>> = nones(rhs_folds.len());
    let mut i: usize = 0;
    assert(lhs_pair@.take(0) =~= Seq::<Option<usize>>::empty());
    while i < lhs_pair.len()
        invariant
            i <= lhs_pair@.len(),
            partner@.len() == rhs_before.len(),
            forall|k: int| 0 <= k < lhs_pair@.len() ==> (#[trigger] lhs_pair@[k] matches Some(c) ==> c < rhs_before.len()),
            lhs_pair@.len() == lhs_before.len(),
            forall|c: int| 0 <= c < partner@.len() ==> #[trigger] partner@[c] == last_partner(lhs_pair@.take(i as int), c as usize),
            forall|c: int| 0 <= c < partner@.len() ==> (#[trigger] partner@[c] matches Some(j) ==> j < i),
        decreases lhs_pair@.len() - i,
    {
        assert(lhs_pair@.take(i + 1).drop_last() =~= lhs_pair@.take(i as int));
        assert(lhs_pair@.take(i + 1).last() == lhs_pair@[i as int]);
        let ghost before = partner@;
        let count = partner.len();
        if let Some(c) = lhs_pair[i] {
            partner.set(c, Some(i));
            assert(partner@ == before.update(c as int, Some(i)));
        } else {
            assert(partner@ == before);
        }
        proof {
            assert forall|d: int| 0 <= d < partner@.len() implies #[trigger] partner@[d] == last_partner(lhs_pair@.take(i + 1), d as usize) by {
                assert(d < count);
                if lhs_pair@[i as int] == Some(d as usize) {
                    assert(partner@[d] == Some(i));
                } else {
                    assert(partner@[d] == before[d]);
                }
            }
        }
        i += 1;
    }
    assert(lhs_pair@.take(lhs_pair@.len() as int) =~= lhs_pair@);
    // Rebuild each side with its marks.
    let mut old_lhs: Vec<Fold> = Vec::new();
    std::mem::swap(lhs_folds, &mut old_lhs);
    let total = lhs_ranges.len();
    let mut i: usize = 0;
    while old_lhs.len() > 0
        invariant
            i + old_lhs@.len() == lhs_before.len(),
            total == lhs_before.len(),
            old_lhs@ == lhs_before.skip(i as int),
            lhs_folds@.len() == i,
            lhs_pair@.len() == lhs_before.len(),
            lhs_ranges@.len() == lhs_before.len(),
            rhs_ranges@.len() == rhs_before.len(),
            forall|k: int| 0 <= k < rhs_ranges@.len() ==> rhs_ranges@[k] == rhs_before[k].range,
            forall|k: int| 0 <= k < lhs_pair@.len() ==> (#[trigger] lhs_pair@[k] matches Some(c) ==> c < rhs_before.len()),
            forall|k: int|
                0 <= k < i ==> {
                    &&& (#[trigger] lhs_folds@[k]).tags == lhs_before[k].tags
                    &&& lhs_folds@[k].range == lhs_before[k].range
                    &&& lhs_folds@[k].match_kind == match lhs_pair@[k] {
                        Some(c) => FoldMatch::Unchanged { opposite: rhs_before[c as int].range },
                        None => lhs_before[k].match_kind,
                    }
                },
        decreases old_lhs@.len(),
    {
        let fold = old_lhs.remove(0);
        assert(fold == lhs_before[i as int]) by {
            assert(lhs_before.skip(i as int)[0] == lhs_before[i as int]);
        }
        assert(old_lhs@ =~= lhs_before.skip(i + 1));
        let kind = match lhs_pair[i] {
            Some(c) => FoldMatch::Unchanged { opposite: rhs_ranges[c] },
            None => fold.match_kind,
        };
        lhs_folds.push(marked(fold, kind));
        i += 1;
    }
    let mut old_rhs: Vec<Fold> = Vec::new();
    std::mem::swap(rhs_folds, &mut old_rhs);
    let total = rhs_ranges.len();
    let mut c: usize = 0;
    while old_rhs.len() > 0
        invariant
            c + old_rhs@.len() == rhs_before.len(),
            total == rhs_before.len(),
            rhs_ranges@.len() == rhs_before.len(),
            old_rhs@ == rhs_before.skip(c as int),
            rhs_folds@.len() == c,
            partner@.len() == rhs_before.len(),
            lhs_ranges@.len() == lhs_before.len(),
            forall|k: int| 0 <= k < lhs_ranges@.len() ==> lhs_ranges@[k] == lhs_before[k].range,
            forall|j: int| 0 <= j < partner@.len() ==> #[trigger] partner@[j] == last_partner(lhs_pair@, j as usize),
            forall|j: int| 0 <= j < partner@.len() ==> (#[trigger] partner@[j] matches Some(i) ==> i < lhs_before.len()),
            forall|k: int|
                0 <= k < c ==> {
                    &&& (#[trigger] rhs_folds@[k]).tags == rhs_before[k].tags
                    &&& rhs_folds@[k].range == rhs_before[k].range
                    &&& rhs_folds@[k].match_kind == match last_partner(lhs_pair@, k as usize) {
                        Some(i) => FoldMatch::Unchanged { opposite: lhs_before[i as int].range },
                        None => rhs_before[k].match_kind,
                    }
                },
        decreases old_rhs@.len(),
    {
        let fold = old_rhs.remove(0);
        assert(fold == rhs_before[c as int]) by {
            assert(rhs_before.skip(c as int)[0] == rhs_before[c as int]);
        }
        assert(old_rhs@ =~= rhs_before.skip(c + 1));
        let kind = match partner[c] {
            Some(i) => FoldMatch::Unchanged { opposite: lhs_ranges[i] },
            None => fold.match_kind,
        };
        rhs_folds.push(marked(fold, kind));
        c += 1;
    }
}

} // verus!

verus! {

/// Each paired fold's partner pairs back with it, and the two carry the
/// same tags.
pub open spec fn one_to_one(lay: Layout, st: Matching) -> bool {
    &&& st.lhs.len() == lay.lhs_spans.len()
    &&& st.rhs.len() == lay.rhs_spans.len()
    &&& forall|i: int|
        0 <= i < st.lhs.len() ==> (#[trigger] st.lhs[i] matches Some(c) ==> c < st.rhs.len() && st.rhs[c as int]
            == Some(i as usize) && lay.lhs_tags[i] == lay.rhs_tags[c as int])
    &&& forall|c: int|
        0 <= c < st.rhs.len() ==> (#[trigger] st.rhs[c] matches Some(i) ==> i < st.lhs.len() && st.lhs[i as int]
            == Some(c as usize))
}

/// The fold orders hold each fold that covers whole lines once.
proof fn lemma_header_order(spans: Seq<Option<(usize, usize)>>, n: nat)
    requires
        n <= spans.len(),
        n <= usize::MAX + 1,
    ensures
        forall|k: int| 0 <= k < header_order(spans, n).len() ==> (#[trigger] header_order(spans, n)[k]) < n,
        forall|a: int, b: int|
            0 <= a < b < header_order(spans, n).len() ==> #[trigger] header_order(spans, n)[a] != #[trigger] header_order(
                spans,
                n,
            )[b],
    decreases n,
{
    if n > 0 {
        lemma_header_order(spans, (n - 1) as nat);
        let order = header_order(spans, (n - 1) as nat);
        let i = (n - 1) as usize;
        if spans[i as int] is Some {
            lemma_insert_pos_bound(order, i, spans);
            let p = insert_pos(order, i, spans) as int;
            let next = order.insert(p, i);
            assert forall|k: int| 0 <= k < next.len() implies (#[trigger] next[k]) < n by {
                if k < p {
                    assert(next[k] == order[k]);
                } else if k > p {
                    assert(next[k] == order[k - 1]);
                }
            }
            assert forall|a: int, b: int| 0 <= a < b < next.len() implies #[trigger] next[a] != #[trigger] next[b] by {
                if a < p && b < p {
                    assert(next[a] == order[a] && next[b] == order[b]);
                } else if a < p && b == p {
                    assert(next[a] == order[a]);
                } else if a < p {
                    assert(next[a] == order[a] && next[b] == order[b - 1]);
                } else if a == p {
                    assert(next[b] == order[b - 1]);
                } else {
                    assert(next[a] == order[a - 1] && next[b] == order[b - 1]);
                }
            }
        }
    }
}

proof fn lemma_insert_pos_bound(order: Seq<usize>, i: usize, spans: Seq<Option<(usize, usize)>>)
    ensures
        insert_pos(order, i, spans) <= order.len(),
    decreases order.len(),
{
    if order.len() > 0 && !header_before(spans, i, order[0]) {
        lemma_insert_pos_bound(order.drop_first(), i, spans);
    }
}

/// Rule 1 picks a free rhs fold with the tags asked for.
proof fn lemma_pick_by_header(lay: Layout, st: Matching, order: Seq<usize>, tags: Seq<Seq<char>>, line: usize)
    ensures
        pick_by_header(lay, st, order, tags, line) matches Some(c) ==> order.contains(c) && st.rhs[c as int] is None
            && lay.rhs_tags[c as int] == tags,
    decreases order.len(),
{
    if order.len() > 0 {
        lemma_pick_by_header(lay, st, order.drop_first(), tags, line);
        if let Some(c) = pick_by_header(lay, st, order.drop_first(), tags, line) {
            if pick_by_header(lay, st, order, tags, line) == Some(c) && order[0] != c {
                let k = choose|k: int| 0 <= k < order.drop_first().len() && order.drop_first()[k] == c;
                assert(order[k + 1] == c);
            }
        }
        assert(order[0] == order[0]);
    }
}

/// Rule 2 picks a rhs fold among the first `m` with a positive score.
proof fn lemma_best_partner(
    lay: Layout,
    st: Matching,
    pairs: Seq<(usize, usize)>,
    ls: (usize, usize),
    tags: Seq<Seq<char>>,
    lhs_row: usize,
    m: nat,
)
    ensures
        best_partner(lay, st, pairs, ls, tags, lhs_row, m) matches Some((c, _)) ==> c < m && score(
            lay,
            st,
            ls,
            tags,
            c,
        ) > 0,
    decreases m,
{
    if m > 0 {
        lemma_best_partner(lay, st, pairs, ls, tags, lhs_row, (m - 1) as nat);
    }
}

/// Pairing `i` and `c`, both free, with the same tags, keeps the pairing one
/// to one.
proof fn lemma_paired(lay: Layout, st: Matching, i: usize, c: usize)
    requires
        one_to_one(lay, st),
        i < st.lhs.len(),
        c < st.rhs.len(),
        st.lhs[i as int] is None,
        st.rhs[c as int] is None,
        lay.lhs_tags[i as int] == lay.rhs_tags[c as int],
    ensures
        one_to_one(lay, paired(st, i, c)),
{
    let next = paired(st, i, c);
    assert forall|j: int| 0 <= j < next.lhs.len() implies (#[trigger] next.lhs[j] matches Some(d) ==> d < next.rhs.len()
        && next.rhs[d as int] == Some(j as usize) && lay.lhs_tags[j] == lay.rhs_tags[d as int]) by {
        if j != i {
            if let Some(d) = st.lhs[j] {
                assert(d != c);
            }
        }
    }
    assert forall|d: int| 0 <= d < next.rhs.len() implies (#[trigger] next.rhs[d] matches Some(j) ==> j < next.lhs.len()
        && next.lhs[j as int] == Some(d as usize)) by {
        if d != c {
            if let Some(j) = st.rhs[d] {
                assert(j != i);
            }
        }
    }
}

/// Rule 1 keeps the pairing one to one, and pairs only the folds it has
/// gone through.
proof fn lemma_by_headers(lay: Layout, st: Matching, rhs_order: Seq<usize>, order: Seq<usize>)
    requires
        one_to_one(lay, st),
        forall|k: int| 0 <= k < st.lhs.len() ==> (#[trigger] st.lhs[k]) is None,
        forall|k: int| 0 <= k < order.len() ==> (#[trigger] order[k]) < st.lhs.len(),
        forall|a: int, b: int| 0 <= a < b < order.len() ==> #[trigger] order[a] != #[trigger] order[b],
        forall|k: int| 0 <= k < rhs_order.len() ==> (#[trigger] rhs_order[k]) < st.rhs.len(),
        lay.lhs_tags.len() == lay.lhs_spans.len(),
    ensures
        one_to_one(lay, by_headers(lay, st, rhs_order, order)),
        forall|j: int|
            0 <= j < st.lhs.len() && (#[trigger] by_headers(lay, st, rhs_order, order).lhs[j]) is Some ==> order.contains(
                j as usize,
            ),
    decreases order.len(),
{
    if order.len() > 0 {
        let before = order.drop_last();
        assert forall|a: int, b: int| 0 <= a < b < before.len() implies #[trigger] before[a] != #[trigger] before[b] by {
            assert(before[a] == order[a] && before[b] == order[b]);
        }
        lemma_by_headers(lay, st, rhs_order, before);
        let now = by_headers(lay, st, rhs_order, before);
        let i = order.last();
        assert(now.lhs[i as int] is None) by {
            if now.lhs[i as int] is Some {
                let k = choose|k: int| 0 <= k < before.len() && before[k] == i;
                assert(order[k] == order[order.len() - 1]);
            }
        }
        match aligned_line(lay.rows, header_of(lay.lhs_spans[i as int])) {
            None => {},
            Some(line) => {
                lemma_pick_by_header(lay, now, rhs_order, lay.lhs_tags[i as int], line);
                match pick_by_header(lay, now, rhs_order, lay.lhs_tags[i as int], line) {
                    None => {},
                    Some(c) => {
                        let k = choose|k: int| 0 <= k < rhs_order.len() && rhs_order[k] == c;
                        assert(rhs_order[k] < st.rhs.len());
                        lemma_paired(lay, now, i, c);
                    },
                }
            },
        }
        let next = by_headers(lay, st, rhs_order, order);
        assert forall|j: int| 0 <= j < st.lhs.len() && (#[trigger] next.lhs[j]) is Some implies order.contains(j as usize) by {
            if j as usize == i {
                assert(order[order.len() - 1] == i);
            } else {
                assert(now.lhs[j] is Some);
                let k = choose|k: int| 0 <= k < before.len() && before[k] == j as usize;
                assert(order[k] == before[k]);
            }
        }
    }
}

/// Rule 2 keeps the pairing one to one.
proof fn lemma_by_lines(lay: Layout, st: Matching, pairs: Seq<(usize, usize)>, n: nat)
    requires
        one_to_one(lay, st),
        n <= st.lhs.len(),
        st.lhs.len() <= usize::MAX,
        lay.lhs_tags.len() == lay.lhs_spans.len(),
    ensures
        one_to_one(lay, by_lines(lay, st, pairs, n).0),
    decreases n,
{
    if n > 0 {
        lemma_by_lines(lay, st, pairs, (n - 1) as nat);
        let (now, made) = by_lines(lay, st, pairs, (n - 1) as nat);
        let i = (n - 1) as nat;
        match lay.lhs_spans[i as int] {
            None => {},
            Some(ls) => if now.lhs[i as int] is None {
                match first_row(lay.rows, ls.0, true) {
                    None => {},
                    Some(lhs_row) => {
                        let m = lay.rhs_spans.len();
                        lemma_best_partner(lay, now, made, ls, lay.lhs_tags[i as int], lhs_row, m);
                        match best_partner(lay, now, made, ls, lay.lhs_tags[i as int], lhs_row, m) {
                            None => {},
                            Some((c, b)) => {
                                lemma_paired(lay, now, i as usize, c);
                            },
                        }
                    },
                }
            },
        }
    }
}

/// Pairing is one to one: each paired fold's partner pairs back with it,
/// and two folds pair only when they carry the same tags.
pub proof fn pairing_is_one_to_one(lay: Layout)
    requires
        lay.lhs_tags.len() == lay.lhs_spans.len(),
        lay.rhs_tags.len() == lay.rhs_spans.len(),
        lay.lhs_spans.len() <= usize::MAX,
        lay.rhs_spans.len() <= usize::MAX,
    ensures
        one_to_one(lay, pairing_spec(lay)),
{
    let n = lay.lhs_spans.len();
    let m = lay.rhs_spans.len();
    let start = unpaired(n, m);
    lemma_header_order(lay.lhs_spans, n);
    lemma_header_order(lay.rhs_spans, m);
    lemma_by_headers(lay, start, header_order(lay.rhs_spans, m), header_order(lay.lhs_spans, n));
    let first = by_headers(lay, start, header_order(lay.rhs_spans, m), header_order(lay.lhs_spans, n));
    lemma_by_lines(lay, first, pair_rows(lay, first, n), n);
}

} // verus!
