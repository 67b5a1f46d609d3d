//! Changed blocks of a line-diff alignment, re-paired from whichever end
//! reads alike.
//!
//! A line diff pairs a changed block's first lines with each other. When
//! the block's sides differ in length and its last lines read more alike,
//! the block is re-paired from the bottom instead, so a changed signature
//! sits next to the old one right above a body that still aligns. How alike
//! two lines read is measured outside the library, as a flag per block.
use crate::line_layout::Row;
use crate::tree::line_set_contains;
use vstd::prelude::*;

verus! {

broadcast use vstd::std_specs::vec::group_vec_axioms, vstd::seq::group_seq_axioms;

/// A row pairs two lines that are both unchanged.
pub open spec fn unchanged_row(row: Row, lhs_novel: Set<usize>, rhs_novel: Set<usize>) -> bool {
    match row {
        (Some(l), Some(r)) => !lhs_novel.contains(l) && !rhs_novel.contains(r),
        _ => false,
    }
}

/// Where the changed stretch from row `at` on ends: at the first unchanged
/// row from `at` on, or at the end of the rows.
pub open spec fn block_end(rows: Seq<Row>, lhs_novel: Set<usize>, rhs_novel: Set<usize>, at: int) -> int
    decreases rows.len() - at,
{
    if at < 0 || at >= rows.len() {
        rows.len() as int
    } else if unchanged_row(rows[at], lhs_novel, rhs_novel) {
        at
    } else {
        block_end(rows, lhs_novel, rhs_novel, at + 1)
    }
}

/// The block end lies between `at` and the end, every row before it is
/// changed, and the row at it, if any, is unchanged.
pub proof fn lemma_block_end(rows: Seq<Row>, lhs_novel: Set<usize>, rhs_novel: Set<usize>, at: int)
    requires
        0 <= at <= rows.len(),
    ensures
        at <= block_end(rows, lhs_novel, rhs_novel, at) <= rows.len(),
        block_end(rows, lhs_novel, rhs_novel, at) < rows.len() ==> unchanged_row(
            rows[block_end(rows, lhs_novel, rhs_novel, at)],
            lhs_novel,
            rhs_novel,
        ),
        forall|k: int|
            at <= k < block_end(rows, lhs_novel, rhs_novel, at) ==> !unchanged_row(
                #[trigger] rows[k],
                lhs_novel,
                rhs_novel,
            ),
    decreases rows.len() - at,
{
    if at < rows.len() && !unchanged_row(rows[at], lhs_novel, rhs_novel) {
        lemma_block_end(rows, lhs_novel, rhs_novel, at + 1);
    }
}

/// The changed blocks from row `at` on: the maximal stretches of rows that
/// are not unchanged, as half-open ranges of rows, in order.
pub open spec fn blocks_from(rows: Seq<Row>, lhs_novel: Set<usize>, rhs_novel: Set<usize>, at: int) -> Seq<
    (int, int),
>
    decreases rows.len() - at,
{
    if at < 0 || at >= rows.len() {
        Seq::empty()
    } else if unchanged_row(rows[at], lhs_novel, rhs_novel) {
        blocks_from(rows, lhs_novel, rhs_novel, at + 1)
    } else {
        let end = block_end(rows, lhs_novel, rhs_novel, at + 1);
        proof {
            lemma_block_end(rows, lhs_novel, rhs_novel, at + 1);
        }
        seq![(at, end)] + blocks_from(rows, lhs_novel, rhs_novel, end)
    }
}

/// The lhs lines of `rows`, in order.
pub open spec fn lefts(rows: Seq<Row>) -> Seq<usize>
    decreases rows.len(),
{
    if rows.len() == 0 {
        Seq::empty()
    } else {
        match rows.last().0 {
            Some(l) => lefts(rows.drop_last()).push(l),
            None => lefts(rows.drop_last()),
        }
    }
}

/// The rhs lines of `rows`, in order.
pub open spec fn rights(rows: Seq<Row>) -> Seq<usize>
    decreases rows.len(),
{
    if rows.len() == 0 {
        Seq::empty()
    } else {
        match rows.last().1 {
            Some(r) => rights(rows.drop_last()).push(r),
            None => rights(rows.drop_last()),
        }
    }
}

/// How many lines a block pairs: as many as its shorter side holds.
pub open spec fn shared(block: Seq<Row>) -> int {
    if lefts(block).len() <= rights(block).len() {
        lefts(block).len() as int
    } else {
        rights(block).len() as int
    }
}

/// Lines paired from the bottom: the lhs lines left over first, each on a
/// row of its own, then the rhs lines left over, then the last lines of
/// each side in pairs, as many as the shorter side holds.
pub open spec fn paired_from_bottom(l: Seq<usize>, r: Seq<usize>) -> Seq<Row> {
    let n = if l.len() <= r.len() { l.len() as int } else { r.len() as int };
    Seq::new((l.len() - n) as nat, |k: int| (Some(l[k]), None::<usize>)) + Seq::new(
        (r.len() - n) as nat,
        |k: int| (None::<usize>, Some(r[k])),
    ) + Seq::new(n as nat, |k: int| (Some(l[l.len() - n + k]), Some(r[r.len() - n + k])))
}

/// A block paired from the bottom.
pub open spec fn repaired(block: Seq<Row>) -> Seq<Row> {
    paired_from_bottom(lefts(block), rights(block))
}

/// Whether a block is re-paired: its bottom reads better, it pairs some
/// lines, and its sides differ in length.
pub open spec fn from_bottom(block: Seq<Row>, reads_better: bool) -> bool {
    reads_better && shared(block) > 0 && lefts(block).len() != rights(block).len()
}

/// A block as it is laid out.
pub open spec fn settled(block: Seq<Row>, reads_better: bool) -> Seq<Row> {
    if from_bottom(block, reads_better) {
        repaired(block)
    } else {
        block
    }
}

/// The first flag, `false` when there is none.
pub open spec fn first_flag(flags: Seq<bool>) -> bool {
    flags.len() > 0 && flags[0]
}

/// The flags after the first.
pub open spec fn later_flags(flags: Seq<bool>) -> Seq<bool> {
    if flags.len() > 0 {
        flags.drop_first()
    } else {
        flags
    }
}

/// The rows from `at` on, each changed block re-paired when its flag, the
/// next of `flags`, says its bottom reads better.
pub open spec fn realigned_from(
    rows: Seq<Row>,
    lhs_novel: Set<usize>,
    rhs_novel: Set<usize>,
    flags: Seq<bool>,
    at: int,
) -> Seq<Row>
    decreases rows.len() - at,
{
    if at < 0 || at >= rows.len() {
        Seq::empty()
    } else if unchanged_row(rows[at], lhs_novel, rhs_novel) {
        seq![rows[at]] + realigned_from(rows, lhs_novel, rhs_novel, flags, at + 1)
    } else {
        let end = block_end(rows, lhs_novel, rhs_novel, at + 1);
        proof {
            lemma_block_end(rows, lhs_novel, rhs_novel, at + 1);
        }
        settled(rows.subrange(at, end), first_flag(flags)) + realigned_from(
            rows,
            lhs_novel,
            rhs_novel,
            later_flags(flags),
            end,
        )
    }
}


/// Whether a row pairs two unchanged lines.
fn is_unchanged(
    row: Row,
    lhs_novel: &std::collections::BTreeSet<usize>,
    rhs_novel: &std::collections::BTreeSet<usize>,
) -> (unchanged: bool)
    ensures
        unchanged == unchanged_row(row, lhs_novel@, rhs_novel@),
{
    match row {
        (Some(l), Some(r)) => !line_set_contains(lhs_novel, l) && !line_set_contains(rhs_novel, r),
        _ => false,
    }
}

/// The first unchanged row from `from` on, or the end of the rows.
fn find_block_end(
    rows: &[Row],
    lhs_novel: &std::collections::BTreeSet<usize>,
    rhs_novel: &std::collections::BTreeSet<usize>,
    from: usize,
) -> (end: usize)
    requires
        from <= rows@.len(),
    ensures
        end == block_end(rows@, lhs_novel@, rhs_novel@, from as int),
{
    let mut end = from;
    while end < rows.len() && !is_unchanged(rows[end], lhs_novel, rhs_novel)
        invariant
            from <= end <= rows@.len(),
            block_end(rows@, lhs_novel@, rhs_novel@, from as int) == block_end(
                rows@,
                lhs_novel@,
                rhs_novel@,
                end as int,
            ),
        decreases rows@.len() - end,
    {
        end += 1;
    }
    end
}

/// `lefts` and `rights` of rows `a + b` split the same way.
proof fn lemma_sides_concat(a: Seq<Row>, b: Seq<Row>)
    ensures
        lefts(a + b) == lefts(a) + lefts(b),
        rights(a + b) == rights(a) + rights(b),
    decreases b.len(),
{
    if b.len() == 0 {
        assert(a + b =~= a);
        assert(lefts(a) + lefts(b) =~= lefts(a));
        assert(rights(a) + rights(b) =~= rights(a));
    } else {
        lemma_sides_concat(a, b.drop_last());
        assert((a + b).drop_last() =~= a + b.drop_last());
        assert((a + b).last() == b.last());
        assert(lefts(a) + lefts(b.drop_last()).push(b.last().0->0) =~= (lefts(a) + lefts(b.drop_last())).push(
            b.last().0->0,
        ));
        assert(rights(a) + rights(b.drop_last()).push(b.last().1->0) =~= (rights(a) + rights(b.drop_last())).push(
            b.last().1->0,
        ));
    }
}

/// The lhs lines and the rhs lines of rows `from..to`, in order.
pub fn block_lines(rows: &[Row], from: usize, to: usize) -> (lines: (Vec<usize>, Vec<usize>))
    requires
        from <= to <= rows@.len(),
    ensures
        lines.0@ == lefts(rows@.subrange(from as int, to as int)),
        lines.1@ == rights(rows@.subrange(from as int, to as int)),
{
    let mut lhs: Vec<usize> = Vec::new();
    let mut rhs: Vec<usize> = Vec::new();
    let mut k: usize = from;
    assert(rows@.subrange(from as int, from as int) =~= Seq::<Row>::empty());
    while k < to
        invariant
            from <= k <= to <= rows@.len(),
            lhs@ == lefts(rows@.subrange(from as int, k as int)),
            rhs@ == rights(rows@.subrange(from as int, k as int)),
        decreases to - k,
    {
        assert(rows@.subrange(from as int, k + 1).drop_last() =~= rows@.subrange(from as int, k as int));
        assert(rows@.subrange(from as int, k + 1).last() == rows@[k as int]);
        let (l, r) = rows[k];
        if let Some(l) = l {
            lhs.push(l);
        }
        if let Some(r) = r {
            rhs.push(r);
        }
        k += 1;
    }
    (lhs, rhs)
}

/// The changed blocks of `rows`: the maximal stretches of rows that do not
/// pair two unchanged lines, as half-open ranges of rows, in order.
pub fn changed_blocks(
    rows: &[Row],
    lhs_novel: &std::collections::BTreeSet<usize>,
    rhs_novel: &std::collections::BTreeSet<usize>,
) -> (blocks: Vec<(usize, usize)>)
    ensures
        blocks@.map_values(|b: (usize, usize)| (b.0 as int, b.1 as int)) == blocks_from(
            rows@,
            lhs_novel@,
            rhs_novel@,
            0,
        ),
{
    let mut blocks: Vec<(usize, usize)> = Vec::new();
    let mut at: usize = 0;
    while at < rows.len()
        invariant
            at <= rows@.len(),
            blocks@.map_values(|b: (usize, usize)| (b.0 as int, b.1 as int)) + blocks_from(
                rows@,
                lhs_novel@,
                rhs_novel@,
                at as int,
            ) == blocks_from(rows@, lhs_novel@, rhs_novel@, 0),
        decreases rows@.len() - at,
    {
        let ghost before = blocks@.map_values(|b: (usize, usize)| (b.0 as int, b.1 as int));
        if is_unchanged(rows[at], lhs_novel, rhs_novel) {
            at += 1;
        } else {
            let end = find_block_end(rows, lhs_novel, rhs_novel, at + 1);
            proof {
                lemma_block_end(rows@, lhs_novel@, rhs_novel@, at + 1);
            }
            blocks.push((at, end));
            assert(blocks@.map_values(|b: (usize, usize)| (b.0 as int, b.1 as int)) =~= before.push(
                (at as int, end as int),
            ));
            assert(before.push((at as int, end as int)) + blocks_from(rows@, lhs_novel@, rhs_novel@, end as int)
                =~= before + blocks_from(rows@, lhs_novel@, rhs_novel@, at as int));
            at = end;
        }
    }
    assert(blocks@.map_values(|b: (usize, usize)| (b.0 as int, b.1 as int)) + Seq::<(int, int)>::empty()
        =~= blocks@.map_values(|b: (usize, usize)| (b.0 as int, b.1 as int)));
    blocks
}

/// Append the lines paired from the bottom.
fn push_paired_from_bottom(out: &mut Vec<Row>, lhs: &Vec<usize>, rhs: &Vec<usize>)
    ensures
        final(out)@ == old(out)@ + paired_from_bottom(lhs@, rhs@),
{
    let n: usize = if lhs.len() <= rhs.len() { lhs.len() } else { rhs.len() };
    let ghost base = out@;
    let ghost first = Seq::new((lhs@.len() - n) as nat, |k: int| (Some(lhs@[k]), None::<usize>));
    let ghost second = Seq::new((rhs@.len() - n) as nat, |k: int| (None::<usize>, Some(rhs@[k])));
    let ghost third = Seq::new(
        n as nat,
        |k: int| (Some(lhs@[lhs@.len() - n + k]), Some(rhs@[rhs@.len() - n + k])),
    );
    let mut k: usize = 0;
    while k < lhs.len() - n
        invariant
            n <= lhs@.len(),
            k <= lhs@.len() - n,
            first == Seq::new((lhs@.len() - n) as nat, |k: int| (Some(lhs@[k]), None::<usize>)),
            out@ == base + first.take(k as int),
        decreases lhs@.len() - n - k,
    {
        out.push((Some(lhs[k]), None));
        assert(first.take(k + 1) =~= first.take(k as int).push(first[k as int]));
        k += 1;
    }
    assert(first.take(first.len() as int) =~= first);
    let mut k: usize = 0;
    while k < rhs.len() - n
        invariant
            n <= rhs@.len(),
            k <= rhs@.len() - n,
            second == Seq::new((rhs@.len() - n) as nat, |k: int| (None::<usize>, Some(rhs@[k]))),
            out@ == base + first + second.take(k as int),
        decreases rhs@.len() - n - k,
    {
        out.push((None, Some(rhs[k])));
        assert(second.take(k + 1) =~= second.take(k as int).push(second[k as int]));
        k += 1;
    }
    assert(second.take(second.len() as int) =~= second);
    let mut k: usize = 0;
    while k < n
        invariant
            n <= lhs@.len(),
            n <= rhs@.len(),
            k <= n,
            third == Seq::new(
                n as nat,
                |k: int| (Some(lhs@[lhs@.len() - n + k]), Some(rhs@[rhs@.len() - n + k])),
            ),
            out@ == base + first + second + third.take(k as int),
        decreases n - k,
    {
        out.push((Some(lhs[lhs.len() - n + k]), Some(rhs[rhs.len() - n + k])));
        assert(third.take(k + 1) =~= third.take(k as int).push(third[k as int]));
        k += 1;
    }
    assert(third.take(third.len() as int) =~= third);
    assert(out@ =~= base + (first + second + third));
}

/// Re-pair the lines of each changed block, a maximal stretch of rows
/// between unchanged rows, when its two sides differ in length and, as the
/// block's flag in `bottom` says, its last lines read more alike than its
/// first: the leftover lines of each side come first, and the last lines
/// pair up. Blocks that are one-sided, equal in length, or read no better
/// from the bottom keep their rows; a block past the end of `bottom` reads
/// no better.
pub fn align_changed_blocks(
    rows: &[Row],
    lhs_novel: &std::collections::BTreeSet<usize>,
    rhs_novel: &std::collections::BTreeSet<usize>,
    bottom: &[bool],
) -> (out: Vec<Row>)
    ensures
        out@ == realigned_from(rows@, lhs_novel@, rhs_novel@, bottom@, 0),
{
    let mut out: Vec<Row> = Vec::new();
    let mut at: usize = 0;
    let mut k: usize = 0;
    assert(bottom@.skip(0) =~= bottom@);
    while at < rows.len()
        invariant
            at <= rows@.len(),
            k <= bottom@.len(),
            out@ + realigned_from(rows@, lhs_novel@, rhs_novel@, bottom@.skip(k as int), at as int)
                == realigned_from(rows@, lhs_novel@, rhs_novel@, bottom@, 0),
        decreases rows@.len() - at,
    {
        let ghost flags = bottom@.skip(k as int);
        let ghost before = out@;
        if is_unchanged(rows[at], lhs_novel, rhs_novel) {
            out.push(rows[at]);
            assert(before.push(rows@[at as int]) + realigned_from(rows@, lhs_novel@, rhs_novel@, flags, at + 1)
                =~= before + realigned_from(rows@, lhs_novel@, rhs_novel@, flags, at as int));
            at += 1;
        } else {
            let end = find_block_end(rows, lhs_novel, rhs_novel, at + 1);
            proof {
                lemma_block_end(rows@, lhs_novel@, rhs_novel@, at + 1);
            }
            let (lhs, rhs) = block_lines(rows, at, end);
            let flag = k < bottom.len() && bottom[k];
            let ghost block = rows@.subrange(at as int, end as int);
            assert(flag == first_flag(flags));
            let n: usize = if lhs.len() <= rhs.len() { lhs.len() } else { rhs.len() };
            if flag && n > 0 && lhs.len() != rhs.len() {
                push_paired_from_bottom(&mut out, &lhs, &rhs);
            } else {
                let mut j: usize = at;
                while j < end
                    invariant
                        at <= j <= end <= rows@.len(),
                        out@ == before + rows@.subrange(at as int, j as int),
                    decreases end - j,
                {
                    out.push(rows[j]);
                    assert(rows@.subrange(at as int, j + 1) =~= rows@.subrange(at as int, j as int).push(
                        rows@[j as int],
                    ));
                    j += 1;
                }
            }
            assert(out@ == before + settled(block, first_flag(flags)));
            if k < bottom.len() {
                assert(later_flags(flags) =~= bottom@.skip(k + 1));
                k += 1;
            } else {
                assert(later_flags(flags) =~= bottom@.skip(k as int));
            }
            assert(out@ + realigned_from(rows@, lhs_novel@, rhs_novel@, bottom@.skip(k as int), end as int) =~= before
                + realigned_from(rows@, lhs_novel@, rhs_novel@, flags, at as int));
            at = end;
        }
    }
    assert(out@ + Seq::<Row>::empty() =~= out@);
    out
}


/// Rows whose lhs lines are `x`, one on each row.
proof fn lemma_lefts_all(s: Seq<Row>, x: Seq<usize>)
    requires
        s.len() == x.len(),
        forall|k: int| 0 <= k < s.len() ==> (#[trigger] s[k]).0 == Some(x[k]),
    ensures
        lefts(s) == x,
    decreases s.len(),
{
    if s.len() > 0 {
        lemma_lefts_all(s.drop_last(), x.drop_last());
        assert(x.drop_last().push(x.last()) =~= x);
    }
}

/// Rows whose rhs lines are `x`, one on each row.
proof fn lemma_rights_all(s: Seq<Row>, x: Seq<usize>)
    requires
        s.len() == x.len(),
        forall|k: int| 0 <= k < s.len() ==> (#[trigger] s[k]).1 == Some(x[k]),
    ensures
        rights(s) == x,
    decreases s.len(),
{
    if s.len() > 0 {
        lemma_rights_all(s.drop_last(), x.drop_last());
        assert(x.drop_last().push(x.last()) =~= x);
    }
}

/// Rows with no lhs line.
proof fn lemma_lefts_none(s: Seq<Row>)
    requires
        forall|k: int| 0 <= k < s.len() ==> (#[trigger] s[k]).0 is None,
    ensures
        lefts(s) == Seq::<usize>::empty(),
    decreases s.len(),
{
    if s.len() > 0 {
        lemma_lefts_none(s.drop_last());
    }
}

/// Rows with no rhs line.
proof fn lemma_rights_none(s: Seq<Row>)
    requires
        forall|k: int| 0 <= k < s.len() ==> (#[trigger] s[k]).1 is None,
    ensures
        rights(s) == Seq::<usize>::empty(),
    decreases s.len(),
{
    if s.len() > 0 {
        lemma_rights_none(s.drop_last());
    }
}

/// Pairing from the bottom keeps each side's lines, in order.
proof fn lemma_paired_from_bottom(l: Seq<usize>, r: Seq<usize>)
    ensures
        lefts(paired_from_bottom(l, r)) == l,
        rights(paired_from_bottom(l, r)) == r,
{
    let n = if l.len() <= r.len() { l.len() as int } else { r.len() as int };
    let first = Seq::new((l.len() - n) as nat, |k: int| (Some(l[k]), None::<usize>));
    let second = Seq::new((r.len() - n) as nat, |k: int| (None::<usize>, Some(r[k])));
    let third = Seq::new(n as nat, |k: int| (Some(l[l.len() - n + k]), Some(r[r.len() - n + k])));
    assert(paired_from_bottom(l, r) == first + second + third);
    lemma_sides_concat(first + second, third);
    lemma_sides_concat(first, second);
    lemma_lefts_all(first, l.take(l.len() - n));
    lemma_rights_none(first);
    lemma_lefts_none(second);
    lemma_rights_all(second, r.take(r.len() - n));
    lemma_lefts_all(third, l.skip(l.len() - n));
    lemma_rights_all(third, r.skip(r.len() - n));
    assert(l.take(l.len() - n) + Seq::<usize>::empty() + l.skip(l.len() - n) =~= l);
    assert(Seq::<usize>::empty() + r.take(r.len() - n) + r.skip(r.len() - n) =~= r);
}

/// From row `at` on, re-pairing keeps each side's lines in order; with no
/// flag set it keeps the rows themselves.
proof fn lemma_realigned_from(
    rows: Seq<Row>,
    lhs_novel: Set<usize>,
    rhs_novel: Set<usize>,
    flags: Seq<bool>,
    at: int,
)
    requires
        0 <= at <= rows.len(),
    ensures
        lefts(realigned_from(rows, lhs_novel, rhs_novel, flags, at)) == lefts(rows.subrange(at, rows.len() as int)),
        rights(realigned_from(rows, lhs_novel, rhs_novel, flags, at)) == rights(
            rows.subrange(at, rows.len() as int),
        ),
        (forall|k: int| 0 <= k < flags.len() ==> !flags[k]) ==> realigned_from(
            rows,
            lhs_novel,
            rhs_novel,
            flags,
            at,
        ) == rows.subrange(at, rows.len() as int),
    decreases rows.len() - at,
{
    let tail = rows.subrange(at, rows.len() as int);
    if at == rows.len() {
        assert(tail =~= Seq::<Row>::empty());
    } else if unchanged_row(rows[at], lhs_novel, rhs_novel) {
        lemma_realigned_from(rows, lhs_novel, rhs_novel, flags, at + 1);
        assert(tail =~= seq![rows[at]] + rows.subrange(at + 1, rows.len() as int));
        lemma_sides_concat(seq![rows[at]], realigned_from(rows, lhs_novel, rhs_novel, flags, at + 1));
        lemma_sides_concat(seq![rows[at]], rows.subrange(at + 1, rows.len() as int));
    } else {
        let end = block_end(rows, lhs_novel, rhs_novel, at + 1);
        lemma_block_end(rows, lhs_novel, rhs_novel, at + 1);
        let block = rows.subrange(at, end);
        let rest = later_flags(flags);
        lemma_realigned_from(rows, lhs_novel, rhs_novel, rest, end);
        assert(tail =~= block + rows.subrange(end, rows.len() as int));
        lemma_sides_concat(settled(block, first_flag(flags)), realigned_from(rows, lhs_novel, rhs_novel, rest, end));
        lemma_sides_concat(block, rows.subrange(end, rows.len() as int));
        lemma_paired_from_bottom(lefts(block), rights(block));
        if forall|k: int| 0 <= k < flags.len() ==> !flags[k] {
            assert(!first_flag(flags));
            assert forall|k: int| 0 <= k < rest.len() implies !rest[k] by {
                assert(rest[k] == flags[k + 1]);
            }
        }
    }
}

/// Re-pairing the changed blocks keeps every line of each side, in order:
/// only which lines share a row changes.
pub proof fn realigning_keeps_each_side_in_order(
    rows: Seq<Row>,
    lhs_novel: Set<usize>,
    rhs_novel: Set<usize>,
    bottom: Seq<bool>,
)
    ensures
        lefts(realigned_from(rows, lhs_novel, rhs_novel, bottom, 0)) == lefts(rows),
        rights(realigned_from(rows, lhs_novel, rhs_novel, bottom, 0)) == rights(rows),
{
    lemma_realigned_from(rows, lhs_novel, rhs_novel, bottom, 0);
    assert(rows.subrange(0, rows.len() as int) =~= rows);
}

/// Blocks that read no better from the bottom keep their rows: with no
/// flag set, the alignment is unchanged.
pub proof fn no_flag_keeps_the_rows(
    rows: Seq<Row>,
    lhs_novel: Set<usize>,
    rhs_novel: Set<usize>,
    bottom: Seq<bool>,
)
    requires
        forall|k: int| 0 <= k < bottom.len() ==> !bottom[k],
    ensures
        realigned_from(rows, lhs_novel, rhs_novel, bottom, 0) == rows,
{
    lemma_realigned_from(rows, lhs_novel, rhs_novel, bottom, 0);
    assert(rows.subrange(0, rows.len() as int) =~= rows);
}

} // verus!
