//! Fold line spans made a strict tree, and the lines where leaves split.
//!
//! A span is a half-open range of lines `(start, end)`. Leaves tile whole
//! lines, so two folds may share a line only when one holds the other; the
//! parser can hand over folds that cross on one line, such as a collection
//! whose closer sits on the line that opens the next body.
use crate::tree::line_set_insert;
use vstd::prelude::*;

verus! {

/// Every span ends no earlier than it starts.
pub open spec fn spans_sane(spans: Seq<(usize, usize)>) -> bool {
    forall|i: int| 0 <= i < spans.len() ==> (#[trigger] spans[i]).0 <= spans[i].1
}

/// Span `j` crosses span `i` from inside: it starts inside `i`, after
/// `i` starts, and ends after `i` ends.
pub open spec fn crosses_into(spans: Seq<(usize, usize)>, i: int, j: int) -> bool {
    spans[i].0 < spans[j].0 < spans[i].1 < spans[j].1
}

/// The earliest start among the first `n` spans that cross span `i`, or
/// `i`'s own end when none of them does.
pub open spec fn earliest_crossing(spans: Seq<(usize, usize)>, i: int, n: int) -> int
    decreases n,
{
    if n <= 0 {
        spans[i].1 as int
    } else {
        let rest = earliest_crossing(spans, i, n - 1);
        if crosses_into(spans, i, n - 1) && spans[n - 1].0 < rest {
            spans[n - 1].0 as int
        } else {
            rest
        }
    }
}

/// Where span `i` ends once it has given its shared lines away: at the
/// start of the earliest span that crosses it, or at its own end.
pub open spec fn clipped_end(spans: Seq<(usize, usize)>, i: int) -> int {
    earliest_crossing(spans, i, spans.len() as int)
}

/// What is left of span `i`: its start and clipped end, or nothing when
/// that leaves fewer than two lines, which hide nothing.
pub open spec fn nested_span(spans: Seq<(usize, usize)>, i: int) -> Option<(usize, usize)> {
    if clipped_end(spans, i) - spans[i].0 >= 2 {
        Some((spans[i].0, clipped_end(spans, i) as usize))
    } else {
        None
    }
}

/// The earliest crossing start is the end of `i` or a crossing span's
/// start, and no crossing span among the first `n` starts earlier.
proof fn lemma_earliest_crossing(spans: Seq<(usize, usize)>, i: int, n: int)
    requires
        0 <= i < spans.len(),
        0 <= n <= spans.len(),
    ensures
        earliest_crossing(spans, i, n) <= spans[i].1,
        earliest_crossing(spans, i, n) == spans[i].1 || exists|k: int|
            0 <= k < n && crosses_into(spans, i, k) && spans[k].0 == earliest_crossing(spans, i, n),
        forall|k: int| 0 <= k < n && crosses_into(spans, i, k) ==> earliest_crossing(spans, i, n) <= spans[k].0,
    decreases n,
{
    if n > 0 {
        lemma_earliest_crossing(spans, i, n - 1);
    }
}

/// Spans `a` and `b` of a strict tree: one holds the other, or they share
/// no line.
pub open spec fn nested_or_disjoint(a: (usize, usize), b: (usize, usize)) -> bool {
    ||| a.1 <= b.0
    ||| b.1 <= a.0
    ||| a.0 <= b.0 && b.1 <= a.1
    ||| b.0 <= a.0 && a.1 <= b.1
}

/// No clipped span `b` starts inside clipped span `a` and ends after it.
proof fn lemma_no_crossing(spans: Seq<(usize, usize)>, a: int, b: int)
    requires
        spans_sane(spans),
        0 <= a < spans.len(),
        0 <= b < spans.len(),
    ensures
        !(spans[a].0 < spans[b].0 < clipped_end(spans, a) < clipped_end(spans, b)),
{
    let n = spans.len() as int;
    lemma_earliest_crossing(spans, a, n);
    lemma_earliest_crossing(spans, b, n);
    if spans[a].0 < spans[b].0 < clipped_end(spans, a) < clipped_end(spans, b) {
        if clipped_end(spans, a) == spans[a].1 {
            assert(crosses_into(spans, a, b));
        } else {
            let k = choose|k: int| 0 <= k < n && crosses_into(spans, a, k) && spans[k].0 == clipped_end(spans, a);
            if spans[a].1 < spans[b].1 {
                assert(crosses_into(spans, a, b));
            } else {
                assert(crosses_into(spans, b, k));
            }
        }
    }
}

/// The spans left make a strict tree: any two of them are nested or share
/// no line; each keeps its start, ends no later than it did, and holds at
/// least two lines.
pub proof fn nested_spans_form_a_tree(spans: Seq<(usize, usize)>)
    requires
        spans_sane(spans),
    ensures
        forall|i: int, j: int|
            0 <= i < spans.len() && 0 <= j < spans.len() && (#[trigger] nested_span(spans, i)) is Some && (
            #[trigger] nested_span(spans, j)) is Some ==> nested_or_disjoint(
                nested_span(spans, i)->0,
                nested_span(spans, j)->0,
            ),
        forall|i: int|
            0 <= i < spans.len() && (#[trigger] nested_span(spans, i)) is Some ==> {
                let (start, end) = nested_span(spans, i)->0;
                start == spans[i].0 && end <= spans[i].1 && start + 2 <= end
            },
{
    assert forall|i: int, j: int|
        0 <= i < spans.len() && 0 <= j < spans.len() && (#[trigger] nested_span(spans, i)) is Some && (
        #[trigger] nested_span(spans, j)) is Some implies nested_or_disjoint(
            nested_span(spans, i)->0,
            nested_span(spans, j)->0,
        ) by {
        lemma_no_crossing(spans, i, j);
        lemma_no_crossing(spans, j, i);
        lemma_earliest_crossing(spans, i, spans.len() as int);
        lemma_earliest_crossing(spans, j, spans.len() as int);
        let a = nested_span(spans, i)->0;
        let b = nested_span(spans, j)->0;
        assert(a == (spans[i].0, clipped_end(spans, i) as usize));
        assert(b == (spans[j].0, clipped_end(spans, j) as usize));
    }
    assert forall|i: int| 0 <= i < spans.len() && (#[trigger] nested_span(spans, i)) is Some implies {
        let (start, end) = nested_span(spans, i)->0;
        start == spans[i].0 && end <= spans[i].1 && start + 2 <= end
    } by {
        lemma_earliest_crossing(spans, i, spans.len() as int);
    }
}

/// Make fold line spans a strict tree: nested or disjoint, never crossing.
/// A span that another crosses from inside gives the shared lines to it,
/// ending where the earliest such span starts; a span left with fewer than
/// two lines hides nothing and is dropped (`None`). Output is in input
/// order.
pub fn nested_spans(spans: &[(usize, usize)]) -> (out: Vec<Option<(usize, usize)>>)
    requires
        spans_sane(spans@),
    ensures
        out@.len() == spans@.len(),
        forall|i: int| 0 <= i < spans@.len() ==> out@[i] == nested_span(spans@, i),
{
    let n = spans.len();
    let mut out: Vec<Option<(usize, usize)>> = Vec::new();
    let mut i: usize = 0;
    while i < n
        invariant
            n == spans@.len(),
            i <= n,
            spans_sane(spans@),
            out@.len() == i,
            forall|k: int| 0 <= k < i ==> out@[k] == nested_span(spans@, k),
        decreases n - i,
    {
        let (start, end) = spans[i];
        let mut clip: usize = end;
        let mut j: usize = 0;
        while j < n
            invariant
                n == spans@.len(),
                i < n,
                j <= n,
                (start, end) == spans@[i as int],
                clip == earliest_crossing(spans@, i as int, j as int),
            decreases n - j,
        {
            let (other_start, other_end) = spans[j];
            if start < other_start && other_start < end && end < other_end && other_start < clip {
                clip = other_start;
            }
            j += 1;
        }
        assert(start <= end);
        proof {
            lemma_earliest_crossing(spans@, i as int, n as int);
        }
        if clip - start >= 2 {
            out.push(Some((start, clip)));
        } else {
            out.push(None);
        }
        i += 1;
    }
    out
}

/// Whether a span starts or ends on `line`.
pub open spec fn touches(span: (usize, usize), line: usize) -> bool {
    span.0 == line || span.1 == line
}

/// Every line where a span starts or ends.
pub open spec fn split_lines_spec(spans: Seq<(usize, usize)>) -> Set<usize> {
    Set::new(|line: usize| exists|i: int| 0 <= i < spans.len() && #[trigger] touches(spans[i], line))
}

/// Every line where a span starts or ends: where leaves must split.
pub fn split_lines(spans: &[(usize, usize)]) -> (lines: std::collections::BTreeSet<usize>)
    ensures
        lines@ == split_lines_spec(spans@),
{
    let mut lines = std::collections::BTreeSet::new();
    let mut i: usize = 0;
    while i < spans.len()
        invariant
            i <= spans@.len(),
            lines@ == split_lines_spec(spans@.take(i as int)),
        decreases spans@.len() - i,
    {
        let (start, end) = spans[i];
        line_set_insert(&mut lines, start);
        line_set_insert(&mut lines, end);
        let ghost before = spans@.take(i as int);
        let ghost after = spans@.take(i + 1);
        assert(lines@ =~= split_lines_spec(after)) by {
            assert forall|line: usize| split_lines_spec(after).contains(line) implies lines@.contains(line) by {
                let k = choose|k: int| 0 <= k < i + 1 && #[trigger] touches(after[k], line);
                if k < i {
                    assert(before[k] == after[k]);
                    assert(touches(before[k], line));
                }
            }
            assert forall|line: usize| lines@.contains(line) implies split_lines_spec(after).contains(line) by {
                if line != start && line != end {
                    let k = choose|k: int| 0 <= k < i && #[trigger] touches(before[k], line);
                    assert(before[k] == after[k]);
                    assert(touches(after[k], line));
                } else {
                    assert(after[i as int] == (start, end));
                    assert(touches(after[i as int], line));
                }
            }
        }
        i += 1;
    }
    assert(spans@.take(spans@.len() as int) =~= spans@);
    lines
}

} // verus!
