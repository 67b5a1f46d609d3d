//! Collapse unchanged stretches far from any change.
//!
//! A line stays visible when it is within `lines` of a changed line on its
//! side, when it is paired with such a line, or when it opens or closes a
//! scope that holds a change on its side. Scopes are the folds this plugin's
//! queries tag `context:scope`, each covering its signature line through the
//! line that closes it. Every other stretch of unchanged paired lines that
//! is at least [`MIN_GAP`] lines long collapses, labelled with its line
//! count; a file with no change collapses whole, however short.
//!
//! A stretch is cut at region edges. The part in one list of siblings
//! collapses when it is at least [`MIN_GAP`] lines long or is the whole
//! stretch. When a part spans several siblings, only their enclosing group
//! collapses into one row on each side, provided the two sides' siblings
//! match one for one: leaves sharing an alignment, or folds sharing a fold
//! state. When they do not, the part is grouped with the other side's part
//! over the same lines, if there is one of two or more siblings. A fold in
//! it collapses only when every region on the other side in its fold state
//! lies wholly inside the stretch there.
use crate::apply::{steps, MoveError};
use crate::draft::{collapses_one, moves_model, Draft, MoveModel};
use crate::plugins::{ids_fit, start_of};
use crate::summarize::{split_terminated, terminated_lines};
use crate::text::{decimal, owned, push_decimal, push_str};
use crate::tree::{has_tag, id_set_contains, id_set_insert, is_fold, preorder, walk, Node, Pairing, Region, Source};
use crate::types::{FileEntry, Move};
use vstd::prelude::*;

verus! {

broadcast use vstd::std_specs::vec::group_vec_axioms, vstd::seq::group_seq_axioms, crate::draft::lemma_extends_collapses, crate::draft::lemma_extends_contains;

/// Collapsing fewer lines than this saves nothing worth a fold row.
pub const MIN_GAP: u32 = 3;

/// A fold the queries mark as a scope: a function, a type, a block.
pub const SCOPE: &'static str = "context:scope";

/// The part of a scope the queries mark as its body.
pub const BODY: &'static str = "context:body";

/// The plugin's options.
pub struct Options {
    /// Unchanged lines kept on either side of a change.
    pub lines: u32,
}

/// Collapse unchanged stretches far from any change.
pub struct Context {
    pub options: Options,
}

/// The label of a collapsed stretch: `"1 unchanged line"` or
/// `"<count> unchanged lines"`.
pub open spec fn unchanged_label_spec(count: nat) -> Seq<char> {
    if count == 1 {
        "1 unchanged line"@
    } else {
        decimal(count) + " unchanged lines"@
    }
}

/// The label of a collapsed stretch of `count` lines.
pub fn unchanged_label(count: u64) -> (label: String)
    ensures
        label@ == unchanged_label_spec(count as nat),
{
    if count == 1 {
        owned("1 unchanged line")
    } else {
        let mut label = owned("");
        proof {
            reveal_strlit("");
        }
        push_decimal(&mut label, count);
        push_str(&mut label, " unchanged lines");
        label
    }
}

/// One leaf, as far as context cares.
#[derive(Debug, Clone, Copy, PartialEq, Eq, Structural)]
pub struct Leaf {
    pub alignment: u32,
    pub start: u32,
    pub end: u32,
    /// Whether a leaf on the other side has the same alignment.
    pub paired: bool,
    /// Whether this side paints any byte of it as changed.
    pub spans: bool,
}

/// The leaves among `visited`, in order, each paired when `other` holds
/// its alignment.
pub open spec fn leaves_spec(visited: Seq<Region>, other: Set<u32>) -> Seq<Leaf>
    decreases visited.len(),
{
    if visited.len() == 0 {
        Seq::empty()
    } else {
        let rest = leaves_spec(visited.drop_last(), other);
        let r = visited.last();
        match r.node {
            Node::Leaf { alignment_id, changed } => rest.push(
                Leaf {
                    alignment: alignment_id,
                    start: r.range.start.line,
                    end: r.range.end.line,
                    paired: other.contains(alignment_id),
                    spans: changed@.len() > 0,
                },
            ),
            Node::Fold { .. } => rest,
        }
    }
}

/// The leaves of `regions`, in document order.
pub fn leaves(regions: &[Region], other: &std::collections::BTreeSet<u32>) -> (found: Vec<Leaf>)
    ensures
        found@ == leaves_spec(preorder(regions@), other@),
{
    let visited = walk(regions);
    let ghost seen = visited@.map_values(|r: &Region| *r);
    let mut found: Vec<Leaf> = Vec::new();
    let mut i: usize = 0;
    while i < visited.len()
        invariant
            i <= visited@.len(),
            seen == visited@.map_values(|r: &Region| *r),
            seen == preorder(regions@),
            found@ == leaves_spec(seen.take(i as int), other@),
        decreases visited@.len() - i,
    {
        let region = visited[i];
        assert(seen.take(i + 1).drop_last() =~= seen.take(i as int));
        assert(seen.take(i + 1).last() == *region);
        match &region.node {
            Node::Leaf { alignment_id, changed } => {
                found.push(
                    Leaf {
                        alignment: *alignment_id,
                        start: region.range.start.line,
                        end: region.range.end.line,
                        paired: id_set_contains(other, *alignment_id),
                        spans: changed.len() > 0,
                    },
                );
            },
            Node::Fold { .. } => {},
        }
        i += 1;
    }
    assert(seen.take(seen.len() as int) =~= seen);
    found
}

/// The alignments of the leaves of `regions`.
pub fn leaf_alignments(regions: &[Region]) -> (alignments: std::collections::BTreeSet<u32>)
    ensures
        alignments@ == crate::tree::leaf_alignments(preorder(regions@)),
{
    let visited = walk(regions);
    let ghost seen = visited@.map_values(|r: &Region| *r);
    let mut alignments = std::collections::BTreeSet::new();
    let mut i: usize = 0;
    while i < visited.len()
        invariant
            i <= visited@.len(),
            seen == visited@.map_values(|r: &Region| *r),
            seen == preorder(regions@),
            alignments@ == crate::tree::leaf_alignments(seen.take(i as int)),
        decreases visited@.len() - i,
    {
        let region = visited[i];
        assert(seen.take(i + 1) =~= seen.take(i as int) + seq![*region]);
        proof {
            crate::tree::lemma_leaf_alignments_concat(seen.take(i as int), seq![*region]);
            crate::tree::lemma_sets_of_one(*region);
        }
        if let Some(alignment) = region.alignment_id() {
            id_set_insert(&mut alignments, alignment);
        }
        assert(alignments@ =~= crate::tree::leaf_alignments(seen.take(i + 1)));
        i += 1;
    }
    assert(seen.take(seen.len() as int) =~= seen);
    alignments
}

/// A region a stretch covers in one list of siblings: whole, or the lines
/// `start..end` of a leaf, relative to the leaf's first line.
#[derive(Debug, Clone, Copy, PartialEq, Eq, Structural)]
#[allow(inconsistent_fields)]
pub enum Member {
    /// `state` is a fold's fold state, and `None` for a leaf; `alignment`
    /// is a leaf's alignment, and `None` for a fold.
    Whole { id: u32, lines: u32, state: Option<u32>, alignment: Option<u32> },
    Part { id: u32, alignment: u32, start: u32, end: u32 },
}

impl Member {
    /// A member as a stretch's parts hold it: a whole region is a fold or a
    /// leaf, and a piece of a leaf holds at least one line.
    pub open spec fn sound(self) -> bool {
        match self {
            Member::Whole { state, alignment, .. } => state is Some || alignment is Some,
            Member::Part { start, end, .. } => start < end,
        }
    }

    pub open spec fn lines_spec(self) -> nat {
        match self {
            Member::Whole { lines, .. } => lines as nat,
            Member::Part { start, end, .. } => (end - start) as nat,
        }
    }

    /// How many lines the member covers.
    pub fn lines(&self) -> (lines: u32)
        requires
            self.sound(),
        ensures
            lines == self.lines_spec(),
    {
        match self {
            Member::Whole { lines, .. } => *lines,
            Member::Part { start, end, .. } => *end - *start,
        }
    }

    pub open spec fn key_spec(self) -> (bool, u32, u32) {
        match self {
            Member::Whole { state: Some(state), .. } => (true, state, 0),
            Member::Whole { alignment, .. } => (false, alignment->0, 0),
            Member::Part { alignment, start, .. } => (false, alignment, (start + 1) as u32),
        }
    }

    /// What must match across sides: the leaf's alignment and which of its
    /// lines, or the fold state of a fold. Every region has its own id on
    /// each side.
    pub fn key(&self) -> (key: (bool, u32, u32))
        requires
            self.sound(),
        ensures
            key == self.key_spec(),
    {
        match self {
            Member::Whole { state: Some(state), .. } => (true, *state, 0),
            Member::Whole { alignment: Some(alignment), .. } => (false, *alignment, 0),
            Member::Whole { .. } => (false, 0, 0),
            Member::Part { alignment, start, .. } => (false, *alignment, *start + 1),
        }
    }
}

} // verus!

verus! {

/// The parts so far with the open one closed, when it holds anything.
pub open spec fn flushed(done: Seq<Seq<Member>>, current: Seq<Member>) -> Seq<Seq<Member>> {
    if current.len() > 0 {
        done.push(current)
    } else {
        done
    }
}

/// The member a region makes when the lines `start..end` cover it whole.
pub open spec fn whole_member(r: Region) -> Member {
    Member::Whole {
        id: r.id,
        lines: (r.range.end.line - r.range.start.line) as u32,
        state: if r.is_fold_spec() {
            Some(r.fold_state_id)
        } else {
            None
        },
        alignment: r.alignment(),
    }
}

/// The parts closed so far, and the one still open, as the lines
/// `start..end` run through `regions`: a region they miss closes the open
/// part; one they cover whole joins it; a leaf they cover in part joins it
/// as a piece; a fold they cover in part closes it, and its children's
/// parts follow.
pub open spec fn segment_scan(regions: Seq<Region>, start: u64, end: u64) -> (Seq<Seq<Member>>, Seq<Member>)
    decreases regions, 0int,
{
    if regions.len() == 0 {
        (Seq::empty(), Seq::empty())
    } else {
        let (done, current) = segment_scan(regions.drop_last(), start, end);
        let r = regions.last();
        let first = r.range.start.line as int;
        let last = r.range.end.line as int;
        if last <= start || first >= end {
            (flushed(done, current), Seq::empty())
        } else if start <= first && last <= end {
            (done, current.push(whole_member(r)))
        } else {
            match r.node {
                Node::Leaf { alignment_id, .. } => (
                    done,
                    current.push(
                        Member::Part {
                            id: r.id,
                            alignment: alignment_id,
                            start: (vstd::math::max(start as int, first as int) - first) as u32,
                            end: (vstd::math::min(end as int, last as int) - first) as u32,
                        },
                    ),
                ),
                Node::Fold { children } => {
                    proof {
                        assert(decreases_to!(regions => regions[regions.len() - 1]));
                    }
                    (flushed(done, current) + segments_spec(children@, start, end), Seq::empty())
                },
            }
        }
    }
}

/// The parts of the lines `start..end` in each list of siblings, in
/// document order.
pub open spec fn segments_spec(regions: Seq<Region>, start: u64, end: u64) -> Seq<Seq<Member>>
    decreases regions, 1int,
{
    let (done, current) = segment_scan(regions, start, end);
    flushed(done, current)
}

/// Every region of `regions`, and under them, ends no earlier than it
/// starts.
pub open spec fn spans_ordered(regions: Seq<Region>) -> bool {
    forall|k: int|
        0 <= k < preorder(regions).len() ==> (#[trigger] preorder(regions)[k]).range.start.line
            <= preorder(regions)[k].range.end.line
}

/// Every member of every part is sound.
pub open spec fn all_sound(parts: Seq<Seq<Member>>) -> bool {
    forall|i: int, j: int| 0 <= i < parts.len() && 0 <= j < parts[i].len() ==> (#[trigger] parts[i][j]).sound()
}

/// Every part holds at least one member.
pub open spec fn none_empty(parts: Seq<Seq<Member>>) -> bool {
    forall|i: int| 0 <= i < parts.len() ==> (#[trigger] parts[i]).len() > 0
}

/// The children of each region of `regions` end no earlier than they start
/// either.
proof fn lemma_ordered_children(regions: Seq<Region>, i: int)
    requires
        0 <= i < regions.len(),
        spans_ordered(regions),
    ensures
        spans_ordered(regions[i].children_spec()),
        regions[i].range.start.line <= regions[i].range.end.line,
{
    let r = regions[i];
    let under = r.children_spec();
    let rest = regions.subrange(i + 1, regions.len() as int);
    crate::tree::lemma_preorder_take(regions, i);
    assert(regions == regions.take(i + 1) + rest);
    crate::tree::lemma_preorder_concat(regions.take(i + 1), rest);
    let at = preorder(regions.take(i)).len() as int;
    assert(crate::tree::preorder_one(r) == seq![r] + preorder(under));
    assert(preorder(regions)[at] == r);
    assert forall|k: int| 0 <= k < preorder(under).len() implies (#[trigger] preorder(under)[k]).range.start.line
        <= preorder(under)[k].range.end.line by {
        assert(preorder(regions)[at + 1 + k] == preorder(under)[k]);
    }
}

proof fn lemma_flushed_parts(done: Seq<Seq<Member>>, current: Seq<Member>)
    requires
        all_sound(done),
        none_empty(done),
        forall|j: int| 0 <= j < current.len() ==> (#[trigger] current[j]).sound(),
    ensures
        all_sound(flushed(done, current)),
        none_empty(flushed(done, current)),
{
    if current.len() > 0 {
        let parts = done.push(current);
        assert forall|i: int, j: int| 0 <= i < parts.len() && 0 <= j < parts[i].len() implies (#[trigger] parts[i][j]).sound() by {
            if i < done.len() {
                assert(parts[i] == done[i]);
            }
        }
    }
}

proof fn lemma_parts_concat(a: Seq<Seq<Member>>, b: Seq<Seq<Member>>)
    requires
        all_sound(a),
        none_empty(a),
        all_sound(b),
        none_empty(b),
    ensures
        all_sound(a + b),
        none_empty(a + b),
{
    assert forall|i: int, j: int| 0 <= i < (a + b).len() && 0 <= j < (a + b)[i].len() implies (#[trigger] (a + b)[i][j]).sound() by {
        if i < a.len() {
            assert((a + b)[i] == a[i]);
        } else {
            assert((a + b)[i] == b[i - a.len()]);
        }
    }
    assert forall|i: int| 0 <= i < (a + b).len() implies (#[trigger] (a + b)[i]).len() > 0 by {
        if i < a.len() {
            assert((a + b)[i] == a[i]);
        } else {
            assert((a + b)[i] == b[i - a.len()]);
        }
    }
}

/// The parts of the lines `start..end` in each list of siblings, in
/// document order, appended to `out`.
pub fn segments(regions: &[Region], start: u64, end: u64, out: &mut Vec<Vec<Member>>)
    requires
        start < end,
        spans_ordered(regions@),
        all_sound(old(out)@.map_values(|p: Vec<Member>| p@)),
        none_empty(old(out)@.map_values(|p: Vec<Member>| p@)),
    ensures
        final(out)@.map_values(|p: Vec<Member>| p@) == old(out)@.map_values(|p: Vec<Member>| p@) + segments_spec(
            regions@,
            start,
            end,
        ),
        all_sound(final(out)@.map_values(|p: Vec<Member>| p@)),
        none_empty(final(out)@.map_values(|p: Vec<Member>| p@)),
    decreases regions@,
{
    let ghost base = old(out)@.map_values(|p: Vec<Member>| p@);
    let mut current: Vec<Member> = Vec::new();
    let mut i: usize = 0;
    assert(regions@.take(0) =~= Seq::<Region>::empty());
    assert(base + Seq::<Seq<Member>>::empty() =~= base);
    while i < regions.len()
        invariant
            i <= regions@.len(),
            start < end,
            spans_ordered(regions@),
            all_sound(base),
            none_empty(base),
            ({
                let (done, open) = segment_scan(regions@.take(i as int), start, end);
                &&& out@.map_values(|p: Vec<Member>| p@) == base + done
                &&& current@ == open
            }),
            all_sound(out@.map_values(|p: Vec<Member>| p@)),
            none_empty(out@.map_values(|p: Vec<Member>| p@)),
            forall|j: int| 0 <= j < current@.len() ==> (#[trigger] current@[j]).sound(),
        decreases regions@.len() - i,
    {
        let region = &regions[i];
        proof {
            lemma_ordered_children(regions@, i as int);
            assert(regions@.take(i + 1).drop_last() =~= regions@.take(i as int));
            assert(regions@.take(i + 1).last() == *region);
        }
        let first = region.range.start.line;
        let last = region.range.end.line;
        let first_wide = first as u64;
        let last_wide = last as u64;
        let ghost before = out@.map_values(|p: Vec<Member>| p@);
        let ghost open = current@;
        if last_wide <= start || first_wide >= end {
            if current.len() > 0 {
                let part = current;
                out.push(part);
                assert(out@.map_values(|p: Vec<Member>| p@) =~= before.push(open));
                proof {
                    lemma_flushed_parts(before, open);
                }
            }
            current = Vec::new();
        } else if start <= first_wide && last_wide <= end {
            let member = Member::Whole {
                id: region.id,
                lines: last - first,
                state: if is_fold(region) {
                    Some(region.fold_state_id)
                } else {
                    None
                },
                alignment: region.alignment_id(),
            };
            current.push(member);
        } else {
            match &region.node {
                Node::Leaf { alignment_id, .. } => {
                    let from: u32 = if start > first_wide {
                        (start - first_wide) as u32
                    } else {
                        0
                    };
                    let to: u32 = if end < last_wide {
                        (end - first_wide) as u32
                    } else {
                        last - first
                    };
                    current.push(Member::Part { id: region.id, alignment: *alignment_id, start: from, end: to });
                },
                Node::Fold { children } => {
                    if current.len() > 0 {
                        let part = current;
                        out.push(part);
                        assert(out@.map_values(|p: Vec<Member>| p@) =~= before.push(open));
                        proof {
                            lemma_flushed_parts(before, open);
                        }
                    }
                    current = Vec::new();
                    assert(decreases_to!(regions@ => regions@[i as int]));
                    let ghost mid = out@.map_values(|p: Vec<Member>| p@);
                    segments(children.as_slice(), start, end, out);
                    assert(out@.map_values(|p: Vec<Member>| p@) =~= before + flushed(Seq::empty(), open)
                        + segments_spec(children@, start, end)) by {
                        assert(mid =~= before + flushed(Seq::empty(), open));
                    }
                },
            }
        }
        proof {
            let (done0, open0) = segment_scan(regions@.take(i as int), start, end);
            assert(open0 == open);
            assert(before == base + done0);
            if last_wide <= start || first_wide >= end {
                assert(base + flushed(done0, open0) =~= before + flushed(Seq::empty(), open));
            } else if !(start <= first_wide && last_wide <= end) && region.node is Fold {
                assert(base + (flushed(done0, open0) + segments_spec(region.children_spec(), start, end)) =~= before
                    + flushed(Seq::empty(), open) + segments_spec(region.children_spec(), start, end));
            }
        }
        i += 1;
    }
    assert(regions@.take(regions@.len() as int) =~= regions@);
    if current.len() > 0 {
        let ghost before = out@.map_values(|p: Vec<Member>| p@);
        let ghost open = current@;
        let part = current;
        out.push(part);
        assert(out@.map_values(|p: Vec<Member>| p@) =~= before.push(open));
        proof {
            lemma_flushed_parts(before, open);
        }
    }
}

} // verus!

verus! {

/// The first of `children` the queries mark as the body.
pub open spec fn first_body(children: Seq<Region>) -> Option<Region>
    decreases children.len(),
{
    if children.len() == 0 {
        None
    } else if children[0].has_tag_spec(BODY@) {
        Some(children[0])
    } else {
        first_body(children.drop_first())
    }
}

/// One of `changed` is a line `r` touches.
pub open spec fn holds_change(r: Region, changed: Set<u32>) -> bool {
    exists|x: u32| #[trigger] changed.contains(x) && r.range.start.line <= x < r.range.lines_end()
}

/// The lines a scope keeps in view: its first and last, and every line of
/// its header up to its body.
pub open spec fn scope_lines(r: Region) -> Set<u32> {
    Set::new(
        |x: u32|
            x == r.range.start.line || x == r.range.lines_end() - 1 || match first_body(r.children_spec()) {
                Some(body) => r.range.start.line <= x < body.range.start.line,
                None => false,
            },
    )
}

/// The lines kept in view by the scopes among `visited` that hold one of
/// `changed`.
pub open spec fn scope_rows_spec(visited: Seq<Region>, changed: Set<u32>) -> Set<u32>
    decreases visited.len(),
{
    if visited.len() == 0 {
        Set::empty()
    } else {
        let rest = scope_rows_spec(visited.drop_last(), changed);
        let r = visited.last();
        if r.is_fold_spec() && r.has_tag_spec(SCOPE@) && holds_change(r, changed) {
            rest.union(scope_lines(r))
        } else {
            rest
        }
    }
}

/// Every region of `regions`, and under them, has a sane range that ends no
/// earlier than it starts.
pub open spec fn ranges_fit(regions: Seq<Region>) -> bool {
    &&& spans_ordered(regions)
    &&& crate::tree::all_sane(regions)
}

/// The first child the queries mark as the body.
fn find_body(children: &[Region]) -> (body: Option<&Region>)
    ensures
        match body {
            Some(b) => first_body(children@) == Some(*b),
            None => first_body(children@) is None,
        },
{
    let mut i: usize = 0;
    assert(children@.skip(0) =~= children@);
    while i < children.len()
        invariant
            i <= children@.len(),
            first_body(children@) == first_body(children@.skip(i as int)),
        decreases children@.len() - i,
    {
        assert(children@.skip(i as int)[0] == children@[i as int]);
        assert(children@.skip(i as int).drop_first() =~= children@.skip(i + 1));
        if has_tag(&children[i], BODY) {
            return Some(&children[i]);
        }
        i += 1;
    }
    None
}

/// Add the lines `from..to` to `set`.
fn insert_lines(set: &mut std::collections::BTreeSet<u32>, from: u32, to: u32)
    ensures
        final(set)@ == old(set)@.union(Set::new(|x: u32| from <= x < to)),
{
    let ghost start = old(set)@;
    let mut x: u32 = from;
    while x < to
        invariant
            from <= x,
            x <= to || x == from,
            set@ == start.union(Set::new(|y: u32| from <= y < x)),
        decreases to - x,
    {
        id_set_insert(set, x);
        assert(set@ =~= start.union(Set::new(|y: u32| from <= y < x + 1)));
        x += 1;
    }
    assert(set@ =~= start.union(Set::new(|y: u32| from <= y < to)));
}

/// Whether one of `changed` lies in `from..to`.
fn any_in(changed: &std::collections::BTreeSet<u32>, from: u32, to: u32) -> (found: bool)
    ensures
        found == exists|x: u32| #[trigger] changed@.contains(x) && from <= x < to,
{
    let mut x: u32 = from;
    while x < to
        invariant
            from <= x,
            forall|y: u32| from <= y < x ==> !(#[trigger] changed@.contains(y)),
        decreases to - x,
    {
        if id_set_contains(changed, x) {
            return true;
        }
        x += 1;
    }
    false
}

/// The first and last line of every scope on `regions` that holds a
/// changed line, plus its full header when the query marks the body.
pub fn scope_rows(regions: &[Region], changed: &std::collections::BTreeSet<u32>) -> (rows: std::collections::BTreeSet<
    u32,
>)
    requires
        ranges_fit(regions@),
    ensures
        rows@ == scope_rows_spec(preorder(regions@), changed@),
{
    let mut rows = std::collections::BTreeSet::new();
    add_scope_rows(regions, changed, &mut rows);
    assert(rows@ =~= scope_rows_spec(preorder(regions@), changed@));
    rows
}

/// Add the lines [`scope_rows`] keeps in view to `rows`.
fn add_scope_rows(regions: &[Region], changed: &std::collections::BTreeSet<u32>, rows: &mut std::collections::BTreeSet<
    u32,
>)
    requires
        ranges_fit(regions@),
    ensures
        final(rows)@ == old(rows)@.union(scope_rows_spec(preorder(regions@), changed@)),
{
    let ghost start = old(rows)@;
    let visited = walk(regions);
    let ghost seen = visited@.map_values(|r: &Region| *r);
    let mut i: usize = 0;
    assert(start.union(scope_rows_spec(seen.take(0), changed@)) =~= start);
    while i < visited.len()
        invariant
            i <= visited@.len(),
            seen == visited@.map_values(|r: &Region| *r),
            seen == preorder(regions@),
            ranges_fit(regions@),
            rows@ == start.union(scope_rows_spec(seen.take(i as int), changed@)),
        decreases visited@.len() - i,
    {
        let region = visited[i];
        assert(seen.take(i + 1).drop_last() =~= seen.take(i as int));
        assert(seen.take(i + 1).last() == *region);
        assert(seen[i as int] == *region);
        if is_fold(region) && has_tag(region, SCOPE) {
            let span = region.range.lines();
            if any_in(changed, span.start, span.end) {
                let ghost before = rows@;
                id_set_insert(rows, span.start);
                id_set_insert(rows, span.end - 1);
                if let Node::Fold { children } = &region.node {
                    if let Some(body) = find_body(children.as_slice()) {
                        insert_lines(rows, span.start, body.range.start.line);
                    }
                }
                assert(rows@ =~= before.union(scope_lines(*region)));
                assert(rows@ =~= start.union(scope_rows_spec(seen.take(i + 1), changed@)));
            }
        }
        i += 1;
    }
    assert(seen.take(seen.len() as int) =~= seen);
}

} // verus!

verus! {

/// Leaves by alignment, the later of two with one alignment kept.
pub open spec fn by_alignment(leaves: Seq<Leaf>) -> Map<u32, Leaf>
    decreases leaves.len(),
{
    if leaves.len() == 0 {
        Map::empty()
    } else {
        by_alignment(leaves.drop_last()).insert(leaves.last().alignment, leaves.last())
    }
}

/// The leaves by alignment.
fn leaf_map(leaves: &Vec<Leaf>) -> (map: std::collections::BTreeMap<u32, Leaf>)
    ensures
        map@ == by_alignment(leaves@),
{
    let mut map = std::collections::BTreeMap::new();
    let mut i: usize = 0;
    while i < leaves.len()
        invariant
            i <= leaves@.len(),
            map@ == by_alignment(leaves@.take(i as int)),
        decreases leaves@.len() - i,
    {
        assert(leaves@.take(i + 1).drop_last() =~= leaves@.take(i as int));
        assert(leaves@.take(i + 1).last() == leaves@[i as int]);
        map_insert_leaf(&mut map, leaves[i]);
        i += 1;
    }
    assert(leaves@.take(leaves@.len() as int) =~= leaves@);
    map
}

/// Keep `leaf` under its alignment.
fn map_insert_leaf(map: &mut std::collections::BTreeMap<u32, Leaf>, leaf: Leaf)
    ensures
        final(map)@ == old(map)@.insert(leaf.alignment, leaf),
{
    broadcast use vstd::laws_cmp::group_laws_cmp, vstd::std_specs::btree::group_btree_axioms;

    map.insert(leaf.alignment, leaf);
}

/// The leaf with this alignment, if any.
fn partner_in(map: &std::collections::BTreeMap<u32, Leaf>, alignment: u32) -> (found: Option<Leaf>)
    ensures
        found == if map@.contains_key(alignment) {
            Some(map@[alignment])
        } else {
            None
        },
{
    broadcast use vstd::laws_cmp::group_laws_cmp, vstd::std_specs::btree::group_btree_axioms;

    match map.get(&alignment) {
        Some(leaf) => Some(*leaf),
        None => None,
    }
}

/// The lines of `ranges`, each half-open.
pub open spec fn in_ranges(ranges: Seq<(u32, u32)>, x: u32) -> bool {
    exists|k: int| 0 <= k < ranges.len() && (#[trigger] ranges[k]).0 <= x < ranges[k].1
}

/// The lines of the leaves that change on their own side: unpaired, or
/// painted.
pub open spec fn novel_ranges(leaves: Seq<Leaf>) -> Seq<(u32, u32)>
    decreases leaves.len(),
{
    if leaves.len() == 0 {
        Seq::empty()
    } else {
        let rest = novel_ranges(leaves.drop_last());
        let leaf = leaves.last();
        if !leaf.paired || leaf.spans {
            rest.push((leaf.start, leaf.end))
        } else {
            rest
        }
    }
}

/// The partner of a paired lhs leaf, when the rhs holds one.
pub open spec fn partner(leaf: Leaf, rhs: Map<u32, Leaf>) -> Option<Leaf> {
    if leaf.paired && rhs.contains_key(leaf.alignment) {
        Some(rhs[leaf.alignment])
    } else {
        None
    }
}

/// The lines of the paired rows that change: on the lhs when `lhs` is set,
/// else on the rhs.
pub open spec fn pair_ranges(leaves: Seq<Leaf>, rhs: Map<u32, Leaf>, lhs: bool) -> Seq<(u32, u32)>
    decreases leaves.len(),
{
    if leaves.len() == 0 {
        Seq::empty()
    } else {
        let rest = pair_ranges(leaves.drop_last(), rhs, lhs);
        let leaf = leaves.last();
        match partner(leaf, rhs) {
            Some(p) => if leaf.spans || p.spans {
                rest.push(
                    if lhs {
                        (leaf.start, leaf.end)
                    } else {
                        (p.start, p.end)
                    },
                )
            } else {
                rest
            },
            None => rest,
        }
    }
}

/// Every unchanged paired leaf: its lhs start, its partner's start, and
/// its length.
pub open spec fn unchanged_spec(leaves: Seq<Leaf>, rhs: Map<u32, Leaf>) -> Seq<(u32, u32, u32)>
    decreases leaves.len(),
{
    if leaves.len() == 0 {
        Seq::empty()
    } else {
        let rest = unchanged_spec(leaves.drop_last(), rhs);
        let leaf = leaves.last();
        match partner(leaf, rhs) {
            Some(p) => if !leaf.spans && !p.spans {
                rest.push((leaf.start, p.start, (leaf.end - leaf.start) as u32))
            } else {
                rest
            },
            None => rest,
        }
    }
}

/// Every leaf ends no earlier than it starts.
pub open spec fn leaves_ordered(leaves: Seq<Leaf>) -> bool {
    forall|k: int| 0 <= k < leaves.len() ==> (#[trigger] leaves[k]).start <= leaves[k].end
}

proof fn lemma_leaves_ordered(visited: Seq<Region>, other: Set<u32>)
    requires
        forall|k: int| 0 <= k < visited.len() ==> (#[trigger] visited[k]).range.start.line <= visited[k].range.end.line,
    ensures
        leaves_ordered(leaves_spec(visited, other)),
    decreases visited.len(),
{
    if visited.len() > 0 {
        assert forall|k: int| 0 <= k < visited.drop_last().len() implies (#[trigger] visited.drop_last()[k]).range.start.line
            <= visited.drop_last()[k].range.end.line by {
            assert(visited.drop_last()[k] == visited[k]);
        }
        lemma_leaves_ordered(visited.drop_last(), other);
        assert(visited.last() == visited[visited.len() - 1]);
    }
}

/// Add `leaf`'s lines to `ranges` and to `set`.
fn add_range(ranges: &mut Vec<(u32, u32)>, set: &mut std::collections::BTreeSet<u32>, start: u32, end: u32)
    ensures
        final(ranges)@ == old(ranges)@.push((start, end)),
        final(set)@ == old(set)@.union(Set::new(|x: u32| start <= x < end)),
{
    ranges.push((start, end));
    insert_lines(set, start, end);
}

/// What changes on each side: the lines of leaves that change on their
/// own side, then the rows to keep in view around (each side's seeds, as
/// ranges), and the unchanged paired leaves.
fn changes(lhs: &Vec<Leaf>, rhs: &Vec<Leaf>) -> (found: (
    std::collections::BTreeSet<u32>,
    std::collections::BTreeSet<u32>,
    Vec<(u32, u32)>,
    Vec<(u32, u32)>,
    Vec<(u32, u32, u32)>,
))
    requires
        leaves_ordered(lhs@),
    ensures
        found.0@ == Set::new(|x: u32| in_ranges(novel_ranges(lhs@), x)),
        found.1@ == Set::new(|x: u32| in_ranges(novel_ranges(rhs@), x)),
        found.2@ == novel_ranges(lhs@) + pair_ranges(lhs@, by_alignment(rhs@), true),
        found.3@ == novel_ranges(rhs@) + pair_ranges(lhs@, by_alignment(rhs@), false),
        found.4@ == unchanged_spec(lhs@, by_alignment(rhs@)),
{
    let map = leaf_map(rhs);
    let mut novel_l = std::collections::BTreeSet::new();
    let mut novel_r = std::collections::BTreeSet::new();
    let mut seeds_l: Vec<(u32, u32)> = Vec::new();
    let mut seeds_r: Vec<(u32, u32)> = Vec::new();
    let mut i: usize = 0;
    assert(lhs@.take(0) =~= Seq::<Leaf>::empty());
    assert(rhs@.take(0) =~= Seq::<Leaf>::empty());
    assert(novel_l@ =~= Set::new(|x: u32| in_ranges(novel_ranges(lhs@.take(0)), x)));
    while i < lhs.len()
        invariant
            i <= lhs@.len(),
            seeds_l@ == novel_ranges(lhs@.take(i as int)),
            novel_l@ == Set::new(|x: u32| in_ranges(novel_ranges(lhs@.take(i as int)), x)),
        decreases lhs@.len() - i,
    {
        let leaf = lhs[i];
        assert(lhs@.take(i + 1).drop_last() =~= lhs@.take(i as int));
        assert(lhs@.take(i + 1).last() == leaf);
        let ghost before = seeds_l@;
        let ghost before_set = novel_l@;
        if !leaf.paired || leaf.spans {
            add_range(&mut seeds_l, &mut novel_l, leaf.start, leaf.end);
        }
        proof {
            let now = novel_ranges(lhs@.take(i + 1));
            if !leaf.paired || leaf.spans {
                assert(now == before.push((leaf.start, leaf.end)));
            } else {
                assert(now == before);
            }
            assert forall|x: u32| novel_l@.contains(x) == in_ranges(now, x) by {
                if in_ranges(now, x) {
                    let k = choose|k: int| 0 <= k < now.len() && (#[trigger] now[k]).0 <= x < now[k].1;
                    if k < before.len() {
                        assert(now[k] == before[k]);
                        assert(before_set.contains(x));
                    } else {
                        assert(now[k] == (leaf.start, leaf.end));
                    }
                }
                if in_ranges(before, x) {
                    let k = choose|k: int| 0 <= k < before.len() && (#[trigger] before[k]).0 <= x < before[k].1;
                    assert(now[k] == before[k]);
                }
                if (!leaf.paired || leaf.spans) && leaf.start <= x < leaf.end {
                    assert(now[before.len() as int] == (leaf.start, leaf.end));
                }
            }
            assert(novel_l@ =~= Set::new(|x: u32| in_ranges(now, x)));
        }
        i += 1;
    }
    assert(lhs@.take(lhs@.len() as int) =~= lhs@);
    let mut j: usize = 0;
    assert(novel_r@ =~= Set::new(|x: u32| in_ranges(novel_ranges(rhs@.take(0)), x)));
    while j < rhs.len()
        invariant
            j <= rhs@.len(),
            seeds_r@ == novel_ranges(rhs@.take(j as int)),
            novel_r@ == Set::new(|x: u32| in_ranges(novel_ranges(rhs@.take(j as int)), x)),
        decreases rhs@.len() - j,
    {
        let leaf = rhs[j];
        assert(rhs@.take(j + 1).drop_last() =~= rhs@.take(j as int));
        assert(rhs@.take(j + 1).last() == leaf);
        let ghost before = seeds_r@;
        let ghost before_set = novel_r@;
        if !leaf.paired || leaf.spans {
            add_range(&mut seeds_r, &mut novel_r, leaf.start, leaf.end);
        }
        proof {
            let now = novel_ranges(rhs@.take(j + 1));
            if !leaf.paired || leaf.spans {
                assert(now == before.push((leaf.start, leaf.end)));
            } else {
                assert(now == before);
            }
            assert forall|x: u32| novel_r@.contains(x) == in_ranges(now, x) by {
                if in_ranges(now, x) {
                    let k = choose|k: int| 0 <= k < now.len() && (#[trigger] now[k]).0 <= x < now[k].1;
                    if k < before.len() {
                        assert(now[k] == before[k]);
                        assert(before_set.contains(x));
                    } else {
                        assert(now[k] == (leaf.start, leaf.end));
                    }
                }
                if in_ranges(before, x) {
                    let k = choose|k: int| 0 <= k < before.len() && (#[trigger] before[k]).0 <= x < before[k].1;
                    assert(now[k] == before[k]);
                }
                if (!leaf.paired || leaf.spans) && leaf.start <= x < leaf.end {
                    assert(now[before.len() as int] == (leaf.start, leaf.end));
                }
            }
            assert(novel_r@ =~= Set::new(|x: u32| in_ranges(now, x)));
        }
        j += 1;
    }
    assert(rhs@.take(rhs@.len() as int) =~= rhs@);
    let ghost novel_seeds_l = seeds_l@;
    let ghost novel_seeds_r = seeds_r@;
    let mut unchanged: Vec<(u32, u32, u32)> = Vec::new();
    let mut k: usize = 0;
    assert(novel_seeds_l + pair_ranges(lhs@.take(0), map@, true) =~= novel_seeds_l);
    assert(novel_seeds_r + pair_ranges(lhs@.take(0), map@, false) =~= novel_seeds_r);
    while k < lhs.len()
        invariant
            k <= lhs@.len(),
            leaves_ordered(lhs@),
            map@ == by_alignment(rhs@),
            seeds_l@ == novel_seeds_l + pair_ranges(lhs@.take(k as int), map@, true),
            seeds_r@ == novel_seeds_r + pair_ranges(lhs@.take(k as int), map@, false),
            unchanged@ == unchanged_spec(lhs@.take(k as int), map@),
        decreases lhs@.len() - k,
    {
        let leaf = lhs[k];
        assert(lhs@.take(k + 1).drop_last() =~= lhs@.take(k as int));
        assert(lhs@.take(k + 1).last() == leaf);
        assert(lhs@[k as int] == leaf);
        let found = if leaf.paired {
            partner_in(&map, leaf.alignment)
        } else {
            None
        };
        match found {
            Some(p) => {
                if leaf.spans || p.spans {
                    seeds_l.push((leaf.start, leaf.end));
                    seeds_r.push((p.start, p.end));
                } else {
                    unchanged.push((leaf.start, p.start, leaf.end - leaf.start));
                }
            },
            None => {},
        }
        k += 1;
    }
    (novel_l, novel_r, seeds_l, seeds_r, unchanged)
}

} // verus!

verus! {

/// Line `x` is within `lines` of line `s`, and before line `count`.
pub open spec fn near(s: u32, x: u32, lines: u32, count: u32) -> bool {
    &&& (if s >= lines {
        s - lines
    } else {
        0
    }) <= x
    &&& x < vstd::math::min(s + lines + 1, count as int)
}

/// The lines within `lines` of a line of `seeds`, before line `count`.
pub open spec fn shown_spec(seeds: Seq<(u32, u32)>, lines: u32, count: u32) -> Set<u32> {
    Set::new(
        |x: u32|
            exists|k: int, s: u32|
                #![trigger seeds[k], near(s, x, lines, count)]
                0 <= k < seeds.len() && seeds[k].0 <= s < seeds[k].1 && near(s, x, lines, count),
    )
}

/// Add the lines within `lines` of line `s`, before line `count`.
fn insert_window(set: &mut std::collections::BTreeSet<u32>, s: u32, lines: u32, count: u32)
    ensures
        final(set)@ == old(set)@.union(Set::new(|x: u32| near(s, x, lines, count))),
{
    let low = if s >= lines {
        s - lines
    } else {
        0
    };
    let wide: u64 = s as u64 + lines as u64 + 1;
    let high: u32 = if wide < count as u64 {
        wide as u32
    } else {
        count
    };
    insert_lines(set, low, high);
    assert(Set::new(|x: u32| low <= x < high) =~= Set::new(|x: u32| near(s, x, lines, count)));
}

/// The lines within `lines` of a line of `seeds`, before line `count`.
fn shown_lines(seeds: &Vec<(u32, u32)>, lines: u32, count: u32) -> (shown: std::collections::BTreeSet<u32>)
    ensures
        shown@ == shown_spec(seeds@, lines, count),
{
    let mut shown = std::collections::BTreeSet::new();
    let mut k: usize = 0;
    assert(shown@ =~= shown_spec(seeds@.take(0), lines, count));
    while k < seeds.len()
        invariant
            k <= seeds@.len(),
            shown@ == shown_spec(seeds@.take(k as int), lines, count),
        decreases seeds@.len() - k,
    {
        let (from, to) = seeds[k];
        let ghost base = shown@;
        let mut s: u32 = from;
        assert(base.union(Set::new(|x: u32| exists|t: u32| from <= t < from && #[trigger] near(t, x, lines, count)))
            =~= base);
        while s < to
            invariant
                from <= s,
                s <= to || s == from,
                shown@ == base.union(
                    Set::new(|x: u32| exists|t: u32| from <= t < s && #[trigger] near(t, x, lines, count)),
                ),
            decreases to - s,
        {
            let ghost before = shown@;
            insert_window(&mut shown, s, lines, count);
            assert forall|x: u32| shown@.contains(x) == base.union(
                Set::new(|x: u32| exists|t: u32| from <= t < s + 1 && #[trigger] near(t, x, lines, count)),
            ).contains(x) by {
                if exists|t: u32| from <= t < s + 1 && #[trigger] near(t, x, lines, count) {
                    let t = choose|t: u32| from <= t < s + 1 && #[trigger] near(t, x, lines, count);
                    if t < s {
                        assert(before.contains(x));
                    }
                }
            }
            assert(shown@ =~= base.union(
                Set::new(|x: u32| exists|t: u32| from <= t < s + 1 && #[trigger] near(t, x, lines, count)),
            ));
            s += 1;
        }
        proof {
            let now = seeds@.take(k + 1);
            let was = seeds@.take(k as int);
            assert(now[k as int] == (from, to));
            assert forall|x: u32| shown@.contains(x) == shown_spec(now, lines, count).contains(x) by {
                if shown_spec(now, lines, count).contains(x) {
                    let (j, t) = choose|j: int, t: u32|
                        #![trigger now[j], near(t, x, lines, count)]
                        0 <= j < now.len() && now[j].0 <= t < now[j].1 && near(t, x, lines, count);
                    if j < k {
                        assert(was[j] == now[j]);
                        assert(shown_spec(was, lines, count).contains(x));
                    } else {
                        assert(from <= t < s);
                    }
                }
                if base.contains(x) {
                    let (j, t) = choose|j: int, t: u32|
                        #![trigger was[j], near(t, x, lines, count)]
                        0 <= j < was.len() && was[j].0 <= t < was[j].1 && near(t, x, lines, count);
                    assert(now[j] == was[j]);
                }
                if exists|t: u32| from <= t < s && #[trigger] near(t, x, lines, count) {
                    let t = choose|t: u32| from <= t < s && #[trigger] near(t, x, lines, count);
                    assert(now[k as int] == (from, to));
                }
            }
            assert(shown@ =~= shown_spec(now, lines, count));
        }
        k += 1;
    }
    assert(seeds@.take(seeds@.len() as int) =~= seeds@);
    shown
}

/// The rows of one unchanged paired leaf left hidden, among its first
/// `offsets`: all when nothing changed, else those whose line is shown on
/// neither side.
pub open spec fn hidden_of(entry: (u32, u32, u32), offsets: nat, shown_l: Set<u32>, shown_r: Set<u32>, changed: bool) -> Seq<
    (u64, u64),
>
    decreases offsets,
{
    if offsets == 0 {
        Seq::empty()
    } else {
        let rest = hidden_of(entry, (offsets - 1) as nat, shown_l, shown_r, changed);
        let l = entry.0 + offsets - 1;
        let r = entry.1 + offsets - 1;
        if !changed || (!(l <= u32::MAX && shown_l.contains(l as u32)) && !(r <= u32::MAX && shown_r.contains(
            r as u32,
        ))) {
            rest.push((l as u64, r as u64))
        } else {
            rest
        }
    }
}

/// The hidden rows of the unchanged paired leaves, as (lhs line, rhs line),
/// in the leaves' order.
pub open spec fn hidden_spec(unchanged: Seq<(u32, u32, u32)>, shown_l: Set<u32>, shown_r: Set<u32>, changed: bool) -> Seq<
    (u64, u64),
>
    decreases unchanged.len(),
{
    if unchanged.len() == 0 {
        Seq::empty()
    } else {
        hidden_spec(unchanged.drop_last(), shown_l, shown_r, changed) + hidden_of(
            unchanged.last(),
            unchanged.last().2 as nat,
            shown_l,
            shown_r,
            changed,
        )
    }
}

/// Both lines of a row fit well below the largest `u64`.
pub open spec fn row_fits(row: (u64, u64)) -> bool {
    row.0 <= 2 * (u32::MAX as int) && row.1 <= 2 * (u32::MAX as int)
}

/// The hidden rows of the unchanged paired leaves.
fn hidden_rows(
    unchanged: &Vec<(u32, u32, u32)>,
    shown_l: &std::collections::BTreeSet<u32>,
    shown_r: &std::collections::BTreeSet<u32>,
    changed: bool,
) -> (rows: Vec<(u64, u64)>)
    ensures
        rows@ == hidden_spec(unchanged@, shown_l@, shown_r@, changed),
        forall|k: int| 0 <= k < rows@.len() ==> row_fits(#[trigger] rows@[k]),
{
    let mut rows: Vec<(u64, u64)> = Vec::new();
    let mut i: usize = 0;
    assert(unchanged@.take(0) =~= Seq::<(u32, u32, u32)>::empty());
    while i < unchanged.len()
        invariant
            i <= unchanged@.len(),
            rows@ == hidden_spec(unchanged@.take(i as int), shown_l@, shown_r@, changed),
            forall|k: int| 0 <= k < rows@.len() ==> row_fits(#[trigger] rows@[k]),
        decreases unchanged@.len() - i,
    {
        let (ls, rs, len) = unchanged[i];
        let ghost base = rows@;
        let mut offset: u32 = 0;
        assert(base + hidden_of(unchanged@[i as int], 0, shown_l@, shown_r@, changed) =~= base);
        while offset < len
            invariant
                offset <= len,
                unchanged@[i as int] == (ls, rs, len),
                rows@ == base + hidden_of((ls, rs, len), offset as nat, shown_l@, shown_r@, changed),
                forall|k: int| 0 <= k < rows@.len() ==> row_fits(#[trigger] rows@[k]),
            decreases len - offset,
        {
            let l: u64 = ls as u64 + offset as u64;
            let r: u64 = rs as u64 + offset as u64;
            let seen_l = l <= 0xffff_ffff && id_set_contains(shown_l, l as u32);
            let seen_r = r <= 0xffff_ffff && id_set_contains(shown_r, r as u32);
            let ghost before = rows@;
            if !changed || (!seen_l && !seen_r) {
                rows.push((l, r));
            }
            assert(rows@ =~= base + hidden_of((ls, rs, len), (offset + 1) as nat, shown_l@, shown_r@, changed));
            offset += 1;
        }
        assert(unchanged@.take(i + 1).drop_last() =~= unchanged@.take(i as int));
        assert(unchanged@.take(i + 1).last() == (ls, rs, len));
        i += 1;
    }
    assert(unchanged@.take(unchanged@.len() as int) =~= unchanged@);
    rows
}

/// Rows in order: by lhs line, then rhs line.
pub open spec fn row_le(a: (u64, u64), b: (u64, u64)) -> bool {
    a.0 < b.0 || (a.0 == b.0 && a.1 <= b.1)
}

pub open spec fn rows_sorted(rows: Seq<(u64, u64)>) -> bool {
    forall|i: int, j: int| 0 <= i < j < rows.len() ==> row_le(#[trigger] rows[i], #[trigger] rows[j])
}

/// The rows sorted by lhs line, then rhs line, each kept as often as it
/// occurs.
fn sort_rows(rows: Vec<(u64, u64)>) -> (sorted: Vec<(u64, u64)>)
    requires
        forall|k: int| 0 <= k < rows@.len() ==> row_fits(#[trigger] rows@[k]),
    ensures
        rows_sorted(sorted@),
        sorted@.to_multiset() == rows@.to_multiset(),
        forall|k: int| 0 <= k < sorted@.len() ==> row_fits(#[trigger] sorted@[k]),
{
    let mut sorted: Vec<(u64, u64)> = Vec::new();
    let mut i: usize = 0;
    assert(rows@.take(0) =~= Seq::<(u64, u64)>::empty());
    while i < rows.len()
        invariant
            i <= rows@.len(),
            forall|k: int| 0 <= k < rows@.len() ==> row_fits(#[trigger] rows@[k]),
            rows_sorted(sorted@),
            sorted@.to_multiset() == rows@.take(i as int).to_multiset(),
            forall|k: int| 0 <= k < sorted@.len() ==> row_fits(#[trigger] sorted@[k]),
        decreases rows@.len() - i,
    {
        let row = rows[i];
        let mut pos: usize = sorted.len();
        while pos > 0 && !(sorted[pos - 1].0 < row.0 || (sorted[pos - 1].0 == row.0 && sorted[pos - 1].1 <= row.1))
            invariant
                pos <= sorted@.len(),
                forall|k: int| pos <= k < sorted@.len() ==> !row_le(#[trigger] sorted@[k], row),
            decreases pos,
        {
            pos -= 1;
        }
        let ghost before = sorted@;
        sorted.insert(pos, row);
        proof {
            assert(sorted@ == before.insert(pos as int, row));
            assert forall|a: int, b: int| 0 <= a < b < sorted@.len() implies row_le(
                #[trigger] sorted@[a],
                #[trigger] sorted@[b],
            ) by {
                if b < pos {
                    assert(row_le(before[a], before[b]));
                } else if b == pos {
                    if a < pos - 1 {
                        assert(row_le(before[a], before[pos - 1]));
                    }
                } else if a < pos {
                    assert(row_le(before[a], before[b - 1]));
                } else if a == pos {
                    assert(!row_le(before[b - 1], row));
                } else {
                    assert(row_le(before[a - 1], before[b - 1]));
                }
            }
            assert(rows@.take(i + 1) =~= rows@.take(i as int).push(row));
            vstd::seq_lib::to_multiset_insert(before, pos as int, row);
            vstd::seq_lib::to_multiset_build(rows@.take(i as int), row);
        }
        i += 1;
    }
    assert(rows@.take(rows@.len() as int) =~= rows@);
    sorted
}

/// Sorted rows merged into stretches: a row that continues the last
/// stretch on both sides extends it.
pub open spec fn stretches_spec(rows: Seq<(u64, u64)>) -> Seq<((u64, u64), (u64, u64))>
    decreases rows.len(),
{
    if rows.len() == 0 {
        Seq::empty()
    } else {
        let rest = stretches_spec(rows.drop_last());
        let (l, r) = rows.last();
        if rest.len() > 0 && rest.last().0.1 == l && rest.last().1.1 == r {
            rest.update(rest.len() - 1, ((rest.last().0.0, (l + 1) as u64), (rest.last().1.0, (r + 1) as u64)))
        } else {
            rest.push(((l, (l + 1) as u64), (r, (r + 1) as u64)))
        }
    }
}

/// The stretches of sorted hidden rows.
fn stretches(rows: &Vec<(u64, u64)>) -> (found: Vec<((u64, u64), (u64, u64))>)
    requires
        forall|k: int| 0 <= k < rows@.len() ==> row_fits(#[trigger] rows@[k]),
    ensures
        found@ == stretches_spec(rows@),
        forall|k: int| 0 <= k < found@.len() ==> (#[trigger] found@[k]).0.0 < found@[k].0.1 && found@[k].1.0 < found@[k].1.1,
{
    let mut found: Vec<((u64, u64), (u64, u64))> = Vec::new();
    let mut i: usize = 0;
    while i < rows.len()
        invariant
            i <= rows@.len(),
            forall|k: int| 0 <= k < rows@.len() ==> row_fits(#[trigger] rows@[k]),
            found@ == stretches_spec(rows@.take(i as int)),
            forall|k: int| 0 <= k < found@.len() ==> (#[trigger] found@[k]).0.0 < found@[k].0.1 && found@[k].1.0 < found@[k].1.1,
        decreases rows@.len() - i,
    {
        let (l, r) = rows[i];
        assert(row_fits(rows@[i as int]));
        assert(rows@.take(i + 1).drop_last() =~= rows@.take(i as int));
        assert(rows@.take(i + 1).last() == (l, r));
        let n = found.len();
        if n > 0 && found[n - 1].0.1 == l && found[n - 1].1.1 == r {
            let last = found[n - 1];
            found.set(n - 1, ((last.0.0, l + 1), (last.1.0, r + 1)));
        } else {
            found.push(((l, l + 1), (r, r + 1)));
        }
        i += 1;
    }
    assert(rows@.take(rows@.len() as int) =~= rows@);
    found
}

} // verus!

verus! {

/// `a + b`, or the largest `u64` when that is more.
pub open spec fn capped_add(a: u64, b: u64) -> u64 {
    if a + b > u64::MAX {
        u64::MAX
    } else {
        (a + b) as u64
    }
}

/// The lines a part covers, summed.
pub open spec fn part_lines_spec(part: Seq<Member>) -> u64
    decreases part.len(),
{
    if part.len() == 0 {
        0
    } else {
        capped_add(part_lines_spec(part.drop_last()), part.last().lines_spec() as u64)
    }
}

/// The lines a part covers, summed.
fn part_lines(part: &Vec<Member>) -> (lines: u64)
    requires
        forall|j: int| 0 <= j < part@.len() ==> (#[trigger] part@[j]).sound(),
    ensures
        lines == part_lines_spec(part@),
{
    let mut lines: u64 = 0;
    let mut j: usize = 0;
    while j < part.len()
        invariant
            j <= part@.len(),
            forall|k: int| 0 <= k < part@.len() ==> (#[trigger] part@[k]).sound(),
            lines == part_lines_spec(part@.take(j as int)),
        decreases part@.len() - j,
    {
        assert(part@.take(j + 1).drop_last() =~= part@.take(j as int));
        assert(part@.take(j + 1).last() == part@[j as int]);
        let more = part[j].lines() as u64;
        lines = if lines > u64::MAX - more {
            u64::MAX
        } else {
            lines + more
        };
        j += 1;
    }
    assert(part@.take(part@.len() as int) =~= part@);
    lines
}

/// Two sides' parts match member for member by key.
pub open spec fn same_keys(a: Seq<Seq<Member>>, b: Seq<Seq<Member>>) -> bool {
    &&& a.len() == b.len()
    &&& forall|i: int| 0 <= i < a.len() ==> (#[trigger] a[i]).len() == b[i].len()
    &&& forall|i: int, j: int|
        0 <= i < a.len() && 0 <= j < a[i].len() ==> (#[trigger] a[i][j]).key_spec() == b[i][j].key_spec()
}

/// Whether the two sides' parts match member for member by key.
fn same_shape(a: &Vec<Vec<Member>>, b: &Vec<Vec<Member>>) -> (same: bool)
    requires
        all_sound(a@.map_values(|p: Vec<Member>| p@)),
        all_sound(b@.map_values(|p: Vec<Member>| p@)),
    ensures
        same == same_keys(a@.map_values(|p: Vec<Member>| p@), b@.map_values(|p: Vec<Member>| p@)),
{
    let ghost av = a@.map_values(|p: Vec<Member>| p@);
    let ghost bv = b@.map_values(|p: Vec<Member>| p@);
    if a.len() != b.len() {
        return false;
    }
    let mut i: usize = 0;
    while i < a.len()
        invariant
            i <= a@.len(),
            a@.len() == b@.len(),
            av.len() == a@.len(),
            bv.len() == b@.len(),
            av == a@.map_values(|p: Vec<Member>| p@),
            bv == b@.map_values(|p: Vec<Member>| p@),
            all_sound(av),
            all_sound(bv),
            forall|k: int| 0 <= k < i ==> (#[trigger] av[k]).len() == bv[k].len(),
            forall|k: int, j: int| 0 <= k < i && 0 <= j < av[k].len() ==> (#[trigger] av[k][j]).key_spec() == bv[k][j].key_spec(),
        decreases a@.len() - i,
    {
        let left = &a[i];
        let right = &b[i];
        assert(av[i as int] == left@);
        assert(bv[i as int] == right@);
        if left.len() != right.len() {
            return false;
        }
        let mut j: usize = 0;
        while j < left.len()
            invariant
                j <= left@.len(),
                i < av.len(),
                i < bv.len(),
                av == a@.map_values(|p: Vec<Member>| p@),
                bv == b@.map_values(|p: Vec<Member>| p@),
                left@.len() == right@.len(),
                av[i as int] == left@,
                bv[i as int] == right@,
                all_sound(av),
                all_sound(bv),
                forall|m: int| 0 <= m < j ==> (#[trigger] left@[m]).key_spec() == right@[m].key_spec(),
            decreases left@.len() - j,
        {
            assert(av[i as int][j as int] == left@[j as int]);
            assert(bv[i as int][j as int] == right@[j as int]);
            let (lk, rk) = (left[j].key(), right[j].key());
            if lk.0 != rk.0 || lk.1 != rk.1 || lk.2 != rk.2 {
                assert(!same_keys(av, bv)) by {
                    assert(av[i as int][j as int].key_spec() != bv[i as int][j as int].key_spec());
                }
                return false;
            }
            j += 1;
        }
        assert forall|m: int| 0 <= m < av[i as int].len() implies (#[trigger] av[i as int][m]).key_spec() == bv[i as int][m].key_spec() by {
            assert(av[i as int][m] == left@[m]);
        }
        i += 1;
    }
    true
}

/// The first line, relative to the stretch, and the line count of each
/// part, which cover the stretch in order.
pub open spec fn spans_spec(parts: Seq<Seq<Member>>) -> Seq<(u64, u64)>
    decreases parts.len(),
{
    if parts.len() == 0 {
        Seq::empty()
    } else {
        let rest = spans_spec(parts.drop_last());
        let at = if rest.len() == 0 {
            0
        } else {
            capped_add(rest.last().0, rest.last().1)
        };
        rest.push((at, part_lines_spec(parts.last())))
    }
}

/// The first line, relative to the stretch, and the line count of each
/// part.
fn part_spans(parts: &Vec<Vec<Member>>) -> (spans: Vec<(u64, u64)>)
    requires
        all_sound(parts@.map_values(|p: Vec<Member>| p@)),
    ensures
        spans@ == spans_spec(parts@.map_values(|p: Vec<Member>| p@)),
{
    let ghost view = parts@.map_values(|p: Vec<Member>| p@);
    let mut spans: Vec<(u64, u64)> = Vec::new();
    let mut i: usize = 0;
    while i < parts.len()
        invariant
            i <= parts@.len(),
            view == parts@.map_values(|p: Vec<Member>| p@),
            all_sound(view),
            spans@ == spans_spec(view.take(i as int)),
        decreases parts@.len() - i,
    {
        assert(view.take(i + 1).drop_last() =~= view.take(i as int));
        assert(view.take(i + 1).last() == parts@[i as int]@);
        assert forall|j: int| 0 <= j < parts@[i as int]@.len() implies (#[trigger] parts@[i as int]@[j]).sound() by {
            assert(view[i as int][j] == parts@[i as int]@[j]);
        }
        let lines = part_lines(&parts[i]);
        let n = spans.len();
        let at = if n == 0 {
            0
        } else {
            let (from, count) = spans[n - 1];
            if from > u64::MAX - count {
                u64::MAX
            } else {
                from + count
            }
        };
        spans.push((at, lines));
        i += 1;
    }
    assert(view.take(parts@.len() as int) =~= view);
    spans
}

/// The leaves a part cuts, by alignment and first line, in order.
pub open spec fn cuts_spec(part: Seq<Member>) -> Seq<(u32, u32)>
    decreases part.len(),
{
    if part.len() == 0 {
        Seq::empty()
    } else {
        let rest = cuts_spec(part.drop_last());
        match part.last() {
            Member::Part { alignment, start, .. } => rest.push((alignment, start)),
            Member::Whole { .. } => rest,
        }
    }
}

/// The leaves a part cuts, by alignment and first line.
fn cuts(part: &Vec<Member>) -> (found: Vec<(u32, u32)>)
    ensures
        found@ == cuts_spec(part@),
{
    let mut found: Vec<(u32, u32)> = Vec::new();
    let mut j: usize = 0;
    while j < part.len()
        invariant
            j <= part@.len(),
            found@ == cuts_spec(part@.take(j as int)),
        decreases part@.len() - j,
    {
        assert(part@.take(j + 1).drop_last() =~= part@.take(j as int));
        assert(part@.take(j + 1).last() == part@[j as int]);
        match &part[j] {
            Member::Part { alignment, start, .. } => found.push((*alignment, *start)),
            Member::Whole { .. } => {},
        }
        j += 1;
    }
    assert(part@.take(part@.len() as int) =~= part@);
    found
}

/// Whether two lists of cuts are the same.
fn same_cuts(a: &Vec<(u32, u32)>, b: &Vec<(u32, u32)>) -> (same: bool)
    ensures
        same == (a@ == b@),
{
    if a.len() != b.len() {
        return false;
    }
    let mut i: usize = 0;
    while i < a.len()
        invariant
            i <= a@.len(),
            a@.len() == b@.len(),
            forall|k: int| 0 <= k < i ==> a@[k] == b@[k],
        decreases a@.len() - i,
    {
        if a[i].0 != b[i].0 || a[i].1 != b[i].1 {
            assert(a@[i as int] != b@[i as int]);
            return false;
        }
        i += 1;
    }
    assert(a@ =~= b@);
    true
}

/// The id of a whole member.
pub open spec fn whole_id(m: Member) -> Option<u32> {
    match m {
        Member::Whole { id, .. } => Some(id),
        Member::Part { .. } => None,
    }
}

/// The ids of the whole members of any of `parts`.
pub open spec fn whole_ids_spec(parts: Seq<Seq<Member>>) -> Set<u32> {
    Set::new(
        |id: u32|
            exists|i: int, j: int|
                0 <= i < parts.len() && 0 <= j < parts[i].len() && whole_id(#[trigger] parts[i][j]) == Some(id),
    )
}

/// The ids of the whole members of any of `parts`.
fn whole_ids(parts: &Vec<Vec<Member>>) -> (ids: std::collections::BTreeSet<u32>)
    ensures
        ids@ == whole_ids_spec(parts@.map_values(|p: Vec<Member>| p@)),
{
    let ghost view = parts@.map_values(|p: Vec<Member>| p@);
    let mut ids = std::collections::BTreeSet::new();
    let mut i: usize = 0;
    assert(ids@ =~= whole_ids_spec(view.take(0)));
    while i < parts.len()
        invariant
            i <= parts@.len(),
            view == parts@.map_values(|p: Vec<Member>| p@),
            ids@ == whole_ids_spec(view.take(i as int)),
        decreases parts@.len() - i,
    {
        let part = &parts[i];
        assert(view[i as int] == part@);
        let ghost base = ids@;
        let mut j: usize = 0;
        while j < part.len()
            invariant
                j <= part@.len(),
                view[i as int] == part@,
                ids@ == base.union(
                    Set::new(
                        |id: u32|
                            exists|m: int| 0 <= m < j && whole_id(#[trigger] part@[m]) == Some(id),
                    ),
                ),
            decreases part@.len() - j,
        {
            match &part[j] {
                Member::Whole { id, .. } => id_set_insert(&mut ids, *id),
                Member::Part { .. } => {},
            }
            proof {
                let now = Set::new(
                    |id: u32|
                        exists|m: int| 0 <= m < j + 1 && whole_id(#[trigger] part@[m]) == Some(id),
                );
                assert forall|x: u32| ids@.contains(x) == base.union(now).contains(x) by {
                    if now.contains(x) {
                        let m = choose|m: int| 0 <= m < j + 1 && whole_id(#[trigger] part@[m]) == Some(x);
                        if m < j {
                        }
                    }
                }
                assert(ids@ =~= base.union(now));
            }
            j += 1;
        }
        proof {
            let now = view.take(i + 1);
            let was = view.take(i as int);
            assert forall|x: u32| ids@.contains(x) == whole_ids_spec(now).contains(x) by {
                if whole_ids_spec(now).contains(x) {
                    let (a, b) = choose|a: int, b: int|
                        0 <= a < now.len() && 0 <= b < now[a].len() && whole_id(#[trigger] now[a][b]) == Some(x);
                    if a < i {
                        assert(was[a][b] == now[a][b]);
                    } else {
                        assert(now[a][b] == part@[b]);
                    }
                }
                if base.contains(x) {
                    let (a, b) = choose|a: int, b: int|
                        0 <= a < was.len() && 0 <= b < was[a].len() && whole_id(#[trigger] was[a][b]) == Some(x);
                    assert(now[a][b] == was[a][b]);
                }
                if exists|m: int| 0 <= m < part@.len() && whole_id(#[trigger] part@[m]) == Some(x) {
                    let m = choose|m: int| 0 <= m < part@.len() && whole_id(#[trigger] part@[m]) == Some(x);
                    assert(now[i as int][m] == part@[m]);
                }
            }
            assert(ids@ =~= whole_ids_spec(now));
        }
        i += 1;
    }
    assert(view.take(parts@.len() as int) =~= view);
    ids
}

/// The ids, in order, of the regions among `visited` in fold state `state`.
pub open spec fn in_state_spec(visited: Seq<Region>, state: u32) -> Seq<u32>
    decreases visited.len(),
{
    if visited.len() == 0 {
        Seq::empty()
    } else {
        let rest = in_state_spec(visited.drop_last(), state);
        if visited.last().fold_state_id == state {
            rest.push(visited.last().id)
        } else {
            rest
        }
    }
}

/// The ids, in order, of the regions of `visited` in fold state `state`.
fn in_state(visited: &Vec<&Region>, state: u32) -> (ids: Vec<u32>)
    ensures
        ids@ == in_state_spec(visited@.map_values(|r: &Region| *r), state),
{
    let ghost seen = visited@.map_values(|r: &Region| *r);
    let mut ids: Vec<u32> = Vec::new();
    let mut i: usize = 0;
    while i < visited.len()
        invariant
            i <= visited@.len(),
            seen == visited@.map_values(|r: &Region| *r),
            ids@ == in_state_spec(seen.take(i as int), state),
        decreases visited@.len() - i,
    {
        assert(seen.take(i + 1).drop_last() =~= seen.take(i as int));
        assert(seen.take(i + 1).last() == *visited@[i as int]);
        if visited[i].fold_state_id == state {
            ids.push(visited[i].id);
        }
        i += 1;
    }
    assert(seen.take(seen.len() as int) =~= seen);
    ids
}

/// Whether every one of `ids` is in `set`.
fn all_in(ids: &Vec<u32>, set: &std::collections::BTreeSet<u32>) -> (all: bool)
    ensures
        all == forall|k: int| 0 <= k < ids@.len() ==> set@.contains(#[trigger] ids@[k]),
{
    let mut i: usize = 0;
    while i < ids.len()
        invariant
            i <= ids@.len(),
            forall|k: int| 0 <= k < i ==> set@.contains(#[trigger] ids@[k]),
        decreases ids@.len() - i,
    {
        if !id_set_contains(set, ids[i]) {
            return false;
        }
        i += 1;
    }
    true
}

/// The line count of the last rhs fold wholly in the stretch with this id.
pub open spec fn fold_lines_spec(members: Seq<Member>, id: u32) -> Option<u32>
    decreases members.len(),
{
    if members.len() == 0 {
        None
    } else {
        match members.last() {
            Member::Whole { id: x, lines, state: Some(_), .. } if x == id => Some(lines),
            _ => fold_lines_spec(members.drop_last(), id),
        }
    }
}

/// The members of all parts, in order.
pub open spec fn all_members(parts: Seq<Seq<Member>>) -> Seq<Member>
    decreases parts.len(),
{
    if parts.len() == 0 {
        Seq::empty()
    } else {
        all_members(parts.drop_last()) + parts.last()
    }
}

/// The line count of the last fold with this id wholly in the stretch.
fn fold_lines(parts: &Vec<Vec<Member>>, id: u32) -> (lines: Option<u32>)
    ensures
        lines == fold_lines_spec(all_members(parts@.map_values(|p: Vec<Member>| p@)), id),
{
    let ghost view = parts@.map_values(|p: Vec<Member>| p@);
    let mut i: usize = parts.len();
    assert(view.take(view.len() as int) =~= view);
    while i > 0
        invariant
            i <= parts@.len(),
            view == parts@.map_values(|p: Vec<Member>| p@),
            fold_lines_spec(all_members(view), id) == fold_lines_spec(all_members(view.take(i as int)), id),
        decreases i,
    {
        let part = &parts[i - 1];
        assert(view.take(i as int).drop_last() =~= view.take(i - 1));
        assert(view.take(i as int).last() == part@);
        let ghost head = all_members(view.take(i - 1));
        let mut j: usize = part.len();
        assert(part@.take(part@.len() as int) =~= part@);
        while j > 0
            invariant
                j <= part@.len(),
                view == parts@.map_values(|p: Vec<Member>| p@),
                fold_lines_spec(all_members(view), id) == fold_lines_spec(head + part@.take(j as int), id),
            decreases j,
        {
            assert((head + part@.take(j as int)).drop_last() =~= head + part@.take(j - 1));
            assert((head + part@.take(j as int)).last() == part@[j - 1]);
            match &part[j - 1] {
                Member::Whole { id: x, lines, state: Some(_), .. } => {
                    if *x == id {
                        assert(fold_lines_spec(head + part@.take(j as int), id) == Some(*lines));
                        return Some(*lines);
                    }
                },
                _ => {},
            }
            j -= 1;
        }
        assert(head + part@.take(0) =~= head);
        i -= 1;
    }
    None
}

/// The piece cut with this alignment and first line, the last one kept.
pub open spec fn piece_for_spec(pieces: Seq<((u32, u32), u32)>, key: (u32, u32)) -> Option<u32>
    decreases pieces.len(),
{
    if pieces.len() == 0 {
        None
    } else if pieces.last().0 == key {
        Some(pieces.last().1)
    } else {
        piece_for_spec(pieces.drop_last(), key)
    }
}

/// The piece cut with this alignment and first line, the last one kept.
fn piece_for(pieces: &Vec<((u32, u32), u32)>, key: (u32, u32)) -> (piece: Option<u32>)
    ensures
        piece == piece_for_spec(pieces@, key),
{
    let mut i: usize = pieces.len();
    assert(pieces@.take(pieces@.len() as int) =~= pieces@);
    while i > 0
        invariant
            i <= pieces@.len(),
            piece_for_spec(pieces@, key) == piece_for_spec(pieces@.take(i as int), key),
        decreases i,
    {
        assert(pieces@.take(i as int).last() == pieces@[i - 1]);
        assert(pieces@.take(i as int).drop_last() =~= pieces@.take(i - 1));
        if pieces[i - 1].0.0 == key.0 && pieces[i - 1].0.1 == key.1 {
            return Some(pieces[i - 1].1);
        }
        i -= 1;
    }
    None
}

/// Whether any range holds a line.
fn any_line(ranges: &Vec<(u32, u32)>) -> (found: bool)
    ensures
        found == exists|k: int| 0 <= k < ranges@.len() && (#[trigger] ranges@[k]).0 < ranges@[k].1,
{
    let mut i: usize = 0;
    while i < ranges.len()
        invariant
            i <= ranges@.len(),
            forall|k: int| 0 <= k < i ==> !((#[trigger] ranges@[k]).0 < ranges@[k].1),
        decreases ranges@.len() - i,
    {
        if ranges[i].0 < ranges[i].1 {
            return true;
        }
        i += 1;
    }
    false
}

} // verus!

verus! {

/// A member that is a fold hides only regions of `whole`: every region of
/// `visited` in its fold state is one of them.
pub open spec fn fold_hides_only(m: Member, visited: Seq<Region>, whole: Set<u32>) -> bool {
    match m {
        Member::Whole { state: Some(st), .. } => forall|k: int|
            0 <= k < in_state_spec(visited, st).len() ==> whole.contains(#[trigger] in_state_spec(visited, st)[k]),
        _ => true,
    }
}

/// Every fold of `part` hides only regions of `whole`.
pub open spec fn hides_only(part: Seq<Member>, visited: Seq<Region>, whole: Set<u32>) -> bool {
    forall|j: int| 0 <= j < part.len() ==> fold_hides_only(#[trigger] part[j], visited, whole)
}

/// The first index of `span` among `spans`, if any.
pub open spec fn first_span(spans: Seq<(u64, u64)>, span: (u64, u64)) -> Option<int>
    decreases spans.len(),
{
    if spans.len() == 0 {
        None
    } else if spans[0] == span {
        Some(0)
    } else {
        match first_span(spans.drop_first(), span) {
            Some(i) => Some(i + 1),
            None => None,
        }
    }
}

/// The rhs part grouped with an lhs part when the sides' parts do not match
/// member for member.
pub open spec fn partner_by_lines_spec(
    lhs_span: (u64, u64),
    rhs_spans: Seq<(u64, u64)>,
    rhs_parts: Seq<Seq<Member>>,
    part: Seq<Member>,
    lhs_visited: Seq<Region>,
    lhs_whole: Set<u32>,
) -> Option<usize> {
    match first_span(rhs_spans, lhs_span) {
        Some(i) => {
            let candidate = rhs_parts[i];
            if candidate.len() >= 2 && cuts_spec(candidate) == cuts_spec(part) && hides_only(
                candidate,
                lhs_visited,
                lhs_whole,
            ) {
                Some(i as usize)
            } else {
                None
            }
        },
        None => None,
    }
}

proof fn lemma_first_span(spans: Seq<(u64, u64)>, span: (u64, u64), i: int)
    requires
        0 <= i <= spans.len(),
        forall|k: int| 0 <= k < i ==> spans[k] != span,
    ensures
        i < spans.len() && spans[i] == span ==> first_span(spans, span) == Some(i),
        i == spans.len() ==> first_span(spans, span) is None,
    decreases spans.len(),
{
    if spans.len() > 0 {
        if i > 0 {
            assert forall|k: int| 0 <= k < i - 1 implies spans.drop_first()[k] != span by {
                assert(spans.drop_first()[k] == spans[k + 1]);
            }
            lemma_first_span(spans.drop_first(), span, i - 1);
            if i < spans.len() {
                assert(spans.drop_first()[i - 1] == spans[i]);
            }
        }
    }
}

proof fn lemma_first_span_bound(spans: Seq<(u64, u64)>, span: (u64, u64))
    ensures
        first_span(spans, span) matches Some(i) ==> 0 <= i < spans.len(),
    decreases spans.len(),
{
    if spans.len() > 0 {
        lemma_first_span_bound(spans.drop_first(), span);
    }
}

/// The rhs part grouped with an lhs part when the two sides' parts do not
/// match member for member: the first rhs part over the same lines, when
/// it has two members or more, cuts the same leaves, and each of its folds
/// hides only lhs regions wholly in the stretch.
fn partner_by_lines(
    lhs_span: (u64, u64),
    rhs_spans: &Vec<(u64, u64)>,
    rhs_parts: &Vec<Vec<Member>>,
    part: &Vec<Member>,
    lhs_visited: &Vec<&Region>,
    lhs_whole: &std::collections::BTreeSet<u32>,
) -> (partner: Option<usize>)
    requires
        rhs_spans@.len() == rhs_parts@.len(),
    ensures
        partner == partner_by_lines_spec(
            lhs_span,
            rhs_spans@,
            rhs_parts@.map_values(|p: Vec<Member>| p@),
            part@,
            lhs_visited@.map_values(|r: &Region| *r),
            lhs_whole@,
        ),
        partner matches Some(p) ==> p < rhs_parts@.len(),
{
    let mut other: usize = 0;
    while other < rhs_spans.len()
        invariant
            other <= rhs_spans@.len(),
            forall|k: int| 0 <= k < other ==> rhs_spans@[k] != lhs_span,
        ensures
            other <= rhs_spans@.len(),
            forall|k: int| 0 <= k < other ==> rhs_spans@[k] != lhs_span,
            other < rhs_spans@.len() ==> rhs_spans@[other as int] == lhs_span,
        decreases rhs_spans@.len() - other,
    {
        if rhs_spans[other].0 == lhs_span.0 && rhs_spans[other].1 == lhs_span.1 {
            break;
        }
        other += 1;
    }
    proof {
        lemma_first_span(rhs_spans@, lhs_span, other as int);
    }
    if other == rhs_spans.len() {
        return None;
    }
    let candidate = &rhs_parts[other];
    assert(rhs_parts@.map_values(|p: Vec<Member>| p@)[other as int] == candidate@);
    if candidate.len() < 2 || !same_cuts(&cuts(candidate), &cuts(part)) {
        return None;
    }
    let result = folds_hide_only_stretch(candidate, lhs_visited, lhs_whole);
    if result {
        Some(other)
    } else {
        None
    }
}

/// Whether every fold of `part` hides only regions wholly in the stretch:
/// all the regions of `visited` in its fold state are among `whole`.
fn folds_hide_only_stretch(
    part: &Vec<Member>,
    visited: &Vec<&Region>,
    whole: &std::collections::BTreeSet<u32>,
) -> (all: bool)
    ensures
        all == hides_only(part@, visited@.map_values(|r: &Region| *r), whole@),
{
    let ghost seen = visited@.map_values(|r: &Region| *r);
    let mut j: usize = 0;
    while j < part.len()
        invariant
            j <= part@.len(),
            seen == visited@.map_values(|r: &Region| *r),
            forall|i: int| 0 <= i < j ==> fold_hides_only(#[trigger] part@[i], seen, whole@),
        decreases part@.len() - j,
    {
        if let Member::Whole { state: Some(state), .. } = part[j] {
            if !all_in(&in_state(visited, state), whole) {
                assert(!fold_hides_only(part@[j as int], seen, whole@));
                return false;
            }
        }
        j += 1;
    }
    true
}

/// Whether `index` is one of `indices`.
fn holds_index(indices: &Vec<usize>, index: usize) -> (found: bool)
    ensures
        found == indices@.contains(index),
{
    let mut i: usize = 0;
    while i < indices.len()
        invariant
            i <= indices@.len(),
            forall|k: int| 0 <= k < i ==> indices@[k] != index,
        decreases indices@.len() - i,
    {
        if indices[i] == index {
            assert(indices@[i as int] == index);
            return true;
        }
        i += 1;
    }
    false
}

/// The leaves of `own` as context sees them, each paired when `other`
/// holds its alignment.
pub open spec fn side_leaves(own: Source, other: Source) -> Seq<Leaf> {
    leaves_spec(preorder(own.regions@), crate::tree::leaf_alignments(preorder(other.regions@)))
}

/// The rhs leaves, by alignment: where an lhs leaf finds its partner.
pub open spec fn rhs_partners(lhs: Source, rhs: Source) -> Map<u32, Leaf> {
    by_alignment(side_leaves(rhs, lhs))
}

/// The lines of the leaves that change on their own side: the lhs's when
/// `on_lhs`, else the rhs's.
pub open spec fn novel_spec(lhs: Source, rhs: Source, on_lhs: bool) -> Seq<(u32, u32)> {
    if on_lhs {
        novel_ranges(side_leaves(lhs, rhs))
    } else {
        novel_ranges(side_leaves(rhs, lhs))
    }
}

/// The lines context keeps rows in view around: those that change on
/// their own side, and those of paired rows that change.
pub open spec fn seeds_spec(lhs: Source, rhs: Source, on_lhs: bool) -> Seq<(u32, u32)> {
    novel_spec(lhs, rhs, on_lhs) + pair_ranges(side_leaves(lhs, rhs), rhs_partners(lhs, rhs), on_lhs)
}

/// Some range holds a line.
pub open spec fn holds_line(ranges: Seq<(u32, u32)>) -> bool {
    exists|k: int| 0 <= k < ranges.len() && (#[trigger] ranges[k]).0 < ranges[k].1
}

/// Some line of the file changes.
pub open spec fn file_changes(lhs: Source, rhs: Source) -> bool {
    holds_line(seeds_spec(lhs, rhs, true)) || holds_line(seeds_spec(lhs, rhs, false))
}

/// The number of lines of a side's text, kept as a `u32`.
pub open spec fn text_lines(s: Source) -> u32 {
    terminated_lines(s.text@).len() as u32
}

/// The lines context keeps in view on one side, the lhs when `on_lhs`:
/// those within `lines` of a seed and, when some line changes, those that
/// open or close a scope holding a changed line.
pub open spec fn in_view(lhs: Source, rhs: Source, lines: u32, on_lhs: bool) -> Set<u32> {
    let own = if on_lhs {
        lhs
    } else {
        rhs
    };
    let near_seeds = shown_spec(seeds_spec(lhs, rhs, on_lhs), lines, text_lines(own));
    if file_changes(lhs, rhs) {
        near_seeds.union(
            scope_rows_spec(preorder(own.regions@), Set::new(|x: u32| in_ranges(novel_spec(lhs, rhs, on_lhs), x))),
        )
    } else {
        near_seeds
    }
}

/// Row `(l, r)` pairs a line of an unchanged paired lhs leaf with the line
/// at the same offset of its partner.
pub open spec fn unchanged_pair(lhs: Source, rhs: Source, l: int, r: int) -> bool {
    let u = unchanged_spec(side_leaves(lhs, rhs), rhs_partners(lhs, rhs));
    exists|k: int| 0 <= k < u.len() && (#[trigger] u[k]).0 <= l < u[k].0 + u[k].2 && r == u[k].1 + (l - u[k].0)
}

/// A row stays hidden: always when nothing changes, else when neither of
/// its lines is in view.
pub open spec fn out_of_view(l: int, r: int, shown_l: Set<u32>, shown_r: Set<u32>, changed: bool) -> bool {
    !changed || (!(l <= u32::MAX && shown_l.contains(l as u32)) && !(r <= u32::MAX && shown_r.contains(r as u32)))
}

/// Context hides row `(l, r)`: an unchanged paired row that is in view on
/// neither side, or any unchanged paired row when nothing changes.
pub open spec fn hides_row(lhs: Source, rhs: Source, lines: u32, l: int, r: int) -> bool {
    &&& unchanged_pair(lhs, rhs, l, r)
    &&& out_of_view(l, r, in_view(lhs, rhs, lines, true), in_view(lhs, rhs, lines, false), file_changes(lhs, rhs))
}

/// Row `(l, r)` lies in stretch `s`, at the same offset on both sides.
pub open spec fn in_stretch(s: ((u64, u64), (u64, u64)), l: int, r: int) -> bool {
    s.0.0 <= l < s.0.1 && r == s.1.0 + (l - s.0.0)
}

/// Some stretch of `stretches` holds row `(l, r)`.
pub open spec fn covered(stretches: Seq<((u64, u64), (u64, u64))>, l: int, r: int) -> bool {
    exists|k: int| 0 <= k < stretches.len() && #[trigger] in_stretch(stretches[k], l, r)
}

/// A stretch holds a line, and as many on each side.
pub open spec fn stretch_shaped(s: ((u64, u64), (u64, u64))) -> bool {
    s.0.0 < s.0.1 && s.1.1 - s.1.0 == s.0.1 - s.0.0
}

proof fn lemma_push_contains<A>(s: Seq<A>, v: A, x: A)
    ensures
        s.push(v).contains(x) <==> (s.contains(x) || x == v),
{
    if s.contains(x) {
        let i = choose|i: int| 0 <= i < s.len() && s[i] == x;
        assert(s.push(v)[i] == x);
    }
    if x == v {
        assert(s.push(v)[s.len() as int] == v);
    }
    if s.push(v).contains(x) {
        let i = choose|i: int| 0 <= i < s.push(v).len() && s.push(v)[i] == x;
        if i < s.len() {
            assert(s[i] == x);
        }
    }
}

proof fn lemma_concat_contains<A>(a: Seq<A>, b: Seq<A>, x: A)
    ensures
        (a + b).contains(x) <==> (a.contains(x) || b.contains(x)),
{
    if a.contains(x) {
        let i = choose|i: int| 0 <= i < a.len() && a[i] == x;
        assert((a + b)[i] == x);
    }
    if b.contains(x) {
        let i = choose|i: int| 0 <= i < b.len() && b[i] == x;
        assert((a + b)[a.len() + i] == x);
    }
    if (a + b).contains(x) {
        let i = choose|i: int| 0 <= i < (a + b).len() && (a + b)[i] == x;
        if i < a.len() {
            assert(a[i] == x);
        } else {
            assert(b[i - a.len()] == x);
        }
    }
}

proof fn lemma_hidden_of_sound(e: (u32, u32, u32), n: nat, sl: Set<u32>, sr: Set<u32>, ch: bool, row: (u64, u64))
    requires
        n <= e.2,
        hidden_of(e, n, sl, sr, ch).contains(row),
    ensures
        e.0 <= row.0 < e.0 + n,
        row.1 == e.1 + (row.0 - e.0),
        out_of_view(row.0 as int, row.1 as int, sl, sr, ch),
    decreases n,
{
    if n > 0 {
        let rest = hidden_of(e, (n - 1) as nat, sl, sr, ch);
        let l = e.0 + n - 1;
        let r = e.1 + n - 1;
        if out_of_view(l, r, sl, sr, ch) {
            lemma_push_contains(rest, (l as u64, r as u64), row);
        }
        if rest.contains(row) {
            lemma_hidden_of_sound(e, (n - 1) as nat, sl, sr, ch, row);
        }
    }
}

proof fn lemma_hidden_of_complete(e: (u32, u32, u32), n: nat, o: int, sl: Set<u32>, sr: Set<u32>, ch: bool)
    requires
        n <= e.2,
        0 <= o < n,
        out_of_view(e.0 + o, e.1 + o, sl, sr, ch),
    ensures
        hidden_of(e, n, sl, sr, ch).contains(((e.0 + o) as u64, (e.1 + o) as u64)),
    decreases n,
{
    let rest = hidden_of(e, (n - 1) as nat, sl, sr, ch);
    let l = e.0 + n - 1;
    let r = e.1 + n - 1;
    if o < n - 1 {
        lemma_hidden_of_complete(e, (n - 1) as nat, o, sl, sr, ch);
        lemma_push_contains(rest, (l as u64, r as u64), ((e.0 + o) as u64, (e.1 + o) as u64));
    } else {
        lemma_push_contains(rest, (l as u64, r as u64), ((e.0 + o) as u64, (e.1 + o) as u64));
    }
}

proof fn lemma_hidden_sound(u: Seq<(u32, u32, u32)>, sl: Set<u32>, sr: Set<u32>, ch: bool, row: (u64, u64))
    requires
        hidden_spec(u, sl, sr, ch).contains(row),
    ensures
        exists|k: int|
            0 <= k < u.len() && (#[trigger] u[k]).0 <= row.0 < u[k].0 + u[k].2 && row.1 == u[k].1 + (row.0 - u[k].0),
        out_of_view(row.0 as int, row.1 as int, sl, sr, ch),
    decreases u.len(),
{
    if u.len() > 0 {
        let rest = hidden_spec(u.drop_last(), sl, sr, ch);
        let last = hidden_of(u.last(), u.last().2 as nat, sl, sr, ch);
        lemma_concat_contains(rest, last, row);
        if rest.contains(row) {
            lemma_hidden_sound(u.drop_last(), sl, sr, ch, row);
            let k = choose|k: int|
                0 <= k < u.drop_last().len() && (#[trigger] u.drop_last()[k]).0 <= row.0 < u.drop_last()[k].0
                    + u.drop_last()[k].2 && row.1 == u.drop_last()[k].1 + (row.0 - u.drop_last()[k].0);
            assert(u[k] == u.drop_last()[k]);
        } else {
            lemma_hidden_of_sound(u.last(), u.last().2 as nat, sl, sr, ch, row);
            assert(u[u.len() - 1] == u.last());
        }
    }
}

proof fn lemma_hidden_complete(u: Seq<(u32, u32, u32)>, k: int, o: int, sl: Set<u32>, sr: Set<u32>, ch: bool)
    requires
        0 <= k < u.len(),
        0 <= o < u[k].2,
        out_of_view(u[k].0 + o, u[k].1 + o, sl, sr, ch),
    ensures
        hidden_spec(u, sl, sr, ch).contains(((u[k].0 + o) as u64, (u[k].1 + o) as u64)),
    decreases u.len(),
{
    let row = ((u[k].0 + o) as u64, (u[k].1 + o) as u64);
    let rest = hidden_spec(u.drop_last(), sl, sr, ch);
    let last = hidden_of(u.last(), u.last().2 as nat, sl, sr, ch);
    lemma_concat_contains(rest, last, row);
    if k < u.len() - 1 {
        assert(u.drop_last()[k] == u[k]);
        lemma_hidden_complete(u.drop_last(), k, o, sl, sr, ch);
    } else {
        lemma_hidden_of_complete(u.last(), u.last().2 as nat, o, sl, sr, ch);
    }
}

proof fn lemma_contains_drop_last<A>(s: Seq<A>, x: A)
    requires
        s.len() > 0,
        s.drop_last().contains(x),
    ensures
        s.contains(x),
{
    let i = choose|i: int| 0 <= i < s.drop_last().len() && s.drop_last()[i] == x;
    assert(s[i] == x);
}

proof fn lemma_stretches(rows: Seq<(u64, u64)>)
    requires
        forall|k: int| 0 <= k < rows.len() ==> row_fits(#[trigger] rows[k]),
    ensures
        forall|k: int| 0 <= k < stretches_spec(rows).len() ==> stretch_shaped(#[trigger] stretches_spec(rows)[k]),
        forall|k: int, l: int, r: int|
            0 <= k < stretches_spec(rows).len() && #[trigger] in_stretch(stretches_spec(rows)[k], l, r) ==> rows.contains(
                (l as u64, r as u64),
            ),
        forall|i: int|
            0 <= i < rows.len() ==> covered(stretches_spec(rows), (#[trigger] rows[i]).0 as int, rows[i].1 as int),
    decreases rows.len(),
{
    if rows.len() > 0 {
        let front = rows.drop_last();
        assert forall|k: int| 0 <= k < front.len() implies row_fits(#[trigger] front[k]) by {
            assert(front[k] == rows[k]);
        }
        lemma_stretches(front);
        let rest = stretches_spec(front);
        let st = stretches_spec(rows);
        let (l, r) = rows.last();
        assert(row_fits(rows[rows.len() - 1]));
        assert(rows[rows.len() - 1] == (l, r));
        let n = rest.len();
        let extend = n > 0 && rest.last().0.1 == l && rest.last().1.1 == r;
        if extend {
            assert(st == rest.update(n - 1, ((rest.last().0.0, (l + 1) as u64), (rest.last().1.0, (r + 1) as u64))));
            assert(stretch_shaped(rest[n - 1]));
        } else {
            assert(st == rest.push(((l, (l + 1) as u64), (r, (r + 1) as u64))));
        }
        assert forall|k: int| 0 <= k < st.len() implies stretch_shaped(#[trigger] st[k]) by {
            if k < n && !(extend && k == n - 1) {
                assert(st[k] == rest[k]);
            }
        }
        assert forall|k: int, x: int, y: int| 0 <= k < st.len() && #[trigger] in_stretch(st[k], x, y) implies rows.contains(
            (x as u64, y as u64),
        ) by {
            if k < n && !(extend && k == n - 1) {
                assert(st[k] == rest[k]);
                assert(in_stretch(rest[k], x, y));
                lemma_contains_drop_last(rows, (x as u64, y as u64));
            } else if extend && x < l {
                assert(in_stretch(rest[n - 1], x, y));
                lemma_contains_drop_last(rows, (x as u64, y as u64));
            } else {
                assert(x == l && y == r);
                assert(rows[rows.len() - 1] == (x as u64, y as u64));
            }
        }
        assert forall|i: int| 0 <= i < rows.len() implies covered(st, (#[trigger] rows[i]).0 as int, rows[i].1 as int) by {
            if i < rows.len() - 1 {
                assert(front[i] == rows[i]);
                assert(covered(rest, front[i].0 as int, front[i].1 as int));
                let k = choose|k: int| 0 <= k < n && #[trigger] in_stretch(rest[k], front[i].0 as int, front[i].1 as int);
                if k < n && !(extend && k == n - 1) {
                    assert(st[k] == rest[k]);
                }
                assert(in_stretch(st[k], rows[i].0 as int, rows[i].1 as int));
            } else if extend {
                assert(in_stretch(st[n - 1], rows[i].0 as int, rows[i].1 as int));
            } else {
                assert(in_stretch(st[n as int], rows[i].0 as int, rows[i].1 as int));
            }
        }
    }
}

/// The stretches of unchanged paired rows that context may hide in a file
/// with two sides, as ((lhs start, lhs end), (rhs start, rhs end)), and
/// whether any line of the file changes. A stretch is a run of rows hidden
/// on both sides at once; its rows are exactly the rows context hides.
pub fn hidden_stretches(lhs: &Source, rhs: &Source, lines: u32) -> (found: (Vec<((u64, u64), (u64, u64))>, bool))
    requires
        ranges_fit(lhs.regions@),
        ranges_fit(rhs.regions@),
    ensures
        found.1 == file_changes(*lhs, *rhs),
        forall|k: int| 0 <= k < found.0@.len() ==> stretch_shaped(#[trigger] found.0@[k]),
        forall|k: int, l: int, r: int|
            0 <= k < found.0@.len() && #[trigger] in_stretch(found.0@[k], l, r) ==> hides_row(*lhs, *rhs, lines, l, r),
        forall|l: int, r: int| #[trigger] hides_row(*lhs, *rhs, lines, l, r) ==> covered(found.0@, l, r),
{
    let lhs_leaves = leaves(lhs.regions.as_slice(), &leaf_alignments(rhs.regions.as_slice()));
    let rhs_leaves = leaves(rhs.regions.as_slice(), &leaf_alignments(lhs.regions.as_slice()));
    proof {
        lemma_leaves_ordered(preorder(lhs.regions@), crate::tree::leaf_alignments(preorder(rhs.regions@)));
    }
    let (novel_l, novel_r, seeds_l, seeds_r, unchanged) = changes(&lhs_leaves, &rhs_leaves);
    let changed = any_line(&seeds_l) || any_line(&seeds_r);
    let count_l = split_terminated(lhs.text.as_str()).len() as u32;
    let count_r = split_terminated(rhs.text.as_str()).len() as u32;
    let mut shown_l = shown_lines(&seeds_l, lines, count_l);
    let mut shown_r = shown_lines(&seeds_r, lines, count_r);
    if changed {
        add_scope_rows(lhs.regions.as_slice(), &novel_l, &mut shown_l);
        add_scope_rows(rhs.regions.as_slice(), &novel_r, &mut shown_r);
    }
    proof {
        assert(novel_l@ =~= Set::new(|x: u32| in_ranges(novel_spec(*lhs, *rhs, true), x)));
        assert(novel_r@ =~= Set::new(|x: u32| in_ranges(novel_spec(*lhs, *rhs, false), x)));
        assert(shown_l@ == in_view(*lhs, *rhs, lines, true));
        assert(shown_r@ == in_view(*lhs, *rhs, lines, false));
    }
    let hidden = hidden_rows(&unchanged, &shown_l, &shown_r, changed);
    let ghost hidden_view = hidden@;
    let sorted = sort_rows(hidden);
    let found = stretches(&sorted);
    proof {
        let u = unchanged@;
        let sl = shown_l@;
        let sr = shown_r@;
        lemma_stretches(sorted@);
        assert forall|k: int, l: int, r: int|
            0 <= k < found@.len() && #[trigger] in_stretch(found@[k], l, r) implies hides_row(*lhs, *rhs, lines, l, r) by {
            let row = (l as u64, r as u64);
            assert(sorted@.contains(row));
            vstd::seq_lib::to_multiset_contains(sorted@, row);
            vstd::seq_lib::to_multiset_contains(hidden_view, row);
            lemma_hidden_sound(u, sl, sr, changed, row);
            let k2 = choose|k2: int| 0 <= k2 < u.len() && (#[trigger] u[k2]).0 <= row.0 < u[k2].0 + u[k2].2 && row.1 == u[k2].1 + (row.0 - u[k2].0);
            assert(unchanged_pair(*lhs, *rhs, l, r));
        }
        assert forall|l: int, r: int| #[trigger] hides_row(*lhs, *rhs, lines, l, r) implies covered(found@, l, r) by {
            let k2 = choose|k2: int| 0 <= k2 < u.len() && (#[trigger] u[k2]).0 <= l < u[k2].0 + u[k2].2 && r == u[k2].1 + (l - u[k2].0);
            let o = l - u[k2].0;
            lemma_hidden_complete(u, k2, o, sl, sr, changed);
            let row = ((u[k2].0 + o) as u64, (u[k2].1 + o) as u64);
            vstd::seq_lib::to_multiset_contains(sorted@, row);
            vstd::seq_lib::to_multiset_contains(hidden_view, row);
            let i = choose|i: int| 0 <= i < sorted@.len() && sorted@[i] == row;
            assert(sorted@[i] == row);
            assert(covered(found@, sorted@[i].0 as int, sorted@[i].1 as int));
            let k = choose|k: int| 0 <= k < found@.len() && #[trigger] in_stretch(found@[k], sorted@[i].0 as int, sorted@[i].1 as int);
            assert(in_stretch(found@[k], l, r));
        }
    }
    (found, changed)
}

/// Nothing in the file changes, and the lhs is one leaf holding an
/// unchanged paired row.
pub open spec fn unchanged_single_leaf(lhs: Source, rhs: Source) -> bool {
    &&& lhs.regions@.len() == 1
    &&& lhs.regions@[0].node is Leaf
    &&& !file_changes(lhs, rhs)
    &&& exists|l: int, r: int| #[trigger] unchanged_pair(lhs, rhs, l, r)
}

/// The file has two sides and context hides none of its rows: every line
/// is changed, near a change, or in no unchanged pair.
pub open spec fn hides_nothing(sides: Pairing<Source>, lines: u32) -> bool {
    match sides {
        Pairing::Both { lhs, rhs } => forall|l: int, r: int| !#[trigger] hides_row(lhs, rhs, lines, l, r),
        _ => false,
    }
}

/// The file has two sides, nothing in it changes, and its lhs is one leaf
/// holding an unchanged paired row.
pub open spec fn collapses_whole(sides: Pairing<Source>) -> bool {
    match sides {
        Pairing::Both { lhs, rhs } => unchanged_single_leaf(lhs, rhs),
        _ => false,
    }
}

/// The rows of an lhs that is one leaf lie in that leaf.
proof fn lemma_single_leaf_rows(lhs: Source, rhs: Source, l: int, r: int)
    requires
        lhs.regions@.len() == 1,
        lhs.regions@[0].node is Leaf,
        ranges_fit(lhs.regions@),
        unchanged_pair(lhs, rhs, l, r),
    ensures
        lhs.regions@[0].range.start.line <= l < lhs.regions@[0].range.end.line,
        unchanged_pair(lhs, rhs, lhs.regions@[0].range.start.line as int, r - (l - lhs.regions@[0].range.start.line)),
{
    let leaf = lhs.regions@[0];
    let one = lhs.regions@;
    assert(one.drop_last() =~= Seq::<Region>::empty());
    assert(one.last() == leaf);
    assert(preorder(one.drop_last()) =~= Seq::<Region>::empty());
    assert(crate::tree::preorder_one(leaf) =~= seq![leaf]);
    assert(preorder(one) =~= seq![leaf]);
    assert(preorder(one)[0] == leaf);
    let other = crate::tree::leaf_alignments(preorder(rhs.regions@));
    let ls = leaves_spec(seq![leaf], other);
    assert(seq![leaf].drop_last() =~= Seq::<Region>::empty());
    assert(leaves_spec(seq![leaf].drop_last(), other) =~= Seq::<Leaf>::empty());
    assert(seq![leaf].last() == leaf);
    assert(ls.len() == 1);
    let lf = ls[0];
    assert(lf.start == leaf.range.start.line && lf.end == leaf.range.end.line);
    assert(side_leaves(lhs, rhs) == ls);
    let m = rhs_partners(lhs, rhs);
    let u = unchanged_spec(ls, m);
    assert(ls.drop_last() =~= Seq::<Leaf>::empty());
    assert(ls.last() == lf);
    assert(unchanged_spec(ls.drop_last(), m) =~= Seq::<(u32, u32, u32)>::empty());
    let k = choose|k: int| 0 <= k < u.len() && (#[trigger] u[k]).0 <= l < u[k].0 + u[k].2 && r == u[k].1 + (l - u[k].0);
    assert(u.len() <= 1);
    assert(k == 0);
    assert(u[0].0 == lf.start && u[0].2 == (lf.end - lf.start) as u32);
    let l1 = lhs.regions@[0].range.start.line as int;
    assert(u[0].0 <= l1 < u[0].0 + u[0].2 && r - (l - l1) == u[0].1 + (l1 - u[0].0));
}

/// A member that begins at the first line of the region `id`: the region
/// whole, or a piece of it from its first line.
pub open spec fn starts_leaf(m: Member, id: u32) -> bool {
    match m {
        Member::Whole { id: w, .. } => w == id,
        Member::Part { id: p, start, .. } => p == id && start == 0,
    }
}

/// The first region of a file's lhs, when it has one.
pub open spec fn first_lhs_id(sides: Pairing<Source>) -> u32 {
    match sides {
        Pairing::Both { lhs, .. } => lhs.regions@[0].id,
        _ => 0,
    }
}

/// A stretch within a leaf that is the only region of its list makes one
/// part: the leaf, whole or in part, over as many lines as the stretch.
proof fn lemma_single_leaf_segments(regions: Seq<Region>, a: u64, b: u64)
    requires
        regions.len() == 1,
        regions[0].node is Leaf,
        regions[0].range.start.line <= a < b <= regions[0].range.end.line,
    ensures
        segments_spec(regions, a, b).len() == 1,
        segments_spec(regions, a, b)[0].len() == 1,
        segments_spec(regions, a, b)[0][0].sound(),
        segments_spec(regions, a, b)[0][0].lines_spec() == b - a,
        !(segments_spec(regions, a, b)[0][0] matches Member::Whole { state: Some(_), .. }),
        a == regions[0].range.start.line ==> starts_leaf(segments_spec(regions, a, b)[0][0], regions[0].id),
{
    let leaf = regions[0];
    assert(regions.drop_last() =~= Seq::<Region>::empty());
    assert(regions.last() == leaf);
    assert(segment_scan(regions.drop_last(), a, b) == (Seq::<Seq<Member>>::empty(), Seq::<Member>::empty()));
    assert(!leaf.is_fold_spec());
}

/// Every side present has regions whose ranges are sane and end no earlier
/// than they start.
pub open spec fn sides_fit(sides: Pairing<Source>) -> bool {
    forall|k: int| 0 <= k < sides.present().len() ==> ranges_fit(#[trigger] sides.present()[k].regions@)
}

impl Context {
    /// Tags to add to the file's manifest entry: none.
    pub fn classify(&self, file: &FileEntry) -> (tags: Result<Vec<String>, MoveError>)
        ensures
            tags matches Ok(t) && t@.len() == 0,
    {
        Ok(Vec::new())
    }

    /// Collapse the unchanged stretches far from any change, and group the
    /// parts that span several siblings. A one-sided file is all changed
    /// lines, and keeps everything in view.
    pub fn mutate(&self, file: &FileEntry, sides: &Pairing<Source>) -> (moves: Result<Vec<Move>, MoveError>)
        requires
            sides is Both ==> ids_fit(*sides),
            sides is Both ==> sides_fit(*sides),
        ensures
            !(sides is Both) ==> (moves matches Ok(m) && m@.len() == 0),
            moves matches Ok(m) ==> steps(start_of(*sides), m@).0 is Ok,
            collapses_whole(*sides) ==> (moves matches Ok(m) ==> collapses_one(moves_model(m@))),
            collapses_whole(*sides) ==> (moves matches Ok(m) ==> moves_model(m@).contains(
                MoveModel::SetCollapsed { region: first_lhs_id(*sides), collapsed: true },
            )),
            hides_nothing(*sides, self.options.lines) ==> (moves matches Ok(m) && m@.len() == 0),
    {
        let (lhs, rhs) = match sides {
            Pairing::Both { lhs, rhs } => (lhs, rhs),
            _ => {
                let none: Vec<Move> = Vec::new();
                assert(steps(start_of(*sides), none@).0 is Ok);
                return Ok(none);
            },
        };
        assert(sides.present()[0] == *lhs);
        assert(sides.present()[1] == *rhs);
        assert(ranges_fit(lhs.regions@));
        assert(ranges_fit(rhs.regions@));
        let (stretches, changed) = hidden_stretches(lhs, rhs, self.options.lines);
        assert forall|k: int| 0 <= k < stretches@.len() implies (#[trigger] stretches@[k]).0.0 < stretches@[k].0.1
            && stretches@[k].1.0 < stretches@[k].1.1 by {
            assert(stretch_shaped(stretches@[k]));
        }
        let lhs_visited = walk(lhs.regions.as_slice());
        let rhs_visited = walk(rhs.regions.as_slice());
        if stretches.len() == 0 {
            // Nothing is hidden, so nothing moves.
            let none: Vec<Move> = Vec::new();
            assert(steps(start_of(*sides), none@).0 is Ok);
            proof {
                if collapses_whole(*sides) {
                    let (l0, r0) = choose|l: int, r: int| #[trigger] unchanged_pair(*lhs, *rhs, l, r);
                    assert(hides_row(*lhs, *rhs, self.options.lines, l0, r0));
                    assert(covered(stretches@, l0, r0));
                }
            }
            return Ok(none);
        }
        let mut draft = Draft::new(sides);
        let ghost must = collapses_whole(*sides);
        let ghost target = MoveModel::SetCollapsed { region: first_lhs_id(*sides), collapsed: true };
        let ghost lstart: int = if must {
            lhs.regions@[0].range.start.line as int
        } else {
            0
        };
        let ghost r1: int = if must {
            choose|r: int| unchanged_pair(*lhs, *rhs, lstart, r)
        } else {
            0
        };
        proof {
            if must {
                let (l0, r0) = choose|l: int, r: int| #[trigger] unchanged_pair(*lhs, *rhs, l, r);
                lemma_single_leaf_rows(*lhs, *rhs, l0, r0);
                assert(unchanged_pair(*lhs, *rhs, lstart, r0 - (l0 - lstart)));
                assert(unchanged_pair(*lhs, *rhs, lstart, r1));
                assert(hides_row(*lhs, *rhs, self.options.lines, lstart, r1));
                assert(covered(stretches@, lstart, r1));
            }
        }
        assert(first_lhs_id(*sides) == lhs.regions@[0].id);
        let ghost k0: int = if must {
            choose|k: int| 0 <= k < stretches@.len() && #[trigger] in_stretch(stretches@[k], lstart, r1)
        } else {
            0
        };
        proof {
            let st = stretches@[0];
            assert(in_stretch(st, st.0.0 as int, st.1.0 as int));
            assert(hides_row(*lhs, *rhs, self.options.lines, st.0.0 as int, st.1.0 as int));
            if must {
                let (l0, r0) = choose|l: int, r: int| #[trigger] unchanged_pair(*lhs, *rhs, l, r);
                assert(unchanged_pair(*lhs, *rhs, l0, r0));
                assert(hides_row(*lhs, *rhs, self.options.lines, l0, r0));
                assert(covered(stretches@, l0, r0));
            }
        }
        // Stretches are shaped in reverse document order, so a cut leaf's id
        // still names the piece that starts where the leaf did.
        let mut s: usize = stretches.len();
        while s > 0
            invariant
                s <= stretches@.len(),
                sides is Both,
                ranges_fit(lhs.regions@),
                ranges_fit(rhs.regions@),
                forall|k: int|
                    0 <= k < stretches@.len() ==> (#[trigger] stretches@[k]).0.0 < stretches@[k].0.1
                        && stretches@[k].1.0 < stretches@[k].1.1,
                draft.wf(),
                draft.start() == start_of(*sides),
                !hides_nothing(*sides, self.options.lines),
                must == unchanged_single_leaf(*lhs, *rhs),
                changed == file_changes(*lhs, *rhs),
                must ==> stretches@.len() > 0,
                forall|k: int| 0 <= k < stretches@.len() ==> stretch_shaped(#[trigger] stretches@[k]),
                forall|k: int, l: int, r: int|
                    0 <= k < stretches@.len() && #[trigger] in_stretch(stretches@[k], l, r) ==> hides_row(
                        *lhs,
                        *rhs,
                        self.options.lines,
                        l,
                        r,
                    ),
                must && s < stretches@.len() ==> collapses_one(moves_model(draft.moves())),
                must ==> 0 <= k0 < stretches@.len() && in_stretch(stretches@[k0], lstart, r1),
                must ==> lstart == lhs.regions@[0].range.start.line,
                first_lhs_id(*sides) == lhs.regions@[0].id,
                target == (MoveModel::SetCollapsed { region: first_lhs_id(*sides), collapsed: true }),
                must && s <= k0 ==> moves_model(draft.moves()).contains(target),
            decreases s,
        {
            s -= 1;
            let ((lhs_start, lhs_end), (rhs_start, rhs_end)) = stretches[s];
            assert(stretches@[s as int].0.0 < stretches@[s as int].0.1);
            proof {
                if must {
                    let st = stretches@[s as int];
                    assert(stretch_shaped(st));
                    assert(in_stretch(st, st.0.0 as int, st.1.0 as int));
                    assert(in_stretch(st, st.0.1 - 1, st.1.0 + (st.0.1 - 1 - st.0.0)));
                    lemma_single_leaf_rows(*lhs, *rhs, st.0.0 as int, st.1.0 as int);
                    lemma_single_leaf_rows(*lhs, *rhs, st.0.1 - 1, st.1.0 + (st.0.1 - 1 - st.0.0));
                    lemma_single_leaf_segments(lhs.regions@, lhs_start, lhs_end);
                    if s == k0 {
                        assert(in_stretch(stretches@[k0], lstart, r1));
                        assert(lhs_start == lstart);
                        assert(starts_leaf(segments_spec(lhs.regions@, lhs_start, lhs_end)[0][0], lhs.regions@[0].id));
                        assert(first_lhs_id(*sides) == lhs.regions@[0].id);
                    }
                }
            }
            let total = lhs_end - lhs_start;
            if total < MIN_GAP as u64 && changed {
                continue;
            }
            let mut lhs_parts: Vec<Vec<Member>> = Vec::new();
            let mut rhs_parts: Vec<Vec<Member>> = Vec::new();
            proof {
                assert(Seq::<Vec<Member>>::empty().map_values(|p: Vec<Member>| p@) =~= Seq::<Seq<Member>>::empty());
            }
            segments(lhs.regions.as_slice(), lhs_start, lhs_end, &mut lhs_parts);
            segments(rhs.regions.as_slice(), rhs_start, rhs_end, &mut rhs_parts);
            let ghost lhs_view = lhs_parts@.map_values(|p: Vec<Member>| p@);
            let ghost rhs_view = rhs_parts@.map_values(|p: Vec<Member>| p@);
            proof {
                if must {
                    assert(lhs_view =~= segments_spec(lhs.regions@, lhs_start, lhs_end));
                    assert(lhs_view[0].drop_last() =~= Seq::<Member>::empty());
                    assert(part_lines_spec(lhs_view[0].drop_last()) == 0);
                    assert(lhs_view[0].last() == lhs_view[0][0]);
                    assert(part_lines_spec(lhs_view[0]) == total);
                }
            }
            let same = same_shape(&lhs_parts, &rhs_parts);
            let lhs_spans = part_spans(&lhs_parts);
            let rhs_spans = part_spans(&rhs_parts);
            assert(lhs_spans@.len() == lhs_parts@.len()) by {
                lemma_spans_len(lhs_view);
            }
            assert(rhs_spans@.len() == rhs_parts@.len()) by {
                lemma_spans_len(rhs_view);
            }
            let lhs_whole = whole_ids(&lhs_parts);
            let rhs_whole = whole_ids(&rhs_parts);
            // The rhs parts grouped with an lhs part.
            let mut partnered: Vec<usize> = Vec::new();
            let mut index: usize = lhs_parts.len();
            while index > 0
                invariant
                    index <= lhs_parts@.len(),
                    sides is Both,
                    lhs_view == lhs_parts@.map_values(|p: Vec<Member>| p@),
                    rhs_view == rhs_parts@.map_values(|p: Vec<Member>| p@),
                    all_sound(lhs_view),
                    all_sound(rhs_view),
                    same ==> lhs_parts@.len() == rhs_parts@.len(),
                    lhs_spans@.len() == lhs_parts@.len(),
                    rhs_spans@.len() == rhs_parts@.len(),
                    draft.wf(),
                    draft.start() == start_of(*sides),
                    !hides_nothing(*sides, self.options.lines),
                    must ==> lhs_view.len() == 1 && lhs_view[0].len() == 1 && part_lines_spec(lhs_view[0]) == total
                        && !(lhs_view[0][0] matches Member::Whole { state: Some(_), .. }),
                    must && s == k0 ==> starts_leaf(lhs_view[0][0], first_lhs_id(*sides)),
                    target == (MoveModel::SetCollapsed { region: first_lhs_id(*sides), collapsed: true }),
                    must && (s < k0 || (s == k0 && index < lhs_parts@.len())) ==> moves_model(draft.moves()).contains(
                        target,
                    ),
                    must && (index < lhs_parts@.len() || s + 1 < stretches@.len()) ==> collapses_one(moves_model(draft.moves())),
                decreases index,
            {
                index -= 1;
                let part = &lhs_parts[index];
                assert(lhs_view[index as int] == part@);
                assert forall|j: int| 0 <= j < part@.len() implies (#[trigger] part@[j]).sound() by {
                    assert(lhs_view[index as int][j] == part@[j]);
                }
                let lines = part_lines(part);
                if lines < MIN_GAP as u64 && lines != total {
                    continue;
                }
                // The rhs part grouped with this one: the part it matches, or,
                // when the sides' folds do not match, the part over the same
                // lines. Both groups are made in one join, so they share a
                // fold state.
                let partner: Option<usize> = if same {
                    Some(index)
                } else {
                    partner_by_lines(lhs_spans[index], &rhs_spans, &rhs_parts, part, &lhs_visited, &lhs_whole)
                };
                // One context fold is enough for a group. Leave its members'
                // visibility intact so expanding it reveals code directly.
                let grouped = partner.is_some() && part.len() >= 2 && folds_hide_only_stretch(
                    part,
                    &rhs_visited,
                    &rhs_whole,
                );
                let mut members: Vec<u32> = Vec::new();
                // The pieces cut from leaves, by their alignment and first
                // line, which the rhs piece of each shares.
                let mut pieces: Vec<((u32, u32), u32)> = Vec::new();
                let mut m: usize = part.len();
                let ghost before_parts = index + 1 < lhs_parts@.len() || s + 1 < stretches@.len();
                assert(must ==> !grouped && part@.len() == 1 && !(part@[0] matches Member::Whole { state: Some(_), .. }));
                while m > 0
                    invariant
                        m <= part@.len(),
                        sides is Both,
                        forall|j: int| 0 <= j < part@.len() ==> (#[trigger] part@[j]).sound(),
                        must ==> !grouped && part@.len() == 1 && !(part@[0] matches Member::Whole { state: Some(_), .. }),
                        must && (m < part@.len() || before_parts) ==> collapses_one(moves_model(draft.moves())),
                        must && s == k0 ==> starts_leaf(part@[0], first_lhs_id(*sides)),
                        target == (MoveModel::SetCollapsed { region: first_lhs_id(*sides), collapsed: true }),
                        must && (s < k0 || (s == k0 && m < part@.len())) ==> moves_model(draft.moves()).contains(target),
                        draft.wf(),
                        draft.start() == start_of(*sides),
                        !hides_nothing(*sides, self.options.lines),
                    decreases m,
                {
                    m -= 1;
                    let member = part[m];
                    assert(part@[m as int].sound());
                    match member {
                        Member::Whole { id, lines: whole_lines, state, .. } => {
                            let hides = match state {
                                Some(st) => all_in(&in_state(&rhs_visited, st), &rhs_whole),
                                None => true,
                            };
                            if hides {
                                if !grouped {
                                    draft.collapse(id, unchanged_label(whole_lines as u64))?;
                                }
                                members.push(id);
                                if let Some(st) = state {
                                    if !grouped {
                                        let rhs_ids = in_state(&rhs_visited, st);
                                        let mut k: usize = 0;
                                        let ghost had = collapses_one(moves_model(draft.moves()));
                let ghost had_t = moves_model(draft.moves()).contains(target);
                                        while k < rhs_ids.len()
                                            invariant
                                                k <= rhs_ids@.len(),
                                                had ==> collapses_one(moves_model(draft.moves())),
                had_t ==> moves_model(draft.moves()).contains(target),
                                                sides is Both,
                                                draft.wf(),
                                                draft.start() == start_of(*sides),
                                                !hides_nothing(*sides, self.options.lines),
                                            decreases rhs_ids@.len() - k,
                                        {
                                            if let Some(rhs_lines) = fold_lines(&rhs_parts, rhs_ids[k]) {
                                                draft.collapse(rhs_ids[k], unchanged_label(rhs_lines as u64))?;
                                            }
                                            k += 1;
                                        }
                                    }
                                }
                            }
                        },
                        Member::Part { id, alignment, start, end } => {
                            let piece = draft.cut_lines(id, start, end)?;
                            if !grouped {
                                draft.collapse(piece, unchanged_label((end - start) as u64))?;
                            }
                            members.push(piece);
                            pieces.push(((alignment, start), piece));
                        },
                    }
                }
                // A fold left open breaks the run, so nothing is grouped.
                let partner = match partner {
                    Some(p) => {
                        if grouped {
                            p
                        } else {
                            continue;
                        }
                    },
                    None => {
                        continue;
                    },
                };
                partnered.push(partner);
                let mut group: Vec<u32> = Vec::new();
                let mut k: usize = members.len();
                while k > 0
                    invariant
                        k <= members@.len(),
                    decreases k,
                {
                    k -= 1;
                    group.push(members[k]);
                }
                let other = &rhs_parts[partner];
                let mut j: usize = 0;
                let ghost had = collapses_one(moves_model(draft.moves()));
                let ghost had_t = moves_model(draft.moves()).contains(target);
                while j < other.len()
                    invariant
                        j <= other@.len(),
                        had ==> collapses_one(moves_model(draft.moves())),
                had_t ==> moves_model(draft.moves()).contains(target),
                        sides is Both,
                        draft.wf(),
                        draft.start() == start_of(*sides),
                        !hides_nothing(*sides, self.options.lines),
                    decreases other@.len() - j,
                {
                    match other[j] {
                        Member::Whole { id, .. } => group.push(id),
                        Member::Part { alignment, start, .. } => {
                            // Every leaf the rhs part cuts, the lhs part cut
                            // too: the parts match by key or by their cuts.
                            if let Some(piece) = piece_for(&pieces, (alignment, start)) {
                                if let Some(paired) = draft.paired_leaf(piece)? {
                                    group.push(paired);
                                }
                            }
                        },
                    }
                    j += 1;
                }
                draft.group(group, unchanged_label(lines))?;
            }
            // A fold only the rhs holds collapses on its own: no lhs fold
            // shares its fold state to collapse it with.
            let mut index: usize = 0;
            let ghost had = collapses_one(moves_model(draft.moves()));
                let ghost had_t = moves_model(draft.moves()).contains(target);
            while index < rhs_parts.len()
                invariant
                    index <= rhs_parts@.len(),
                    had ==> collapses_one(moves_model(draft.moves())),
                had_t ==> moves_model(draft.moves()).contains(target),
                    sides is Both,
                    rhs_view == rhs_parts@.map_values(|p: Vec<Member>| p@),
                    all_sound(rhs_view),
                    draft.wf(),
                    draft.start() == start_of(*sides),
                    !hides_nothing(*sides, self.options.lines),
                decreases rhs_parts@.len() - index,
            {
                let part = &rhs_parts[index];
                assert(rhs_view[index as int] == part@);
                assert forall|j: int| 0 <= j < part@.len() implies (#[trigger] part@[j]).sound() by {
                    assert(rhs_view[index as int][j] == part@[j]);
                }
                let lines = part_lines(part);
                if !holds_index(&partnered, index) && !(lines < MIN_GAP as u64 && lines != total) {
                    let mut j: usize = 0;
                    while j < part.len()
                        invariant
                            j <= part@.len(),
                            had ==> collapses_one(moves_model(draft.moves())),
                had_t ==> moves_model(draft.moves()).contains(target),
                            sides is Both,
                            draft.wf(),
                            draft.start() == start_of(*sides),
                            !hides_nothing(*sides, self.options.lines),
                        decreases part@.len() - j,
                    {
                        if let Member::Whole { id, lines: fold_lines, state: Some(state), .. } = part[j] {
                            if in_state(&lhs_visited, state).len() == 0 {
                                draft.collapse(id, unchanged_label(fold_lines as u64))?;
                            }
                        }
                        j += 1;
                    }
                }
                index += 1;
            }
        }
        proof {
            draft.lemma_wf();
        }
        Ok(draft.into_moves())
    }
}

proof fn lemma_spans_len(parts: Seq<Seq<Member>>)
    ensures
        spans_spec(parts).len() == parts.len(),
    decreases parts.len(),
{
    if parts.len() > 0 {
        lemma_spans_len(parts.drop_last());
    }
}

} // verus!
