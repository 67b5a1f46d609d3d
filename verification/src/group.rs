//! Wrap runs of adjacent collapsed regions in one collapsed fold.
//!
//! A run is two or more collapsed siblings, with nothing between them or only
//! open leaves spanning at most two lines in all: a blank line and the next
//! function's header, say. It becomes one collapsed fold labelled with how
//! many collapsed regions it wraps and how many lines it spans, as
//! `"3 collapsed regions · 42 lines"`, so the reader sees one row instead of
//! a stack of them.
//!
//! An open fold that shows only collapsed regions, with at most two open
//! lines before, between or after them, counts as collapsed: it joins a run
//! as the collapsed regions it shows, and its open lines count as separator
//! lines. A run starts on a collapsed row.
//!
//! A run is grouped on its side alone when the other side pairs none of its
//! regions. When the other side holds a run that matches it region for
//! region (the same leaf, or a fold sharing the fold state), both runs are
//! grouped in one join. A run whose regions are paired across sides some
//! other way stays as it is.
use crate::apply::{steps, MoveError};
use crate::draft::{moves_model, Draft, MoveModel};
use crate::plugins::{ids_fit, lines_of_range, start_of};
use crate::summarize::lemma_subtree_in_preorder;
use crate::text::{decimal, owned, push_decimal, push_str};
use crate::tree::{fold_states, leaf_alignments, sides_with_other_ids, OtherSide, Pairing, Source};
use crate::types::{FileEntry, Move};
use crate::tree::{all_sane, id_set_contains, id_set_insert, is_fold, line_count, preorder, preorder_one, Node, Region};
use vstd::prelude::*;

verus! {

broadcast use vstd::std_specs::vec::group_vec_axioms, vstd::seq::group_seq_axioms;

/// Open lines a run may show between two of its collapsed regions, and that
/// a fold counting as collapsed may show before, between or after its own.
pub const MAX_SEPARATOR_LINES: u64 = 2;

/// What a region shows when it counts as collapsed: how many collapsed
/// regions, and the open lines before the first and after the last.
#[derive(Debug, Clone, Copy, PartialEq, Eq, Structural)]
pub struct Shape {
    pub collapsed: usize,
    pub leading: u64,
    pub trailing: u64,
}

/// Each row `regions` show: `None` for a collapsed region, or an open
/// leaf's line count; an open fold shows its children's rows.
pub open spec fn rows_spec(regions: Seq<Region>) -> Seq<Option<nat>>
    decreases regions,
{
    if regions.len() == 0 {
        Seq::empty()
    } else {
        let r = regions.last();
        let own = if r.visibility.collapsed {
            seq![None]
        } else {
            match r.node {
                Node::Leaf { .. } => seq![Some(r.range.line_len())],
                Node::Fold { children } => {
                    proof {
                        assert(decreases_to!(regions => regions[regions.len() - 1]));
                    }
                    rows_spec(children@)
                },
            }
        };
        rows_spec(regions.drop_last()) + own
    }
}

/// The open lines in each stretch between collapsed rows, and before the
/// first and after the last, each counted up to three: more than two is all
/// that matters.
pub open spec fn open_stretches(rows: Seq<Option<nat>>) -> Seq<nat>
    decreases rows.len(),
{
    if rows.len() == 0 {
        seq![0nat]
    } else {
        let stretches = open_stretches(rows.drop_last());
        match rows.last() {
            None => stretches.push(0),
            Some(lines) => stretches.update(
                stretches.len() - 1,
                vstd::math::min((stretches.last() + lines) as int, 3) as nat,
            ),
        }
    }
}

proof fn lemma_open_stretches(rows: Seq<Option<nat>>)
    ensures
        open_stretches(rows).len() >= 1,
        open_stretches(rows).len() <= rows.len() + 1,
        forall|k: int| 0 <= k < open_stretches(rows).len() ==> #[trigger] open_stretches(rows)[k] <= 3,
    decreases rows.len(),
{
    if rows.len() > 0 {
        lemma_open_stretches(rows.drop_last());
    }
}

/// The shape of `r` when it counts as collapsed: it is collapsed, or it is
/// an open fold that shows at least one collapsed region, with at most
/// [`MAX_SEPARATOR_LINES`] open lines before, between or after them.
pub open spec fn shape_spec(r: Region) -> Option<Shape> {
    if r.visibility.collapsed {
        Some(Shape { collapsed: 1, leading: 0, trailing: 0 })
    } else {
        match r.node {
            Node::Leaf { .. } => None,
            Node::Fold { children } => {
                let stretches = open_stretches(rows_spec(children@));
                if stretches.len() > 1 && forall|k: int| 0 <= k < stretches.len() ==> #[trigger] stretches[k] <= 2 {
                    Some(
                        Shape {
                            collapsed: (stretches.len() - 1) as usize,
                            leading: stretches[0] as u64,
                            trailing: stretches.last() as u64,
                        },
                    )
                } else {
                    None
                }
            },
        }
    }
}

/// The children of a region of sane regions are sane too.
pub(crate) proof fn lemma_sane_children(regions: Seq<Region>, i: int)
    requires
        0 <= i < regions.len(),
        all_sane(regions),
    ensures
        all_sane(regions[i].children_spec()),
        regions[i].range.sane(),
{
    let r = regions[i];
    let under = r.children_spec();
    let at = lemma_subtree_in_preorder(regions, i);
    assert(preorder_one(r) == seq![r] + preorder(under));
    assert(preorder_one(r)[0] == r);
    assert forall|k: int| 0 <= k < preorder(under).len() implies (#[trigger] preorder(under)[k]).range.sane() by {
        assert(preorder_one(r)[k + 1] == preorder(under)[k]);
    }
}

/// Append the rows `regions` show to `out`.
fn rows(regions: &[Region], out: &mut Vec<Option<u64>>)
    requires
        all_sane(regions@),
    ensures
        final(out)@.map_values(|row: Option<u64>| row_view(row)) == old(out)@.map_values(
            |row: Option<u64>| row_view(row),
        ) + rows_spec(regions@),
    decreases regions@,
{
    let ghost start = old(out)@.map_values(|row: Option<u64>| row_view(row));
    let mut i: usize = 0;
    assert(regions@.take(0) =~= Seq::<Region>::empty());
    assert(start + Seq::<Option<nat>>::empty() =~= start);
    while i < regions.len()
        invariant
            i <= regions@.len(),
            all_sane(regions@),
            out@.map_values(|row: Option<u64>| row_view(row)) == start + rows_spec(regions@.take(i as int)),
        decreases regions@.len() - i,
    {
        let region = &regions[i];
        proof {
            lemma_sane_children(regions@, i as int);
            assert(regions@.take(i + 1).drop_last() =~= regions@.take(i as int));
            assert(regions@.take(i + 1).last() == *region);
        }
        let ghost before = out@.map_values(|row: Option<u64>| row_view(row));
        if region.visibility.collapsed {
            out.push(None);
            assert(out@.map_values(|row: Option<u64>| row_view(row)) =~= before + seq![None::<nat>]);
        } else {
            match &region.node {
                Node::Leaf { .. } => {
                    let lines = line_count(region) as u64;
                    out.push(Some(lines));
                    assert(out@.map_values(|row: Option<u64>| row_view(row)) =~= before + seq![
                        Some(region.range.line_len()),
                    ]);
                },
                Node::Fold { children } => {
                    assert(decreases_to!(regions@ => regions@[i as int]));
                    rows(children.as_slice(), out);
                },
            }
        }
        assert(out@.map_values(|row: Option<u64>| row_view(row)) =~= start + rows_spec(regions@.take(i + 1)));
        i += 1;
    }
    assert(regions@.take(regions@.len() as int) =~= regions@);
}

/// A row as a mathematical value.
pub open spec fn row_view(row: Option<u64>) -> Option<nat> {
    match row {
        Some(lines) => Some(lines as nat),
        None => None,
    }
}

/// The shape of `region` when it counts as collapsed: it is collapsed, or
/// it is an open fold that shows at least one collapsed region, with at most
/// [`MAX_SEPARATOR_LINES`] open lines before, between or after them.
pub fn shape(region: &Region) -> (found: Option<Shape>)
    requires
        all_sane(region.children_spec()),
    ensures
        found == shape_spec(*region),
{
    if region.visibility.collapsed {
        return Some(Shape { collapsed: 1, leading: 0, trailing: 0 });
    }
    let children = match &region.node {
        Node::Leaf { .. } => {
            return None;
        },
        Node::Fold { children } => children,
    };
    let mut shown: Vec<Option<u64>> = Vec::new();
    assert(shown@.map_values(|row: Option<u64>| row_view(row)) =~= Seq::<Option<nat>>::empty());
    rows(children.as_slice(), &mut shown);
    let ghost view = shown@.map_values(|row: Option<u64>| row_view(row));
    assert(view =~= rows_spec(children@));
    // The open lines in each stretch between collapsed rows, and before the
    // first and after the last.
    let mut stretches: Vec<u64> = Vec::new();
    stretches.push(0);
    let mut i: usize = 0;
    assert(view.take(0) =~= Seq::<Option<nat>>::empty());
    assert(stretches@.map_values(|x: u64| x as nat) =~= open_stretches(view.take(0)));
    while i < shown.len()
        invariant
            i <= shown@.len(),
            view == shown@.map_values(|row: Option<u64>| row_view(row)),
            stretches@.map_values(|x: u64| x as nat) == open_stretches(view.take(i as int)),
            stretches@.len() >= 1,
            stretches@.len() <= i + 1,
            forall|k: int| 0 <= k < stretches@.len() ==> #[trigger] stretches@[k] <= 3,
        decreases shown@.len() - i,
    {
        assert(view.take(i + 1).drop_last() =~= view.take(i as int));
        assert(view.take(i + 1).last() == row_view(shown@[i as int]));
        let ghost before = stretches@;
        match shown[i] {
            None => {
                stretches.push(0);
                assert(stretches@.map_values(|x: u64| x as nat) =~= open_stretches(view.take(i + 1)));
            },
            Some(lines) => {
                let n = stretches.len();
                let last = stretches[n - 1];
                let grown = if lines >= 3 {
                    3
                } else if last + lines >= 3 {
                    3
                } else {
                    last + lines
                };
                stretches.set(n - 1, grown);
                assert(stretches@.map_values(|x: u64| x as nat) =~= open_stretches(view.take(i + 1)));
            },
        }
        i += 1;
    }
    assert(view.take(shown@.len() as int) =~= view);
    let ghost st = open_stretches(rows_spec(children@));
    assert(stretches@.map_values(|x: u64| x as nat) == st);
    if stretches.len() <= 1 {
        return None;
    }
    let mut k: usize = 0;
    while k < stretches.len()
        invariant
            k <= stretches@.len(),
            stretches@.map_values(|x: u64| x as nat) == st,
            st == open_stretches(rows_spec(region.children_spec())),
            !region.visibility.collapsed,
            region.node is Fold,
            forall|j: int| 0 <= j < k ==> #[trigger] st[j] <= 2,
        decreases stretches@.len() - k,
    {
        assert(st[k as int] == stretches@[k as int]);
        if stretches[k] > MAX_SEPARATOR_LINES {
            assert(st[k as int] > 2);
            return None;
        }
        k += 1;
    }
    let n = stretches.len();
    assert(st[0] == stretches@[0]);
    assert(st.last() == stretches@[n - 1]);
    Some(Shape { collapsed: n - 1, leading: stretches[0], trailing: stretches[n - 1] })
}

} // verus!

verus! {

/// A run to group: its siblings, and how many collapsed regions they show.
pub struct Run<'a> {
    pub members: Vec<&'a Region>,
    pub collapsed: usize,
}

/// A run as a mathematical value.
#[verifier::ext_equal]
pub struct RunModel {
    pub members: Seq<Region>,
    pub collapsed: nat,
}

pub open spec fn run_view(run: Run<'_>) -> RunModel {
    RunModel { members: run.members@.map_values(|r: &Region| *r), collapsed: run.collapsed as nat }
}

pub open spec fn runs_view(runs: Seq<Run<'_>>) -> Seq<RunModel> {
    runs.map_values(|run: Run| run_view(run))
}

pub open spec fn empty_run() -> RunModel {
    RunModel { members: Seq::empty(), collapsed: 0 }
}

/// `run` kept when it has two members or more and shows two collapsed
/// regions or more.
pub open spec fn pushed(run: RunModel, own: Seq<RunModel>) -> Seq<RunModel> {
    if run.members.len() >= 2 && run.collapsed >= 2 {
        own.push(run)
    } else {
        own
    }
}

/// `a + b`, or the largest `usize` when that is more.
pub open spec fn count_add(a: nat, b: nat) -> nat {
    vstd::math::min((a + b) as int, usize::MAX as int) as nat
}

/// Where a walk along siblings stands: the runs kept so far, the run being
/// built, the open leaves after its last member, and the open lines they
/// and that member show after its last collapsed region.
pub struct Scan {
    pub own: Seq<RunModel>,
    pub run: RunModel,
    pub separator: Seq<Region>,
    pub gap: nat,
}

/// The walk one sibling further. A region holding search highlights ends
/// the run. A region counting as collapsed joins the run, with the
/// separator before it, when the open lines between stay within
/// [`MAX_SEPARATOR_LINES`]; otherwise it ends the run and starts the next
/// when no open line shows above its first collapsed row. An open leaf
/// joins the separator while the open lines stay within the limit. Anything
/// else ends the run.
pub open spec fn run_step(st: Scan, r: Region, highlighted: Set<u32>) -> Scan {
    let closed = Scan { own: pushed(st.run, st.own), run: empty_run(), separator: Seq::empty(), gap: st.gap };
    if highlighted.contains(r.id) {
        closed
    } else {
        match shape_spec(r) {
            Some(sh) => if st.run.members.len() == 0 && sh.leading > 0 {
                closed
            } else if st.run.members.len() == 0 || st.gap + sh.leading <= MAX_SEPARATOR_LINES {
                Scan {
                    own: st.own,
                    run: RunModel {
                        members: st.run.members + st.separator + seq![r],
                        collapsed: count_add(st.run.collapsed, sh.collapsed as nat),
                    },
                    separator: Seq::empty(),
                    gap: sh.trailing as nat,
                }
            } else if sh.leading == 0 {
                Scan {
                    own: pushed(st.run, st.own),
                    run: RunModel { members: seq![r], collapsed: sh.collapsed as nat },
                    separator: Seq::empty(),
                    gap: sh.trailing as nat,
                }
            } else {
                closed
            },
            None => if st.run.members.len() > 0 && !r.is_fold_spec() && st.gap + r.range.line_len()
                <= MAX_SEPARATOR_LINES {
                Scan {
                    own: st.own,
                    run: st.run,
                    separator: st.separator.push(r),
                    gap: st.gap + r.range.line_len(),
                }
            } else {
                closed
            },
        }
    }
}

/// The walk along `regions`.
pub open spec fn scan(regions: Seq<Region>, highlighted: Set<u32>) -> Scan
    decreases regions.len(),
{
    if regions.len() == 0 {
        Scan { own: Seq::empty(), run: empty_run(), separator: Seq::empty(), gap: 0 }
    } else {
        run_step(scan(regions.drop_last(), highlighted), regions.last(), highlighted)
    }
}

/// The runs among `regions` themselves.
pub open spec fn own_runs(regions: Seq<Region>, highlighted: Set<u32>) -> Seq<RunModel> {
    let st = scan(regions, highlighted);
    pushed(st.run, st.own)
}

/// The ids of the members of `runs`.
pub open spec fn member_ids(runs: Seq<RunModel>) -> Set<u32> {
    Set::new(
        |id: u32|
            exists|k: int, j: int|
                0 <= k < runs.len() && 0 <= j < runs[k].members.len() && (#[trigger] runs[k].members[j]).id == id,
    )
}

/// The runs under the open folds among `regions` that are not members of
/// a run themselves, in document order.
pub open spec fn nested_runs(regions: Seq<Region>, grouped: Set<u32>, highlighted: Set<u32>) -> Seq<RunModel>
    decreases regions, 0int,
{
    if regions.len() == 0 {
        Seq::empty()
    } else {
        let r = regions.last();
        let inner = match r.node {
            Node::Fold { children } => if !r.visibility.collapsed && !grouped.contains(r.id) {
                proof {
                    assert(decreases_to!(regions => regions[regions.len() - 1]));
                }
                runs_spec(children@, highlighted)
            } else {
                Seq::empty()
            },
            Node::Leaf { .. } => Seq::empty(),
        };
        nested_runs(regions.drop_last(), grouped, highlighted) + inner
    }
}

/// The runs of `regions` and of the open folds under them that are not in
/// a run themselves: those under the folds first, then the siblings' own.
pub open spec fn runs_spec(regions: Seq<Region>, highlighted: Set<u32>) -> Seq<RunModel>
    decreases regions, 1int,
{
    let own = own_runs(regions, highlighted);
    nested_runs(regions, member_ids(own), highlighted) + own
}

/// Move `run` into `out` if it has two members or more and shows two
/// collapsed regions or more.
fn push_run<'a>(run: &mut Run<'a>, out: &mut Vec<Run<'a>>)
    ensures
        run_view(*final(run)) == empty_run(),
        runs_view(final(out)@) == pushed(run_view(*old(run)), runs_view(old(out)@)),
{
    let mut taken = Run { members: Vec::new(), collapsed: 0 };
    std::mem::swap(run, &mut taken);
    assert(run_view(*run) =~= empty_run());
    let ghost before = out@;
    if taken.members.len() >= 2 && taken.collapsed >= 2 {
        out.push(taken);
        assert(runs_view(out@) =~= runs_view(before).push(run_view(taken)));
    }
}

/// The separator's leaves appended to the run's members.
fn take_separator<'a>(members: &mut Vec<&'a Region>, separator: &mut Vec<&'a Region>)
    ensures
        final(members)@.map_values(|r: &Region| *r) == old(members)@.map_values(|r: &Region| *r) + old(
            separator,
        )@.map_values(|r: &Region| *r),
        final(separator)@.len() == 0,
{
    let ghost a = members@;
    let ghost b = separator@;
    members.append(separator);
    assert(members@.map_values(|r: &Region| *r) =~= a.map_values(|r: &Region| *r) + b.map_values(|r: &Region| *r));
}

/// Append the runs of `regions`, and of the open folds under them that are
/// not in a run themselves, to `out`: those under the folds first.
fn collapsed_runs<'a>(regions: &'a [Region], highlighted: &std::collections::BTreeSet<u32>, out: &mut Vec<Run<'a>>)
    requires
        all_sane(regions@),
    ensures
        runs_view(final(out)@) == runs_view(old(out)@) + runs_spec(regions@, highlighted@),
    decreases regions@,
{
    let ghost start = runs_view(old(out)@);
    let ghost marks = highlighted@;
    let mut own: Vec<Run<'a>> = Vec::new();
    let mut run = Run { members: Vec::new(), collapsed: 0 };
    let mut separator: Vec<&'a Region> = Vec::new();
    let mut gap: u64 = 0;
    let mut i: usize = 0;
    assert(regions@.take(0) =~= Seq::<Region>::empty());
    assert(runs_view(own@) =~= Seq::<RunModel>::empty());
    assert(run_view(run) =~= empty_run());
    assert(separator@.map_values(|r: &Region| *r) =~= Seq::<Region>::empty());
    while i < regions.len()
        invariant
            i <= regions@.len(),
            all_sane(regions@),
            marks == highlighted@,
            ({
                let st = scan(regions@.take(i as int), marks);
                &&& runs_view(own@) == st.own
                &&& run_view(run) == st.run
                &&& separator@.map_values(|r: &Region| *r) == st.separator
                &&& gap == st.gap
            }),
            gap <= MAX_SEPARATOR_LINES,
        decreases regions@.len() - i,
    {
        let region = &regions[i];
        proof {
            lemma_sane_children(regions@, i as int);
            assert(regions@.take(i + 1).drop_last() =~= regions@.take(i as int));
            assert(regions@.take(i + 1).last() == *region);
        }
        let ghost st = scan(regions@.take(i as int), marks);
        if id_set_contains(highlighted, region.id) {
            push_run(&mut run, &mut own);
            separator = Vec::new();
            assert(separator@.map_values(|r: &Region| *r) =~= Seq::<Region>::empty());
        } else {
            match shape(region) {
                Some(sh) => {
                    proof {
                        lemma_shape_bounds(*region);
                    }
                    if run.members.len() == 0 && sh.leading > 0 {
                        push_run(&mut run, &mut own);
                        separator = Vec::new();
                        assert(separator@.map_values(|r: &Region| *r) =~= Seq::<Region>::empty());
                    } else if run.members.len() == 0 || gap + sh.leading <= MAX_SEPARATOR_LINES {
                        let ghost members_before = run.members@.map_values(|r: &Region| *r);
                        let ghost separator_before = separator@.map_values(|r: &Region| *r);
                        take_separator(&mut run.members, &mut separator);
                        run.members.push(region);
                        run.collapsed = run.collapsed.saturating_add(sh.collapsed);
                        gap = sh.trailing;
                        assert(run.members@.map_values(|r: &Region| *r) =~= members_before + separator_before + seq![
                            *region,
                        ]);
                        assert(separator@.map_values(|r: &Region| *r) =~= Seq::<Region>::empty());
                    } else {
                        push_run(&mut run, &mut own);
                        separator = Vec::new();
                        assert(separator@.map_values(|r: &Region| *r) =~= Seq::<Region>::empty());
                        if sh.leading == 0 {
                            run.members.push(region);
                            run.collapsed = run.collapsed.saturating_add(sh.collapsed);
                            gap = sh.trailing;
                            assert(run.members@.map_values(|r: &Region| *r) =~= seq![*region]);
                        }
                    }
                },
                None => {
                    let lines = line_count(region) as u64;
                    if run.members.len() > 0 && !is_fold(region) && gap + lines <= MAX_SEPARATOR_LINES {
                        let ghost separator_before = separator@.map_values(|r: &Region| *r);
                        gap = gap + lines;
                        separator.push(region);
                        assert(separator@.map_values(|r: &Region| *r) =~= separator_before.push(*region));
                    } else {
                        push_run(&mut run, &mut own);
                        separator = Vec::new();
                        assert(separator@.map_values(|r: &Region| *r) =~= Seq::<Region>::empty());
                    }
                },
            }
        }
        i += 1;
    }
    assert(regions@.take(regions@.len() as int) =~= regions@);
    push_run(&mut run, &mut own);
    let ghost own_view = runs_view(own@);
    assert(own_view == own_runs(regions@, marks));
    let grouped = grouped_ids(&own);
    let mut k: usize = 0;
    assert(regions@.take(0) =~= Seq::<Region>::empty());
    assert(runs_view(out@) =~= start + nested_runs(regions@.take(0), member_ids(own_view), marks));
    while k < regions.len()
        invariant
            k <= regions@.len(),
            all_sane(regions@),
            marks == highlighted@,
            grouped@ == member_ids(own_view),
            runs_view(out@) == start + nested_runs(regions@.take(k as int), member_ids(own_view), marks),
        decreases regions@.len() - k,
    {
        let region = &regions[k];
        proof {
            lemma_sane_children(regions@, k as int);
            assert(regions@.take(k + 1).drop_last() =~= regions@.take(k as int));
            assert(regions@.take(k + 1).last() == *region);
        }
        let ghost before = runs_view(out@);
        // Nothing under a collapsed fold is visible, and a fold in a run is
        // grouped whole, so neither needs grouping inside.
        if let Node::Fold { children } = &region.node {
            if !region.visibility.collapsed && !id_set_contains(&grouped, region.id) {
                assert(decreases_to!(regions@ => regions@[k as int]));
                collapsed_runs(children.as_slice(), highlighted, out);
            }
        }
        assert(runs_view(out@) =~= start + nested_runs(regions@.take(k + 1), member_ids(own_view), marks));
        k += 1;
    }
    assert(regions@.take(regions@.len() as int) =~= regions@);
    let ghost nested = runs_view(out@);
    let mut m: usize = 0;
    while m < own.len()
        invariant
            m <= own@.len(),
            own_view == runs_view(own@),
            runs_view(out@) == nested + own_view.take(m as int),
        decreases own@.len() - m,
    {
        let taken = Run { members: clone_members(&own[m].members), collapsed: own[m].collapsed };
        let ghost before = runs_view(out@);
        out.push(taken);
        assert(own_view.take(m + 1) =~= own_view.take(m as int).push(own_view[m as int]));
        assert(runs_view(out@) =~= before.push(run_view(taken)));
        m += 1;
    }
    assert(own_view.take(own@.len() as int) =~= own_view);
}

/// A copy of the member list.
fn clone_members<'a>(members: &Vec<&'a Region>) -> (copy: Vec<&'a Region>)
    ensures
        copy@ == members@,
{
    let mut copy: Vec<&'a Region> = Vec::new();
    let mut i: usize = 0;
    while i < members.len()
        invariant
            i <= members@.len(),
            copy@ == members@.take(i as int),
        decreases members@.len() - i,
    {
        copy.push(members[i]);
        assert(members@.take(i + 1) =~= members@.take(i as int).push(members@[i as int]));
        i += 1;
    }
    assert(members@.take(members@.len() as int) =~= members@);
    copy
}

/// The ids of the members of `runs`.
fn grouped_ids(runs: &Vec<Run<'_>>) -> (ids: std::collections::BTreeSet<u32>)
    ensures
        ids@ == member_ids(runs_view(runs@)),
{
    let ghost view = runs_view(runs@);
    let mut ids = std::collections::BTreeSet::new();
    let mut k: usize = 0;
    assert(ids@ =~= member_ids(view.take(0)));
    while k < runs.len()
        invariant
            k <= runs@.len(),
            view == runs_view(runs@),
            ids@ == member_ids(view.take(k as int)),
        decreases runs@.len() - k,
    {
        let members = &runs[k].members;
        let ghost seen = members@.map_values(|r: &Region| *r);
        assert(view[k as int].members == seen);
        let ghost base = ids@;
        let mut j: usize = 0;
        while j < members.len()
            invariant
                j <= members@.len(),
                seen == members@.map_values(|r: &Region| *r),
                ids@ == base.union(Set::new(|id: u32| exists|m: int| 0 <= m < j && (#[trigger] seen[m]).id == id)),
            decreases members@.len() - j,
        {
            id_set_insert(&mut ids, members[j].id);
            proof {
                assert(seen[j as int] == *members@[j as int]);
                let now = Set::new(|id: u32| exists|m: int| 0 <= m < j + 1 && (#[trigger] seen[m]).id == id);
                assert forall|x: u32| ids@.contains(x) == base.union(now).contains(x) by {
                    if now.contains(x) {
                        let m = choose|m: int| 0 <= m < j + 1 && (#[trigger] seen[m]).id == x;
                    }
                }
                assert(ids@ =~= base.union(now));
            }
            j += 1;
        }
        proof {
            let now = view.take(k + 1);
            let was = view.take(k as int);
            assert forall|x: u32| ids@.contains(x) == member_ids(now).contains(x) by {
                if member_ids(now).contains(x) {
                    let (a, b) = choose|a: int, b: int|
                        0 <= a < now.len() && 0 <= b < now[a].members.len() && (#[trigger] now[a].members[b]).id == x;
                    if a < k {
                        assert(was[a] == now[a]);
                        assert(member_ids(was).contains(x));
                    } else {
                        assert(now[a].members[b] == seen[b]);
                    }
                }
                if base.contains(x) {
                    let (a, b) = choose|a: int, b: int|
                        0 <= a < was.len() && 0 <= b < was[a].members.len() && (#[trigger] was[a].members[b]).id == x;
                    assert(now[a] == was[a]);
                }
                if exists|m: int| 0 <= m < seen.len() && (#[trigger] seen[m]).id == x {
                    let m = choose|m: int| 0 <= m < seen.len() && (#[trigger] seen[m]).id == x;
                    assert(now[k as int].members[m] == seen[m]);
                }
            }
            assert(ids@ =~= member_ids(now));
        }
        k += 1;
    }
    assert(view.take(runs@.len() as int) =~= view);
    ids
}

/// A shape's counts are small: its open lines are at most two each.
proof fn lemma_shape_bounds(r: Region)
    ensures
        shape_spec(r) matches Some(sh) ==> sh.leading <= 2 && sh.trailing <= 2,
{
    if !r.visibility.collapsed {
        match r.node {
            Node::Fold { children } => {
                let stretches = open_stretches(rows_spec(children@));
                if stretches.len() > 1 && forall|k: int| 0 <= k < stretches.len() ==> #[trigger] stretches[k] <= 2 {
                    assert(stretches[0] <= 2);
                    assert(stretches[stretches.len() - 1] <= 2);
                }
            },
            Node::Leaf { .. } => {},
        }
    }
}

/// The runs of `regions` and of the open folds under them that are not in
/// a run themselves, in document order.
pub fn runs<'a>(regions: &'a [Region], highlighted: &std::collections::BTreeSet<u32>) -> (found: Vec<Run<'a>>)
    requires
        all_sane(regions@),
    ensures
        runs_view(found@) == runs_spec(regions@, highlighted@),
{
    let mut found: Vec<Run<'a>> = Vec::new();
    assert(runs_view(found@) =~= Seq::<RunModel>::empty());
    collapsed_runs(regions, highlighted, &mut found);
    assert(runs_view(found@) =~= runs_spec(regions@, highlighted@));
    found
}

} // verus!

verus! {

/// Two regions on opposite sides pair up: the same leaf, or two folds
/// sharing a fold state.
pub open spec fn pair_up(own: Region, theirs: Region) -> bool {
    match (own.is_fold_spec(), theirs.is_fold_spec()) {
        (false, false) => own.alignment() == theirs.alignment(),
        (true, true) => own.fold_state_id == theirs.fold_state_id,
        _ => false,
    }
}

/// Two runs on opposite sides pair region for region.
pub open spec fn matches_spec(run: Seq<Region>, other: Seq<Region>) -> bool {
    run.len() == other.len() && forall|i: int| 0 <= i < run.len() ==> pair_up(#[trigger] run[i], other[i])
}

/// Whether two runs on opposite sides pair region for region: the same
/// leaf, or two folds sharing a fold state.
pub fn matches(run: &Vec<&Region>, other: &Vec<&Region>) -> (paired: bool)
    ensures
        paired == matches_spec(run@.map_values(|r: &Region| *r), other@.map_values(|r: &Region| *r)),
{
    let ghost a = run@.map_values(|r: &Region| *r);
    let ghost b = other@.map_values(|r: &Region| *r);
    if run.len() != other.len() {
        return false;
    }
    let mut i: usize = 0;
    while i < run.len()
        invariant
            i <= run@.len(),
            run@.len() == other@.len(),
            a == run@.map_values(|r: &Region| *r),
            b == other@.map_values(|r: &Region| *r),
            forall|k: int| 0 <= k < i ==> pair_up(#[trigger] a[k], b[k]),
        decreases run@.len() - i,
    {
        let own = run[i];
        let theirs = other[i];
        assert(a[i as int] == *own);
        assert(b[i as int] == *theirs);
        let same = match (is_fold(own), is_fold(theirs)) {
            (false, false) => {
                let (x, y) = (own.alignment_id(), theirs.alignment_id());
                match (x, y) {
                    (Some(p), Some(q)) => p == q,
                    (None, None) => true,
                    _ => false,
                }
            },
            (true, true) => own.fold_state_id == theirs.fold_state_id,
            _ => false,
        };
        if !same {
            return false;
        }
        i += 1;
    }
    true
}

/// The lines the members of a run span, summed; the largest `u64` when
/// that is more.
pub open spec fn run_lines(members: Seq<Region>) -> u64
    decreases members.len(),
{
    if members.len() == 0 {
        0
    } else {
        run_lines(members.drop_last()).saturating_add(members.last().range.line_len() as u64)
    }
}

/// What a group's collapsed row says: `"3 collapsed regions · 42 lines"`.
pub open spec fn label_spec(run: RunModel) -> Seq<char> {
    decimal(run.collapsed) + " collapsed regions · "@ + decimal(run_lines(run.members) as nat) + " lines"@
}

/// What a group's collapsed row says: `"3 collapsed regions · 42 lines"`.
pub fn label(run: &Run<'_>) -> (text: String)
    ensures
        text@ == label_spec(run_view(*run)),
{
    let ghost members = run.members@.map_values(|r: &Region| *r);
    let mut lines: u64 = 0;
    let mut i: usize = 0;
    while i < run.members.len()
        invariant
            i <= run.members@.len(),
            members == run.members@.map_values(|r: &Region| *r),
            lines == run_lines(members.take(i as int)),
        decreases run.members@.len() - i,
    {
        assert(members.take(i + 1).drop_last() =~= members.take(i as int));
        assert(members.take(i + 1).last() == *run.members@[i as int]);
        lines = lines.saturating_add(lines_of_range(&run.members[i].range));
        i += 1;
    }
    assert(members.take(members.len() as int) =~= members);
    let mut text = owned("");
    proof {
        reveal_strlit("");
    }
    push_decimal(&mut text, run.collapsed as u64);
    push_str(&mut text, " collapsed regions · ");
    push_decimal(&mut text, lines);
    push_str(&mut text, " lines");
    text
}

/// The ids of a run's members, in order.
fn member_ids_of(members: &Vec<&Region>) -> (ids: Vec<u32>)
    ensures
        ids@ == members@.map_values(|r: &Region| r.id),
{
    let mut ids: Vec<u32> = Vec::new();
    let mut i: usize = 0;
    while i < members.len()
        invariant
            i <= members@.len(),
            ids@ == members@.take(i as int).map_values(|r: &Region| r.id),
        decreases members@.len() - i,
    {
        ids.push(members[i].id);
        assert(members@.take(i + 1).map_values(|r: &Region| r.id) =~= members@.take(i as int).map_values(
            |r: &Region| r.id,
        ).push(members@[i as int].id));
        i += 1;
    }
    assert(members@.take(members@.len() as int) =~= members@);
    ids
}

/// The ids sorted, each once: a set of ids in a form that compares by
/// value.
fn id_key(ids: &Vec<u32>) -> (key: Vec<u32>)
    ensures
        forall|i: int, j: int| 0 <= i < j < key@.len() ==> #[trigger] key@[i] < #[trigger] key@[j],
        key@.to_set() == ids@.to_set(),
{
    let mut key: Vec<u32> = Vec::new();
    let mut i: usize = 0;
    assert(ids@.take(0).to_set() =~= Set::<u32>::empty());
    assert(key@.to_set() =~= Set::<u32>::empty());
    while i < ids.len()
        invariant
            i <= ids@.len(),
            forall|a: int, b: int| 0 <= a < b < key@.len() ==> #[trigger] key@[a] < #[trigger] key@[b],
            key@.to_set() == ids@.take(i as int).to_set(),
        decreases ids@.len() - i,
    {
        let id = ids[i];
        let mut pos: usize = 0;
        while pos < key.len() && key[pos] < id
            invariant
                pos <= key@.len(),
                forall|k: int| 0 <= k < pos ==> #[trigger] key@[k] < id,
            decreases key@.len() - pos,
        {
            pos += 1;
        }
        let ghost before = key@;
        if pos == key.len() || key[pos] != id {
            key.insert(pos, id);
            proof {
                assert forall|a: int, b: int| 0 <= a < b < key@.len() implies #[trigger] key@[a] < #[trigger] key@[b] by {
                    if b < pos {
                        assert(before[a] < before[b]);
                    } else if b == pos {
                    } else if a < pos {
                        assert(key@[b] == before[b - 1]);
                        assert(before[b - 1] >= before[pos as int]);
                        if b - 1 > pos {
                            assert(before[pos as int] < before[b - 1]);
                        }
                    } else if a == pos {
                        assert(key@[b] == before[b - 1]);
                        if b - 1 > pos {
                            assert(before[pos as int] < before[b - 1]);
                        }
                    } else {
                        assert(before[a - 1] < before[b - 1]);
                    }
                }
                assert(key@.to_set() =~= before.to_set().insert(id)) by {
                    assert forall|x: u32| key@.to_set().contains(x) == before.to_set().insert(id).contains(x) by {
                        if key@.to_set().contains(x) {
                            let k = choose|k: int| 0 <= k < key@.len() && #[trigger] key@[k] == x;
                            if k < pos {
                                assert(before[k] == x);
                            } else if k > pos {
                                assert(before[k - 1] == x);
                            }
                        }
                        if before.to_set().contains(x) {
                            let k = choose|k: int| 0 <= k < before.len() && #[trigger] before[k] == x;
                            if k < pos {
                                assert(key@[k] == x);
                            } else {
                                assert(key@[k + 1] == x);
                            }
                        }
                        assert(key@[pos as int] == id);
                    }
                }
            }
        } else {
            assert(before.to_set().contains(id)) by {
                assert(before[pos as int] == id);
            }
            assert(before.to_set().insert(id) =~= before.to_set());
        }
        proof {
            let now = ids@.take(i + 1);
            let was = ids@.take(i as int);
            assert(now =~= was.push(id));
            assert forall|x: u32| now.to_set().contains(x) == was.to_set().insert(id).contains(x) by {
                if now.to_set().contains(x) {
                    let k = choose|k: int| 0 <= k < now.len() && #[trigger] now[k] == x;
                    if k < i {
                        assert(was[k] == x);
                    }
                }
                if was.to_set().contains(x) {
                    let k = choose|k: int| 0 <= k < was.len() && #[trigger] was[k] == x;
                    assert(now[k] == x);
                }
                assert(now[i as int] == id);
            }
            assert(now.to_set() =~= was.to_set().insert(id));
        }
        i += 1;
    }
    assert(ids@.take(ids@.len() as int) =~= ids@);
    key
}

/// Whether two keys are the same.
fn same_key(a: &Vec<u32>, b: &Vec<u32>) -> (same: bool)
    ensures
        same == (a@ == b@),
{
    if a.len() != b.len() {
        return false;
    }
    let mut i: usize = 0;
    while i < a.len()
        invariant
            i <= a@.len(),
            a@.len() == b@.len(),
            forall|k: int| 0 <= k < i ==> a@[k] == b@[k],
        decreases a@.len() - i,
    {
        if a[i] != b[i] {
            return false;
        }
        i += 1;
    }
    assert(a@ =~= b@);
    true
}

/// Whether `key` is one of `keys`.
fn has_key(keys: &Vec<Vec<u32>>, key: &Vec<u32>) -> (found: bool)
    ensures
        found == exists|k: int| 0 <= k < keys@.len() && (#[trigger] keys@[k])@ == key@,
{
    let mut i: usize = 0;
    while i < keys.len()
        invariant
            i <= keys@.len(),
            forall|k: int| 0 <= k < i ==> (#[trigger] keys@[k])@ != key@,
        decreases keys@.len() - i,
    {
        if same_key(&keys[i], key) {
            return true;
        }
        i += 1;
    }
    false
}

/// The plugin has no options.
pub struct Options {}

/// Wrap runs of adjacent collapsed regions in one collapsed fold.
pub struct Group {
    pub options: Options,
}

/// Every side present has sane regions.
pub open spec fn sides_sane(sides: Pairing<Source>) -> bool {
    forall|k: int| 0 <= k < sides.present().len() ==> all_sane(#[trigger] sides.present()[k].regions@)
}

/// The leaves and fold states of the side opposite side `s`: none when
/// the file has one side.
pub open spec fn opposite(sides: Pairing<Source>, s: int) -> (Set<u32>, Set<u32>) {
    match sides {
        Pairing::Both { lhs, rhs } => if s == 0 {
            (leaf_alignments(preorder(rhs.regions@)), fold_states(preorder(rhs.regions@)))
        } else {
            (leaf_alignments(preorder(lhs.regions@)), fold_states(preorder(lhs.regions@)))
        },
        _ => (Set::empty(), Set::empty()),
    }
}

/// Whether the side opposite side `s` pairs a region: a leaf by its
/// alignment, a fold by its fold state.
pub open spec fn paired_across(sides: Pairing<Source>, s: int, r: Region) -> bool {
    match r.node {
        Node::Leaf { alignment_id, .. } => opposite(sides, s).0.contains(alignment_id),
        Node::Fold { .. } => opposite(sides, s).1.contains(r.fold_state_id),
    }
}

/// A run on side `s` none of whose regions the other side pairs.
pub open spec fn lone(sides: Pairing<Source>, s: int, run: RunModel) -> bool {
    forall|j: int| 0 <= j < run.members.len() ==> !paired_across(sides, s, #[trigger] run.members[j])
}

/// The ids of a run's regions.
pub open spec fn run_ids(run: RunModel) -> Set<u32> {
    run.members.map_values(|r: Region| r.id).to_set()
}

/// No side has a run worth a group.
pub open spec fn no_runs(sides: Pairing<Source>, highlighted: Set<u32>) -> bool {
    forall|s: int| 0 <= s < sides.present().len() ==> (#[trigger] runs_spec(sides.present()[s].regions@, highlighted)).len() == 0
}

/// Some join among the moves joins exactly the regions `ids`.
pub open spec fn joins(moves: Seq<MoveModel>, ids: Set<u32>) -> bool {
    exists|i: int| 0 <= i < moves.len() && (#[trigger] moves[i] matches MoveModel::JoinFolds { regions } && regions.to_set() == ids)
}

impl Group {
    /// Tags to add to the file's manifest entry: none.
    pub fn classify(&self, file: &FileEntry) -> (tags: Result<Vec<String>, MoveError>)
        ensures
            tags matches Ok(t) && t@.len() == 0,
    {
        Ok(Vec::new())
    }

    /// Group each side's runs: alone when the other side pairs none of its
    /// regions, with the other side's matching run in one join when one
    /// matches region for region, and not at all otherwise. A set of
    /// regions is grouped once. `highlighted` holds the ids of the regions
    /// that hold search highlights, which end runs.
    pub fn mutate(&self, file: &FileEntry, sides: &Pairing<Source>, highlighted: &std::collections::BTreeSet<u32>) -> (moves: Result<
        Vec<Move>,
        MoveError,
    >)
        requires
            ids_fit(*sides),
            sides_sane(*sides),
        ensures
            no_runs(*sides, highlighted@) ==> (moves matches Ok(m) && m@.len() == 0),
            moves matches Ok(m) ==> steps(start_of(*sides), m@).0 is Ok,
            moves matches Ok(m) ==> forall|s: int, k: int|
                0 <= s < sides.present().len() && 0 <= k < runs_spec(sides.present()[s].regions@, highlighted@).len()
                    && lone(*sides, s, #[trigger] runs_spec(sides.present()[s].regions@, highlighted@)[k]) ==> joins(
                    moves_model(m@),
                    run_ids(runs_spec(sides.present()[s].regions@, highlighted@)[k]),
                ),
    {
        let with_ids = sides_with_other_ids(sides);
        let mut per_side: Vec<(Vec<Run<'_>>, &OtherSide)> = Vec::new();
        let mut k: usize = 0;
        while k < with_ids.len()
            invariant
                k <= with_ids@.len(),
                with_ids@.len() == sides.present().len(),
                forall|i: int| 0 <= i < with_ids@.len() ==> *(#[trigger] with_ids@[i]).0 == sides.present()[i],
                sides_sane(*sides),
                per_side@.len() == k,
                forall|i: int|
                    0 <= i < k ==> runs_view((#[trigger] per_side@[i]).0@) == runs_spec(
                        sides.present()[i].regions@,
                        highlighted@,
                    ) && per_side@[i].1 == &with_ids@[i].1,
            decreases with_ids@.len() - k,
        {
            let (source, other_ids) = &with_ids[k];
            assert(all_sane(sides.present()[k as int].regions@));
            per_side.push((runs(source.regions.as_slice(), highlighted), other_ids));
            k += 1;
        }
        proof {
            assert forall|i: int, r: Region| 0 <= i < per_side@.len() implies #[trigger] per_side@[i].1.pairs_spec(r)
                == paired_across(*sides, i, r) by {
                assert(per_side@[i].1 == &with_ids@[i].1);
            }
        }
        let mut groups: Vec<Vec<u32>> = Vec::new();
        let mut draft = Draft::new(sides);
        let empty: Vec<Run<'_>> = Vec::new();
        let mut side: usize = 0;
        while side < per_side.len()
            invariant
                side <= per_side@.len(),
                per_side@.len() == sides.present().len(),
                draft.wf(),
                draft.start() == start_of(*sides),
                no_runs(*sides, highlighted@) ==> draft.moves().len() == 0,
                forall|i: int|
                    0 <= i < per_side@.len() ==> runs_view((#[trigger] per_side@[i]).0@) == runs_spec(
                        sides.present()[i].regions@,
                        highlighted@,
                    ),
                forall|i: int, r: Region| 0 <= i < per_side@.len() ==> #[trigger] per_side@[i].1.pairs_spec(r)
                    == paired_across(*sides, i, r),
                forall|g: int| 0 <= g < groups@.len() ==> joins(moves_model(draft.moves()), (#[trigger] groups@[g])@.to_set()),
                forall|s: int, q: int|
                    0 <= s < side && 0 <= q < runs_spec(sides.present()[s].regions@, highlighted@).len() && lone(
                        *sides,
                        s,
                        #[trigger] runs_spec(sides.present()[s].regions@, highlighted@)[q],
                    ) ==> joins(moves_model(draft.moves()), run_ids(runs_spec(sides.present()[s].regions@, highlighted@)[q])),
            decreases per_side@.len() - side,
        {
            // A one-sided file has no other side, and so no other runs.
            let other_runs: &Vec<Run<'_>> = if side == 0 && per_side.len() > 1 {
                &per_side[1].0
            } else if side == 1 {
                &per_side[0].0
            } else {
                &empty
            };
            let own_runs = &per_side[side].0;
            let other_ids = per_side[side].1;
            let ghost own_spec = runs_spec(sides.present()[side as int].regions@, highlighted@);
            assert(runs_view(own_runs@) == own_spec);
            let mut r: usize = 0;
            while r < own_runs.len()
                invariant
                    r <= own_runs@.len(),
                    side < per_side@.len(),
                    per_side@.len() == sides.present().len(),
                    runs_view(own_runs@) == own_spec,
                    own_spec == runs_spec(sides.present()[side as int].regions@, highlighted@),
                    forall|reg: Region| #[trigger] other_ids.pairs_spec(reg) == paired_across(*sides, side as int, reg),
                    draft.wf(),
                    draft.start() == start_of(*sides),
                    no_runs(*sides, highlighted@) ==> draft.moves().len() == 0,
                    forall|g: int| 0 <= g < groups@.len() ==> joins(moves_model(draft.moves()), (#[trigger] groups@[g])@.to_set()),
                    forall|s: int, q: int|
                        0 <= s < side && 0 <= q < runs_spec(sides.present()[s].regions@, highlighted@).len() && lone(
                            *sides,
                            s,
                            #[trigger] runs_spec(sides.present()[s].regions@, highlighted@)[q],
                        ) ==> joins(moves_model(draft.moves()), run_ids(runs_spec(sides.present()[s].regions@, highlighted@)[q])),
                    forall|q: int|
                        0 <= q < r && lone(*sides, side as int, #[trigger] own_spec[q]) ==> joins(
                            moves_model(draft.moves()),
                            run_ids(own_spec[q]),
                        ),
                decreases own_runs@.len() - r,
            {
                let run = &own_runs[r];
                let ghost model = own_spec[r as int];
                assert(!no_runs(*sides, highlighted@)) by {
                    assert(runs_spec(sides.present()[side as int].regions@, highlighted@).len() > 0);
                }
                assert(run_view(*run) == model);
                let mut regions = member_ids_of(&run.members);
                let mut paired = false;
                let mut j: usize = 0;
                while j < run.members.len()
                    invariant
                        j <= run.members@.len(),
                        forall|reg: Region| #[trigger] other_ids.pairs_spec(reg) == paired_across(*sides, side as int, reg),
                        run_view(*run) == model,
                        paired == exists|q: int| 0 <= q < j && paired_across(*sides, side as int, #[trigger] model.members[q]),
                    decreases run.members@.len() - j,
                {
                    assert(model.members[j as int] == *run.members@[j as int]);
                    if other_ids.pairs(run.members[j]) {
                        paired = true;
                    }
                    j += 1;
                }
                assert(regions@.to_set() == run_ids(model)) by {
                    assert(regions@ =~= model.members.map_values(|reg: Region| reg.id));
                }
                assert(!paired <==> lone(*sides, side as int, model));
                let mut skip = false;
                if paired {
                    let mut found: Option<usize> = None;
                    let mut o: usize = 0;
                    while o < other_runs.len()
                        invariant
                            o <= other_runs@.len(),
                            found matches Some(f) ==> f < other_runs@.len(),
                        decreases other_runs@.len() - o,
                    {
                        if matches(&run.members, &other_runs[o].members) {
                            found = Some(o);
                            break;
                        }
                        o += 1;
                    }
                    match found {
                        Some(f) => {
                            let mut more = member_ids_of(&other_runs[f].members);
                            regions.append(&mut more);
                        },
                        None => {
                            skip = true;
                        },
                    }
                }
                let ghost before = moves_model(draft.moves());
                if !skip {
                    let key = id_key(&regions);
                    if !has_key(&groups, &key) {
                        let ghost ids = regions@;
                        groups.push(key);
                        draft.group(regions, label(run))?;
                        proof {
                            let after = moves_model(draft.moves());
                            assert(after[before.len() as int] == MoveModel::JoinFolds { regions: ids });
                            assert(joins(after, ids.to_set()));
                            assert forall|g: int| 0 <= g < groups@.len() implies joins(after, (#[trigger] groups@[g])@.to_set()) by {
                                if g < groups@.len() - 1 {
                                    assert(joins(before, groups@[g]@.to_set()));
                                    let i = choose|i: int| 0 <= i < before.len() && (#[trigger] before[i] matches MoveModel::JoinFolds { regions } && regions.to_set() == groups@[g]@.to_set());
                                    assert(after[i] == before[i]);
                                }
                            }
                        }
                    } else {
                        proof {
                            let g = choose|g: int| 0 <= g < groups@.len() && (#[trigger] groups@[g])@ == key@;
                            assert(joins(before, groups@[g]@.to_set()));
                        }
                    }
                }
                proof {
                    let after = moves_model(draft.moves());
                    assert forall|q: int|
                        0 <= q < r + 1 && lone(*sides, side as int, #[trigger] own_spec[q]) implies joins(after, run_ids(own_spec[q])) by {
                        if q < r {
                            assert(joins(before, run_ids(own_spec[q])));
                            let i = choose|i: int| 0 <= i < before.len() && (#[trigger] before[i] matches MoveModel::JoinFolds { regions } && regions.to_set() == run_ids(own_spec[q]));
                            assert(after[i] == before[i]);
                        }
                    }
                    assert forall|s: int, q: int|
                        0 <= s < side && 0 <= q < runs_spec(sides.present()[s].regions@, highlighted@).len() && lone(
                            *sides,
                            s,
                            #[trigger] runs_spec(sides.present()[s].regions@, highlighted@)[q],
                        ) implies joins(after, run_ids(runs_spec(sides.present()[s].regions@, highlighted@)[q])) by {
                        let run_ids_q = run_ids(runs_spec(sides.present()[s].regions@, highlighted@)[q]);
                        assert(joins(before, run_ids_q));
                        let i = choose|i: int| 0 <= i < before.len() && (#[trigger] before[i] matches MoveModel::JoinFolds { regions } && regions.to_set() == run_ids_q);
                        assert(after[i] == before[i]);
                    }
                    assert forall|g: int| 0 <= g < groups@.len() implies joins(after, (#[trigger] groups@[g])@.to_set()) by {
                        assert(joins(before, groups@[g]@.to_set()) || joins(after, groups@[g]@.to_set()));
                        if !joins(after, groups@[g]@.to_set()) {
                            let i = choose|i: int| 0 <= i < before.len() && (#[trigger] before[i] matches MoveModel::JoinFolds { regions } && regions.to_set() == groups@[g]@.to_set());
                            assert(after[i] == before[i]);
                        }
                    }
                }
                r += 1;
            }
            side += 1;
        }
        proof {
            draft.lemma_wf();
        }
        Ok(draft.into_moves())
    }
}

} // verus!

verus! {

/// A run worth a group: two members or more, showing two collapsed regions
/// or more.
pub open spec fn worth_grouping(runs: Seq<RunModel>) -> bool {
    forall|k: int| 0 <= k < runs.len() ==> (#[trigger] runs[k]).members.len() >= 2 && runs[k].collapsed >= 2
}

proof fn lemma_worth_concat(a: Seq<RunModel>, b: Seq<RunModel>)
    requires
        worth_grouping(a),
        worth_grouping(b),
    ensures
        worth_grouping(a + b),
{
    assert forall|k: int| 0 <= k < (a + b).len() implies (#[trigger] (a + b)[k]).members.len() >= 2 && (a
        + b)[k].collapsed >= 2 by {
        if k < a.len() {
            assert((a + b)[k] == a[k]);
        } else {
            assert((a + b)[k] == b[k - a.len()]);
        }
    }
}

proof fn lemma_pushed_worth(run: RunModel, own: Seq<RunModel>)
    requires
        worth_grouping(own),
    ensures
        worth_grouping(pushed(run, own)),
{
    if run.members.len() >= 2 && run.collapsed >= 2 {
        assert forall|k: int| 0 <= k < own.push(run).len() implies (#[trigger] own.push(run)[k]).members.len() >= 2
            && own.push(run)[k].collapsed >= 2 by {
            if k < own.len() {
                assert(own.push(run)[k] == own[k]);
            }
        }
    }
}

proof fn lemma_scan_worth(regions: Seq<Region>, highlighted: Set<u32>)
    ensures
        worth_grouping(scan(regions, highlighted).own),
    decreases regions.len(),
{
    if regions.len() > 0 {
        let st = scan(regions.drop_last(), highlighted);
        lemma_scan_worth(regions.drop_last(), highlighted);
        lemma_pushed_worth(st.run, st.own);
    }
}

proof fn lemma_nested_worth(regions: Seq<Region>, grouped: Set<u32>, highlighted: Set<u32>)
    ensures
        worth_grouping(nested_runs(regions, grouped, highlighted)),
    decreases regions, 0int,
{
    if regions.len() > 0 {
        let r = regions.last();
        lemma_nested_worth(regions.drop_last(), grouped, highlighted);
        let inner = match r.node {
            Node::Fold { children } => if !r.visibility.collapsed && !grouped.contains(r.id) {
                assert(decreases_to!(regions => regions[regions.len() - 1]));
                lemma_runs_worth(children@, highlighted);
                runs_spec(children@, highlighted)
            } else {
                Seq::empty()
            },
            Node::Leaf { .. } => Seq::empty(),
        };
        lemma_worth_concat(nested_runs(regions.drop_last(), grouped, highlighted), inner);
    }
}

proof fn lemma_runs_worth(regions: Seq<Region>, highlighted: Set<u32>)
    ensures
        worth_grouping(runs_spec(regions, highlighted)),
    decreases regions, 1int,
{
    let own = own_runs(regions, highlighted);
    let st = scan(regions, highlighted);
    lemma_scan_worth(regions, highlighted);
    lemma_pushed_worth(st.run, st.own);
    lemma_nested_worth(regions, member_ids(own), highlighted);
    lemma_worth_concat(nested_runs(regions, member_ids(own), highlighted), own);
}

/// Every run found holds two regions or more and shows two collapsed
/// regions or more: a lone collapsed region is never grouped.
pub proof fn runs_wrap_two_collapsed_regions_or_more(regions: Seq<Region>, highlighted: Set<u32>)
    ensures
        worth_grouping(runs_spec(regions, highlighted)),
{
    lemma_runs_worth(regions, highlighted);
}


/// Two regions fill the same place in runs on opposite sides: two folds
/// sharing a fold state, or two leaves sharing a row alignment.
pub open spec fn same_place(own: Region, theirs: Region) -> bool {
    match (own.node, theirs.node) {
        (Node::Fold { .. }, Node::Fold { .. }) => own.fold_state_id == theirs.fold_state_id,
        (Node::Leaf { alignment_id: a, .. }, Node::Leaf { alignment_id: b, .. }) => a == b,
        _ => false,
    }
}

/// Runs on opposite sides match exactly when they are equally long and
/// each pair of regions fills the same place: folds by their shared fold
/// state, whatever their ids, and leaves by their shared alignment.
pub proof fn runs_match_by_fold_state(run: Seq<Region>, other: Seq<Region>)
    ensures
        matches_spec(run, other) <==> (run.len() == other.len() && forall|i: int|
            0 <= i < run.len() ==> same_place(#[trigger] run[i], other[i])),
{
    assert forall|i: int| 0 <= i < run.len() && i < other.len() implies pair_up(#[trigger] run[i], other[i])
        == same_place(run[i], other[i]) by {
        match (run[i].node, other[i].node) {
            (Node::Leaf { .. }, Node::Leaf { .. }) => {},
            _ => {},
        }
    }
}

} // verus!
