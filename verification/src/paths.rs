//! Paths of child indices into a side's tree: finding the first region a
//! test accepts, reading the region a path leads to, and replacing a run
//! of siblings in place. The moves of [`crate::apply`] are built on these.
use crate::tree::{
    clone_tags, clone_visibility, lemma_regions_model, lemma_regions_model_concat,
    lemma_regions_model_push, region_model, regions_model, Node, NodeModel, Region, RegionModel,
};
use crate::types::{Position, Range, Span, Visibility, ROOT};
use vstd::prelude::*;

verus! {

broadcast use vstd::std_specs::vec::group_vec_axioms, vstd::seq::group_seq_axioms, lemma_regions_model;

/// Child indices from the root down to the first region, in preorder, that
/// `pred` accepts.
pub open spec fn path_where_m(t: Seq<RegionModel>, pred: spec_fn(RegionModel) -> bool) -> Option<Seq<int>>
    decreases t,
{
    if t.len() == 0 {
        None
    } else {
        match path_where_m(t.drop_last(), pred) {
            Some(path) => Some(path),
            None => {
                let index = t.len() - 1;
                let region = t.last();
                if pred(region) {
                    Some(seq![index])
                } else {
                    match region.node {
                        NodeModel::Fold { children } => match path_where_m(children, pred) {
                            Some(path) => Some(seq![index] + path),
                            None => None,
                        },
                        NodeModel::Leaf { .. } => None,
                    }
                }
            },
        }
    }
}

/// The region a path of child indices leads to.
pub open spec fn region_at_m(t: Seq<RegionModel>, path: Seq<int>) -> Option<RegionModel>
    decreases path.len(),
{
    if path.len() == 0 || path[0] < 0 || path[0] >= t.len() {
        None
    } else if path.len() == 1 {
        Some(t[path[0]])
    } else {
        match t[path[0]].node {
            NodeModel::Fold { children } => region_at_m(children, path.drop_first()),
            NodeModel::Leaf { .. } => None,
        }
    }
}

/// The sibling list a path of child indices leads into: the top level for
/// the empty path, else the children of the fold at the path.
pub open spec fn siblings_at(t: Seq<RegionModel>, parent: Seq<int>) -> Option<Seq<RegionModel>>
    decreases parent.len(),
{
    if parent.len() == 0 {
        Some(t)
    } else if 0 <= parent[0] < t.len() {
        match t[parent[0]].node {
            NodeModel::Fold { children } => siblings_at(children, parent.drop_first()),
            NodeModel::Leaf { .. } => None,
        }
    } else {
        None
    }
}

/// `count` siblings from `index` in the list `parent` leads into replaced
/// by `new`.
pub open spec fn splice_at(
    t: Seq<RegionModel>,
    parent: Seq<int>,
    index: int,
    count: int,
    new: Seq<RegionModel>,
) -> Seq<RegionModel>
    decreases parent.len(),
{
    if parent.len() == 0 {
        t.take(index) + new + t.skip(index + count)
    } else if 0 <= parent[0] < t.len() {
        match t[parent[0]].node {
            NodeModel::Fold { children } => t.update(
                parent[0],
                RegionModel {
                    node: NodeModel::Fold {
                        children: splice_at(children, parent.drop_first(), index, count, new),
                    },
                    ..t[parent[0]]
                },
            ),
            NodeModel::Leaf { .. } => t,
        }
    } else {
        t
    }
}

/// The region with this `id`.
pub open spec fn has_id(id: u32) -> spec_fn(RegionModel) -> bool {
    |r: RegionModel| r.id == id
}

/// The leaf with this row alignment.
pub open spec fn has_alignment(alignment: u32) -> spec_fn(RegionModel) -> bool {
    |r: RegionModel| r.node matches NodeModel::Leaf { alignment_id, .. } && alignment_id == alignment
}

/// A path of machine indices as integers.
pub open spec fn path_model(path: Seq<usize>) -> Seq<int> {
    path.map_values(|x: usize| x as int)
}

proof fn lemma_path_where_m_take(t: Seq<RegionModel>, pred: spec_fn(RegionModel) -> bool, i: int)
    requires
        0 <= i < t.len(),
    ensures
        path_where_m(t.take(i + 1), pred) == match path_where_m(t.take(i), pred) {
            Some(path) => Some(path),
            None => if pred(t[i]) {
                Some(seq![i])
            } else {
                match t[i].node {
                    NodeModel::Fold { children } => match path_where_m(children, pred) {
                        Some(path) => Some(seq![i] + path),
                        None => None,
                    },
                    NodeModel::Leaf { .. } => None,
                }
            },
        },
{
    assert(t.take(i + 1).drop_last() =~= t.take(i));
    assert(t.take(i + 1).last() == t[i]);
}

proof fn lemma_path_where_m_prefix(t: Seq<RegionModel>, pred: spec_fn(RegionModel) -> bool, i: int)
    requires
        0 <= i <= t.len(),
        path_where_m(t.take(i), pred) is Some,
    ensures
        path_where_m(t, pred) == path_where_m(t.take(i), pred),
    decreases t.len() - i,
{
    if i < t.len() {
        lemma_path_where_m_take(t, pred, i);
        lemma_path_where_m_prefix(t, pred, i + 1);
    } else {
        assert(t.take(i) =~= t);
    }
}

/// What a found path leads to: a region the test accepts, which is the
/// entry at the path's last index in the sibling list the rest leads into.
pub proof fn lemma_path_where_m_sound(t: Seq<RegionModel>, pred: spec_fn(RegionModel) -> bool)
    ensures
        path_where_m(t, pred) matches Some(path) ==> {
            &&& path.len() > 0
            &&& region_at_m(t, path) matches Some(r) && pred(r)
            &&& siblings_at(t, path.drop_last()) matches Some(s) && 0 <= path.last() < s.len()
                && Some(s[path.last()]) == region_at_m(t, path)
        },
    decreases t,
{
    if t.len() > 0 {
        let before = t.drop_last();
        lemma_path_where_m_sound(before, pred);
        let index = t.len() - 1;
        let region = t.last();
        assert(before =~= t.take(index));
        if let Some(path) = path_where_m(before, pred) {
            lemma_region_at_m_prefix(t, index, path);
            if path.len() > 1 {
                lemma_siblings_at_prefix(t, index, path.drop_last());
            } else {
                assert(path.drop_last() =~= Seq::<int>::empty());
            }
        } else if pred(region) {
            assert(seq![index].drop_last() =~= Seq::<int>::empty());
        } else {
            match region.node {
                NodeModel::Fold { children } => {
                    assert(decreases_to!(t => t[t.len() - 1]));
                    lemma_path_where_m_sound(children, pred);
                    if let Some(path) = path_where_m(children, pred) {
                        let full = seq![index] + path;
                        assert(full[0] == index);
                        assert(full.drop_first() =~= path);
                        assert(full.drop_last() =~= seq![index] + path.drop_last());
                        assert(full.last() == path.last());
                        if path.len() > 1 {
                            assert((seq![index] + path.drop_last()).drop_first() =~= path.drop_last());
                        } else {
                            assert(path.drop_last() =~= Seq::<int>::empty());
                            assert((seq![index] + path.drop_last()).drop_first() =~= Seq::<int>::empty());
                        }
                    }
                },
                NodeModel::Leaf { .. } => {},
            }
        }
    }
}

proof fn lemma_region_at_m_prefix(t: Seq<RegionModel>, i: int, path: Seq<int>)
    requires
        0 <= i <= t.len(),
        region_at_m(t.take(i), path) is Some,
    ensures
        region_at_m(t, path) == region_at_m(t.take(i), path),
{
    assert(t.take(i)[path[0]] == t[path[0]]);
}

proof fn lemma_siblings_at_prefix(t: Seq<RegionModel>, i: int, parent: Seq<int>)
    requires
        0 <= i <= t.len(),
        parent.len() > 0,
        siblings_at(t.take(i), parent) is Some,
    ensures
        siblings_at(t, parent) == siblings_at(t.take(i), parent),
{
    assert(t.take(i)[parent[0]] == t[parent[0]]);
}

/// A region `path_where_m` finds lies on a path `region_at_m` follows.
pub proof fn lemma_region_at_siblings(t: Seq<RegionModel>, path: Seq<int>)
    requires
        region_at_m(t, path) is Some,
    ensures
        path.len() > 0,
        siblings_at(t, path.drop_last()) matches Some(s) && 0 <= path.last() < s.len()
            && Some(s[path.last()]) == region_at_m(t, path),
    decreases path.len(),
{
    if path.len() > 1 {
        let children = match t[path[0]].node {
            NodeModel::Fold { children } => children,
            NodeModel::Leaf { .. } => Seq::empty(),
        };
        lemma_region_at_siblings(children, path.drop_first());
        assert(path.drop_last()[0] == path[0]);
        assert(path.drop_last().drop_first() =~= path.drop_first().drop_last());
        assert(path.drop_first().last() == path.last());
    } else {
        assert(path.drop_last() =~= Seq::<int>::empty());
    }
}

} // verus!

verus! {

/// What a search looks for: a region by `id`, or a leaf by row alignment.
pub enum Wanted {
    Id(u32),
    Alignment(u32),
}

/// The test a search applies.
pub open spec fn wanted(w: Wanted) -> spec_fn(RegionModel) -> bool {
    match w {
        Wanted::Id(id) => has_id(id),
        Wanted::Alignment(alignment) => has_alignment(alignment),
    }
}

fn accepts(region: &Region, w: &Wanted) -> (yes: bool)
    ensures
        yes == wanted(*w)(region_model(*region)),
{
    match w {
        Wanted::Id(id) => region.id == *id,
        Wanted::Alignment(alignment) => match &region.node {
            Node::Leaf { alignment_id, .. } => *alignment_id == *alignment,
            Node::Fold { .. } => false,
        },
    }
}

pub proof fn lemma_regions_model_take_skip(s: Seq<Region>, i: int)
    requires
        0 <= i <= s.len(),
    ensures
        regions_model(s.take(i)) == regions_model(s).take(i),
        regions_model(s.skip(i)) == regions_model(s).skip(i),
{
    lemma_regions_model(s);
    lemma_regions_model(s.take(i));
    lemma_regions_model(s.skip(i));
    assert forall|k: int| 0 <= k < i implies regions_model(s.take(i))[k] == regions_model(s).take(i)[k] by {
        assert(s.take(i)[k] == s[k]);
    }
    assert(regions_model(s.take(i)) =~= regions_model(s).take(i));
    assert forall|k: int| 0 <= k < s.len() - i implies regions_model(s.skip(i))[k] == regions_model(s).skip(i)[k] by {
        assert(s.skip(i)[k] == s[k + i]);
    }
    assert(regions_model(s.skip(i)) =~= regions_model(s).skip(i));
}

pub proof fn lemma_regions_model_update(s: Seq<Region>, i: int, r: Region)
    requires
        0 <= i < s.len(),
    ensures
        regions_model(s.update(i, r)) == regions_model(s).update(i, region_model(r)),
{
    assert(regions_model(s.update(i, r)) =~= regions_model(s).update(i, region_model(r)));
}

/// Child indices from the root down to the first region, in preorder, that
/// the search accepts.
pub fn path_where(regions: &[Region], w: &Wanted) -> (path: Option<Vec<usize>>)
    ensures
        match path_where_m(regions_model(regions@), wanted(*w)) {
            Some(p) => path matches Some(v) && path_model(v@) == p,
            None => path is None,
        },
    decreases regions@,
{
    let ghost pred = wanted(*w);
    let ghost t = regions_model(regions@);
    let mut i: usize = 0;
    proof {
        lemma_regions_model_take_skip(regions@, 0);
    }
    while i < regions.len()
        invariant
            i <= regions@.len(),
            pred == wanted(*w),
            t == regions_model(regions@),
            path_where_m(t.take(i as int), pred) is None,
        decreases regions@.len() - i,
    {
        let region = &regions[i];
        proof {
            lemma_path_where_m_take(t, pred, i as int);
            assert(t[i as int] == region_model(*region));
        }
        if accepts(region, w) {
            let mut path = Vec::new();
            path.push(i);
            proof {
                assert(path_model(path@) =~= seq![i as int]);
                lemma_path_where_m_prefix(t, pred, i + 1);
            }
            return Some(path);
        }
        match &region.node {
            Node::Fold { children } => {
                assert(decreases_to!(regions@ => regions@[i as int]));
                if let Some(inner) = path_where(children.as_slice(), w) {
                    let mut path = Vec::new();
                    path.push(i);
                    let mut j: usize = 0;
                    while j < inner.len()
                        invariant
                            j <= inner@.len(),
                            path_model(path@) == seq![i as int] + path_model(inner@.take(j as int)),
                        decreases inner@.len() - j,
                    {
                        let ghost old_path = path@;
                        path.push(inner[j]);
                        assert(inner@.take(j + 1) =~= inner@.take(j as int).push(inner@[j as int]));
                        assert(path_model(path@) =~= path_model(old_path).push(inner@[j as int] as int));
                        assert(path_model(inner@.take(j + 1)) =~= path_model(inner@.take(j as int)).push(
                            inner@[j as int] as int,
                        ));
                        assert(path_model(path@) =~= seq![i as int] + path_model(inner@.take(j + 1)));
                        j += 1;
                    }
                    proof {
                        assert(inner@.take(inner@.len() as int) =~= inner@);
                        lemma_path_where_m_prefix(t, pred, i + 1);
                    }
                    return Some(path);
                }
            },
            Node::Leaf { .. } => {},
        }
        i += 1;
    }
    assert(t.take(regions@.len() as int) =~= t);
    None
}

/// The region a path, from `depth` on, leads to.
pub fn at<'a>(regions: &'a [Region], path: &Vec<usize>, depth: usize) -> (found: &'a Region)
    requires
        depth < path@.len(),
        region_at_m(regions_model(regions@), path_model(path@).skip(depth as int)) is Some,
    ensures
        Some(region_model(*found)) == region_at_m(regions_model(regions@), path_model(path@).skip(depth as int)),
    decreases path@.len() - depth,
{
    let ghost p = path_model(path@).skip(depth as int);
    let index = path[depth];
    assert(p[0] == index as int);
    if depth == path.len() - 1 {
        &regions[index]
    } else {
        assert(p.drop_first() =~= path_model(path@).skip(depth + 1));
        match &regions[index].node {
            Node::Fold { children } => at(children.as_slice(), path, depth + 1),
            Node::Leaf { .. } => {
                assert(false);
                &regions[index]
            },
        }
    }
}

} // verus!

verus! {

/// The changed spans on lines the range touches.
pub open spec fn spans_in(changed: Seq<Span>, range: Range) -> Seq<Span> {
    changed.filter(|span: Span| range.touches(span.line as int))
}

/// A leaf cut at relative line `at`: the first piece keeps the leaf's ids,
/// the second takes `id`, `alignment_id` and `fold_state_id`. Both keep the
/// tags and visibility, and the changed spans on their own lines.
pub open spec fn split_spec(leaf: RegionModel, at: u32, id: u32, alignment_id: u32, fold_state_id: u32) -> Seq<
    RegionModel,
> {
    let boundary = Position { line: (leaf.range.start.line + at) as u32, column: 0 };
    let head = Range { start: leaf.range.start, end: boundary };
    let tail = Range { start: boundary, end: leaf.range.end };
    match leaf.node {
        NodeModel::Leaf { alignment_id: own, changed } => seq![
            RegionModel {
                range: head,
                node: NodeModel::Leaf { alignment_id: own, changed: spans_in(changed, head) },
                ..leaf
            },
            RegionModel {
                id,
                fold_state_id,
                range: tail,
                node: NodeModel::Leaf { alignment_id, changed: spans_in(changed, tail) },
                ..leaf
            },
        ],
        NodeModel::Fold { .. } => Seq::empty(),
    }
}

/// A new fold around `children`: open, unlabelled, without tags, spanning
/// from its first child's start to its last child's end.
pub open spec fn wrap_spec(children: Seq<RegionModel>, id: u32, fold_state_id: u32) -> RegionModel {
    RegionModel {
        id,
        fold_state_id,
        range: Range { start: children[0].range.start, end: children.last().range.end },
        tags: Seq::empty(),
        collapsed: false,
        label: Seq::empty(),
        node: NodeModel::Fold { children },
    }
}

/// How a run of siblings is replaced.
pub enum Replace {
    /// The one leaf cut in two, as [`split_spec`] says.
    Split { at: u32, id: u32, alignment_id: u32, fold_state_id: u32 },
    /// The run wrapped in a new fold, as [`wrap_spec`] says.
    Wrap { id: u32, fold_state_id: u32 },
    /// The one region with a new label.
    Label(String),
    /// The one region with new tags.
    Tags(Vec<String>),
}

/// The run a replacement applies to.
pub open spec fn replace_ok(how: Replace, run: Seq<RegionModel>) -> bool {
    match how {
        Replace::Split { at, .. } => run.len() == 1 && run[0].node is Leaf && 0 < at && at
            < run[0].range.line_len(),
        Replace::Wrap { .. } => run.len() >= 1,
        Replace::Label(_) => run.len() == 1,
        Replace::Tags(_) => run.len() == 1,
    }
}

/// What replaces the run.
pub open spec fn replace_spec(how: Replace, run: Seq<RegionModel>) -> Seq<RegionModel> {
    match how {
        Replace::Split { at, id, alignment_id, fold_state_id } => split_spec(
            run[0],
            at,
            id,
            alignment_id,
            fold_state_id,
        ),
        Replace::Wrap { id, fold_state_id } => seq![wrap_spec(run, id, fold_state_id)],
        Replace::Label(label) => seq![RegionModel { label: label@, ..run[0] }],
        Replace::Tags(tags) => seq![RegionModel { tags: crate::tree::tags_model(tags@), ..run[0] }],
    }
}

/// The first line past the range's lines, in a width it cannot overflow.
fn lines_end(range: &Range) -> (end: u64)
    ensures
        end == range.lines_end(),
{
    if range.end.column == 0 {
        range.end.line as u64
    } else {
        range.end.line as u64 + 1
    }
}

/// The changed spans on lines the range touches.
fn spans_on(changed: &Vec<Span>, range: &Range) -> (kept: Vec<Span>)
    ensures
        kept@ == spans_in(changed@, *range),
{
    let ghost pred = |span: Span| range.touches(span.line as int);
    let end = lines_end(range);
    let mut kept: Vec<Span> = Vec::new();
    let mut i: usize = 0;
    while i < changed.len()
        invariant
            i <= changed@.len(),
            end == range.lines_end(),
            pred == (|span: Span| range.touches(span.line as int)),
            kept@ == changed@.take(i as int).filter(pred),
        decreases changed@.len() - i,
    {
        let span = changed[i];
        assert(changed@.take(i + 1).drop_last() =~= changed@.take(i as int));
        assert(changed@.take(i + 1).last() == span);
        let keep = range.start.line <= span.line && (span.line as u64) < end;
        assert(keep == pred(span));
        proof {
            reveal(Seq::filter);
        }
        assert(changed@.take(i + 1).filter(pred) == if pred(span) {
            changed@.take(i as int).filter(pred).push(span)
        } else {
            changed@.take(i as int).filter(pred)
        });
        if keep {
            kept.push(span);
        }
        i += 1;
    }
    assert(changed@.take(changed@.len() as int) =~= changed@);
    kept
}

/// A leaf cut at relative line `at`, as [`split_spec`] says.
fn split(leaf: Region, at: u32, id: u32, alignment_id: u32, fold_state_id: u32) -> (pieces: Vec<Region>)
    requires
        leaf.node is Leaf,
        0 < at < leaf.range.line_len(),
    ensures
        regions_model(pieces@) == split_spec(region_model(leaf), at, id, alignment_id, fold_state_id),
{
    let ghost model = region_model(leaf);
    let Region { id: own_id, fold_state_id: own_state, range, tags, visibility, node } = leaf;
    match node {
        Node::Leaf { alignment_id: own_alignment, changed } => {
            let boundary = Position { line: range.start.line + at, column: 0 };
            let head_range = Range { start: range.start, end: boundary };
            let tail_range = Range { start: boundary, end: range.end };
            let head = Region {
                id: own_id,
                fold_state_id: own_state,
                range: head_range,
                tags: clone_tags(&tags),
                visibility: clone_visibility(&visibility),
                node: Node::Leaf { alignment_id: own_alignment, changed: spans_on(&changed, &head_range) },
            };
            let tail = Region {
                id,
                fold_state_id,
                range: tail_range,
                tags,
                visibility,
                node: Node::Leaf { alignment_id, changed: spans_on(&changed, &tail_range) },
            };
            let mut pieces = Vec::new();
            pieces.push(head);
            pieces.push(tail);
            proof {
                lemma_regions_model(pieces@);
                assert(region_model(head) =~= split_spec(model, at, id, alignment_id, fold_state_id)[0]);
                assert(region_model(tail) =~= split_spec(model, at, id, alignment_id, fold_state_id)[1]);
                assert(regions_model(pieces@) =~= split_spec(model, at, id, alignment_id, fold_state_id));
            }
            pieces
        },
        Node::Fold { .. } => {
            assert(false);
            Vec::new()
        },
    }
}

/// A new fold around `children`, as [`wrap_spec`] says.
fn wrap(children: Vec<Region>, id: u32, fold_state_id: u32) -> (fold: Region)
    requires
        children@.len() >= 1,
    ensures
        region_model(fold) == wrap_spec(regions_model(children@), id, fold_state_id),
{
    let range = Range { start: children[0].range.start, end: children[children.len() - 1].range.end };
    proof {
        let m = regions_model(children@);
        assert(m[0] == region_model(children@[0]));
        assert(m[m.len() - 1] == region_model(children@[children@.len() - 1]));
    }
    let fold = Region {
        id,
        fold_state_id,
        range,
        tags: Vec::new(),
        visibility: Visibility::open_unlabelled(),
        node: Node::Fold { children },
    };
    assert(region_model(fold).tags =~= Seq::<Seq<char>>::empty());
    assert(region_model(fold).label =~= Seq::<char>::empty());
    assert(region_model(fold) == wrap_spec(regions_model(children@), id, fold_state_id));
    fold
}

/// The run replaced as `how` says.
fn replace_run(run: Vec<Region>, how: Replace) -> (out: Vec<Region>)
    requires
        replace_ok(how, regions_model(run@)),
    ensures
        regions_model(out@) == replace_spec(how, regions_model(run@)),
{
    let ghost model = regions_model(run@);
    match how {
        Replace::Split { at, id, alignment_id, fold_state_id } => {
            let mut run = run;
            let leaf = run.remove(0);
            assert(region_model(leaf) == model[0]);
            split(leaf, at, id, alignment_id, fold_state_id)
        },
        Replace::Wrap { id, fold_state_id } => {
            let fold = wrap(run, id, fold_state_id);
            let mut out = Vec::new();
            out.push(fold);
            assert(regions_model(out@) =~= seq![region_model(fold)]);
            out
        },
        Replace::Label(label) => {
            let mut run = run;
            let Region { id, fold_state_id, range, tags, visibility, node } = run.remove(0);
            let region = Region {
                id,
                fold_state_id,
                range,
                tags,
                visibility: Visibility { collapsed: visibility.collapsed, label },
                node,
            };
            let mut out = Vec::new();
            out.push(region);
            assert(regions_model(out@) =~= seq![region_model(region)]);
            assert(region_model(region) =~= RegionModel { label: label@, ..model[0] });
            out
        },
        Replace::Tags(tags) => {
            let mut run = run;
            let Region { id, fold_state_id, range, tags: _, visibility, node } = run.remove(0);
            let region = Region { id, fold_state_id, range, tags, visibility, node };
            let mut out = Vec::new();
            out.push(region);
            assert(regions_model(out@) =~= seq![region_model(region)]);
            assert(region_model(region) =~= RegionModel {
                tags: crate::tree::tags_model(tags@),
                ..model[0]
            });
            out
        },
    }
}

/// A region to take another's place for a moment.
fn placeholder() -> (region: Region)
    ensures
        crate::tree::blank_region(region),
{
    Region {
        id: ROOT,
        fold_state_id: ROOT,
        range: Range { start: Position { line: 0, column: 0 }, end: Position { line: 0, column: 0 } },
        tags: Vec::new(),
        visibility: Visibility::open_unlabelled(),
        node: Node::Leaf { alignment_id: 0, changed: Vec::new() },
    }
}

/// Replace `count` siblings from `index`, in the list the path from `depth`
/// on leads into, as `how` says.
pub fn replace_at(
    regions: &mut Vec<Region>,
    parent: &Vec<usize>,
    depth: usize,
    index: usize,
    count: usize,
    how: Replace,
)
    requires
        depth <= parent@.len(),
        siblings_at(regions_model(old(regions)@), path_model(parent@).skip(depth as int)) matches Some(s)
            && index + count <= s.len() && replace_ok(how, s.subrange(index as int, index + count)),
    ensures
        siblings_at(regions_model(old(regions)@), path_model(parent@).skip(depth as int)) matches Some(s)
            && regions_model(final(regions)@) == splice_at(
            regions_model(old(regions)@),
            path_model(parent@).skip(depth as int),
            index as int,
            count as int,
            replace_spec(how, s.subrange(index as int, index + count)),
        ),
    decreases parent@.len() - depth,
{
    let ghost p = path_model(parent@).skip(depth as int);
    let ghost before = regions@;
    if depth == parent.len() {
        assert(p.len() == 0);
        let mut tail = regions.split_off(index);
        let mut rest = tail.split_off(count);
        let ghost run = tail@;
        proof {
            lemma_regions_model_take_skip(before, index as int);
            lemma_regions_model_take_skip(before, index + count);
            assert(run =~= before.subrange(index as int, index + count));
            assert(regions_model(run) =~= regions_model(before).subrange(index as int, index + count));
        }
        let mut new = replace_run(tail, how);
        let ghost new_regions = new@;
        regions.append(&mut new);
        regions.append(&mut rest);
        proof {
            assert(regions@ == before.take(index as int) + new_regions + before.skip(index + count)) by {
                assert(regions@ =~= before.take(index as int) + new_regions + before.skip(index + count));
            }
            lemma_regions_model_concat(before.take(index as int) + new_regions, before.skip(index + count));
            lemma_regions_model_concat(before.take(index as int), new_regions);
        }
    } else {
        let i = parent[depth];
        proof {
            assert(p[0] == i as int);
            assert(p.drop_first() =~= path_model(parent@).skip(depth + 1));
        }
        let mut slot = placeholder();
        regions.set_and_swap(i, &mut slot);
        let Region { id, fold_state_id, range, tags, visibility, node } = slot;
        match node {
            Node::Fold { children } => {
                let mut children = children;
                replace_at(&mut children, parent, depth + 1, index, count, how);
                let region = Region { id, fold_state_id, range, tags, visibility, node: Node::Fold { children } };
                regions.set(i, region);
                proof {
                    assert(regions@ == before.update(i as int, region)) by {
                        assert(regions@ =~= before.update(i as int, region));
                    }
                    lemma_regions_model_update(before, i as int, region);
                }
            },
            Node::Leaf { .. } => {
                assert(false);
            },
        }
    }
}

} // verus!
