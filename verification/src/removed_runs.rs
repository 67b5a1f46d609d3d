//! Collapse the middle of long removed stretches.
use crate::apply::{steps, MoveError};
use crate::draft::{moves_model, Draft, MoveModel};
use crate::plugins::{ids_fit, removed_label, removed_label_exec, start_of};
use crate::summarize::{lemma_subtree_in_preorder, leaf_in};
use crate::tree::{
    leaf_alignments, all_sane, any_region, before_and_after_ids, has_tag, id_set_contains, line_count, one_sided, paired_leaf,
    preorder, preorder_one, Node, OtherSide, Pairing, Region, Source,
};
use crate::types::{FileEntry, Move};
use vstd::prelude::*;

verus! {

broadcast use vstd::std_specs::vec::group_vec_axioms, vstd::seq::group_seq_axioms;

/// The tag this plugin's queries set on function bodies.
pub const REMOVED_FUNCTION: &'static str = "removed-runs:function";

pub struct Options {
    pub min_lines: usize,
}

/// Removed stretches with no counterpart and at least `min_lines` lines
/// (never fewer than three) keep their first and last line open and
/// collapse the rest with a line count, so the reader still sees red at both
/// ends. Only stretches in unpaired code qualify: the nearest enclosing
/// function fold (or, outside any function, the nearest enclosing fold)
/// must itself be one-sided, so a rewritten function shows its red and green
/// lines in place. Stretches at the top level qualify. Leaves that already
/// start collapsed, or sit under a fold that does, are left alone, and so
/// are leaves holding search highlights.
pub struct RemovedRuns {
    pub options: Options,
}

/// Whether the enclosing folds are one-sided: the nearest function fold,
/// and the nearest fold of any kind. `None` when there is no such fold.
#[derive(Debug, Clone, Copy, PartialEq, Eq, Structural)]
pub struct Gates {
    pub function: Option<bool>,
    pub any: Option<bool>,
}

impl Default for Gates {
    /// The top level: no enclosing fold.
    fn default() -> (gates: Gates)
        ensures
            gates == (Gates { function: None, any: None }),
    {
        Gates { function: None, any: None }
    }
}

impl Gates {
    /// The gates inside `fold`, on the side opposite one whose leaves'
    /// alignments are `leaves`.
    pub open spec fn enter_spec(self, fold: Region, leaves: Set<u32>) -> Gates {
        let unpaired = !any_region(preorder_one(fold), leaf_in(leaves));
        Gates {
            function: if fold.has_tag_spec(REMOVED_FUNCTION@) {
                Some(unpaired)
            } else {
                self.function
            },
            any: Some(unpaired),
        }
    }

    /// The gates inside `fold`.
    pub fn enter(self, fold: &Region, rhs: &OtherSide) -> (inner: Gates)
        ensures
            inner == self.enter_spec(*fold, rhs.leaf_ids()),
    {
        proof {
            assert(paired_leaf(*rhs) =~= leaf_in(rhs.leaf_ids()));
        }
        let unpaired = one_sided(fold, rhs);
        Gates {
            function: if has_tag(fold, REMOVED_FUNCTION) {
                Some(unpaired)
            } else {
                self.function
            },
            any: Some(unpaired),
        }
    }

    pub open spec fn open_spec(self) -> bool {
        match self.function {
            Some(unpaired) => unpaired,
            None => match self.any {
                Some(unpaired) => unpaired,
                None => true,
            },
        }
    }

    /// Inside a paired function nothing collapses; outside any function the
    /// nearest fold decides; at the top level everything qualifies.
    pub fn open(self) -> (open: bool)
        ensures
            open == self.open_spec(),
    {
        match self.function {
            Some(unpaired) => unpaired,
            None => match self.any {
                Some(unpaired) => unpaired,
                None => true,
            },
        }
    }
}

/// Every leaf among `regions` and under them whose middle collapses, with
/// its line count, in document order: not collapsed nor under a collapsed
/// fold, holding no search highlight, with open gates, unpaired, and of at
/// least `threshold` lines.
pub open spec fn removed_leaves_spec(
    regions: Seq<Region>,
    leaves: Set<u32>,
    threshold: nat,
    under_collapsed: bool,
    gates: Gates,
    highlighted: Set<u32>,
) -> Seq<(u32, u32)>
    decreases regions,
{
    if regions.len() == 0 {
        Seq::empty()
    } else {
        let rest = removed_leaves_spec(regions.drop_last(), leaves, threshold, under_collapsed, gates, highlighted);
        let r = regions.last();
        let collapsed = under_collapsed || r.visibility.collapsed;
        match r.node {
            Node::Fold { children } => {
                proof {
                    assert(decreases_to!(regions => regions[regions.len() - 1]));
                }
                rest + removed_leaves_spec(
                    children@,
                    leaves,
                    threshold,
                    collapsed,
                    gates.enter_spec(r, leaves),
                    highlighted,
                )
            },
            Node::Leaf { alignment_id, .. } => if !collapsed && !highlighted.contains(r.id) && gates.open_spec()
                && !leaves.contains(alignment_id) && r.range.line_len() >= threshold {
                rest.push((r.id, r.range.line_len() as u32))
            } else {
                rest
            },
        }
    }
}

/// The children of a region of `regions` are sane too.
proof fn lemma_sane_children(regions: Seq<Region>, i: int)
    requires
        0 <= i < regions.len(),
        all_sane(regions),
    ensures
        all_sane(regions[i].children_spec()),
        regions[i].range.sane(),
{
    let r = regions[i];
    let under = r.children_spec();
    let at = lemma_subtree_in_preorder(regions, i);
    assert(preorder_one(r) == seq![r] + preorder(under));
    assert(preorder_one(r)[0] == r);
    assert forall|k: int| 0 <= k < preorder(under).len() implies (#[trigger] preorder(under)[k]).range.sane() by {
        assert(preorder_one(r)[k + 1] == preorder(under)[k]);
    }
}

/// Each leaf found holds at least `threshold` lines.
proof fn lemma_removed_long(
    regions: Seq<Region>,
    leaves: Set<u32>,
    threshold: nat,
    under_collapsed: bool,
    gates: Gates,
    highlighted: Set<u32>,
)
    requires
        all_sane(regions),
    ensures
        forall|k: int|
            0 <= k < removed_leaves_spec(regions, leaves, threshold, under_collapsed, gates, highlighted).len()
                ==> (#[trigger] removed_leaves_spec(regions, leaves, threshold, under_collapsed, gates, highlighted)[k]).1
                >= threshold,
    decreases regions,
{
    if regions.len() > 0 {
        let before = regions.drop_last();
        let r = regions.last();
        assert(preorder(regions) == preorder(before) + preorder_one(r));
        assert forall|k: int| 0 <= k < preorder(before).len() implies (#[trigger] preorder(before)[k]).range.sane() by {
            assert(preorder(regions)[k] == preorder(before)[k]);
        }
        lemma_removed_long(before, leaves, threshold, under_collapsed, gates, highlighted);
        lemma_sane_children(regions, regions.len() - 1);
        let collapsed = under_collapsed || r.visibility.collapsed;
        let rest = removed_leaves_spec(before, leaves, threshold, under_collapsed, gates, highlighted);
        match r.node {
            Node::Fold { children } => {
                assert(decreases_to!(regions => regions[regions.len() - 1]));
                lemma_removed_long(children@, leaves, threshold, collapsed, gates.enter_spec(r, leaves), highlighted);
                let more = removed_leaves_spec(children@, leaves, threshold, collapsed, gates.enter_spec(r, leaves), highlighted);
                assert forall|k: int| 0 <= k < (rest + more).len() implies (#[trigger] (rest + more)[k]).1 >= threshold by {
                    if k < rest.len() {
                        assert((rest + more)[k] == rest[k]);
                    } else {
                        assert((rest + more)[k] == more[k - rest.len()]);
                    }
                }
            },
            Node::Leaf { .. } => {},
        }
    }
}

fn visit_removed(
    regions: &[Region],
    rhs: &OtherSide,
    threshold: usize,
    under_collapsed: bool,
    gates: Gates,
    highlighted: &std::collections::BTreeSet<u32>,
    leaves: &mut Vec<(u32, u32)>,
)
    requires
        all_sane(regions@),
    ensures
        final(leaves)@ == old(leaves)@ + removed_leaves_spec(
            regions@,
            rhs.leaf_ids(),
            threshold as nat,
            under_collapsed,
            gates,
            highlighted@,
        ),
    decreases regions@,
{
    let ghost start = old(leaves)@;
    let ghost ids = rhs.leaf_ids();
    let mut i: usize = 0;
    assert(regions@.take(0) =~= Seq::<Region>::empty());
    assert(start + Seq::<(u32, u32)>::empty() =~= start);
    while i < regions.len()
        invariant
            i <= regions@.len(),
            all_sane(regions@),
            ids == rhs.leaf_ids(),
            leaves@ == start + removed_leaves_spec(
                regions@.take(i as int),
                ids,
                threshold as nat,
                under_collapsed,
                gates,
                highlighted@,
            ),
        decreases regions@.len() - i,
    {
        let region = &regions[i];
        proof {
            lemma_sane_children(regions@, i as int);
            assert(regions@.take(i + 1).drop_last() =~= regions@.take(i as int));
            assert(regions@.take(i + 1).last() == *region);
        }
        let collapsed = under_collapsed || region.visibility.collapsed;
        let ghost before = leaves@;
        match &region.node {
            Node::Fold { children } => {
                let inner = gates.enter(region, rhs);
                assert(decreases_to!(regions@ => regions@[i as int]));
                visit_removed(children.as_slice(), rhs, threshold, collapsed, inner, highlighted, leaves);
                assert(leaves@ =~= start + removed_leaves_spec(
                    regions@.take(i + 1),
                    ids,
                    threshold as nat,
                    under_collapsed,
                    gates,
                    highlighted@,
                ));
            },
            Node::Leaf { .. } => {
                let len = line_count(region);
                if !collapsed && !id_set_contains(highlighted, region.id) && gates.open() && !rhs.pairs(region)
                    && len >= threshold {
                    leaves.push((region.id, len as u32));
                }
            },
        }
        i += 1;
    }
    assert(regions@.take(regions@.len() as int) =~= regions@);
}

/// Every leaf on the before side whose middle collapses, with its line
/// count, in document order.
pub fn removed_leaves(
    lhs: &Source,
    rhs: &OtherSide,
    threshold: usize,
    highlighted: &std::collections::BTreeSet<u32>,
) -> (leaves: Vec<(u32, u32)>)
    requires
        all_sane(lhs.regions@),
    ensures
        leaves@ == removed_leaves_spec(
            lhs.regions@,
            rhs.leaf_ids(),
            threshold as nat,
            false,
            Gates { function: None, any: None },
            highlighted@,
        ),
{
    let mut leaves = Vec::new();
    visit_removed(lhs.regions.as_slice(), rhs, threshold, false, Gates::default(), highlighted, &mut leaves);
    assert(leaves@ =~= removed_leaves_spec(
        lhs.regions@,
        rhs.leaf_ids(),
        threshold as nat,
        false,
        Gates { function: None, any: None },
        highlighted@,
    ));
    leaves
}

/// The leaves of the after side, by row alignment; none without one.
pub open spec fn after_leaves(sides: Pairing<Source>) -> Set<u32> {
    match sides {
        Pairing::Both { rhs, .. } => leaf_alignments(preorder(rhs.regions@)),
        _ => Set::empty(),
    }
}

/// The removed stretches a file's before side holds, each by its leaf's
/// id and line count, for a plugin allowed `min_lines` (at least three).
pub open spec fn removed_plan(sides: Pairing<Source>, min_lines: nat, highlighted: Set<u32>) -> Seq<(u32, u32)> {
    match sides.left() {
        Some(lhs) => removed_leaves_spec(
            lhs.regions@,
            after_leaves(sides),
            if min_lines > 3 { min_lines } else { 3 },
            false,
            Gates { function: None, any: None },
            highlighted,
        ),
        None => Seq::empty(),
    }
}

impl RemovedRuns {
    /// Tags to add to the file's manifest entry: none.
    pub fn classify(&self, file: &FileEntry) -> (tags: Result<Vec<String>, MoveError>)
        ensures
            tags matches Ok(t) && t@.len() == 0,
    {
        Ok(Vec::new())
    }

    /// Keep the first and last line of each long removed leaf open and
    /// collapse the lines between behind their count. `highlighted` holds
    /// the ids of the regions that hold search highlights. A file without a
    /// before side has none.
    pub fn mutate(&self, file: &FileEntry, sides: &Pairing<Source>, highlighted: &std::collections::BTreeSet<u32>) -> (moves: Result<
        Vec<Move>,
        MoveError,
    >)
        requires
            ids_fit(*sides),
            sides.left() matches Some(lhs) ==> all_sane(lhs.regions@),
        ensures
            sides is RightOnly ==> (moves matches Ok(m) && m@.len() == 0),
            removed_plan(*sides, self.options.min_lines as nat, highlighted@).len() == 0 ==> (moves matches Ok(m)
                && m@.len() == 0),
            moves matches Ok(m) ==> steps(start_of(*sides), m@).0 is Ok,
            moves matches Ok(m) ==> forall|j: int|
                0 <= j < removed_plan(*sides, self.options.min_lines as nat, highlighted@).len() ==> {
                    let leaf = #[trigger] removed_plan(*sides, self.options.min_lines as nat, highlighted@)[j];
                    &&& moves_model(m@).contains(MoveModel::Cut { region: leaf.0, at: 1 })
                    &&& exists|middle: u32|
                        moves_model(m@).contains(MoveModel::SetCollapsed { region: middle, collapsed: true })
                            && moves_model(m@).contains(
                            MoveModel::SetLabel { region: middle, label: Some(removed_label((leaf.1 - 2) as nat)) },
                        )
                },
    {
        let (lhs, rhs) = match before_and_after_ids(sides) {
            Some(found) => found,
            None => {
                let none: Vec<Move> = Vec::new();
                assert(steps(start_of(*sides), none@).0 is Ok);
                return Ok(none);
            },
        };
        // A leaf needs a first, a middle, and a last line.
        let threshold = if self.options.min_lines > 3 {
            self.options.min_lines
        } else {
            3
        };
        let leaves = removed_leaves(lhs, &rhs, threshold, highlighted);
        proof {
            lemma_removed_long(
                lhs.regions@,
                rhs.leaf_ids(),
                threshold as nat,
                false,
                Gates { function: None, any: None },
                highlighted@,
            );
            assert(sides.left() == Some(*lhs));
            assert(rhs.leaf_ids() == after_leaves(*sides));
        }
        let ghost plan = removed_plan(*sides, self.options.min_lines as nat, highlighted@);
        let mut draft = Draft::new(sides);
        let mut i: usize = 0;
        assert(!(sides is RightOnly));
        while i < leaves.len()
            invariant
                i <= leaves@.len(),
                !(sides is RightOnly),
                draft.wf(),
                draft.start() == start_of(*sides),
                leaves@ == plan,
                plan == removed_plan(*sides, self.options.min_lines as nat, highlighted@),
                plan.len() == 0 ==> draft.moves().len() == 0,
                forall|k: int| 0 <= k < leaves@.len() ==> (#[trigger] leaves@[k]).1 >= 3,
                forall|j: int|
                    0 <= j < i ==> {
                        let leaf = #[trigger] plan[j];
                        &&& moves_model(draft.moves()).contains(MoveModel::Cut { region: leaf.0, at: 1 })
                        &&& exists|middle: u32|
                            moves_model(draft.moves()).contains(MoveModel::SetCollapsed { region: middle, collapsed: true })
                                && moves_model(draft.moves()).contains(
                                MoveModel::SetLabel { region: middle, label: Some(removed_label((leaf.1 - 2) as nat)) },
                            )
                    },
            decreases leaves@.len() - i,
        {
            let (id, len) = leaves[i];
            let ghost before = moves_model(draft.moves());
            let middle = draft.cut_lines(id, 1, len - 1)?;
            let ghost cut = moves_model(draft.moves());
            proof {
                assert(cut[before.len() as int] == MoveModel::Cut { region: id, at: 1 });
            }
            draft.collapse(middle, removed_label_exec((len - 2) as u64))?;
            proof {
                let done = moves_model(draft.moves());
                assert(done[cut.len() as int] == MoveModel::SetCollapsed { region: middle, collapsed: true });
                assert(done[cut.len() as int + 1] == MoveModel::SetLabel {
                    region: middle,
                    label: Some(removed_label((len - 2) as nat)),
                });
                assert(done.contains(MoveModel::Cut { region: id, at: 1 })) by {
                    assert(done[before.len() as int] == cut[before.len() as int]);
                }
                assert forall|j: int| 0 <= j < i implies {
                    let leaf = #[trigger] plan[j];
                    &&& done.contains(MoveModel::Cut { region: leaf.0, at: 1 })
                    &&& exists|m: u32|
                        done.contains(MoveModel::SetCollapsed { region: m, collapsed: true }) && done.contains(
                            MoveModel::SetLabel { region: m, label: Some(removed_label((leaf.1 - 2) as nat)) },
                        )
                } by {
                    let leaf = plan[j];
                    let m = choose|m: u32|
                        before.contains(MoveModel::SetCollapsed { region: m, collapsed: true }) && before.contains(
                            MoveModel::SetLabel { region: m, label: Some(removed_label((leaf.1 - 2) as nat)) },
                        );
                    let a = choose|x: int| 0 <= x < before.len() && before[x] == MoveModel::Cut { region: leaf.0, at: 1 };
                    let b = choose|x: int| 0 <= x < before.len() && before[x] == MoveModel::SetCollapsed { region: m, collapsed: true };
                    let c = choose|x: int| 0 <= x < before.len() && before[x] == MoveModel::SetLabel { region: m, label: Some(removed_label((leaf.1 - 2) as nat)) };
                    assert(done[a] == cut[a] && cut[a] == before[a]);
                    assert(done[b] == cut[b] && cut[b] == before[b]);
                    assert(done[c] == cut[c] && cut[c] == before[c]);
                    assert(done.contains(MoveModel::Cut { region: leaf.0, at: 1 }));
                    assert(done.contains(MoveModel::SetCollapsed { region: m, collapsed: true }));
                    assert(done.contains(MoveModel::SetLabel { region: m, label: Some(removed_label((leaf.1 - 2) as nat)) }));
                }
                assert(done.contains(MoveModel::SetCollapsed { region: middle, collapsed: true }));
                assert(done.contains(MoveModel::SetLabel { region: middle, label: Some(removed_label((len - 2) as nat)) }));
            }
            i += 1;
        }
        proof {
            draft.lemma_wf();
        }
        Ok(draft.into_moves())
    }
}


/// A leaf whose row alignment the other side holds.
pub open spec fn aligned_with(r: Region, leaves: Set<u32>) -> bool {
    match r.node {
        Node::Leaf { alignment_id, .. } => leaves.contains(alignment_id),
        Node::Fold { .. } => false,
    }
}

/// A region of `regions` that holds a leaf paired with the other side makes
/// its list hold one too, in preorder.
proof fn lemma_child_paired(children: Seq<Region>, i: int, leaves: Set<u32>)
    requires
        0 <= i < children.len(),
        aligned_with(children[i], leaves),
    ensures
        any_region(preorder(children), leaf_in(leaves)),
{
    let at = lemma_subtree_in_preorder(children, i);
    assert(preorder_one(children[i])[0] == children[i]);
    assert(preorder(children)[at] == children[i]);
    assert(leaf_in(leaves)(preorder(children)[at]));
}

/// No leaf among `regions` is reported while the gates are closed.
proof fn lemma_closed_leaves(
    regions: Seq<Region>,
    leaves: Set<u32>,
    threshold: nat,
    under_collapsed: bool,
    gates: Gates,
    highlighted: Set<u32>,
)
    requires
        !gates.open_spec(),
        forall|i: int| 0 <= i < regions.len() ==> (#[trigger] regions[i]).node is Leaf,
    ensures
        removed_leaves_spec(regions, leaves, threshold, under_collapsed, gates, highlighted).len() == 0,
    decreases regions.len(),
{
    if regions.len() > 0 {
        assert forall|i: int| 0 <= i < regions.drop_last().len() implies (#[trigger] regions.drop_last()[i]).node is Leaf by {
            assert(regions.drop_last()[i] == regions[i]);
        }
        lemma_closed_leaves(regions.drop_last(), leaves, threshold, under_collapsed, gates, highlighted);
        assert(regions[regions.len() - 1] == regions.last());
    }
}

/// Outside any function, a removed stretch collapses only when the nearest
/// enclosing fold is one-sided: in a block that is no function and holds a
/// leaf paired with the other side (a rewritten struct or class body), none
/// of the leaves the block holds directly is reported, however long.
pub proof fn paired_block_keeps_removed_lines_open(
    block: Region,
    leaves: Set<u32>,
    threshold: nat,
    under_collapsed: bool,
    gates: Gates,
    highlighted: Set<u32>,
)
    requires
        gates.function is None,
        block.node is Fold,
        !block.has_tag_spec(REMOVED_FUNCTION@),
        forall|i: int| 0 <= i < block.children_spec().len() ==> (#[trigger] block.children_spec()[i]).node is Leaf,
        exists|i: int| 0 <= i < block.children_spec().len() && aligned_with(#[trigger] block.children_spec()[i], leaves),
    ensures
        removed_leaves_spec(seq![block], leaves, threshold, under_collapsed, gates, highlighted).len() == 0,
{
    let children = block.children_spec();
    let i = choose|i: int| 0 <= i < children.len() && aligned_with(#[trigger] children[i], leaves);
    lemma_child_paired(children, i, leaves);
    assert(preorder_one(block) == seq![block] + preorder(children));
    crate::tree::lemma_any_concat(seq![block], preorder(children), leaf_in(leaves));
    let inner = gates.enter_spec(block, leaves);
    assert(inner.function is None && inner.any == Some(false));
    assert(!inner.open_spec());
    lemma_closed_leaves(children, leaves, threshold, under_collapsed || block.visibility.collapsed, inner, highlighted);
    let one = seq![block];
    assert(one.drop_last() =~= Seq::<Region>::empty());
    assert(one.last() == block);
    let rest = removed_leaves_spec(one.drop_last(), leaves, threshold, under_collapsed, gates, highlighted);
    assert(rest.len() == 0);
    if let Node::Fold { children: kids } = block.node {
        assert(kids@ == children);
        let more = removed_leaves_spec(
            kids@,
            leaves,
            threshold,
            under_collapsed || block.visibility.collapsed,
            inner,
            highlighted,
        );
        assert(removed_leaves_spec(one, leaves, threshold, under_collapsed, gates, highlighted) == rest + more);
    }
}


/// A leaf that qualifies on its own: unpaired, not collapsed, not under a
/// collapsed fold, holding no highlight, and of at least `threshold` lines.
pub open spec fn long_removed_leaf(r: Region, leaves: Set<u32>, threshold: nat, under_collapsed: bool, highlighted: Set<u32>) -> bool {
    &&& r.node is Leaf
    &&& !aligned_with(r, leaves)
    &&& !under_collapsed && !r.visibility.collapsed
    &&& !highlighted.contains(r.id)
    &&& r.range.line_len() >= threshold
}

/// The preorder of a list of leaves is the list itself.
proof fn lemma_leaves_preorder(regions: Seq<Region>)
    requires
        forall|i: int| 0 <= i < regions.len() ==> (#[trigger] regions[i]).node is Leaf,
    ensures
        preorder(regions) == regions,
    decreases regions.len(),
{
    if regions.len() > 0 {
        assert forall|i: int| 0 <= i < regions.drop_last().len() implies (#[trigger] regions.drop_last()[i]).node is Leaf by {
            assert(regions.drop_last()[i] == regions[i]);
        }
        lemma_leaves_preorder(regions.drop_last());
        assert(regions[regions.len() - 1] == regions.last());
        assert(preorder_one(regions.last()) =~= seq![regions.last()]);
        assert(regions.drop_last().push(regions.last()) =~= regions);
    }
}

/// With the gates open, every qualifying leaf of a list of leaves is
/// reported.
proof fn lemma_open_leaves(
    regions: Seq<Region>,
    leaves: Set<u32>,
    threshold: nat,
    under_collapsed: bool,
    gates: Gates,
    highlighted: Set<u32>,
)
    requires
        gates.open_spec(),
        forall|i: int| 0 <= i < regions.len() ==> (#[trigger] regions[i]).node is Leaf,
    ensures
        forall|i: int|
            0 <= i < regions.len() && long_removed_leaf(#[trigger] regions[i], leaves, threshold, under_collapsed, highlighted)
                ==> removed_leaves_spec(regions, leaves, threshold, under_collapsed, gates, highlighted).contains(
                (regions[i].id, regions[i].range.line_len() as u32),
            ),
    decreases regions.len(),
{
    if regions.len() > 0 {
        let front = regions.drop_last();
        assert forall|i: int| 0 <= i < front.len() implies (#[trigger] front[i]).node is Leaf by {
            assert(front[i] == regions[i]);
        }
        lemma_open_leaves(front, leaves, threshold, under_collapsed, gates, highlighted);
        let rest = removed_leaves_spec(front, leaves, threshold, under_collapsed, gates, highlighted);
        let all = removed_leaves_spec(regions, leaves, threshold, under_collapsed, gates, highlighted);
        let last = regions.last();
        assert(regions[regions.len() - 1] == last);
        assert forall|i: int|
            0 <= i < regions.len() && long_removed_leaf(#[trigger] regions[i], leaves, threshold, under_collapsed, highlighted)
                implies all.contains((regions[i].id, regions[i].range.line_len() as u32)) by {
            if i < front.len() {
                assert(front[i] == regions[i]);
                assert(rest.contains((front[i].id, front[i].range.line_len() as u32)));
                let j = choose|j: int| 0 <= j < rest.len() && rest[j] == (front[i].id, front[i].range.line_len() as u32);
                if let Node::Leaf { .. } = last.node {
                    if all.len() > rest.len() {
                        assert(all[j] == rest[j]);
                    } else {
                        assert(all == rest);
                    }
                }
            } else {
                if let Node::Leaf { alignment_id, .. } = last.node {
                    assert(all == rest.push((last.id, last.range.line_len() as u32)));
                    assert(all[rest.len() as int] == (last.id, last.range.line_len() as u32));
                }
            }
        }
    }
}

/// In a block that is no function and holds no leaf paired with the other
/// side, outside any function, every leaf the block holds directly that is
/// long enough, unpaired, not collapsed and holds no highlight is reported:
/// removed lines in one-sided code collapse.
pub proof fn one_sided_block_collapses_removed_lines(
    block: Region,
    leaves: Set<u32>,
    threshold: nat,
    gates: Gates,
    highlighted: Set<u32>,
)
    requires
        gates.function is None,
        block.node is Fold,
        !block.visibility.collapsed,
        !block.has_tag_spec(REMOVED_FUNCTION@),
        forall|i: int| 0 <= i < block.children_spec().len() ==> (#[trigger] block.children_spec()[i]).node is Leaf,
        forall|i: int| 0 <= i < block.children_spec().len() ==> !aligned_with(#[trigger] block.children_spec()[i], leaves),
    ensures
        forall|i: int|
            0 <= i < block.children_spec().len() && long_removed_leaf(
                #[trigger] block.children_spec()[i],
                leaves,
                threshold,
                false,
                highlighted,
            ) ==> removed_leaves_spec(seq![block], leaves, threshold, false, gates, highlighted).contains(
                (block.children_spec()[i].id, block.children_spec()[i].range.line_len() as u32),
            ),
{
    let children = block.children_spec();
    lemma_leaves_preorder(children);
    assert(preorder_one(block) == seq![block] + preorder(children));
    crate::tree::lemma_any_concat(seq![block], children, leaf_in(leaves));
    assert(!any_region(seq![block], leaf_in(leaves))) by {
        if any_region(seq![block], leaf_in(leaves)) {
            let k = choose|k: int| 0 <= k < seq![block].len() && leaf_in(leaves)(#[trigger] seq![block][k]);
            assert(seq![block][k] == block);
        }
    }
    assert(!any_region(children, leaf_in(leaves))) by {
        if any_region(children, leaf_in(leaves)) {
            let k = choose|k: int| 0 <= k < children.len() && leaf_in(leaves)(#[trigger] children[k]);
            assert(!aligned_with(children[k], leaves));
        }
    }
    let inner = gates.enter_spec(block, leaves);
    assert(inner.open_spec());
    lemma_open_leaves(children, leaves, threshold, false, inner, highlighted);
    let one = seq![block];
    assert(one.drop_last() =~= Seq::<Region>::empty());
    assert(one.last() == block);
    let rest = removed_leaves_spec(one.drop_last(), leaves, threshold, false, gates, highlighted);
    assert(rest.len() == 0);
    if let Node::Fold { children: kids } = block.node {
        assert(kids@ == children);
        let more = removed_leaves_spec(kids@, leaves, threshold, false, inner, highlighted);
        assert(removed_leaves_spec(one, leaves, threshold, false, gates, highlighted) == rest + more);
        assert(rest + more =~= more);
    }
}

} // verus!
