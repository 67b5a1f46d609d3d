//! Region trees: each side's flat preorder list rebuilt as a tree, the
//! records rebuilt from a tree, and the helpers plugins read trees with.
use crate::types::{self, Range, Span, Visibility, ROOT};
use vstd::prelude::*;

verus! {

broadcast use vstd::std_specs::vec::group_vec_axioms, vstd::seq::group_seq_axioms;

/// One region of a side's tree.
#[derive(Debug, PartialEq, Eq)]
pub struct Region {
    pub id: u32,
    pub fold_state_id: u32,
    pub range: Range,
    pub tags: Vec<String>,
    pub visibility: Visibility,
    pub node: Node,
}

#[derive(Debug, PartialEq, Eq)]
pub enum Node {
    Leaf { alignment_id: u32, changed: Vec<Span> },
    Fold { children: Vec<Region> },
}

/// A region as a mathematical value: what every contract speaks of.
pub struct RegionModel {
    pub id: u32,
    pub fold_state_id: u32,
    pub range: Range,
    pub tags: Seq<Seq<char>>,
    pub collapsed: bool,
    pub label: Seq<char>,
    pub node: NodeModel,
}

pub enum NodeModel {
    Leaf { alignment_id: u32, changed: Seq<Span> },
    Fold { children: Seq<RegionModel> },
}

pub open spec fn tags_model(tags: Seq<String>) -> Seq<Seq<char>> {
    tags.map_values(|tag: String| tag@)
}

pub open spec fn region_model(r: Region) -> RegionModel
    decreases r,
{
    RegionModel {
        id: r.id,
        fold_state_id: r.fold_state_id,
        range: r.range,
        tags: tags_model(r.tags@),
        collapsed: r.visibility.collapsed,
        label: r.visibility.label@,
        node: match r.node {
            Node::Leaf { alignment_id, changed } => NodeModel::Leaf { alignment_id, changed: changed@ },
            Node::Fold { children } => NodeModel::Fold { children: regions_model(children@) },
        },
    }
}

pub open spec fn regions_model(s: Seq<Region>) -> Seq<RegionModel>
    decreases s,
{
    if s.len() == 0 {
        Seq::empty()
    } else {
        regions_model(s.drop_last()).push(region_model(s.last()))
    }
}

} // verus!

verus! {

/// Which sides a thing exists on.
#[derive(Debug, Clone, PartialEq, Eq)]
pub enum Pairing<T> {
    Both { lhs: T, rhs: T },
    LeftOnly { lhs: T },
    RightOnly { rhs: T },
}

impl<T> Pairing<T> {
    /// The before side, when there is one.
    pub open spec fn left(self) -> Option<T> {
        match self {
            Pairing::Both { lhs, .. } => Some(lhs),
            Pairing::LeftOnly { lhs } => Some(lhs),
            Pairing::RightOnly { .. } => None,
        }
    }

    /// The after side, when there is one.
    pub open spec fn right(self) -> Option<T> {
        match self {
            Pairing::Both { rhs, .. } => Some(rhs),
            Pairing::RightOnly { rhs } => Some(rhs),
            Pairing::LeftOnly { .. } => None,
        }
    }

    /// Every side that exists, lhs first.
    pub open spec fn present(self) -> Seq<T> {
        match self {
            Pairing::Both { lhs, rhs } => seq![lhs, rhs],
            Pairing::LeftOnly { lhs } => seq![lhs],
            Pairing::RightOnly { rhs } => seq![rhs],
        }
    }

    /// The same sides, each value transformed by `f`.
    pub fn map<U, F: Fn(T) -> U>(self, f: F) -> (mapped: Pairing<U>)
        requires
            forall|t: T| self.present().contains(t) ==> #[trigger] f.requires((t,)),
        ensures
            match (self, mapped) {
                (Pairing::Both { lhs, rhs }, Pairing::Both { lhs: l, rhs: r }) => f.ensures(
                    (lhs,),
                    l,
                ) && f.ensures((rhs,), r),
                (Pairing::LeftOnly { lhs }, Pairing::LeftOnly { lhs: l }) => f.ensures((lhs,), l),
                (Pairing::RightOnly { rhs }, Pairing::RightOnly { rhs: r }) => f.ensures((rhs,), r),
                _ => false,
            },
    {
        match self {
            Pairing::Both { lhs, rhs } => {
                assert(self.present()[0] == lhs && self.present()[1] == rhs);
                Pairing::Both { lhs: f(lhs), rhs: f(rhs) }
            },
            Pairing::LeftOnly { lhs } => {
                assert(self.present()[0] == lhs);
                Pairing::LeftOnly { lhs: f(lhs) }
            },
            Pairing::RightOnly { rhs } => {
                assert(self.present()[0] == rhs);
                Pairing::RightOnly { rhs: f(rhs) }
            },
        }
    }

    /// The before side, when there is one.
    pub fn lhs(&self) -> (side: Option<&T>)
        ensures
            match self.left() {
                Some(l) => side == Some(&l),
                None => side is None,
            },
    {
        match self {
            Pairing::Both { lhs, .. } => Some(lhs),
            Pairing::LeftOnly { lhs } => Some(lhs),
            Pairing::RightOnly { .. } => None,
        }
    }

    /// The after side, when there is one.
    pub fn rhs(&self) -> (side: Option<&T>)
        ensures
            match self.right() {
                Some(r) => side == Some(&r),
                None => side is None,
            },
    {
        match self {
            Pairing::Both { rhs, .. } => Some(rhs),
            Pairing::RightOnly { rhs } => Some(rhs),
            Pairing::LeftOnly { .. } => None,
        }
    }

    /// Every side that exists, lhs first.
    pub fn sides(&self) -> (sides: Vec<&T>)
        ensures
            sides@.len() == self.present().len(),
            forall|i: int| 0 <= i < sides@.len() ==> *sides@[i] == self.present()[i],
    {
        let mut sides = Vec::new();
        match self {
            Pairing::Both { lhs, rhs } => {
                sides.push(lhs);
                sides.push(rhs);
            },
            Pairing::LeftOnly { lhs } => {
                sides.push(lhs);
            },
            Pairing::RightOnly { rhs } => {
                sides.push(rhs);
            },
        }
        sides
    }
}

} // verus!

verus! {

/// Every region of `regions` and of the folds under them, in preorder: a
/// fold before its children, siblings in order.
pub open spec fn preorder(regions: Seq<Region>) -> Seq<Region>
    decreases regions,
{
    if regions.len() == 0 {
        Seq::empty()
    } else {
        preorder(regions.drop_last()) + preorder_one(regions.last())
    }
}

/// `region`, then everything under it, in preorder.
pub open spec fn preorder_one(region: Region) -> Seq<Region>
    decreases region,
{
    seq![region] + match region.node {
        Node::Fold { children } => preorder(children@),
        Node::Leaf { .. } => Seq::empty(),
    }
}

pub proof fn lemma_preorder_take(regions: Seq<Region>, i: int)
    requires
        0 <= i < regions.len(),
    ensures
        preorder(regions.take(i + 1)) == preorder(regions.take(i)) + preorder_one(regions[i]),
{
    assert(regions.take(i + 1).drop_last() =~= regions.take(i));
}

pub proof fn lemma_preorder_all(regions: Seq<Region>)
    ensures
        preorder(regions.take(regions.len() as int)) == preorder(regions),
{
    assert(regions.take(regions.len() as int) =~= regions);
}

pub proof fn lemma_preorder_empty(regions: Seq<Region>)
    ensures
        preorder(regions.take(0)) == Seq::<Region>::empty(),
{
    assert(regions.take(0) =~= Seq::<Region>::empty());
}

impl Region {
    /// A leaf's row alignment; a fold has none.
    pub open spec fn alignment(self) -> Option<u32> {
        match self.node {
            Node::Leaf { alignment_id, .. } => Some(alignment_id),
            Node::Fold { .. } => None,
        }
    }

    /// A leaf's row alignment; a fold has none.
    pub fn alignment_id(&self) -> (alignment: Option<u32>)
        ensures
            alignment == self.alignment(),
    {
        match self.node {
            Node::Leaf { alignment_id, .. } => Some(alignment_id),
            Node::Fold { .. } => None,
        }
    }

    pub open spec fn is_fold_spec(self) -> bool {
        self.node is Fold
    }

    /// Whether one of the region's tags is `tag`.
    pub open spec fn has_tag_spec(self, tag: Seq<char>) -> bool {
        exists|i: int| 0 <= i < self.tags@.len() && #[trigger] self.tags@[i]@ == tag
    }

    /// The children of a fold; a leaf has none.
    pub open spec fn children_spec(self) -> Seq<Region> {
        match self.node {
            Node::Fold { children } => children@,
            Node::Leaf { .. } => Seq::empty(),
        }
    }
}

fn walk_into<'a>(regions: &'a [Region], out: &mut Vec<&'a Region>)
    ensures
        final(out)@.map_values(|r: &Region| *r) == old(out)@.map_values(|r: &Region| *r) + preorder(
            regions@,
        ),
    decreases regions@,
{
    let ghost start = old(out)@.map_values(|r: &Region| *r);
    let mut i: usize = 0;
    proof {
        lemma_preorder_empty(regions@);
        assert(out@.map_values(|r: &Region| *r) =~= start + preorder(regions@.take(0)));
    }
    while i < regions.len()
        invariant
            i <= regions@.len(),
            out@.map_values(|r: &Region| *r) == start + preorder(regions@.take(i as int)),
        decreases regions@.len() - i,
    {
        let region = &regions[i];
        let ghost before = out@.map_values(|r: &Region| *r);
        out.push(region);
        assert(out@.map_values(|r: &Region| *r) =~= before.push(*region));
        match &region.node {
            Node::Fold { children } => {
                assert(decreases_to!(regions@ => regions@[i as int]));
                walk_into(children.as_slice(), out);
            },
            Node::Leaf { .. } => {},
        }
        proof {
            lemma_preorder_take(regions@, i as int);
            assert(out@.map_values(|r: &Region| *r) =~= start + preorder(regions@.take(i + 1)));
        }
        i += 1;
    }
    proof {
        lemma_preorder_all(regions@);
    }
}

/// Every region, parents before children, siblings in order.
pub fn walk(regions: &[Region]) -> (visited: Vec<&Region>)
    ensures
        visited@.map_values(|r: &Region| *r) == preorder(regions@),
{
    let mut visited = Vec::new();
    walk_into(regions, &mut visited);
    assert(Seq::<&Region>::empty().map_values(|r: &Region| *r) =~= Seq::<Region>::empty());
    assert(visited@.map_values(|r: &Region| *r) =~= preorder(regions@));
    visited
}

} // verus!

verus! {

/// Add `id` to a set of ids.
pub fn id_set_insert(set: &mut std::collections::BTreeSet<u32>, id: u32)
    ensures
        final(set)@ == old(set)@.insert(id),
{
    broadcast use vstd::laws_cmp::group_laws_cmp, vstd::std_specs::btree::group_btree_axioms;

    set.insert(id);
}

/// Whether a set of ids holds `id`.
pub fn id_set_contains(set: &std::collections::BTreeSet<u32>, id: u32) -> (found: bool)
    ensures
        found == set@.contains(id),
{
    broadcast use vstd::laws_cmp::group_laws_cmp, vstd::std_specs::btree::group_btree_axioms;

    set.contains(&id)
}

/// Add `line` to a set of line numbers.
pub fn line_set_insert(set: &mut std::collections::BTreeSet<usize>, line: usize)
    ensures
        final(set)@ == old(set)@.insert(line),
{
    broadcast use vstd::laws_cmp::group_laws_cmp, vstd::std_specs::btree::group_btree_axioms;

    set.insert(line);
}

/// Whether a set of line numbers holds `line`.
pub fn line_set_contains(set: &std::collections::BTreeSet<usize>, line: usize) -> (found: bool)
    ensures
        found == set@.contains(line),
{
    broadcast use vstd::laws_cmp::group_laws_cmp, vstd::std_specs::btree::group_btree_axioms;

    set.contains(&line)
}

/// The alignment ids of the leaves in `regions`.
pub open spec fn leaf_alignments(regions: Seq<Region>) -> Set<u32> {
    Set::new(|a: u32| exists|i: int| 0 <= i < regions.len() && #[trigger] regions[i].alignment() == Some(a))
}

/// The fold state ids of the regions in `regions`.
pub open spec fn fold_states(regions: Seq<Region>) -> Set<u32> {
    Set::new(|s: u32| exists|i: int| 0 <= i < regions.len() && #[trigger] regions[i].fold_state_id == s)
}

pub proof fn lemma_leaf_alignments_concat(a: Seq<Region>, b: Seq<Region>)
    ensures
        leaf_alignments(a + b) == leaf_alignments(a).union(leaf_alignments(b)),
        fold_states(a + b) == fold_states(a).union(fold_states(b)),
{
    assert forall|x: u32| leaf_alignments(a + b).contains(x) <==> leaf_alignments(a).union(leaf_alignments(b)).contains(x) by {
        if leaf_alignments(a + b).contains(x) {
            let i = choose|i: int| 0 <= i < (a + b).len() && #[trigger] (a + b)[i].alignment() == Some(x);
            if i < a.len() {
                assert(a[i] == (a + b)[i]);
            } else {
                assert(b[i - a.len()] == (a + b)[i]);
            }
        }
        if leaf_alignments(a).contains(x) {
            let i = choose|i: int| 0 <= i < a.len() && #[trigger] a[i].alignment() == Some(x);
            assert((a + b)[i] == a[i]);
        }
        if leaf_alignments(b).contains(x) {
            let i = choose|i: int| 0 <= i < b.len() && #[trigger] b[i].alignment() == Some(x);
            assert((a + b)[a.len() + i] == b[i]);
        }
    }
    assert forall|x: u32| fold_states(a + b).contains(x) <==> fold_states(a).union(fold_states(b)).contains(x) by {
        if fold_states(a + b).contains(x) {
            let i = choose|i: int| 0 <= i < (a + b).len() && #[trigger] (a + b)[i].fold_state_id == x;
            if i < a.len() {
                assert(a[i] == (a + b)[i]);
            } else {
                assert(b[i - a.len()] == (a + b)[i]);
            }
        }
        if fold_states(a).contains(x) {
            let i = choose|i: int| 0 <= i < a.len() && #[trigger] a[i].fold_state_id == x;
            assert((a + b)[i] == a[i]);
        }
        if fold_states(b).contains(x) {
            let i = choose|i: int| 0 <= i < b.len() && #[trigger] b[i].fold_state_id == x;
            assert((a + b)[a.len() + i] == b[i]);
        }
    }
    assert(leaf_alignments(a + b) =~= leaf_alignments(a).union(leaf_alignments(b)));
    assert(fold_states(a + b) =~= fold_states(a).union(fold_states(b)));
}

pub proof fn lemma_sets_of_one(r: Region)
    ensures
        leaf_alignments(seq![r]) == (match r.alignment() {
            Some(a) => set![a],
            None => Set::<u32>::empty(),
        }),
        fold_states(seq![r]) == set![r.fold_state_id],
{
    assert(seq![r][0] == r);
    assert(leaf_alignments(seq![r]) =~= (match r.alignment() {
        Some(a) => set![a],
        None => Set::<u32>::empty(),
    }));
    assert(fold_states(seq![r]) =~= set![r.fold_state_id]);
}

pub proof fn lemma_sets_of_empty()
    ensures
        leaf_alignments(Seq::<Region>::empty()) == Set::<u32>::empty(),
        fold_states(Seq::<Region>::empty()) == Set::<u32>::empty(),
{
    assert(leaf_alignments(Seq::<Region>::empty()) =~= Set::<u32>::empty());
    assert(fold_states(Seq::<Region>::empty()) =~= Set::<u32>::empty());
}

/// What the other side holds, to tell one side's paired regions from
/// one-sided ones. A leaf is paired when the other side holds its
/// `alignment_id`: its rows line up with a leaf there. A fold is paired when
/// a region on the other side shares its `fold_state_id`: the fold the
/// matcher paired it with, or a region linked to that fold. Only the other
/// side counts, since a link merges fold states within a side as well.
pub struct OtherSide {
    leaf_ids: std::collections::BTreeSet<u32>,
    fold_state_ids: std::collections::BTreeSet<u32>,
}

impl OtherSide {
    /// The alignment ids of the other side's leaves.
    pub closed spec fn leaf_ids(&self) -> Set<u32> {
        self.leaf_ids@
    }

    /// The fold state ids of the other side's regions.
    pub closed spec fn fold_state_ids(&self) -> Set<u32> {
        self.fold_state_ids@
    }

    /// Whether `region`, on the side opposite this one, is paired.
    pub open spec fn pairs_spec(&self, region: Region) -> bool {
        match region.node {
            Node::Leaf { alignment_id, .. } => self.leaf_ids().contains(alignment_id),
            Node::Fold { .. } => self.fold_state_ids().contains(region.fold_state_id),
        }
    }

    /// What a side holds when there is no other side: nothing.
    pub fn none() -> (side: OtherSide)
        ensures
            side.leaf_ids() == Set::<u32>::empty(),
            side.fold_state_ids() == Set::<u32>::empty(),
    {
        OtherSide {
            leaf_ids: std::collections::BTreeSet::new(),
            fold_state_ids: std::collections::BTreeSet::new(),
        }
    }

    fn collect(&mut self, regions: &[Region])
        ensures
            final(self).leaf_ids() == old(self).leaf_ids().union(leaf_alignments(preorder(regions@))),
            final(self).fold_state_ids() == old(self).fold_state_ids().union(
                fold_states(preorder(regions@)),
            ),
        decreases regions@,
    {
        let ghost leaf0 = old(self).leaf_ids();
        let ghost fold0 = old(self).fold_state_ids();
        let mut i: usize = 0;
        proof {
            lemma_preorder_empty(regions@);
            lemma_sets_of_empty();
            assert(leaf0.union(Set::<u32>::empty()) =~= leaf0);
            assert(fold0.union(Set::<u32>::empty()) =~= fold0);
        }
        while i < regions.len()
            invariant
                i <= regions@.len(),
                self.leaf_ids() == leaf0.union(leaf_alignments(preorder(regions@.take(i as int)))),
                self.fold_state_ids() == fold0.union(fold_states(preorder(regions@.take(i as int)))),
            decreases regions@.len() - i,
        {
            let region = &regions[i];
            let ghost leaf1 = self.leaf_ids();
            let ghost fold1 = self.fold_state_ids();
            if let Some(alignment_id) = region.alignment_id() {
                id_set_insert(&mut self.leaf_ids, alignment_id);
            }
            id_set_insert(&mut self.fold_state_ids, region.fold_state_id);
            proof {
                lemma_sets_of_one(*region);
                assert(self.leaf_ids() =~= leaf1.union(leaf_alignments(seq![*region])));
                assert(self.fold_state_ids() =~= fold1.union(fold_states(seq![*region])));
            }
            let ghost leaf2 = self.leaf_ids();
            let ghost fold2 = self.fold_state_ids();
            let ghost under: Seq<Region> = region.children_spec();
            match &region.node {
                Node::Fold { children } => {
                    assert(decreases_to!(regions@ => regions@[i as int]));
                    self.collect(children.as_slice());
                },
                Node::Leaf { .. } => {
                    proof {
                        lemma_sets_of_empty();
                        assert(self.leaf_ids() =~= leaf2.union(leaf_alignments(preorder(under))));
                        assert(self.fold_state_ids() =~= fold2.union(fold_states(preorder(under))));
                    }
                },
            }
            proof {
                lemma_preorder_take(regions@, i as int);
                assert(preorder_one(*region) == seq![*region] + preorder(under));
                lemma_leaf_alignments_concat(seq![*region], preorder(under));
                lemma_leaf_alignments_concat(preorder(regions@.take(i as int)), preorder_one(*region));
                assert(self.leaf_ids() =~= leaf0.union(leaf_alignments(preorder(regions@.take(i + 1)))));
                assert(self.fold_state_ids() =~= fold0.union(fold_states(preorder(regions@.take(i + 1)))));
            }
            i += 1;
        }
        proof {
            lemma_preorder_all(regions@);
        }
    }

    /// What the other side, whose regions are `other`, holds.
    pub fn of(other: &[Region]) -> (side: OtherSide)
        ensures
            side.leaf_ids() == leaf_alignments(preorder(other@)),
            side.fold_state_ids() == fold_states(preorder(other@)),
    {
        let mut side = OtherSide::none();
        side.collect(other);
        assert(side.leaf_ids() =~= leaf_alignments(preorder(other@)));
        assert(side.fold_state_ids() =~= fold_states(preorder(other@)));
        side
    }

    /// Whether `region`, on the side opposite this one, is paired.
    pub fn pairs(&self, region: &Region) -> (paired: bool)
        ensures
            paired == self.pairs_spec(*region),
    {
        match &region.node {
            Node::Leaf { alignment_id, .. } => id_set_contains(&self.leaf_ids, *alignment_id),
            Node::Fold { .. } => id_set_contains(&self.fold_state_ids, region.fold_state_id),
        }
    }
}

impl Default for OtherSide {
    fn default() -> (side: OtherSide)
        ensures
            side.leaf_ids() == Set::<u32>::empty(),
            side.fold_state_ids() == Set::<u32>::empty(),
    {
        OtherSide::none()
    }
}

} // verus!

verus! {

/// Some region of `regions` satisfies `pred`.
pub open spec fn any_region(regions: Seq<Region>, pred: spec_fn(Region) -> bool) -> bool {
    exists|i: int| 0 <= i < regions.len() && pred(#[trigger] regions[i])
}

pub proof fn lemma_any_concat(a: Seq<Region>, b: Seq<Region>, pred: spec_fn(Region) -> bool)
    ensures
        any_region(a + b, pred) == (any_region(a, pred) || any_region(b, pred)),
{
    if any_region(a + b, pred) {
        let i = choose|i: int| 0 <= i < (a + b).len() && pred(#[trigger] (a + b)[i]);
        if i < a.len() {
            assert(a[i] == (a + b)[i]);
        } else {
            assert(b[i - a.len()] == (a + b)[i]);
        }
    }
    if any_region(a, pred) {
        let i = choose|i: int| 0 <= i < a.len() && pred(#[trigger] a[i]);
        assert((a + b)[i] == a[i]);
    }
    if any_region(b, pred) {
        let i = choose|i: int| 0 <= i < b.len() && pred(#[trigger] b[i]);
        assert((a + b)[a.len() + i] == b[i]);
    }
}

pub proof fn lemma_any_one(r: Region, pred: spec_fn(Region) -> bool)
    ensures
        any_region(seq![r], pred) == pred(r),
{
    assert(seq![r][0] == r);
}

pub proof fn lemma_any_empty(pred: spec_fn(Region) -> bool)
    ensures
        !any_region(Seq::<Region>::empty(), pred),
{
}

/// A leaf the other side pairs.
pub open spec fn paired_leaf(other: OtherSide) -> spec_fn(Region) -> bool {
    |r: Region| r.node is Leaf && other.pairs_spec(r)
}

fn has_paired_leaf(regions: &[Region], other: &OtherSide) -> (found: bool)
    ensures
        found == any_region(preorder(regions@), paired_leaf(*other)),
    decreases regions@,
{
    let ghost pred = paired_leaf(*other);
    let mut i: usize = 0;
    proof {
        lemma_preorder_empty(regions@);
    }
    while i < regions.len()
        invariant
            i <= regions@.len(),
            pred == paired_leaf(*other),
            !any_region(preorder(regions@.take(i as int)), pred),
        decreases regions@.len() - i,
    {
        let region = &regions[i];
        let ghost under: Seq<Region> = region.children_spec();
        proof {
            lemma_preorder_take(regions@, i as int);
            assert(preorder_one(*region) == seq![*region] + preorder(under));
            lemma_any_concat(seq![*region], preorder(under), pred);
            lemma_any_concat(preorder(regions@.take(i as int)), preorder_one(*region), pred);
            lemma_any_one(*region, pred);
        }
        match &region.node {
            Node::Leaf { .. } => {
                if other.pairs(region) {
                    proof {
                        lemma_preorder_all(regions@);
                        let k = i as int;
                        let rest = regions@.subrange(k + 1, regions@.len() as int);
                        assert(regions@ == regions@.take(k + 1) + rest);
                        lemma_preorder_concat(regions@.take(k + 1), rest);
                        lemma_any_concat(preorder(regions@.take(k + 1)), preorder(rest), pred);
                    }
                    return true;
                }
                proof {
                    lemma_any_empty(pred);
                }
            },
            Node::Fold { children } => {
                assert(decreases_to!(regions@ => regions@[i as int]));
                if has_paired_leaf(children.as_slice(), other) {
                    proof {
                        lemma_preorder_all(regions@);
                        let k = i as int;
                        let rest = regions@.subrange(k + 1, regions@.len() as int);
                        assert(regions@ == regions@.take(k + 1) + rest);
                        lemma_preorder_concat(regions@.take(k + 1), rest);
                        lemma_any_concat(preorder(regions@.take(k + 1)), preorder(rest), pred);
                    }
                    return true;
                }
            },
        }
        i += 1;
    }
    proof {
        lemma_preorder_all(regions@);
    }
    false
}

/// Preorder distributes over concatenation.
pub proof fn lemma_preorder_concat(a: Seq<Region>, b: Seq<Region>)
    ensures
        preorder(a + b) == preorder(a) + preorder(b),
    decreases b.len(),
{
    if b.len() == 0 {
        assert(a + b =~= a);
        assert(preorder(b) == Seq::<Region>::empty());
        assert(preorder(a) + preorder(b) =~= preorder(a));
    } else {
        assert((a + b).drop_last() =~= a + b.drop_last());
        assert((a + b).last() == b.last());
        lemma_preorder_concat(a, b.drop_last());
        assert(preorder(a + b) =~= preorder(a) + preorder(b));
    }
}

/// True when no leaf under `region`, itself included, is paired with the
/// other side.
///
/// Newness is the leaves' answer. A fold covers its body alone, so the
/// leaves inside a body fold are the body, and a body grown in place, whose
/// lines still align, is a rewrite rather than a removal. A fold is new, or
/// deleted, exactly when nothing inside it lines up with the other side.
pub fn one_sided(region: &Region, other: &OtherSide) -> (unpaired: bool)
    ensures
        unpaired == !any_region(preorder_one(*region), paired_leaf(*other)),
{
    let ghost pred = paired_leaf(*other);
    let ghost under: Seq<Region> = region.children_spec();
    proof {
        assert(preorder_one(*region) == seq![*region] + preorder(under));
        lemma_any_concat(seq![*region], preorder(under), pred);
        lemma_any_one(*region, pred);
    }
    match &region.node {
        Node::Leaf { .. } => {
            proof {
                lemma_any_empty(pred);
            }
            !other.pairs(region)
        },
        Node::Fold { children } => !has_paired_leaf(children.as_slice(), other),
    }
}

/// Whether the region is a fold.
pub fn is_fold(region: &Region) -> (fold: bool)
    ensures
        fold == region.is_fold_spec(),
{
    match region.node {
        Node::Fold { .. } => true,
        Node::Leaf { .. } => false,
    }
}

/// Whether one of the region's tags is `tag`.
pub fn has_tag(region: &Region, tag: &str) -> (found: bool)
    ensures
        found == region.has_tag_spec(tag@),
{
    let mut i: usize = 0;
    while i < region.tags.len()
        invariant
            i <= region.tags@.len(),
            forall|k: int| 0 <= k < i ==> #[trigger] region.tags@[k]@ != tag@,
        decreases region.tags@.len() - i,
    {
        if crate::text::str_eq(region.tags[i].as_str(), tag) {
            return true;
        }
        i += 1;
    }
    false
}

} // verus!

verus! {

/// Every region's range in `regions`, and under them, is sane.
pub open spec fn all_sane(regions: Seq<Region>) -> bool {
    forall|i: int| 0 <= i < preorder(regions).len() ==> (#[trigger] preorder(regions)[i]).range.sane()
}

/// The lines a region spans: for a fold, exactly the lines collapsing it
/// hides.
pub fn line_count(region: &Region) -> (count: usize)
    requires
        region.range.sane(),
    ensures
        count == region.range.line_len(),
{
    region.range.line_count()
}

/// The first region in preorder with this `id`.
pub open spec fn first_with_id(visited: Seq<Region>, id: u32) -> Option<Region>
    decreases visited.len(),
{
    if visited.len() == 0 {
        None
    } else if visited[0].id == id {
        Some(visited[0])
    } else {
        first_with_id(visited.drop_first(), id)
    }
}

pub proof fn lemma_first_with_id_concat(a: Seq<Region>, b: Seq<Region>, id: u32)
    ensures
        first_with_id(a + b, id) == match first_with_id(a, id) {
            Some(r) => Some(r),
            None => first_with_id(b, id),
        },
    decreases a.len(),
{
    if a.len() == 0 {
        assert(a + b =~= b);
    } else {
        assert((a + b)[0] == a[0]);
        assert((a + b).drop_first() =~= a.drop_first() + b);
        lemma_first_with_id_concat(a.drop_first(), b, id);
    }
}

pub proof fn lemma_first_with_id_found(visited: Seq<Region>, id: u32)
    ensures
        first_with_id(visited, id) is None <==> forall|i: int| 0 <= i < visited.len() ==> (#[trigger] visited[i]).id != id,
        first_with_id(visited, id) matches Some(r) ==> r.id == id && visited.contains(r),
    decreases visited.len(),
{
    if visited.len() > 0 {
        lemma_first_with_id_found(visited.drop_first(), id);
        if visited[0].id != id {
            assert forall|i: int| 0 <= i < visited.len() && (#[trigger] visited[i]).id == id implies first_with_id(visited, id) is Some by {
                assert(visited.drop_first()[i - 1] == visited[i]);
            }
            if let Some(r) = first_with_id(visited, id) {
                let j = choose|j: int| 0 <= j < visited.drop_first().len() && visited.drop_first()[j] == r;
                assert(visited[j + 1] == r);
            }
        } else {
            assert(visited[0] == visited[0]);
        }
    }
}

pub proof fn lemma_first_with_id_one(r: Region, id: u32)
    ensures
        first_with_id(seq![r], id) == if r.id == id { Some(r) } else { None },
{
    assert(seq![r][0] == r);
    assert(seq![r].drop_first() =~= Seq::<Region>::empty());
    assert(first_with_id(Seq::<Region>::empty(), id) is None);
}

/// The region with this `id`, first in preorder.
pub fn find(regions: &[Region], id: u32) -> (found: Option<&Region>)
    ensures
        match first_with_id(preorder(regions@), id) {
            Some(r) => found == Some(&r),
            None => found is None,
        },
    decreases regions@,
{
    let mut i: usize = 0;
    proof {
        lemma_preorder_empty(regions@);
    }
    while i < regions.len()
        invariant
            i <= regions@.len(),
            first_with_id(preorder(regions@.take(i as int)), id) is None,
        decreases regions@.len() - i,
    {
        let region = &regions[i];
        let ghost under: Seq<Region> = region.children_spec();
        let ghost k = i as int;
        let ghost rest = regions@.subrange(k + 1, regions@.len() as int);
        proof {
            lemma_preorder_take(regions@, k);
            assert(preorder_one(*region) == seq![*region] + preorder(under));
            lemma_first_with_id_concat(seq![*region], preorder(under), id);
            lemma_first_with_id_concat(preorder(regions@.take(k)), preorder_one(*region), id);
            assert(regions@ == regions@.take(k + 1) + rest);
            lemma_preorder_concat(regions@.take(k + 1), rest);
            lemma_first_with_id_concat(preorder(regions@.take(k + 1)), preorder(rest), id);
            lemma_first_with_id_one(*region, id);
        }
        if region.id == id {
            return Some(region);
        }
        match &region.node {
            Node::Fold { children } => {
                assert(decreases_to!(regions@ => regions@[i as int]));
                let found = find(children.as_slice(), id);
                if found.is_some() {
                    return found;
                }
            },
            Node::Leaf { .. } => {},
        }
        i += 1;
    }
    proof {
        lemma_preorder_all(regions@);
    }
    None
}

} // verus!

verus! {

pub broadcast proof fn lemma_regions_model(s: Seq<Region>)
    ensures
        #[trigger] regions_model(s).len() == s.len(),
        forall|i: int| 0 <= i < s.len() ==> #[trigger] regions_model(s)[i] == region_model(s[i]),
    decreases s.len(),
{
    if s.len() > 0 {
        lemma_regions_model(s.drop_last());
    }
}

pub proof fn lemma_regions_model_concat(a: Seq<Region>, b: Seq<Region>)
    ensures
        regions_model(a + b) == regions_model(a) + regions_model(b),
{
    lemma_regions_model(a);
    lemma_regions_model(b);
    lemma_regions_model(a + b);
    assert(regions_model(a + b) =~= regions_model(a) + regions_model(b));
}

pub proof fn lemma_regions_model_push(a: Seq<Region>, r: Region)
    ensures
        regions_model(a.push(r)) == regions_model(a).push(region_model(r)),
{
    lemma_regions_model(a);
    lemma_regions_model(a.push(r));
    assert(regions_model(a.push(r)) =~= regions_model(a).push(region_model(r)));
}

/// A copy of the tags.
pub fn clone_tags(tags: &Vec<String>) -> (copy: Vec<String>)
    ensures
        copy@ == tags@,
{
    let mut copy: Vec<String> = Vec::new();
    let mut i: usize = 0;
    while i < tags.len()
        invariant
            i <= tags@.len(),
            copy@ == tags@.take(i as int),
        decreases tags@.len() - i,
    {
        copy.push(tags[i].clone());
        assert(tags@.take(i + 1) =~= tags@.take(i as int).push(tags@[i as int]));
        i += 1;
    }
    assert(tags@.take(tags@.len() as int) =~= tags@);
    copy
}

/// A copy of the changed spans.
pub fn clone_spans(spans: &Vec<Span>) -> (copy: Vec<Span>)
    ensures
        copy@ == spans@,
{
    let mut copy: Vec<Span> = Vec::new();
    let mut i: usize = 0;
    while i < spans.len()
        invariant
            i <= spans@.len(),
            copy@ == spans@.take(i as int),
        decreases spans@.len() - i,
    {
        copy.push(spans[i]);
        assert(spans@.take(i + 1) =~= spans@.take(i as int).push(spans@[i as int]));
        i += 1;
    }
    assert(spans@.take(spans@.len() as int) =~= spans@);
    copy
}

/// A copy of a visibility.
pub fn clone_visibility(visibility: &Visibility) -> (copy: Visibility)
    ensures
        copy.collapsed == visibility.collapsed,
        copy.label@ == visibility.label@,
{
    Visibility { collapsed: visibility.collapsed, label: visibility.label.clone() }
}

/// A copy of a region and everything under it.
pub fn clone_region(region: &Region) -> (copy: Region)
    ensures
        region_model(copy) == region_model(*region),
    decreases region,
{
    let node = match &region.node {
        Node::Leaf { alignment_id, changed } => Node::Leaf {
            alignment_id: *alignment_id,
            changed: clone_spans(changed),
        },
        Node::Fold { children } => Node::Fold { children: clone_regions(children) },
    };
    let copy = Region {
        id: region.id,
        fold_state_id: region.fold_state_id,
        range: region.range,
        tags: clone_tags(&region.tags),
        visibility: clone_visibility(&region.visibility),
        node,
    };
    assert(region_model(copy) =~= region_model(*region));
    copy
}

/// A copy of a list of regions and everything under them.
pub fn clone_regions(regions: &Vec<Region>) -> (copy: Vec<Region>)
    ensures
        regions_model(copy@) == regions_model(regions@),
    decreases regions,
{
    let mut copy: Vec<Region> = Vec::new();
    let mut i: usize = 0;
    while i < regions.len()
        invariant
            i <= regions@.len(),
            regions_model(copy@) == regions_model(regions@.take(i as int)),
        decreases regions@.len() - i,
    {
        assert(decreases_to!(regions => regions@[i as int]));
        let r = clone_region(&regions[i]);
        proof {
            lemma_regions_model_push(copy@, r);
            lemma_regions_model_push(regions@.take(i as int), regions@[i as int]);
            assert(regions@.take(i + 1) =~= regions@.take(i as int).push(regions@[i as int]));
        }
        copy.push(r);
        i += 1;
    }
    assert(regions@.take(regions@.len() as int) =~= regions@);
    copy
}

impl Clone for Region {
    fn clone(&self) -> (copy: Region)
        ensures
            region_model(copy) == region_model(*self),
    {
        clone_region(self)
    }
}

impl Clone for Source {
    fn clone(&self) -> (copy: Source)
        ensures
            copy.text@ == self.text@,
            regions_model(copy.regions@) == regions_model(self.regions@),
    {
        Source { text: self.text.clone(), regions: clone_regions(&self.regions) }
    }
}

} // verus!

verus! {

/// One side of the diffed file as a tree.
#[derive(Debug, PartialEq, Eq)]
pub struct Source {
    pub text: String,
    /// The largest regions, in order.
    pub regions: Vec<Region>,
}

/// A region record as a mathematical value.
pub struct RecordModel {
    pub id: u32,
    pub parent: u32,
    pub fold_state_id: u32,
    pub range: Range,
    pub tags: Seq<Seq<char>>,
    pub collapsed: bool,
    pub label: Seq<char>,
    /// A leaf's alignment id and changed spans; `None` for a fold.
    pub leaf: Option<(u32, Seq<Span>)>,
}

pub open spec fn record_model(r: types::Region) -> RecordModel {
    RecordModel {
        id: r.id,
        parent: r.parent,
        fold_state_id: r.fold_state_id,
        range: r.range,
        tags: tags_model(r.tags@),
        collapsed: r.visibility.collapsed,
        label: r.visibility.label@,
        leaf: match r.kind {
            types::Kind::Leaf(leaf) => Some((leaf.alignment_id, leaf.changed@)),
            types::Kind::Fold => None,
        },
    }
}

pub open spec fn records_model(s: Seq<types::Region>) -> Seq<RecordModel> {
    s.map_values(|r: types::Region| record_model(r))
}

/// The record of one region under `parent`, without its children.
pub open spec fn header(r: RegionModel, parent: u32) -> RecordModel {
    RecordModel {
        id: r.id,
        parent,
        fold_state_id: r.fold_state_id,
        range: r.range,
        tags: r.tags,
        collapsed: r.collapsed,
        label: r.label,
        leaf: match r.node {
            NodeModel::Leaf { alignment_id, changed } => Some((alignment_id, changed)),
            NodeModel::Fold { .. } => None,
        },
    }
}

/// The records of a tree whose top-level regions sit under `parent`: in
/// preorder, each with the id of the fold holding it.
pub open spec fn records(t: Seq<RegionModel>, parent: u32) -> Seq<RecordModel>
    decreases t,
{
    if t.len() == 0 {
        Seq::empty()
    } else {
        records(t.drop_last(), parent) + records_one(t.last(), parent)
    }
}

pub open spec fn records_one(r: RegionModel, parent: u32) -> Seq<RecordModel>
    decreases r,
{
    seq![header(r, parent)] + match r.node {
        NodeModel::Fold { children } => records(children, r.id),
        NodeModel::Leaf { .. } => Seq::empty(),
    }
}

/// No fold's id is ROOT or the id of a fold enclosing it: the parent ids of
/// the records then say unambiguously where each region belongs.
pub open spec fn nests(t: Seq<RegionModel>, enclosing: Set<u32>) -> bool
    decreases t,
{
    t.len() == 0 || (nests(t.drop_last(), enclosing) && nests_one(t.last(), enclosing))
}

pub open spec fn nests_one(r: RegionModel, enclosing: Set<u32>) -> bool
    decreases r,
{
    match r.node {
        NodeModel::Fold { children } => !enclosing.contains(r.id) && nests(
            children,
            enclosing.insert(r.id),
        ),
        NodeModel::Leaf { .. } => true,
    }
}

/// A tree whose records rebuild it: see [`nests`].
pub open spec fn rebuildable(t: Seq<RegionModel>) -> bool {
    nests(t, set![ROOT])
}

/// The ids of every region in `t`, and under them.
pub open spec fn tree_ids(t: Seq<RegionModel>) -> Set<u32>
    decreases t,
{
    if t.len() == 0 {
        Set::empty()
    } else {
        tree_ids(t.drop_last()).union(region_ids(t.last()))
    }
}

/// The ids of `r` and of every region under it.
pub open spec fn region_ids(r: RegionModel) -> Set<u32>
    decreases r,
{
    match r.node {
        NodeModel::Fold { children } => set![r.id].union(tree_ids(children)),
        NodeModel::Leaf { .. } => set![r.id],
    }
}

/// No two regions of `t`, at any depth, share an id.
pub open spec fn ids_distinct(t: Seq<RegionModel>) -> bool
    decreases t,
{
    t.len() == 0 || (ids_distinct(t.drop_last()) && region_distinct(t.last()) && tree_ids(t.drop_last()).disjoint(
        region_ids(t.last()),
    ))
}

/// No two regions of `r` and under it share an id.
pub open spec fn region_distinct(r: RegionModel) -> bool
    decreases r,
{
    match r.node {
        NodeModel::Fold { children } => !tree_ids(children).contains(r.id) && ids_distinct(children),
        NodeModel::Leaf { .. } => true,
    }
}

/// A tree whose ids are distinct and none of `enclosing` nests under it.
pub proof fn lemma_distinct_nests(t: Seq<RegionModel>, enclosing: Set<u32>)
    requires
        ids_distinct(t),
        tree_ids(t).disjoint(enclosing),
    ensures
        nests(t, enclosing),
    decreases t,
{
    if t.len() > 0 {
        assert(tree_ids(t.drop_last()).disjoint(enclosing)) by {
            assert(tree_ids(t.drop_last()).subset_of(tree_ids(t)));
        }
        assert(region_ids(t.last()).disjoint(enclosing)) by {
            assert(region_ids(t.last()).subset_of(tree_ids(t)));
        }
        lemma_distinct_nests(t.drop_last(), enclosing);
        assert(decreases_to!(t => t[t.len() - 1]));
        lemma_distinct_nests_one(t.last(), enclosing);
    }
}

/// A region whose ids are distinct and none of `enclosing` nests under it.
pub proof fn lemma_distinct_nests_one(r: RegionModel, enclosing: Set<u32>)
    requires
        region_distinct(r),
        region_ids(r).disjoint(enclosing),
    ensures
        nests_one(r, enclosing),
    decreases r,
{
    if let NodeModel::Fold { children } = r.node {
        assert(region_ids(r).contains(r.id));
        assert(tree_ids(children).disjoint(enclosing.insert(r.id))) by {
            assert(tree_ids(children).subset_of(region_ids(r)));
        }
        lemma_distinct_nests(children, enclosing.insert(r.id));
    }
}

/// A tree whose region ids are pairwise distinct and never `ROOT` is
/// rebuilt from its own records.
pub proof fn distinct_ids_rebuild(t: Seq<RegionModel>)
    requires
        ids_distinct(t),
        !tree_ids(t).contains(ROOT),
    ensures
        rebuildable(t),
{
    assert(tree_ids(t).disjoint(set![ROOT]));
    lemma_distinct_nests(t, set![ROOT]);
}

pub proof fn lemma_records_split(t: Seq<RegionModel>, k: int, parent: u32)
    requires
        0 <= k <= t.len(),
    ensures
        records(t, parent) == records(t.take(k), parent) + records(t.skip(k), parent),
    decreases t.len(),
{
    if k == t.len() {
        assert(t.take(k) =~= t);
        assert(t.skip(k) =~= Seq::<RegionModel>::empty());
        assert(records(t, parent) + Seq::<RecordModel>::empty() =~= records(t, parent));
    } else {
        lemma_records_split(t.drop_last(), k, parent);
        assert(t.drop_last().take(k) =~= t.take(k));
        assert(t.skip(k).drop_last() =~= t.drop_last().skip(k));
        assert(t.skip(k).last() == t.last());
        assert(records(t, parent) =~= records(t.take(k), parent) + records(t.skip(k), parent));
    }
}

pub proof fn lemma_records_first(t: Seq<RegionModel>, parent: u32)
    requires
        t.len() > 0,
    ensures
        records(t, parent) == records_one(t[0], parent) + records(t.drop_first(), parent),
{
    lemma_records_split(t, 1, parent);
    assert(t.take(1) =~= seq![t[0]]);
    assert(t.skip(1) =~= t.drop_first());
    assert(seq![t[0]].drop_last() =~= Seq::<RegionModel>::empty());
    assert(seq![t[0]].last() == t[0]);
    assert(records(Seq::<RegionModel>::empty(), parent) =~= Seq::<RecordModel>::empty());
    assert(records(seq![t[0]], parent) == records(seq![t[0]].drop_last(), parent) + records_one(seq![t[0]].last(), parent));
    assert(records(seq![t[0]], parent) =~= records_one(t[0], parent));
}

pub proof fn lemma_nests_index(t: Seq<RegionModel>, enclosing: Set<u32>, i: int)
    requires
        nests(t, enclosing),
        0 <= i < t.len(),
    ensures
        nests_one(t[i], enclosing),
    decreases t.len(),
{
    if i < t.len() - 1 {
        lemma_nests_index(t.drop_last(), enclosing, i);
    }
}

pub proof fn lemma_nests_weaken(t: Seq<RegionModel>, enclosing: Set<u32>, fewer: Set<u32>)
    requires
        nests(t, enclosing),
        fewer.subset_of(enclosing),
    ensures
        nests(t, fewer),
    decreases t,
{
    if t.len() > 0 {
        lemma_nests_weaken(t.drop_last(), enclosing, fewer);
        let r = t.last();
        assert(nests_one(r, enclosing));
        match r.node {
            NodeModel::Fold { children } => {
                assert(fewer.insert(r.id).subset_of(enclosing.insert(r.id)));
                lemma_nests_weaken(children, enclosing.insert(r.id), fewer.insert(r.id));
                assert(nests_one(r, fewer));
            },
            NodeModel::Leaf { .. } => {
                assert(nests_one(r, fewer));
            },
        }
    }
}

fn flatten(regions: &[Region], parent: u32, out: &mut Vec<types::Region>)
    ensures
        records_model(final(out)@) == records_model(old(out)@) + records(regions_model(regions@), parent),
    decreases regions@,
{
    let ghost start = records_model(old(out)@);
    let mut i: usize = 0;
    proof {
        assert(regions_model(regions@.take(0)) =~= Seq::<RegionModel>::empty());
        assert(records_model(out@) =~= start + records(regions_model(regions@.take(0)), parent));
    }
    while i < regions.len()
        invariant
            i <= regions@.len(),
            records_model(out@) == start + records(regions_model(regions@.take(i as int)), parent),
        decreases regions@.len() - i,
    {
        let region = &regions[i];
        let kind = match &region.node {
            Node::Leaf { alignment_id, changed } => types::Kind::Leaf(
                types::Leaf { alignment_id: *alignment_id, changed: clone_spans(changed) },
            ),
            Node::Fold { .. } => types::Kind::Fold,
        };
        let ghost before = out@;
        out.push(
            types::Region {
                id: region.id,
                parent,
                fold_state_id: region.fold_state_id,
                range: region.range,
                tags: clone_tags(&region.tags),
                visibility: clone_visibility(&region.visibility),
                kind,
            },
        );
        proof {
            assert(records_model(out@) =~= records_model(before).push(
                header(region_model(*region), parent),
            ));
        }
        match &region.node {
            Node::Fold { children } => {
                assert(decreases_to!(regions@ => regions@[i as int]));
                flatten(children.as_slice(), region.id, out);
            },
            Node::Leaf { .. } => {},
        }
        proof {
            let m = region_model(*region);
            assert(regions@.take(i + 1) =~= regions@.take(i as int).push(regions@[i as int]));
            lemma_regions_model_push(regions@.take(i as int), regions@[i as int]);
            assert(regions_model(regions@.take(i + 1)).drop_last() == regions_model(regions@.take(i as int)));
            assert(records_one(m, parent) == seq![header(m, parent)] + match m.node {
                NodeModel::Fold { children } => records(children, m.id),
                NodeModel::Leaf { .. } => Seq::<RecordModel>::empty(),
            });
            assert(records_model(out@) =~= start + records(regions_model(regions@.take(i + 1)), parent));
        }
        i += 1;
    }
    assert(regions@.take(regions@.len() as int) =~= regions@);
}

impl Source {
    /// The side as a record: the tree flattened in preorder with parent ids.
    pub fn to_record(&self) -> (record: types::Source)
        ensures
            record.text@ == self.text@,
            records_model(record.regions@) == records(regions_model(self.regions@), ROOT),
    {
        let mut regions = Vec::new();
        flatten(self.regions.as_slice(), ROOT, &mut regions);
        assert(records_model(Seq::<types::Region>::empty()) =~= Seq::<RecordModel>::empty());
        assert(records_model(regions@) =~= records(regions_model(self.regions@), ROOT));
        types::Source { text: self.text.clone(), regions }
    }
}

} // verus!

verus! {

/// The region that takes another's place for a moment: a leaf with the
/// root's ids and alignment 0, an empty range at the start, no tags, no
/// changed spans, open and unlabelled.
pub open spec fn blank_region(r: Region) -> bool {
    &&& r.id == ROOT
    &&& r.fold_state_id == ROOT
    &&& r.range.start.line == 0 && r.range.start.column == 0
    &&& r.range.end.line == 0 && r.range.end.column == 0
    &&& r.tags@.len() == 0
    &&& r.visibility.is_default()
    &&& blank_leaf(r.node)
}

/// A leaf node with alignment 0 and no changed spans.
pub open spec fn blank_leaf(n: Node) -> bool {
    match n {
        Node::Leaf { alignment_id, changed } => alignment_id == 0 && changed@.len() == 0,
        Node::Fold { .. } => false,
    }
}

/// Why a side's records do not make a tree.
#[derive(Debug, Clone, Copy, PartialEq, Eq, Structural)]
pub enum RecordError {
    /// A region names a parent that does not precede it.
    Stray { id: u32, parent: u32 },
}

/// The sentence that tells of a record error.
pub open spec fn record_error_text(e: RecordError) -> Seq<char> {
    match e {
        RecordError::Stray { id, parent } => "region "@ + crate::text::decimal(id as nat) + " names parent "@
            + crate::text::decimal(parent as nat) + ", which does not precede it"@,
    }
}

impl RecordError {
    /// The error as a sentence.
    pub fn message(&self) -> (text: String)
        ensures
            text@ == record_error_text(*self),
    {
        let RecordError::Stray { id, parent } = *self;
        let mut text = crate::text::owned("region ");
        crate::text::push_decimal(&mut text, id as u64);
        crate::text::push_str(&mut text, " names parent ");
        crate::text::push_decimal(&mut text, parent as u64);
        crate::text::push_str(&mut text, ", which does not precede it");
        text
    }
}

/// The records from `start` on are those of `t` under `parent`, followed by
/// `rest`, which starts with a region outside `t` under a fold enclosing it.
pub open spec fn lays_out(
    recs: Seq<RecordModel>,
    start: int,
    parent: u32,
    t: Seq<RegionModel>,
    rest: Seq<RecordModel>,
    enclosing: Set<u32>,
) -> bool {
    &&& 0 <= start <= recs.len()
    &&& recs.skip(start) == records(t, parent) + rest
    &&& nests(t, enclosing)
    &&& enclosing.contains(parent)
    &&& (rest.len() == 0 || (enclosing.contains(rest[0].parent) && rest[0].parent != parent))
}

pub proof fn lemma_records_index0(r: RegionModel, parent: u32, tail: Seq<RecordModel>)
    ensures
        (records_one(r, parent) + tail)[0] == header(r, parent),
        (records_one(r, parent) + tail).len() > 0,
{
}

fn build(side: &Vec<types::Region>, from: usize, parent: u32) -> (built: (Vec<Region>, usize))
    requires
        from <= side@.len(),
    ensures
        from <= built.1 <= side@.len(),
        records(regions_model(built.0@), parent) == records_model(side@).subrange(
            from as int,
            built.1 as int,
        ),
        built.1 < side@.len() ==> side@[built.1 as int].parent != parent,
        forall|t: Seq<RegionModel>, rest: Seq<RecordModel>, enclosing: Set<u32>|
            #[trigger] lays_out(records_model(side@), from as int, parent, t, rest, enclosing)
                ==> regions_model(built.0@) == t && built.1 == from + records(t, parent).len(),
    decreases side@.len() - from,
{
    let ghost start = from as int;
    let mut position: usize = from;
    let ghost recs = records_model(side@);
    assert(recs.len() == side@.len());
    let mut out: Vec<Region> = Vec::new();
    proof {
        assert(records(regions_model(out@), parent) =~= recs.subrange(start, start));
        assert forall|t: Seq<RegionModel>, rest: Seq<RecordModel>, enclosing: Set<u32>|
            #[trigger] lays_out(recs, start, parent, t, rest, enclosing) implies
            out@.len() <= t.len() && regions_model(out@) == t.take(out@.len() as int)
                && position == start + records(t.take(out@.len() as int), parent).len() by {
            assert(regions_model(out@) =~= t.take(0));
            assert(t.take(0) =~= Seq::<RegionModel>::empty());
        }
    }
    while position < side.len() && side[position].parent == parent
        invariant
            start == from,
            start <= position <= side@.len(),
            recs == records_model(side@),
            recs.len() == side@.len(),
            records(regions_model(out@), parent) == recs.subrange(start, position as int),
            forall|t: Seq<RegionModel>, rest: Seq<RecordModel>, enclosing: Set<u32>|
                #[trigger] lays_out(recs, start, parent, t, rest, enclosing) ==> out@.len() <= t.len()
                    && regions_model(out@) == t.take(out@.len() as int) && position == start + records(
                    t.take(out@.len() as int),
                    parent,
                ).len(),
        decreases side@.len() - position,
    {
        let at = position;
        let record = &side[at];
        position = at + 1;
        let ghost k = out@.len() as int;
        // Whatever tree lays out these records, this record heads its k-th region.
        proof {
            assert forall|t: Seq<RegionModel>, rest: Seq<RecordModel>, enclosing: Set<u32>|
                #[trigger] lays_out(recs, start, parent, t, rest, enclosing) implies k < t.len()
                    && recs.skip(at as int) == records_one(t[k], parent) + (records(t.skip(k + 1), parent) + rest)
                    && recs[at as int] == header(t[k], parent) by {
                lemma_records_split(t, k, parent);
                let before = records(t.take(k), parent);
                assert(recs.skip(start) == before + records(t.skip(k), parent) + rest);
                assert(at as int == start + before.len());
                assert(recs.skip(at as int) =~= records(t.skip(k), parent) + rest) by {
                    assert forall|j: int| 0 <= j < recs.skip(at as int).len() implies recs.skip(at as int)[j] == (records(t.skip(k), parent) + rest)[j] by {
                        assert(recs.skip(start)[before.len() + j] == recs[at + j]);
                    }
                }
                if k >= t.len() {
                    assert(t.skip(k) =~= Seq::<RegionModel>::empty());
                    assert(records(t.skip(k), parent) =~= Seq::<RecordModel>::empty());
                    assert(recs.skip(at as int) =~= rest);
                    assert(recs[at as int] == rest[0]);
                    assert(false);
                }
                lemma_records_first(t.skip(k), parent);
                assert(t.skip(k)[0] == t[k]);
                assert(t.skip(k).drop_first() =~= t.skip(k + 1));
                assert(recs.skip(at as int) =~= records_one(t[k], parent) + (records(t.skip(k + 1), parent) + rest));
                lemma_records_index0(t[k], parent, records(t.skip(k + 1), parent) + rest);
                assert(recs[at as int] == recs.skip(at as int)[0]);
            }
        }
        let node = match &record.kind {
            types::Kind::Leaf(leaf) => Node::Leaf {
                alignment_id: leaf.alignment_id,
                changed: clone_spans(&leaf.changed),
            },
            types::Kind::Fold => {
                let (children, next) = build(side, position, record.id);
                position = next;
                proof {
                    assert forall|t: Seq<RegionModel>, rest: Seq<RecordModel>, enclosing: Set<u32>|
                        #[trigger] lays_out(recs, start, parent, t, rest, enclosing) implies (match t[k].node {
                            NodeModel::Fold { children: kids } => regions_model(children@) == kids
                                && position == at + 1 + records(kids, t[k].id).len(),
                            NodeModel::Leaf { .. } => false,
                        }) by {
                        let r = t[k];
                        lemma_nests_index(t, enclosing, k);
                        match r.node {
                            NodeModel::Fold { children: kids } => {
                                let rest2 = records(t.skip(k + 1), parent) + rest;
                                let inner = enclosing.insert(r.id);
                                assert(recs.skip(at + 1) =~= records(kids, r.id) + rest2) by {
                                    let whole = seq![header(r, parent)] + (records(kids, r.id) + rest2);
                                    assert(records_one(r, parent) == seq![header(r, parent)] + records(kids, r.id));
                                    assert(recs.skip(at as int) =~= whole);
                                    assert forall|j: int| 0 <= j < recs.skip(at + 1).len() implies recs.skip(at + 1)[j] == (records(kids, r.id) + rest2)[j] by {
                                        assert(recs.skip(at as int)[j + 1] == recs[at + 1 + j]);
                                        assert(whole[j + 1] == (records(kids, r.id) + rest2)[j]);
                                    }
                                }
                                if rest2.len() > 0 {
                                    if t.skip(k + 1).len() > 0 {
                                        lemma_records_first(t.skip(k + 1), parent);
                                        lemma_records_index0(t.skip(k + 1)[0], parent, records(t.skip(k + 1).drop_first(), parent));
                                        assert(rest2[0] == records(t.skip(k + 1), parent)[0]);
                                    } else {
                                        assert(t.skip(k + 1) =~= Seq::<RegionModel>::empty());
                                        assert(records(t.skip(k + 1), parent) =~= Seq::<RecordModel>::empty());
                                        assert(rest2 =~= rest);
                                    }
                                }
                                assert(lays_out(recs, at + 1, r.id, kids, rest2, inner));
                            },
                            NodeModel::Leaf { .. } => {
                                assert(header(r, parent).leaf is Some);
                            },
                        }
                    }
                }
                Node::Fold { children }
            },
        };
        let region = Region {
            id: record.id,
            fold_state_id: record.fold_state_id,
            range: record.range,
            tags: clone_tags(&record.tags),
            visibility: clone_visibility(&record.visibility),
            node,
        };
        let ghost before = out@;
        out.push(region);
        proof {
            let m = region_model(region);
            assert(header(m, parent) == recs[at as int]);
            lemma_regions_model_push(before, region);
            assert(out@ == before.push(region));
            assert(regions_model(out@).drop_last() == regions_model(before));
            assert(records_one(m, parent) =~= recs.subrange(at as int, position as int)) by {
                match m.node {
                    NodeModel::Fold { children: kids } => {
                        assert(records_one(m, parent) == seq![header(m, parent)] + records(kids, m.id));
                    },
                    NodeModel::Leaf { .. } => {},
                }
            }
            assert(regions_model(out@).last() == m);
            assert(records(regions_model(out@), parent) == records(regions_model(before), parent) + records_one(m, parent));
            assert(recs.subrange(start, at as int) + recs.subrange(at as int, position as int) =~= recs.subrange(start, position as int));
            assert(records(regions_model(out@), parent) =~= recs.subrange(start, position as int));
            assert forall|t: Seq<RegionModel>, rest: Seq<RecordModel>, enclosing: Set<u32>|
                #[trigger] lays_out(recs, start, parent, t, rest, enclosing) implies out@.len() <= t.len()
                    && regions_model(out@) == t.take(out@.len() as int) && position == start + records(
                    t.take(out@.len() as int),
                    parent,
                ).len() by {
                assert(m =~= t[k]) by {
                    assert(header(m, parent) == header(t[k], parent));
                    match t[k].node {
                        NodeModel::Fold { .. } => {},
                        NodeModel::Leaf { .. } => {},
                    }
                }
                assert(t.take(k + 1) =~= t.take(k).push(t[k]));
                assert(regions_model(out@) =~= t.take(k + 1));
                assert(t.take(k + 1).drop_last() =~= t.take(k));
                assert(records(t.take(k + 1), parent) == records(t.take(k), parent) + records_one(t[k], parent));
                match t[k].node {
                    NodeModel::Fold { children: kids } => {
                        assert(records_one(t[k], parent) == seq![header(t[k], parent)] + records(kids, t[k].id));
                    },
                    NodeModel::Leaf { .. } => {},
                }
            }
        }
    }
    proof {
        assert forall|t: Seq<RegionModel>, rest: Seq<RecordModel>, enclosing: Set<u32>|
            #[trigger] lays_out(recs, start, parent, t, rest, enclosing) implies regions_model(out@) == t
                && position == start + records(t, parent).len() by {
            let k = out@.len() as int;
            if k < t.len() {
                lemma_records_split(t, k, parent);
                lemma_records_first(t.skip(k), parent);
                assert(t.skip(k)[0] == t[k]);
                let before = records(t.take(k), parent);
                assert(recs.skip(start) == before + records(t.skip(k), parent) + rest);
                lemma_records_index0(t[k], parent, records(t.skip(k).drop_first(), parent));
                assert(recs.skip(start)[before.len() as int] == header(t[k], parent));
                assert(recs[position as int] == recs.skip(start)[before.len() as int]);
                assert(false);
            }
            assert(t.take(k) =~= t);
        }
    }
    (out, position)
}

impl Source {
    /// Rebuild a side's tree from its preorder list with parent ids.
    ///
    /// The tree it rebuilds lays out as exactly these records, and any tree
    /// in which no fold's id is `ROOT` or the id of a fold enclosing it is
    /// rebuilt from its own records: `from_record(&s.to_record()) == Ok(s)`.
    pub fn from_record(side: &types::Source) -> (rebuilt: Result<Source, RecordError>)
        ensures
            rebuilt matches Ok(s) ==> s.text@ == side.text@ && records(regions_model(s.regions@), ROOT)
                == records_model(side.regions@),
            forall|t: Seq<RegionModel>|
                rebuildable(t) && #[trigger] records(t, ROOT) == records_model(side.regions@)
                    ==> (rebuilt matches Ok(s) && regions_model(s.regions@) == t),
            forall|t: Seq<RegionModel>|
                ids_distinct(t) && !tree_ids(t).contains(ROOT) && #[trigger] records(t, ROOT) == records_model(
                    side.regions@,
                ) ==> (rebuilt matches Ok(s) && regions_model(s.regions@) == t),
            rebuilt matches Err(RecordError::Stray { id, parent }) ==> exists|i: int|
                0 <= i < side.regions@.len() && side.regions@[i].id == id && side.regions@[i].parent
                    == parent && parent != ROOT,
    {
        let (regions, pos) = build(&side.regions, 0, ROOT);
        proof {
            assert forall|t: Seq<RegionModel>|
                rebuildable(t) && #[trigger] records(t, ROOT) == records_model(side.regions@)
                    implies regions_model(regions@) == t && pos == side.regions@.len() by {
                let recs = records_model(side.regions@);
                assert(recs.skip(0) =~= records(t, ROOT) + Seq::<RecordModel>::empty());
                assert(lays_out(recs, 0, ROOT, t, Seq::<RecordModel>::empty(), set![ROOT]));
            }
        }
        proof {
            assert forall|t: Seq<RegionModel>|
                ids_distinct(t) && !tree_ids(t).contains(ROOT) && #[trigger] records(t, ROOT) == records_model(
                    side.regions@,
                ) implies regions_model(regions@) == t && pos == side.regions@.len() by {
                distinct_ids_rebuild(t);
            }
        }
        if pos < side.regions.len() {
            let stray = &side.regions[pos];
            return Err(RecordError::Stray { id: stray.id, parent: stray.parent });
        }
        assert(records_model(side.regions@).subrange(0, pos as int) =~= records_model(side.regions@));
        Ok(Source { text: side.text.clone(), regions })
    }
}

} // verus!

verus! {

/// Child indices from the root down to the first region, in preorder, that
/// `pred` accepts.
pub open spec fn path_where_spec(regions: Seq<Region>, pred: spec_fn(Region) -> bool) -> Option<Seq<int>>
    decreases regions,
{
    if regions.len() == 0 {
        None
    } else {
        match path_where_spec(regions.drop_last(), pred) {
            Some(path) => Some(path),
            None => {
                let index = regions.len() - 1;
                let region = regions.last();
                if pred(region) {
                    Some(seq![index])
                } else {
                    match region.node {
                        Node::Fold { children } => match path_where_spec(children@, pred) {
                            Some(path) => Some(seq![index] + path),
                            None => None,
                        },
                        Node::Leaf { .. } => None,
                    }
                }
            },
        }
    }
}

/// The region a path of child indices leads to.
pub open spec fn region_at(regions: Seq<Region>, path: Seq<int>) -> Option<Region>
    decreases path.len(),
{
    if path.len() == 0 || path[0] < 0 || path[0] >= regions.len() {
        None
    } else if path.len() == 1 {
        Some(regions[path[0]])
    } else {
        match regions[path[0]].node {
            Node::Fold { children } => region_at(children@, path.drop_first()),
            Node::Leaf { .. } => None,
        }
    }
}

/// The region with this `id`.
pub open spec fn with_id(id: u32) -> spec_fn(Region) -> bool {
    |region: Region| region.id == id
}

pub proof fn lemma_path_where_take(regions: Seq<Region>, pred: spec_fn(Region) -> bool, i: int)
    requires
        0 <= i < regions.len(),
    ensures
        path_where_spec(regions.take(i + 1), pred) == match path_where_spec(regions.take(i), pred) {
            Some(path) => Some(path),
            None => if pred(regions[i]) {
                Some(seq![i])
            } else {
                match regions[i].node {
                    Node::Fold { children } => match path_where_spec(children@, pred) {
                        Some(path) => Some(seq![i] + path),
                        None => None,
                    },
                    Node::Leaf { .. } => None,
                }
            },
        },
{
    assert(regions.take(i + 1).drop_last() =~= regions.take(i));
    assert(regions.take(i + 1).last() == regions[i]);
}

pub proof fn lemma_path_where_prefix(regions: Seq<Region>, pred: spec_fn(Region) -> bool, i: int)
    requires
        0 <= i <= regions.len(),
        path_where_spec(regions.take(i), pred) is Some,
    ensures
        path_where_spec(regions, pred) == path_where_spec(regions.take(i), pred),
    decreases regions.len() - i,
{
    if i < regions.len() {
        lemma_path_where_take(regions, pred, i);
        lemma_path_where_prefix(regions, pred, i + 1);
    } else {
        assert(regions.take(i) =~= regions);
    }
}

fn path_where_id(regions: &[Region], id: u32) -> (path: Option<Vec<usize>>)
    ensures
        match path_where_spec(regions@, with_id(id)) {
            Some(p) => path matches Some(v) && v@.map_values(|x: usize| x as int) == p,
            None => path is None,
        },
    decreases regions@,
{
    let ghost pred = with_id(id);
    let mut i: usize = 0;
    assert(regions@.take(0) =~= Seq::<Region>::empty());
    while i < regions.len()
        invariant
            i <= regions@.len(),
            pred == with_id(id),
            path_where_spec(regions@.take(i as int), pred) is None,
        decreases regions@.len() - i,
    {
        let region = &regions[i];
        proof {
            lemma_path_where_take(regions@, pred, i as int);
        }
        if region.id == id {
            let mut path = Vec::new();
            path.push(i);
            proof {
                assert(path@.map_values(|x: usize| x as int) =~= seq![i as int]);
                lemma_path_where_prefix(regions@, pred, i + 1);
            }
            return Some(path);
        }
        match &region.node {
            Node::Fold { children } => {
                assert(decreases_to!(regions@ => regions@[i as int]));
                if let Some(inner) = path_where_id(children.as_slice(), id) {
                    let mut path = Vec::new();
                    path.push(i);
                    let mut j: usize = 0;
                    while j < inner.len()
                        invariant
                            j <= inner@.len(),
                            path@.map_values(|x: usize| x as int) == seq![i as int] + inner@.take(j as int).map_values(|x: usize| x as int),
                        decreases inner@.len() - j,
                    {
                        let ghost old_path = path@;
                        path.push(inner[j]);
                        assert(inner@.take(j + 1) =~= inner@.take(j as int).push(inner@[j as int]));
                        assert(path@ == old_path.push(inner@[j as int]));
                        assert(path@.map_values(|x: usize| x as int) =~= old_path.map_values(|x: usize| x as int).push(inner@[j as int] as int));
                        assert(inner@.take(j + 1).map_values(|x: usize| x as int) =~= inner@.take(j as int).map_values(|x: usize| x as int).push(inner@[j as int] as int));
                        assert(path@.map_values(|x: usize| x as int) =~= seq![i as int] + inner@.take(j + 1).map_values(|x: usize| x as int));
                        j += 1;
                    }
                    proof {
                        assert(inner@.take(inner@.len() as int) =~= inner@);
                        lemma_path_where_prefix(regions@, pred, i + 1);
                    }
                    return Some(path);
                }
            },
            Node::Leaf { .. } => {},
        }
        i += 1;
    }
    assert(regions@.take(regions@.len() as int) =~= regions@);
    None
}

/// Child indices from the root down to the region with this `id`, the first
/// in preorder.
pub fn path_to(regions: &[Region], id: u32) -> (path: Option<Vec<usize>>)
    ensures
        match path_where_spec(regions@, with_id(id)) {
            Some(p) => path matches Some(v) && v@.map_values(|x: usize| x as int) == p,
            None => path is None,
        },
{
    path_where_id(regions, id)
}

} // verus!

verus! {

pub proof fn lemma_region_at_prefix(regions: Seq<Region>, i: int, path: Seq<int>)
    requires
        0 <= i <= regions.len(),
        region_at(regions.take(i), path) is Some,
    ensures
        region_at(regions, path) == region_at(regions.take(i), path),
{
    assert(regions.take(i)[path[0]] == regions[path[0]]);
}

pub proof fn lemma_region_at_child(regions: Seq<Region>, index: int, path: Seq<int>)
    requires
        0 <= index < regions.len(),
        regions[index].node is Fold,
        path.len() > 0,
    ensures
        region_at(regions, seq![index] + path) == region_at(regions[index].children_spec(), path),
{
    assert((seq![index] + path)[0] == index);
    assert((seq![index] + path).drop_first() =~= path);
}

/// A path that `path_where_spec` finds leads to a region `pred` accepts.
pub proof fn lemma_path_where_sound(regions: Seq<Region>, pred: spec_fn(Region) -> bool)
    ensures
        path_where_spec(regions, pred) matches Some(path) ==> (region_at(regions, path) matches Some(
            r,
        ) && pred(r)),
    decreases regions,
{
    if regions.len() > 0 {
        let before = regions.drop_last();
        lemma_path_where_sound(before, pred);
        let index = regions.len() - 1;
        let region = regions.last();
        assert(before =~= regions.take(regions.len() - 1));
        if let Some(path) = path_where_spec(before, pred) {
            lemma_region_at_prefix(regions, regions.len() - 1, path);
        } else if pred(region) {
            assert(region_at(regions, seq![index]) == Some(region));
        } else {
            match region.node {
                Node::Fold { children } => {
                    assert(decreases_to!(regions => regions[regions.len() - 1]));
                    lemma_path_where_sound(children@, pred);
                    if let Some(path) = path_where_spec(children@, pred) {
                        lemma_region_at_child(regions, index, path);
                    }
                },
                Node::Leaf { .. } => {},
            }
        }
    }
}

/// `path_where_spec` finds nothing exactly when no region in preorder is one
/// `pred` accepts.
pub proof fn lemma_path_where_none(regions: Seq<Region>, pred: spec_fn(Region) -> bool)
    ensures
        path_where_spec(regions, pred) is None <==> !any_region(preorder(regions), pred),
    decreases regions,
{
    if regions.len() > 0 {
        let before = regions.drop_last();
        let region = regions.last();
        lemma_path_where_none(before, pred);
        let under: Seq<Region> = region.children_spec();
        assert(preorder_one(region) == seq![region] + preorder(under));
        lemma_any_concat(preorder(before), preorder_one(region), pred);
        lemma_any_concat(seq![region], preorder(under), pred);
        lemma_any_one(region, pred);
        match region.node {
            Node::Fold { children } => {
                assert(decreases_to!(regions => regions[regions.len() - 1]));
                lemma_path_where_none(children@, pred);
            },
            Node::Leaf { .. } => {
                lemma_any_empty(pred);
            },
        }
    }
}

/// The sibling list holding the first region with this `id`, searching one
/// level at a time: this list when one of its regions has it, else the
/// first fold under which one is found.
pub open spec fn siblings_spec(regions: Seq<Region>, id: u32) -> Option<Seq<Region>>
    decreases regions, 1int,
{
    if exists|i: int| 0 <= i < regions.len() && #[trigger] regions[i].id == id {
        Some(regions)
    } else {
        siblings_below(regions, id)
    }
}

pub open spec fn siblings_below(regions: Seq<Region>, id: u32) -> Option<Seq<Region>>
    decreases regions, 0int,
{
    if regions.len() == 0 {
        None
    } else {
        match siblings_below(regions.drop_last(), id) {
            Some(found) => Some(found),
            None => match regions.last().node {
                Node::Fold { children } => siblings_spec(children@, id),
                Node::Leaf { .. } => None,
            },
        }
    }
}

fn siblings_below_exec<'a>(regions: &'a [Region], id: u32) -> (found: Option<&'a [Region]>)
    ensures
        match siblings_below(regions@, id) {
            Some(s) => found matches Some(f) && f@ == s,
            None => found is None,
        },
    decreases regions@, 0int,
{
    let mut i: usize = 0;
    assert(regions@.take(0) =~= Seq::<Region>::empty());
    while i < regions.len()
        invariant
            i <= regions@.len(),
            siblings_below(regions@.take(i as int), id) is None,
        decreases regions@.len() - i,
    {
        assert(regions@.take(i + 1).drop_last() =~= regions@.take(i as int));
        assert(regions@.take(i + 1).last() == regions@[i as int]);
        match &regions[i].node {
            Node::Fold { children } => {
                assert(decreases_to!(regions@ => regions@[i as int]));
                let inner = siblings_of(children.as_slice(), id);
                if inner.is_some() {
                    proof {
                        lemma_siblings_below_prefix(regions@, id, i + 1);
                    }
                    return inner;
                }
            },
            Node::Leaf { .. } => {},
        }
        i += 1;
    }
    assert(regions@.take(regions@.len() as int) =~= regions@);
    None
}

pub proof fn lemma_siblings_below_prefix(regions: Seq<Region>, id: u32, i: int)
    requires
        0 <= i <= regions.len(),
        siblings_below(regions.take(i), id) is Some,
    ensures
        siblings_below(regions, id) == siblings_below(regions.take(i), id),
    decreases regions.len() - i,
{
    if i < regions.len() {
        assert(regions.take(i + 1).drop_last() =~= regions.take(i));
        lemma_siblings_below_prefix(regions, id, i + 1);
    } else {
        assert(regions.take(i) =~= regions);
    }
}

/// The sibling list holding the region with this `id`.
pub fn siblings_of<'a>(regions: &'a [Region], id: u32) -> (found: Option<&'a [Region]>)
    ensures
        match siblings_spec(regions@, id) {
            Some(s) => found matches Some(f) && f@ == s,
            None => found is None,
        },
    decreases regions@, 1int,
{
    let mut i: usize = 0;
    while i < regions.len()
        invariant
            i <= regions@.len(),
            forall|k: int| 0 <= k < i ==> #[trigger] regions@[k].id != id,
        decreases regions@.len() - i,
    {
        if regions[i].id == id {
            return Some(regions);
        }
        i += 1;
    }
    siblings_below_exec(regions, id)
}

} // verus!

verus! {

/// The before side, and what the after side holds.
pub fn before_and_after_ids(sides: &Pairing<Source>) -> (found: Option<(&Source, OtherSide)>)
    ensures
        match *sides {
            Pairing::Both { lhs, rhs } => found matches Some((before, after)) && *before == lhs
                && after.leaf_ids() == leaf_alignments(preorder(rhs.regions@)) && after.fold_state_ids()
                == fold_states(preorder(rhs.regions@)),
            Pairing::LeftOnly { lhs } => found matches Some((before, after)) && *before == lhs
                && after.leaf_ids() == Set::<u32>::empty() && after.fold_state_ids() == Set::<u32>::empty(),
            Pairing::RightOnly { .. } => found is None,
        },
{
    match sides {
        Pairing::Both { lhs, rhs } => Some((lhs, OtherSide::of(rhs.regions.as_slice()))),
        Pairing::LeftOnly { lhs } => Some((lhs, OtherSide::none())),
        Pairing::RightOnly { .. } => None,
    }
}

/// Each side that exists, with what the other side holds.
pub fn sides_with_other_ids(sides: &Pairing<Source>) -> (found: Vec<(&Source, OtherSide)>)
    ensures
        found@.len() == sides.present().len(),
        forall|i: int| 0 <= i < found@.len() ==> *(#[trigger] found@[i]).0 == sides.present()[i],
        match *sides {
            Pairing::Both { lhs, rhs } => found@[0].1.leaf_ids() == leaf_alignments(preorder(rhs.regions@))
                && found@[0].1.fold_state_ids() == fold_states(preorder(rhs.regions@)) && found@[1].1.leaf_ids()
                == leaf_alignments(preorder(lhs.regions@)) && found@[1].1.fold_state_ids() == fold_states(
                preorder(lhs.regions@),
            ),
            _ => found@[0].1.leaf_ids() == Set::<u32>::empty() && found@[0].1.fold_state_ids() == Set::<
                u32,
            >::empty(),
        },
{
    let mut found = Vec::new();
    match sides {
        Pairing::Both { lhs, rhs } => {
            found.push((lhs, OtherSide::of(rhs.regions.as_slice())));
            found.push((rhs, OtherSide::of(lhs.regions.as_slice())));
        },
        Pairing::LeftOnly { lhs } => {
            found.push((lhs, OtherSide::none()));
        },
        Pairing::RightOnly { rhs } => {
            found.push((rhs, OtherSide::none()));
        },
    }
    found
}

/// What rebuilding one side's records gives: the tree they lay out.
pub open spec fn rebuilt_from(s: Source, side: types::Source) -> bool {
    s.text@ == side.text@ && records(regions_model(s.regions@), ROOT) == records_model(side.regions@)
}

/// The contract's sides as the trees the SDK works on. diffr calls this once
/// on the way in, so a plugin is handed the pairing rather than the record.
pub fn sides(given: &types::SourceSides) -> (trees: Result<Pairing<Source>, RecordError>)
    ensures
        match (*given, trees) {
            (types::SourceSides::Both { lhs, rhs }, Ok(Pairing::Both { lhs: l, rhs: r })) => rebuilt_from(l, lhs)
                && rebuilt_from(r, rhs),
            (types::SourceSides::LeftOnly(lhs), Ok(Pairing::LeftOnly { lhs: l })) => rebuilt_from(l, lhs),
            (types::SourceSides::RightOnly(rhs), Ok(Pairing::RightOnly { rhs: r })) => rebuilt_from(r, rhs),
            (_, Ok(_)) => false,
            (types::SourceSides::Both { lhs, rhs }, Err(RecordError::Stray { id, parent })) => (exists|i: int|
                0 <= i < lhs.regions@.len() && lhs.regions@[i].id == id && lhs.regions@[i].parent == parent
                    && parent != ROOT) || (exists|i: int|
                0 <= i < rhs.regions@.len() && rhs.regions@[i].id == id && rhs.regions@[i].parent == parent
                    && parent != ROOT),
            (types::SourceSides::LeftOnly(side), Err(RecordError::Stray { id, parent })) => exists|i: int|
                0 <= i < side.regions@.len() && side.regions@[i].id == id && side.regions@[i].parent == parent
                    && parent != ROOT,
            (types::SourceSides::RightOnly(side), Err(RecordError::Stray { id, parent })) => exists|i: int|
                0 <= i < side.regions@.len() && side.regions@[i].id == id && side.regions@[i].parent == parent
                    && parent != ROOT,
        },
        forall|t: Seq<RegionModel>, u: Seq<RegionModel>|
            #![trigger records(t, ROOT), records(u, ROOT)]
            rebuildable(t) && rebuildable(u) && match *given {
                types::SourceSides::Both { lhs, rhs } => records(t, ROOT) == records_model(lhs.regions@) && records(
                    u,
                    ROOT,
                ) == records_model(rhs.regions@),
                types::SourceSides::LeftOnly(side) => records(t, ROOT) == records_model(side.regions@),
                types::SourceSides::RightOnly(side) => records(t, ROOT) == records_model(side.regions@),
            } ==> trees is Ok,
{
    match given {
        types::SourceSides::Both { lhs, rhs } => match Source::from_record(lhs) {
            Ok(l) => match Source::from_record(rhs) {
                Ok(r) => Ok(Pairing::Both { lhs: l, rhs: r }),
                Err(e) => Err(e),
            },
            Err(e) => Err(e),
        },
        types::SourceSides::LeftOnly(lhs) => match Source::from_record(lhs) {
            Ok(l) => Ok(Pairing::LeftOnly { lhs: l }),
            Err(e) => Err(e),
        },
        types::SourceSides::RightOnly(rhs) => match Source::from_record(rhs) {
            Ok(r) => Ok(Pairing::RightOnly { rhs: r }),
            Err(e) => Err(e),
        },
    }
}

} // verus!

verus! {

/// How many lines (attributes and the signature) may sit between a
/// docstring and the line its function's body opens on.
pub const MAX_SIGNATURE_LINES: u64 = 12;

/// The first fold among `regions`.
pub open spec fn first_fold(regions: Seq<Region>) -> Option<Region>
    decreases regions.len(),
{
    if regions.len() == 0 {
        None
    } else if regions[0].node is Fold {
        Some(regions[0])
    } else {
        first_fold(regions.drop_first())
    }
}

/// One of the region's tags starts with `prefix`.
pub open spec fn has_tag_prefix(region: Region, prefix: Seq<char>) -> bool {
    exists|i: int| 0 <= i < region.tags@.len() && crate::text::has_prefix(#[trigger] region.tags@[i]@, prefix)
}

/// The sibling list at depth `d` along a path: the top level at depth 0,
/// then the children of the fold each index leads to.
pub open spec fn level(regions: Seq<Region>, path: Seq<int>, d: int) -> Seq<Region>
    decreases d,
{
    if d <= 0 {
        regions
    } else {
        let up = level(regions, path, d - 1);
        if 0 <= path[d - 1] < up.len() {
            up[path[d - 1]].children_spec()
        } else {
            Seq::empty()
        }
    }
}

/// The search back through the `index` siblings before a region: at the
/// first fold it stops, with that fold when it carries `tag`; it stops with
/// nothing once the leaves passed hold more than [`MAX_SIGNATURE_LINES`];
/// else it goes on with the lines passed so far.
pub open spec fn scan_back(siblings: Seq<Region>, index: int, between: int, tag: Seq<char>) -> (bool, Option<u32>, int)
    decreases index,
{
    if index <= 0 || index > siblings.len() {
        (false, None, between)
    } else {
        let region = siblings[index - 1];
        if region.node is Fold {
            (true, if region.has_tag_spec(tag) { Some(region.id) } else { None }, between)
        } else {
            let passed = between + region.range.line_len();
            if passed > MAX_SIGNATURE_LINES {
                (true, None, passed)
            } else {
                scan_back(siblings, index - 1, passed, tag)
            }
        }
    }
}

/// The search from depth `d` of the path outwards: at each level, the
/// enclosing fold stops it when it carries one of the plugin's own tags,
/// and otherwise the siblings before the path's region are searched.
pub open spec fn scan_levels(regions: Seq<Region>, path: Seq<int>, d: int, between: int, tag: Seq<char>, own: Seq<
    char,
>) -> Option<u32>
    decreases d + 1,
{
    if d < 0 || d >= path.len() {
        None
    } else {
        let siblings = level(regions, path, d);
        let index = path[d];
        if !(0 <= index < siblings.len()) {
            None
        } else if d + 1 < path.len() && has_tag_prefix(siblings[index], own) {
            None
        } else {
            let (stop, found, passed) = scan_back(siblings, index, between, tag);
            if stop {
                found
            } else {
                scan_levels(regions, path, d - 1, passed, tag, own)
            }
        }
    }
}

/// The docstring of `body` on a side whose regions are `regions`, as
/// `plugin`'s queries tag it: the body's first fold child when it starts
/// where the body does, else the search back from the body.
pub open spec fn docstring_spec(regions: Seq<Region>, body: Region, plugin: Seq<char>) -> Option<u32> {
    let tag = plugin + ":docstring"@;
    let own = plugin + ":"@;
    let inside = match first_fold(body.children_spec()) {
        Some(first) => if first.has_tag_spec(tag) && first.range.start.line == body.range.start.line {
            Some(first.id)
        } else {
            None
        },
        None => None,
    };
    match inside {
        Some(id) => Some(id),
        None => match path_where_spec(regions, with_id(body.id)) {
            Some(path) => scan_levels(regions, path, path.len() - 1, 0, tag, own),
            None => None,
        },
    }
}

/// The first fold among `regions`.
fn first_fold_exec(regions: &Vec<Region>) -> (first: Option<&Region>)
    ensures
        match first_fold(regions@) {
            Some(r) => first matches Some(f) && *f == r,
            None => first is None,
        },
{
    let mut i: usize = 0;
    assert(regions@.skip(0) =~= regions@);
    while i < regions.len()
        invariant
            i <= regions@.len(),
            first_fold(regions@) == first_fold(regions@.skip(i as int)),
        decreases regions@.len() - i,
    {
        assert(regions@.skip(i as int)[0] == regions@[i as int]);
        assert(regions@.skip(i as int).drop_first() =~= regions@.skip(i + 1));
        if let Node::Fold { .. } = &regions[i].node {
            return Some(&regions[i]);
        }
        i += 1;
    }
    None
}

/// Whether one of the region's tags starts with `prefix`.
fn has_tag_starting(region: &Region, prefix: &str) -> (found: bool)
    ensures
        found == has_tag_prefix(*region, prefix@),
{
    let mut i: usize = 0;
    while i < region.tags.len()
        invariant
            i <= region.tags@.len(),
            forall|k: int| 0 <= k < i ==> !crate::text::has_prefix(#[trigger] region.tags@[k]@, prefix@),
        decreases region.tags@.len() - i,
    {
        let tag = crate::text::chars_of(region.tags[i].as_str());
        if crate::text::starts_with(&tag, prefix) {
            return true;
        }
        i += 1;
    }
    false
}

/// How many lines a range touches.
fn lines_in(range: &Range) -> (len: u64)
    ensures
        len == range.line_len(),
{
    let end: u64 = if range.end.column == 0 {
        range.end.line as u64
    } else {
        range.end.line as u64 + 1
    };
    if end >= range.start.line as u64 {
        end - range.start.line as u64
    } else {
        0
    }
}

/// The `id` of the docstring of `body`, a function body fold on `side`, as
/// `plugin`'s queries tag it (`<plugin>:docstring`): the body's first fold
/// child when it starts where the body does (Python), or else the fold just
/// before the body in document order, with only a signature's worth of
/// lines between them. The search runs back through the body's siblings and
/// then out through the folds that enclose it, so a fold wrapping the whole
/// function (another plugin's scope) does not hide the docstring above it;
/// it stops at a fold carrying one of `plugin`'s own tags, such as the body
/// of an enclosing function.
pub fn docstring_of(side: &Source, body: &Region, plugin: &str) -> (docstring: Option<u32>)
    requires
        path_where_spec(side.regions@, with_id(body.id)) is Some,
    ensures
        docstring == docstring_spec(side.regions@, *body, plugin@),
{
    let mut tag = crate::text::owned(plugin);
    crate::text::push_str(&mut tag, ":docstring");
    let mut own = crate::text::owned(plugin);
    crate::text::push_str(&mut own, ":");
    if let Node::Fold { children } = &body.node {
        if let Some(first) = first_fold_exec(children) {
            if has_tag(first, tag.as_str()) && first.range.start.line == body.range.start.line {
                return Some(first.id);
            }
        }
    }
    let path = path_to(side.regions.as_slice(), body.id).unwrap();
    let ghost p = path@.map_values(|x: usize| x as int);
    let ghost regions = side.regions@;
    let ghost goal = docstring_spec(side.regions@, *body, plugin@);
    assert(goal == scan_levels(regions, p, p.len() - 1, 0, tag@, own@));
    let mut levels: Vec<&[Region]> = Vec::new();
    let mut current: &[Region] = side.regions.as_slice();
    let mut d: usize = 0;
    while d < path.len()
        invariant
            d <= path@.len(),
            p == path@.map_values(|x: usize| x as int),
            regions == side.regions@,
            levels@.len() == d,
            forall|k: int| 0 <= k < d ==> (#[trigger] levels@[k])@ == level(regions, p, k),
            current@ == level(regions, p, d as int),
        decreases path@.len() - d,
    {
        levels.push(current);
        let index = path[d];
        if index < current.len() {
            match &current[index].node {
                Node::Fold { children } => {
                    current = children.as_slice();
                },
                Node::Leaf { .. } => {
                    current = &[];
                    assert(current@ =~= Seq::<Region>::empty());
                },
            }
        } else {
            current = &[];
            assert(current@ =~= Seq::<Region>::empty());
        }
        d += 1;
    }
    let mut between: u64 = 0;
    let mut depth: usize = path.len();
    while depth > 0
        invariant
            depth <= path@.len(),
            levels@.len() == path@.len(),
            p == path@.map_values(|x: usize| x as int),
            regions == side.regions@,
            forall|k: int| 0 <= k < levels@.len() ==> (#[trigger] levels@[k])@ == level(regions, p, k),
            between <= MAX_SIGNATURE_LINES,
            goal == docstring_spec(side.regions@, *body, plugin@),
            goal == scan_levels(regions, p, depth - 1, between as int, tag@, own@),
        decreases depth,
    {
        let d = depth - 1;
        let siblings = levels[d];
        let index = path[d];
        if index >= siblings.len() {
            return None;
        }
        if d + 1 < path.len() && has_tag_starting(&siblings[index], own.as_str()) {
            return None;
        }
        let mut i: usize = index;
        while i > 0
            invariant
                i <= index < siblings@.len(),
                between <= MAX_SIGNATURE_LINES,
                siblings@ == level(regions, p, d as int),
                goal == docstring_spec(side.regions@, *body, plugin@),
                goal == ({
                    let (stop, found, passed) = scan_back(siblings@, i as int, between as int, tag@);
                    if stop {
                        found
                    } else {
                        scan_levels(regions, p, d - 1, passed, tag@, own@)
                    }
                }),
            decreases i,
        {
            let region = &siblings[i - 1];
            if let Node::Fold { .. } = &region.node {
                if has_tag(region, tag.as_str()) {
                    return Some(region.id);
                }
                return None;
            }
            let passed = between + lines_in(&region.range);
            if passed > MAX_SIGNATURE_LINES {
                return None;
            }
            between = passed;
            i -= 1;
        }
        depth -= 1;
    }
    None
}

} // verus!
