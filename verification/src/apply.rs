//! Carry out moves, in order. diffr carries every plugin's moves out with
//! this applier, and [`crate::draft::Draft`] runs the same code on a copy,
//! so a plugin predicts exactly the trees and ids its moves leave.
//!
//! A move names a region by `id`, on the one side that holds it, or the file
//! by [`ROOT`]. An unknown `id` is an error.
//!
//! - `Cut { region, at }` splits a leaf into the lines before `at`, relative
//!   to its first line, and the lines from `at` on; `at` must fall strictly
//!   inside it. The leaf on the other side with its `alignment_id`, which
//!   has the same length, is cut at the same offset. The first piece on each
//!   side keeps its leaf's ids. The second piece takes a fresh `id` on each
//!   side and a fresh `alignment_id` shared by the two, and its
//!   `fold_state_id` is the `id` of the lhs piece, or of its only piece.
//!   Pieces keep the leaf's tags and visibility and the `changed` spans on
//!   their lines. A fold, or the file, cannot be cut.
//! - `JoinFolds { regions }` needs two or more region ids. Each side wraps the
//!   ones it holds, which must be two or more consecutive siblings under one
//!   parent, in a new fold spanning them, with a fresh `id`, no tags, and an
//!   open, unlabelled visibility. When both sides wrap, the two new folds
//!   share the lhs fold's `fold_state_id`, its `id`. A side holding exactly
//!   one of the ids is an error, and so is an id no side holds.
//! - `LinkFoldState { regions }` needs two or more region ids. Every region
//!   in any of their fold states, on either side, takes the first region's
//!   `fold_state_id` and whether it starts collapsed.
//! - `SetCollapsed { region, collapsed }` sets whether every region sharing
//!   the region's `fold_state_id` starts collapsed, on both sides. On
//!   [`ROOT`] it sets whether the file starts hidden.
//! - `SetLabel { region, label }` sets the label of that region alone, or of
//!   the file on [`ROOT`]; `None` clears it.
//! - `SetTags { region, tags }` replaces that region's tags; [`ROOT`] is an
//!   error.
//!
//! Fresh `id`s start above the largest `id` in the file (and above
//! [`ROOT`]) when a plugin's moves begin, and fresh `alignment_id`s above the
//! largest leaf `alignment_id`; each is handed out in the order the moves
//! need them, lhs before rhs.
use crate::paths::{
    at, has_id, has_alignment, lemma_path_where_m_sound, path_model, path_where, path_where_m,
    region_at_m, replace_at, siblings_at, splice_at, wrap_spec, split_spec, Replace, Wanted,
};
use crate::text::{decimal, owned, push_decimal, push_str};
use crate::tree::{
    id_set_contains, id_set_insert, lemma_regions_model, lemma_regions_model_push, region_model,
    regions_model, tags_model, Node, NodeModel, Pairing, Region, RegionModel, Source,
};
use crate::types::{Move, Position, Range, Visibility, ROOT};
use vstd::pervasive::VecAdditionalExecFns;
use vstd::prelude::*;

verus! {

broadcast use vstd::std_specs::vec::group_vec_axioms, vstd::seq::group_seq_axioms, lemma_regions_model;

/// Which move names regions in a list.
#[derive(Debug, Clone, Copy, PartialEq, Eq, Structural)]
pub enum ListMove {
    Link,
    Join,
}

/// Why a move cannot be carried out.
#[derive(Debug, Clone, Copy, PartialEq, Eq, Structural)]
pub enum MoveError {
    /// No region has this id.
    NoRegion(u32),
    /// `Cut` names the file.
    FileCannotBeCut,
    /// `Cut` names a fold.
    IsAFold(u32),
    /// `Cut` at an offset that is not strictly inside the leaf.
    NotInside { at: u32, region: u32, lines: u64 },
    /// The leaf paired with a cut leaf differs in length.
    DifferentLength(u32),
    /// `SetTags` names the file.
    FileTags,
    /// A link or a join names fewer than two regions.
    TooFew(ListMove),
    /// A link or a join names the file.
    IncludesFile(ListMove),
    /// A link or a join names a region twice.
    Twice(ListMove),
    /// A side holds exactly one of the joined regions.
    HoldsOnlyOne,
    /// A side's joined regions are not consecutive siblings.
    NotConsecutive,
    /// A move would take an id past the largest a `u32` holds.
    OutOfIds,
    /// Lines are cut out of a fold.
    FoldToLines(u32),
    /// Lines `start..end` fall outside the leaf.
    LinesOutside { start: u32, end: u32, region: u32, lines: u64 },
    /// The region is the last of its siblings.
    NoNextSibling(u32),
}

/// How an error names a list move.
pub open spec fn list_move_name_spec(what: ListMove) -> Seq<char> {
    match what {
        ListMove::Link => "a link"@,
        ListMove::Join => "a join"@,
    }
}

/// The sentence that tells of a move error.
pub open spec fn move_error_text(e: MoveError) -> Seq<char> {
    match e {
        MoveError::NoRegion(id) => "no region "@ + decimal(id as nat),
        MoveError::FileCannotBeCut => "the file cannot be cut; only a leaf can"@,
        MoveError::IsAFold(id) => "region "@ + decimal(id as nat) + " is a fold; only a leaf can be cut"@,
        MoveError::NotInside { at, region, lines } => "line "@ + decimal(at as nat) + " is not inside region "@
            + decimal(region as nat) + ", which has "@ + decimal(lines as nat) + " lines"@,
        MoveError::DifferentLength(id) => "region "@ + decimal(id as nat) + " has a different length on each side"@,
        MoveError::FileTags => "the file's tags are its manifest entry's; only a region's tags can be set"@,
        MoveError::TooFew(what) => list_move_name_spec(what) + " needs at least two regions"@,
        MoveError::IncludesFile(what) => list_move_name_spec(what) + " cannot include the file"@,
        MoveError::Twice(what) => list_move_name_spec(what) + " lists a region twice"@,
        MoveError::HoldsOnlyOne => "a side holds only one of the joined regions"@,
        MoveError::NotConsecutive => "the joined regions are not consecutive siblings"@,
        MoveError::OutOfIds => "no fresh id is left for the move"@,
        MoveError::FoldToLines(id) => "region "@ + decimal(id as nat) + " is a fold; only a leaf can be cut to lines"@,
        MoveError::LinesOutside { start, end, region, lines } => "lines "@ + decimal(start as nat) + ".."@ + decimal(
            end as nat,
        ) + " are outside region "@ + decimal(region as nat) + ", which has "@ + decimal(lines as nat) + " lines"@,
        MoveError::NoNextSibling(id) => "region "@ + decimal(id as nat) + " has no next sibling"@,
    }
}

fn list_move_name(what: ListMove) -> (name: String)
    ensures
        name@ == list_move_name_spec(what),
{
    match what {
        ListMove::Link => owned("a link"),
        ListMove::Join => owned("a join"),
    }
}

impl MoveError {
    /// The error as a sentence.
    pub fn message(&self) -> (text: String)
        ensures
            text@ == move_error_text(*self),
    {
        match self {
            MoveError::NoRegion(id) => {
                let mut text = owned("no region ");
                push_decimal(&mut text, *id as u64);
                text
            },
            MoveError::FileCannotBeCut => owned("the file cannot be cut; only a leaf can"),
            MoveError::IsAFold(id) => {
                let mut text = owned("region ");
                push_decimal(&mut text, *id as u64);
                push_str(&mut text, " is a fold; only a leaf can be cut");
                text
            },
            MoveError::NotInside { at, region, lines } => {
                let mut text = owned("line ");
                push_decimal(&mut text, *at as u64);
                push_str(&mut text, " is not inside region ");
                push_decimal(&mut text, *region as u64);
                push_str(&mut text, ", which has ");
                push_decimal(&mut text, *lines);
                push_str(&mut text, " lines");
                text
            },
            MoveError::DifferentLength(id) => {
                let mut text = owned("region ");
                push_decimal(&mut text, *id as u64);
                push_str(&mut text, " has a different length on each side");
                text
            },
            MoveError::FileTags => owned(
                "the file's tags are its manifest entry's; only a region's tags can be set",
            ),
            MoveError::TooFew(what) => {
                let mut text = list_move_name(*what);
                push_str(&mut text, " needs at least two regions");
                text
            },
            MoveError::IncludesFile(what) => {
                let mut text = list_move_name(*what);
                push_str(&mut text, " cannot include the file");
                text
            },
            MoveError::Twice(what) => {
                let mut text = list_move_name(*what);
                push_str(&mut text, " lists a region twice");
                text
            },
            MoveError::HoldsOnlyOne => owned("a side holds only one of the joined regions"),
            MoveError::NotConsecutive => owned("the joined regions are not consecutive siblings"),
            MoveError::OutOfIds => owned("no fresh id is left for the move"),
            MoveError::FoldToLines(id) => {
                let mut text = owned("region ");
                push_decimal(&mut text, *id as u64);
                push_str(&mut text, " is a fold; only a leaf can be cut to lines");
                text
            },
            MoveError::LinesOutside { start, end, region, lines } => {
                let mut text = owned("lines ");
                push_decimal(&mut text, *start as u64);
                push_str(&mut text, "..");
                push_decimal(&mut text, *end as u64);
                push_str(&mut text, " are outside region ");
                push_decimal(&mut text, *region as u64);
                push_str(&mut text, ", which has ");
                push_decimal(&mut text, *lines);
                push_str(&mut text, " lines");
                text
            },
            MoveError::NoNextSibling(id) => {
                let mut text = owned("region ");
                push_decimal(&mut text, *id as u64);
                push_str(&mut text, " has no next sibling");
                text
            },
        }
    }
}

// ── fresh ids ────────────────────────────────────────────────────────────

/// One above every `id` in a tree, or 0 for an empty one.
pub open spec fn id_bound(t: Seq<RegionModel>) -> int
    decreases t,
{
    if t.len() == 0 {
        0
    } else {
        let r = t.last();
        let under = match r.node {
            NodeModel::Fold { children } => id_bound(children),
            NodeModel::Leaf { .. } => 0,
        };
        vstd::math::max(id_bound(t.drop_last()), vstd::math::max(r.id + 1, under))
    }
}

/// One above every leaf `alignment_id` in a tree, or 0 for an empty one.
pub open spec fn alignment_bound(t: Seq<RegionModel>) -> int
    decreases t,
{
    if t.len() == 0 {
        0
    } else {
        let own = match t.last().node {
            NodeModel::Fold { children } => alignment_bound(children),
            NodeModel::Leaf { alignment_id, .. } => alignment_id + 1,
        };
        vstd::math::max(alignment_bound(t.drop_last()), own)
    }
}

/// One above every `id` on the sides, and above [`ROOT`].
pub open spec fn fresh_id_of(trees: Seq<Seq<RegionModel>>) -> int
    decreases trees.len(),
{
    if trees.len() == 0 {
        ROOT + 1
    } else {
        vstd::math::max(fresh_id_of(trees.drop_last()), id_bound(trees.last()))
    }
}

/// One above every leaf `alignment_id` on the sides.
pub open spec fn fresh_alignment_of(trees: Seq<Seq<RegionModel>>) -> int
    decreases trees.len(),
{
    if trees.len() == 0 {
        0
    } else {
        vstd::math::max(fresh_alignment_of(trees.drop_last()), alignment_bound(trees.last()))
    }
}

/// Each present side's regions as values, lhs first.
pub open spec fn sources_trees(sources: Seq<Source>) -> Seq<Seq<RegionModel>> {
    sources.map_values(|s: Source| regions_model(s.regions@))
}

/// Each present side's text, lhs first.
pub open spec fn sources_texts(sources: Seq<Source>) -> Seq<Seq<char>> {
    sources.map_values(|s: Source| s.text@)
}

/// Each side's text.
pub open spec fn texts(sides: Pairing<Source>) -> Pairing<Seq<char>> {
    match sides {
        Pairing::Both { lhs, rhs } => Pairing::Both { lhs: lhs.text@, rhs: rhs.text@ },
        Pairing::LeftOnly { lhs } => Pairing::LeftOnly { lhs: lhs.text@ },
        Pairing::RightOnly { rhs } => Pairing::RightOnly { rhs: rhs.text@ },
    }
}

/// The next unused `id` and leaf `alignment_id` in the file: what a plugin's
/// moves hand out, in order. A plugin that does not use a draft predicts the
/// ids its cuts and joins create with it.
#[derive(Debug, Clone, Copy, PartialEq, Eq, Structural)]
pub struct Fresh {
    pub id: u32,
    pub alignment: u32,
}

/// Raise `fresh` above every id and leaf alignment in `regions`.
fn raise(regions: &[Region], fresh: Fresh) -> (raised: Fresh)
    requires
        id_bound(regions_model(regions@)) <= u32::MAX,
        alignment_bound(regions_model(regions@)) <= u32::MAX,
    ensures
        raised.id == vstd::math::max(fresh.id as int, id_bound(regions_model(regions@))),
        raised.alignment == vstd::math::max(fresh.alignment as int, alignment_bound(regions_model(regions@))),
    decreases regions@,
{
    let ghost t = regions_model(regions@);
    let mut raised = fresh;
    let mut i: usize = 0;
    proof {
        crate::paths::lemma_regions_model_take_skip(regions@, 0);
    }
    while i < regions.len()
        invariant
            i <= regions@.len(),
            t == regions_model(regions@),
            id_bound(t) <= u32::MAX,
            alignment_bound(t) <= u32::MAX,
            raised.id == vstd::math::max(fresh.id as int, id_bound(t.take(i as int))),
            raised.alignment == vstd::math::max(fresh.alignment as int, alignment_bound(t.take(i as int))),
        decreases regions@.len() - i,
    {
        let region = &regions[i];
        proof {
            assert(t.take(i + 1).drop_last() =~= t.take(i as int));
            assert(t.take(i + 1).last() == region_model(*region));
            lemma_bounds_prefix(t, i + 1);
        }
        if raised.id <= region.id {
            raised.id = region.id + 1;
        }
        match &region.node {
            Node::Fold { children } => {
                assert(decreases_to!(regions@ => regions@[i as int]));
                raised = raise(children.as_slice(), raised);
            },
            Node::Leaf { alignment_id, .. } => {
                if raised.alignment <= *alignment_id {
                    raised.alignment = *alignment_id + 1;
                }
            },
        }
        i += 1;
    }
    assert(t.take(regions@.len() as int) =~= t);
    raised
}

pub proof fn lemma_bounds_prefix(t: Seq<RegionModel>, i: int)
    requires
        0 <= i <= t.len(),
    ensures
        id_bound(t.take(i)) <= id_bound(t),
        alignment_bound(t.take(i)) <= alignment_bound(t),
        i > 0 ==> t[i - 1].id + 1 <= id_bound(t),
        i > 0 ==> (t[i - 1].node matches NodeModel::Fold { children } ==> id_bound(children) <= id_bound(t)
            && alignment_bound(children) <= alignment_bound(t)),
        i > 0 ==> (t[i - 1].node matches NodeModel::Leaf { alignment_id, .. } ==> alignment_id + 1
            <= alignment_bound(t)),
    decreases t.len() - i,
{
    if i < t.len() {
        lemma_bounds_prefix(t, i + 1);
        assert(t.take(i + 1).drop_last() =~= t.take(i));
        assert(t.take(i + 1)[i] == t[i]);
        if i > 0 {
            assert(t.take(i + 1)[i - 1] == t[i - 1]);
        }
    } else {
        assert(t.take(i) =~= t);
    }
}

impl Fresh {
    /// One above every `id`, and [`ROOT`], and one above every leaf
    /// `alignment_id`, in the file.
    pub fn of(sides: &Pairing<Source>) -> (fresh: Fresh)
        requires
            fresh_id_of(sources_trees(sides.present())) <= u32::MAX,
            fresh_alignment_of(sources_trees(sides.present())) <= u32::MAX,
        ensures
            fresh.id == fresh_id_of(sources_trees(sides.present())),
            fresh.alignment == fresh_alignment_of(sources_trees(sides.present())),
    {
        let fresh = Fresh { id: ROOT + 1, alignment: 0 };
        let ghost trees = sources_trees(sides.present());
        match sides {
            Pairing::Both { lhs, rhs } => {
                proof {
                    assert(trees.drop_last().drop_last() =~= Seq::<Seq<RegionModel>>::empty());
                    assert(trees.drop_last().last() == regions_model(lhs.regions@));
                    assert(trees.last() == regions_model(rhs.regions@));
                    lemma_fresh_parts(trees.drop_last());
                    lemma_fresh_parts(trees);
                }
                let fresh = raise(lhs.regions.as_slice(), fresh);
                raise(rhs.regions.as_slice(), fresh)
            },
            Pairing::LeftOnly { lhs } => {
                proof {
                    assert(trees.drop_last() =~= Seq::<Seq<RegionModel>>::empty());
                    lemma_fresh_parts(trees);
                }
                raise(lhs.regions.as_slice(), fresh)
            },
            Pairing::RightOnly { rhs } => {
                proof {
                    assert(trees.drop_last() =~= Seq::<Seq<RegionModel>>::empty());
                    lemma_fresh_parts(trees);
                }
                raise(rhs.regions.as_slice(), fresh)
            },
        }
    }

    /// Take the next `id`.
    pub fn id(&mut self) -> (id: u32)
        requires
            old(self).id < u32::MAX,
        ensures
            id == old(self).id,
            final(self).id == old(self).id + 1,
            final(self).alignment == old(self).alignment,
    {
        let id = self.id;
        self.id = self.id + 1;
        id
    }

    /// Take the next `alignment_id`.
    pub fn alignment(&mut self) -> (alignment: u32)
        requires
            old(self).alignment < u32::MAX,
        ensures
            alignment == old(self).alignment,
            final(self).alignment == old(self).alignment + 1,
            final(self).id == old(self).id,
    {
        let alignment = self.alignment;
        self.alignment = self.alignment + 1;
        alignment
    }
}

proof fn lemma_fresh_parts(trees: Seq<Seq<RegionModel>>)
    ensures
        trees.len() > 0 ==> fresh_id_of(trees.drop_last()) <= fresh_id_of(trees) && id_bound(trees.last())
            <= fresh_id_of(trees),
        trees.len() > 0 ==> fresh_alignment_of(trees.drop_last()) <= fresh_alignment_of(trees)
            && alignment_bound(trees.last()) <= fresh_alignment_of(trees),
{
}

} // verus!

verus! {

// ── what each move does, as values ───────────────────────────────────────

/// Everything the moves change: the fresh ids, each present side's tree
/// (lhs first), and the file's own visibility.
pub struct Board {
    pub fresh: Fresh,
    pub trees: Seq<Seq<RegionModel>>,
    pub collapsed: bool,
    pub label: Seq<char>,
}

/// The board a plugin's moves start from, or reach.
pub open spec fn board(fresh: Fresh, sides: Pairing<Source>, file: Visibility) -> Board {
    Board {
        fresh,
        trees: sources_trees(sides.present()),
        collapsed: file.collapsed,
        label: file.label@,
    }
}

/// The first side, and the path on it, of the first region in preorder
/// with this `id`.
pub open spec fn locate(trees: Seq<Seq<RegionModel>>, id: u32) -> Option<(int, Seq<int>)>
    decreases trees.len(),
{
    if trees.len() == 0 {
        None
    } else {
        match path_where_m(trees[0], has_id(id)) {
            Some(path) => Some((0, path)),
            None => match locate(trees.drop_first(), id) {
                Some((side, path)) => Some((side + 1, path)),
                None => None,
            },
        }
    }
}

/// The region with this `id`, on whichever side holds it.
pub open spec fn lookup(trees: Seq<Seq<RegionModel>>, id: u32) -> Option<RegionModel> {
    match locate(trees, id) {
        Some((side, path)) => region_at_m(trees[side], path),
        None => None,
    }
}

/// The first of `ids` that no side holds.
pub open spec fn first_missing(trees: Seq<Seq<RegionModel>>, ids: Seq<u32>) -> Option<u32>
    decreases ids.len(),
{
    if ids.len() == 0 {
        None
    } else if lookup(trees, ids[0]) is None {
        Some(ids[0])
    } else {
        first_missing(trees, ids.drop_first())
    }
}

/// Why a list of region ids cannot be linked or joined, if it cannot: it
/// needs two or more distinct ids, none of them the file.
pub open spec fn list_error(ids: Seq<u32>, what: ListMove) -> Option<MoveError> {
    if ids.len() < 2 {
        Some(MoveError::TooFew(what))
    } else if ids.contains(ROOT) {
        Some(MoveError::IncludesFile(what))
    } else if !ids.no_duplicates() {
        Some(MoveError::Twice(what))
    } else {
        None
    }
}

/// Every region's header transformed by `f`, the tree's shape kept.
pub open spec fn map_headers(t: Seq<RegionModel>, f: spec_fn(RegionModel) -> RegionModel) -> Seq<RegionModel>
    decreases t,
{
    if t.len() == 0 {
        Seq::empty()
    } else {
        map_headers(t.drop_last(), f).push(map_header_one(t.last(), f))
    }
}

pub open spec fn map_header_one(r: RegionModel, f: spec_fn(RegionModel) -> RegionModel) -> RegionModel
    decreases r,
{
    RegionModel {
        node: match r.node {
            NodeModel::Fold { children } => NodeModel::Fold { children: map_headers(children, f) },
            NodeModel::Leaf { alignment_id, changed } => NodeModel::Leaf { alignment_id, changed },
        },
        ..f(r)
    }
}

pub proof fn lemma_map_headers_index(t: Seq<RegionModel>, f: spec_fn(RegionModel) -> RegionModel)
    ensures
        map_headers(t, f).len() == t.len(),
        forall|i: int| 0 <= i < t.len() ==> #[trigger] map_headers(t, f)[i] == map_header_one(t[i], f),
    decreases t.len(),
{
    if t.len() > 0 {
        lemma_map_headers_index(t.drop_last(), f);
    }
}

/// Every side's regions with their headers transformed by `f`.
pub open spec fn map_trees(trees: Seq<Seq<RegionModel>>, f: spec_fn(RegionModel) -> RegionModel) -> Seq<
    Seq<RegionModel>,
> {
    trees.map_values(|t: Seq<RegionModel>| map_headers(t, f))
}

/// A region in fold state `state` takes `collapsed`.
pub open spec fn collapse_in(state: u32, collapsed: bool) -> spec_fn(RegionModel) -> RegionModel {
    |r: RegionModel| if r.fold_state_id == state {
        RegionModel { collapsed, ..r }
    } else {
        r
    }
}

/// A region in one of `states` takes fold state `state` and `collapsed`.
pub open spec fn link_into(states: Set<u32>, state: u32, collapsed: bool) -> spec_fn(RegionModel) -> RegionModel {
    |r: RegionModel| if states.contains(r.fold_state_id) {
        RegionModel { fold_state_id: state, collapsed, ..r }
    } else {
        r
    }
}

/// The fold states of the regions `ids` name.
pub open spec fn states_of(trees: Seq<Seq<RegionModel>>, ids: Seq<u32>) -> Set<u32> {
    Set::new(
        |state: u32|
            exists|k: int|
                0 <= k < ids.len() && (#[trigger] lookup(trees, ids[k]) matches Some(r) && r.fold_state_id
                    == state),
    )
}

/// The region with this `id` given a new header by `f`; `None` when no side
/// holds it.
pub open spec fn edit_region(trees: Seq<Seq<RegionModel>>, id: u32, f: spec_fn(RegionModel) -> RegionModel) -> Option<
    Seq<Seq<RegionModel>>,
> {
    match locate(trees, id) {
        Some((side, path)) => match region_at_m(trees[side], path) {
            Some(r) => Some(
                trees.update(side, splice_at(trees[side], path.drop_last(), path.last(), 1, seq![f(r)])),
            ),
            None => None,
        },
        None => None,
    }
}

/// The cut carried out side by side from side `k` on: on the side holding
/// the cut leaf, at its path; on another, at the leaf with its alignment,
/// when there is one. `state` is the fold state the second pieces share
/// once the first is made.
pub open spec fn cut_sides(
    trees: Seq<Seq<RegionModel>>,
    k: int,
    side: int,
    path: Seq<int>,
    alignment: u32,
    at: u32,
    len: nat,
    piece_alignment: u32,
    fresh: Fresh,
    state: Option<u32>,
    id: u32,
) -> (Result<(), MoveError>, Fresh, Seq<Seq<RegionModel>>)
    decreases trees.len() - k,
{
    if k < 0 || k >= trees.len() {
        (Ok(()), fresh, trees)
    } else {
        let found = if k == side {
            Some(path)
        } else {
            path_where_m(trees[k], has_alignment(alignment))
        };
        match found {
            None => cut_sides(trees, k + 1, side, path, alignment, at, len, piece_alignment, fresh, state, id),
            Some(p) => match region_at_m(trees[k], p) {
                Some(leaf) => if leaf.range.line_len() != len {
                    (Err(MoveError::DifferentLength(id)), fresh, trees)
                } else {
                    let piece_state = match state {
                        Some(s) => s,
                        None => fresh.id,
                    };
                    let pieces = split_spec(leaf, at, fresh.id, piece_alignment, piece_state);
                    cut_sides(
                        trees.update(k, splice_at(trees[k], p.drop_last(), p.last(), 1, pieces)),
                        k + 1,
                        side,
                        path,
                        alignment,
                        at,
                        len,
                        piece_alignment,
                        Fresh { id: (fresh.id + 1) as u32, ..fresh },
                        Some(piece_state),
                        id,
                    )
                },
                None => (Ok(()), fresh, trees),
            },
        }
    }
}

/// `Cut { region: id, at }`.
pub open spec fn cut_step(b: Board, id: u32, at: u32) -> (Result<(), MoveError>, Board) {
    if id == ROOT {
        (Err(MoveError::FileCannotBeCut), b)
    } else {
        match locate(b.trees, id) {
            None => (Err(MoveError::NoRegion(id)), b),
            Some((side, path)) => match region_at_m(b.trees[side], path) {
                Some(leaf) => match leaf.node {
                    NodeModel::Fold { .. } => (Err(MoveError::IsAFold(id)), b),
                    NodeModel::Leaf { alignment_id, .. } => {
                        let len = leaf.range.line_len();
                        if !(0 < at && at < len) {
                            (Err(MoveError::NotInside { at, region: id, lines: len as u64 }), b)
                        } else {
                            let (result, fresh, trees) = cut_sides(
                                b.trees,
                                0,
                                side,
                                path,
                                alignment_id,
                                at,
                                len,
                                b.fresh.alignment,
                                Fresh { alignment: (b.fresh.alignment + 1) as u32, ..b.fresh },
                                None,
                                id,
                            );
                            (result, Board { fresh, trees, ..b })
                        }
                    },
                },
                None => (Err(MoveError::NoRegion(id)), b),
            },
        }
    }
}

/// The paths on one side of those of `ids` it holds, in the order of `ids`.
pub open spec fn found_paths(t: Seq<RegionModel>, ids: Seq<u32>) -> Seq<Seq<int>> {
    ids.filter_map(|id: u32| path_where_m(t, has_id(id)))
}

/// The smallest last index of the paths.
pub open spec fn min_last(paths: Seq<Seq<int>>) -> int
    decreases paths.len(),
{
    if paths.len() <= 1 {
        paths[0].last()
    } else {
        vstd::math::min(min_last(paths.drop_last()), paths.last().last())
    }
}

/// The largest last index of the paths.
pub open spec fn max_last(paths: Seq<Seq<int>>) -> int
    decreases paths.len(),
{
    if paths.len() <= 1 {
        paths[0].last()
    } else {
        vstd::math::max(max_last(paths.drop_last()), paths.last().last())
    }
}

/// The paths lead to consecutive siblings under one parent.
pub open spec fn consecutive(paths: Seq<Seq<int>>) -> bool {
    &&& forall|j: int|
        0 <= j < paths.len() ==> #[trigger] paths[j].len() == paths[0].len() && paths[j].drop_last()
            == paths[0].drop_last()
    &&& max_last(paths) - min_last(paths) + 1 == paths.len()
}

/// The join carried out side by side from side `k` on; `state` is the fold
/// state the new folds share once the first is made.
pub open spec fn join_sides(
    trees: Seq<Seq<RegionModel>>,
    k: int,
    ids: Seq<u32>,
    fresh: Fresh,
    state: Option<u32>,
) -> (Result<(), MoveError>, Fresh, Seq<Seq<RegionModel>>)
    decreases trees.len() - k,
{
    if k < 0 || k >= trees.len() {
        (Ok(()), fresh, trees)
    } else {
        let paths = found_paths(trees[k], ids);
        if paths.len() == 0 {
            join_sides(trees, k + 1, ids, fresh, state)
        } else if paths.len() < 2 {
            (Err(MoveError::HoldsOnlyOne), fresh, trees)
        } else if !consecutive(paths) {
            (Err(MoveError::NotConsecutive), fresh, trees)
        } else {
            let parent = paths[0].drop_last();
            let first = min_last(paths);
            match siblings_at(trees[k], parent) {
                Some(s) => {
                    let fold_state = match state {
                        Some(st) => st,
                        None => fresh.id,
                    };
                    let fold = wrap_spec(s.subrange(first, first + paths.len()), fresh.id, fold_state);
                    join_sides(
                        trees.update(k, splice_at(trees[k], parent, first, paths.len() as int, seq![fold])),
                        k + 1,
                        ids,
                        Fresh { id: (fresh.id + 1) as u32, ..fresh },
                        Some(fold_state),
                    )
                },
                None => (Ok(()), fresh, trees),
            }
        }
    }
}

/// `JoinFolds { regions: ids }`.
pub open spec fn join_step(b: Board, ids: Seq<u32>) -> (Result<(), MoveError>, Board) {
    match list_error(ids, ListMove::Join) {
        Some(e) => (Err(e), b),
        None => match first_missing(b.trees, ids) {
            Some(id) => (Err(MoveError::NoRegion(id)), b),
            None => {
                let (result, fresh, trees) = join_sides(b.trees, 0, ids, b.fresh, None);
                (result, Board { fresh, trees, ..b })
            },
        },
    }
}

/// `LinkFoldState { regions: ids }`.
pub open spec fn link_step(b: Board, ids: Seq<u32>) -> (Result<(), MoveError>, Board) {
    match list_error(ids, ListMove::Link) {
        Some(e) => (Err(e), b),
        None => match first_missing(b.trees, ids) {
            Some(id) => (Err(MoveError::NoRegion(id)), b),
            None => match lookup(b.trees, ids[0]) {
                Some(first) => (
                    Ok(()),
                    Board {
                        trees: map_trees(
                            b.trees,
                            link_into(states_of(b.trees, ids), first.fold_state_id, first.collapsed),
                        ),
                        ..b
                    },
                ),
                None => (Err(MoveError::NoRegion(ids[0])), b),
            },
        },
    }
}

/// A label set on a region, or cleared.
pub open spec fn label_of(label: Option<String>) -> Seq<char> {
    match label {
        Some(l) => l@,
        None => Seq::empty(),
    }
}

/// One move carried out on the board: whether it succeeded, and the board
/// it leaves, also after a failure part way.
pub open spec fn step(b: Board, next: Move) -> (Result<(), MoveError>, Board) {
    match next {
        Move::Cut { region, at } => cut_step(b, region, at),
        Move::JoinFolds { regions } => join_step(b, regions@),
        Move::LinkFoldState { regions } => link_step(b, regions@),
        Move::SetCollapsed { region, collapsed } => if region == ROOT {
            (Ok(()), Board { collapsed, ..b })
        } else {
            match lookup(b.trees, region) {
                Some(r) => (
                    Ok(()),
                    Board { trees: map_trees(b.trees, collapse_in(r.fold_state_id, collapsed)), ..b },
                ),
                None => (Err(MoveError::NoRegion(region)), b),
            }
        },
        Move::SetLabel { region, label } => if region == ROOT {
            (Ok(()), Board { label: label_of(label), ..b })
        } else {
            match edit_region(b.trees, region, |r: RegionModel| RegionModel { label: label_of(label), ..r }) {
                Some(trees) => (Ok(()), Board { trees, ..b }),
                None => (Err(MoveError::NoRegion(region)), b),
            }
        },
        Move::SetTags { region, tags } => if region == ROOT {
            (Err(MoveError::FileTags), b)
        } else {
            match edit_region(b.trees, region, |r: RegionModel| RegionModel { tags: tags_model(tags@), ..r }) {
                Some(trees) => (Ok(()), Board { trees, ..b }),
                None => (Err(MoveError::NoRegion(region)), b),
            }
        },
    }
}

/// Moves carried out in order, stopping at the first that fails.
pub open spec fn steps(b: Board, moves: Seq<Move>) -> (Result<(), MoveError>, Board)
    decreases moves.len(),
{
    if moves.len() == 0 {
        (Ok(()), b)
    } else {
        let (result, next) = step(b, moves[0]);
        match result {
            Ok(()) => steps(next, moves.drop_first()),
            Err(e) => (Err(e), next),
        }
    }
}

} // verus!

verus! {

// ── the sides as a list ──────────────────────────────────────────────────

/// Which sides exist.
#[derive(Clone, Copy)]
enum Shape {
    Both,
    LeftOnly,
    RightOnly,
}

spec fn shape_of<T>(sides: Pairing<T>) -> Shape {
    match sides {
        Pairing::Both { .. } => Shape::Both,
        Pairing::LeftOnly { .. } => Shape::LeftOnly,
        Pairing::RightOnly { .. } => Shape::RightOnly,
    }
}

/// The present sides, lhs first, and which they are.
fn unpack(sides: Pairing<Source>) -> (unpacked: (Vec<Source>, Shape))
    ensures
        unpacked.0@ == sides.present(),
        unpacked.1 == shape_of(sides),
{
    let mut sources = Vec::new();
    match sides {
        Pairing::Both { lhs, rhs } => {
            sources.push(lhs);
            sources.push(rhs);
            assert(sources@ =~= seq![lhs, rhs]);
            (sources, Shape::Both)
        },
        Pairing::LeftOnly { lhs } => {
            sources.push(lhs);
            assert(sources@ =~= seq![lhs]);
            (sources, Shape::LeftOnly)
        },
        Pairing::RightOnly { rhs } => {
            sources.push(rhs);
            assert(sources@ =~= seq![rhs]);
            (sources, Shape::RightOnly)
        },
    }
}

/// The sides again from the list [`unpack`] gave.
fn repack(sources: Vec<Source>, shape: Shape) -> (sides: Pairing<Source>)
    requires
        sources@.len() == (if shape is Both { 2int } else { 1int }),
    ensures
        sides.present() == sources@,
        shape_of(sides) == shape,
{
    let ghost given = sources@;
    let mut sources = sources;
    match shape {
        Shape::Both => {
            let rhs = sources.pop().unwrap();
            let lhs = sources.pop().unwrap();
            let sides = Pairing::Both { lhs, rhs };
            assert(sides.present() =~= given);
            sides
        },
        Shape::LeftOnly => {
            let lhs = sources.pop().unwrap();
            let sides = Pairing::LeftOnly { lhs };
            assert(sides.present() =~= given);
            sides
        },
        Shape::RightOnly => {
            let rhs = sources.pop().unwrap();
            let sides = Pairing::RightOnly { rhs };
            assert(sides.present() =~= given);
            sides
        },
    }
}

proof fn lemma_texts_kept(a: Pairing<Source>, b: Pairing<Source>)
    requires
        shape_of(a) == shape_of(b),
        sources_texts(a.present()) == sources_texts(b.present()),
    ensures
        texts(a) == texts(b),
{
    match a {
        Pairing::Both { lhs, rhs } => {
            assert(sources_texts(a.present())[0] == lhs.text@);
            assert(sources_texts(a.present())[1] == rhs.text@);
            assert(sources_texts(b.present())[0] == b.present()[0].text@);
            assert(sources_texts(b.present())[1] == b.present()[1].text@);
        },
        Pairing::LeftOnly { lhs } => {
            assert(sources_texts(a.present())[0] == lhs.text@);
            assert(sources_texts(b.present())[0] == b.present()[0].text@);
        },
        Pairing::RightOnly { rhs } => {
            assert(sources_texts(a.present())[0] == rhs.text@);
            assert(sources_texts(b.present())[0] == b.present()[0].text@);
        },
    }
}

/// An empty side, to take another's place for a moment.
fn empty_source() -> (source: Source)
    ensures
        source.text@.len() == 0,
        source.regions@.len() == 0,
{
    Source { text: String::new(), regions: Vec::new() }
}

/// Side `k` taken out of the list, an empty one left in its place.
fn take_source(sources: &mut Vec<Source>, k: usize) -> (taken: Source)
    requires
        k < old(sources)@.len(),
    ensures
        taken == old(sources)@[k as int],
        final(sources)@.len() == old(sources)@.len(),
        forall|j: int| 0 <= j < old(sources)@.len() && j != k ==> final(sources)@[j] == old(sources)@[j],
{
    let mut taken = empty_source();
    sources.set_and_swap(k, &mut taken);
    taken
}

// ── finding regions ──────────────────────────────────────────────────────

proof fn lemma_locate_at(trees: Seq<Seq<RegionModel>>, id: u32, k: int)
    requires
        0 <= k <= trees.len(),
        forall|j: int| 0 <= j < k ==> path_where_m(#[trigger] trees[j], has_id(id)) is None,
    ensures
        k < trees.len() ==> (path_where_m(trees[k], has_id(id)) matches Some(p) ==> locate(trees, id)
            == Some((k, p))),
        k == trees.len() ==> locate(trees, id) is None,
    decreases k,
{
    if k > 0 {
        let rest = trees.drop_first();
        assert forall|j: int| 0 <= j < k - 1 implies path_where_m(#[trigger] rest[j], has_id(id)) is None by {
            assert(rest[j] == trees[j + 1]);
        }
        lemma_locate_at(rest, id, k - 1);
        assert(path_where_m(trees[0], has_id(id)) is None);
        if k < trees.len() {
            assert(rest[k - 1] == trees[k]);
        }
    }
}

proof fn lemma_locate_found(trees: Seq<Seq<RegionModel>>, id: u32)
    ensures
        locate(trees, id) matches Some((side, path)) ==> 0 <= side < trees.len() && path_where_m(
            trees[side],
            has_id(id),
        ) == Some(path),
    decreases trees.len(),
{
    if trees.len() > 0 {
        lemma_locate_found(trees.drop_first(), id);
    }
}

/// The side, and the path on it, of the first region with this `id`.
fn locate_exec(sources: &Vec<Source>, id: u32) -> (found: Option<(usize, Vec<usize>)>)
    ensures
        match locate(sources_trees(sources@), id) {
            Some((side, path)) => found matches Some((k, p)) && k == side && path_model(p@) == path,
            None => found is None,
        },
{
    let ghost trees = sources_trees(sources@);
    let mut k: usize = 0;
    while k < sources.len()
        invariant
            k <= sources@.len(),
            trees == sources_trees(sources@),
            forall|j: int| 0 <= j < k ==> path_where_m(#[trigger] trees[j], has_id(id)) is None,
        decreases sources@.len() - k,
    {
        assert(trees[k as int] == regions_model(sources@[k as int].regions@));
        if let Some(path) = path_where(sources[k].regions.as_slice(), &Wanted::Id(id)) {
            proof {
                lemma_locate_at(trees, id, k as int);
            }
            return Some((k, path));
        }
        k += 1;
    }
    proof {
        lemma_locate_at(trees, id, k as int);
    }
    None
}

/// The region with this `id`, on whichever side holds it.
fn lookup_exec<'a>(sources: &'a Vec<Source>, id: u32) -> (found: Option<&'a Region>)
    ensures
        match lookup(sources_trees(sources@), id) {
            Some(r) => found matches Some(f) && region_model(*f) == r,
            None => found is None,
        },
{
    match locate_exec(sources, id) {
        Some((k, path)) => {
            let ghost trees = sources_trees(sources@);
            proof {
                lemma_locate_found(trees, id);
                assert(trees[k as int] == regions_model(sources@[k as int].regions@));
                lemma_path_where_m_sound(trees[k as int], has_id(id));
                assert(path_model(path@).skip(0) =~= path_model(path@));
            }
            Some(at(sources[k].regions.as_slice(), &path, 0))
        },
        None => None,
    }
}

/// The first of `ids` that no side holds.
fn first_missing_exec(sources: &Vec<Source>, ids: &Vec<u32>) -> (missing: Option<u32>)
    ensures
        missing == first_missing(sources_trees(sources@), ids@),
{
    let ghost trees = sources_trees(sources@);
    let mut k: usize = 0;
    assert(ids@.skip(0) =~= ids@);
    while k < ids.len()
        invariant
            k <= ids@.len(),
            trees == sources_trees(sources@),
            first_missing(trees, ids@) == first_missing(trees, ids@.skip(k as int)),
        decreases ids@.len() - k,
    {
        assert(ids@.skip(k as int)[0] == ids@[k as int]);
        assert(ids@.skip(k as int).drop_first() =~= ids@.skip(k + 1));
        if lookup_exec(sources, ids[k]).is_none() {
            return Some(ids[k]);
        }
        k += 1;
    }
    None
}

/// Why a list of region ids cannot be linked or joined, if it cannot.
fn list_check(ids: &Vec<u32>, what: ListMove) -> (error: Option<MoveError>)
    ensures
        error == list_error(ids@, what),
{
    if ids.len() < 2 {
        return Some(MoveError::TooFew(what));
    }
    let mut i: usize = 0;
    while i < ids.len()
        invariant
            i <= ids@.len(),
            ids@.len() >= 2,
            forall|j: int| 0 <= j < i ==> ids@[j] != ROOT,
        decreases ids@.len() - i,
    {
        if ids[i] == ROOT {
            assert(ids@.contains(ROOT));
            return Some(MoveError::IncludesFile(what));
        }
        i += 1;
    }
    let mut i: usize = 0;
    while i < ids.len()
        invariant
            i <= ids@.len(),
            ids@.len() >= 2,
            !ids@.contains(ROOT),
            forall|a: int, b: int| 0 <= a < b < ids@.len() && a < i ==> ids@[a] != ids@[b],
        decreases ids@.len() - i,
    {
        let mut j: usize = i + 1;
        while j < ids.len()
            invariant
                i < j <= ids@.len(),
                ids@.len() >= 2,
                !ids@.contains(ROOT),
                forall|b: int| i < b < j ==> ids@[i as int] != ids@[b],
            decreases ids@.len() - j,
        {
            if ids[i] == ids[j] {
                assert(!ids@.no_duplicates()) by {
                    assert(ids@[i as int] == ids@[j as int]);
                }
                return Some(MoveError::Twice(what));
            }
            j += 1;
        }
        i += 1;
    }
    assert(ids@.no_duplicates());
    None
}

} // verus!

verus! {

// ── header edits over whole trees ────────────────────────────────────────

/// A change to the header of every region that qualifies.
pub enum Recolor {
    /// Every region in fold state `state` takes `collapsed`.
    Collapse { state: u32, collapsed: bool },
    /// Every region in one of `states` takes fold state `state` and
    /// `collapsed`.
    Link { states: std::collections::BTreeSet<u32>, state: u32, collapsed: bool },
}

/// What a recolor does to one header.
pub open spec fn recolor_spec(edit: Recolor) -> spec_fn(RegionModel) -> RegionModel {
    match edit {
        Recolor::Collapse { state, collapsed } => collapse_in(state, collapsed),
        Recolor::Link { states, state, collapsed } => link_into(states@, state, collapsed),
    }
}

/// A region to take another's place for a moment.
fn placeholder() -> (region: Region)
    ensures
        crate::tree::blank_region(region),
{
    Region {
        id: ROOT,
        fold_state_id: ROOT,
        range: Range { start: Position { line: 0, column: 0 }, end: Position { line: 0, column: 0 } },
        tags: Vec::new(),
        visibility: Visibility::open_unlabelled(),
        node: Node::Leaf { alignment_id: 0, changed: Vec::new() },
    }
}

fn recolor_region(region: Region, edit: &Recolor) -> (out: Region)
    ensures
        region_model(out) == map_header_one(region_model(region), recolor_spec(*edit)),
    decreases region,
{
    let Region { id, fold_state_id, range, tags, visibility, node } = region;
    let ghost m = region_model(region);
    let node = match node {
        Node::Fold { children } => Node::Fold { children: recolor_regions(children, edit) },
        Node::Leaf { alignment_id, changed } => Node::Leaf { alignment_id, changed },
    };
    let (fold_state_id, collapsed) = match edit {
        Recolor::Collapse { state, collapsed } => {
            if fold_state_id == *state {
                (fold_state_id, *collapsed)
            } else {
                (fold_state_id, visibility.collapsed)
            }
        },
        Recolor::Link { states, state, collapsed } => {
            if id_set_contains(states, fold_state_id) {
                (*state, *collapsed)
            } else {
                (fold_state_id, visibility.collapsed)
            }
        },
    };
    let out = Region {
        id,
        fold_state_id,
        range,
        tags,
        visibility: Visibility { collapsed, label: visibility.label },
        node,
    };
    assert(region_model(out) =~= map_header_one(m, recolor_spec(*edit)));
    out
}

fn recolor_regions(regions: Vec<Region>, edit: &Recolor) -> (out: Vec<Region>)
    ensures
        regions_model(out@) == map_headers(regions_model(regions@), recolor_spec(*edit)),
    decreases regions,
{
    let ghost original = regions@;
    let mut input = regions;
    let mut out: Vec<Region> = Vec::new();
    let mut i: usize = 0;
    assert(regions_model(original.take(0)) =~= Seq::<RegionModel>::empty());
    while i < input.len()
        invariant
            i <= input@.len(),
            input@.len() == original.len(),
            regions@ == original,
            forall|k: int| i <= k < original.len() ==> input@[k] == original[k],
            regions_model(out@) == map_headers(regions_model(original.take(i as int)), recolor_spec(*edit)),
        decreases input@.len() - i,
    {
        let mut slot = placeholder();
        input.set_and_swap(i, &mut slot);
        assert(slot == original[i as int]);
        assert(decreases_to!(regions => regions[i as int]));
        let edited = recolor_region(slot, edit);
        let ghost before = out@;
        out.push(edited);
        proof {
            lemma_regions_model_push(before, edited);
            assert(original.take(i + 1) =~= original.take(i as int).push(original[i as int]));
            lemma_regions_model_push(original.take(i as int), original[i as int]);
            let whole = regions_model(original.take(i + 1));
            assert(whole.drop_last() == regions_model(original.take(i as int)));
            assert(whole.last() == region_model(original[i as int]));
        }
        i += 1;
    }
    assert(original.take(original.len() as int) =~= original);
    out
}

/// Recolor every region of every side.
fn recolor_sources(sources: &mut Vec<Source>, edit: &Recolor)
    ensures
        sources_trees(final(sources)@) == map_trees(sources_trees(old(sources)@), recolor_spec(*edit)),
        sources_texts(final(sources)@) == sources_texts(old(sources)@),        final(sources)@.len() == old(sources)@.len(),
{
    let ghost before = sources@;
    let mut k: usize = 0;
    while k < sources.len()
        invariant
            k <= sources@.len(),
            sources@.len() == before.len(),
            forall|j: int| k <= j < before.len() ==> sources@[j] == before[j],
            forall|j: int|
                0 <= j < k ==> regions_model(#[trigger] sources@[j].regions@) == map_headers(
                    regions_model(before[j].regions@),
                    recolor_spec(*edit),
                ),
            forall|j: int| 0 <= j < k ==> (#[trigger] sources@[j]).text@ == before[j].text@,
        decreases sources@.len() - k,
    {
        let Source { text, regions } = take_source(sources, k);
        let regions = recolor_regions(regions, edit);
        sources.set(k, Source { text, regions });
        k += 1;
    }
    assert(sources_trees(sources@) =~= map_trees(sources_trees(before), recolor_spec(*edit)));
    assert(sources_texts(sources@) =~= sources_texts(before));
}

// ── one region's header ──────────────────────────────────────────────────

/// The region with this `id`, on whichever side holds it, given a new label
/// or new tags.
fn edit_one(sources: &mut Vec<Source>, id: u32, how: Replace) -> (result: Result<(), MoveError>)
    requires
        how is Label || how is Tags,
    ensures
        match edit_region(
            sources_trees(old(sources)@),
            id,
            |r: RegionModel| crate::paths::replace_spec(how, seq![r])[0],
        ) {
            Some(trees) => result == Ok::<(), MoveError>(()) && sources_trees(final(sources)@) == trees,
            None => result == Err::<(), MoveError>(MoveError::NoRegion(id)) && final(sources)@ == old(
                sources,
            )@,
        },
        sources_texts(final(sources)@) == sources_texts(old(sources)@),        final(sources)@.len() == old(sources)@.len(),
{
    let ghost trees = sources_trees(sources@);
    let ghost before = sources@;
    let ghost f = |r: RegionModel| crate::paths::replace_spec(how, seq![r])[0];
    match locate_exec(sources, id) {
        Some((k, path)) => {
            proof {
                lemma_locate_found(trees, id);
                assert(trees[k as int] == regions_model(sources@[k as int].regions@));
                lemma_path_where_m_sound(trees[k as int], has_id(id));
            }
            let mut parent = path;
            let index = parent.pop().unwrap();
            let ghost p = path_model(path@);
            proof {
                assert(path_model(parent@) =~= p.drop_last());
                assert(path_model(parent@).skip(0) =~= path_model(parent@));
                assert(index == p.last());
            }
            let Source { text, regions } = take_source(sources, k);
            let mut regions = regions;
            let ghost r = region_at_m(trees[k as int], p)->0;
            proof {
                let s = siblings_at(trees[k as int], p.drop_last())->0;
                assert(s.subrange(index as int, index + 1) =~= seq![r]);
            }
            replace_at(&mut regions, &parent, 0, index, 1, how);
            proof {
                assert(crate::paths::replace_spec(how, seq![r]) =~= seq![f(r)]);
            }
            sources.set(k, Source { text, regions });
            assert(sources_trees(sources@) =~= trees.update(
                k as int,
                splice_at(trees[k as int], p.drop_last(), p.last(), 1, seq![f(r)]),
            ));
            assert(sources_texts(sources@) =~= sources_texts(before));
            Ok(())
        },
        None => Err(MoveError::NoRegion(id)),
    }
}

} // verus!

verus! {

// ── cut ──────────────────────────────────────────────────────────────────

/// How many lines a range touches.
fn line_len_of(range: &Range) -> (len: u64)
    ensures
        len == range.line_len(),
{
    let end: u64 = if range.end.column == 0 {
        range.end.line as u64
    } else {
        range.end.line as u64 + 1
    };
    if end >= range.start.line as u64 {
        end - range.start.line as u64
    } else {
        0
    }
}

/// A copy of a path.
fn copy_path(path: &Vec<usize>) -> (copy: Vec<usize>)
    ensures
        copy@ == path@,
{
    let mut copy: Vec<usize> = Vec::new();
    let mut i: usize = 0;
    while i < path.len()
        invariant
            i <= path@.len(),
            copy@ == path@.take(i as int),
        decreases path@.len() - i,
    {
        copy.push(path[i]);
        assert(path@.take(i + 1) =~= path@.take(i as int).push(path@[i as int]));
        i += 1;
    }
    assert(path@.take(path@.len() as int) =~= path@);
    copy
}

/// `Cut { region: id, at }` on the present sides.
fn cut(sources: &mut Vec<Source>, id: u32, at: u32, fresh: &mut Fresh, Ghost(b): Ghost<Board>) -> (result: Result<
    (),
    MoveError,
>)
    requires
        b.fresh == *old(fresh),
        b.trees == sources_trees(old(sources)@),
        old(fresh).alignment < u32::MAX,
        old(fresh).id + old(sources)@.len() <= u32::MAX,
    ensures
        cut_step(b, id, at) == (result, Board { fresh: *final(fresh), trees: sources_trees(final(sources)@), ..b }),
        sources_texts(final(sources)@) == sources_texts(old(sources)@),
        old(fresh).id <= final(fresh).id <= old(fresh).id + old(sources)@.len(),
        old(fresh).alignment <= final(fresh).alignment <= old(fresh).alignment + 1,        final(sources)@.len() == old(sources)@.len(),
{
    let ghost before = sources@;
    let ghost trees = sources_trees(sources@);
    if id == ROOT {
        return Err(MoveError::FileCannotBeCut);
    }
    let (side, path) = match locate_exec(sources, id) {
        Some(found) => found,
        None => {
            return Err(MoveError::NoRegion(id));
        },
    };
    proof {
        lemma_locate_found(trees, id);
        assert(trees[side as int] == regions_model(sources@[side as int].regions@));
        lemma_path_where_m_sound(trees[side as int], has_id(id));
        assert(path_model(path@).skip(0) =~= path_model(path@));
    }
    let leaf = crate::paths::at(sources[side].regions.as_slice(), &path, 0);
    let alignment = match &leaf.node {
        Node::Leaf { alignment_id, .. } => *alignment_id,
        Node::Fold { .. } => {
            return Err(MoveError::IsAFold(id));
        },
    };
    let len = line_len_of(&leaf.range);
    if !(0 < at && (at as u64) < len) {
        return Err(MoveError::NotInside { at, region: id, lines: len });
    }
    let ghost args_path = path_model(path@);
    let piece_alignment = fresh.alignment();
    let mut state: Option<u32> = None;
    let mut k: usize = 0;
    while k < sources.len()
        invariant
            k <= sources@.len(),
            before == old(sources)@,
            sources@.len() == before.len(),
            side < before.len(),
            trees == sources_trees(before),
            args_path == path_model(path@),
            args_path.len() > 0,
            region_at_m(trees[side as int], args_path) matches Some(leaf) && leaf.node is Leaf
                && leaf.range.line_len() == len && (leaf.node matches NodeModel::Leaf { alignment_id, .. }
                && alignment_id == alignment),
            0 < at < len,
            fresh.id + (sources@.len() - k) <= u32::MAX,
            old(fresh).id <= fresh.id <= old(fresh).id + k,
            fresh.alignment == old(fresh).alignment + 1,
            forall|j: int| k <= j < before.len() ==> #[trigger] sources@[j] == before[j],
            sources_texts(sources@) == sources_texts(before),
            cut_step(b, id, at) == ({
                let (result, f, t) = cut_sides(
                    sources_trees(sources@),
                    k as int,
                    side as int,
                    args_path,
                    alignment,
                    at,
                    len as nat,
                    piece_alignment,
                    *fresh,
                    state,
                    id,
                );
                (result, Board { fresh: f, trees: t, ..b })
            }),
        decreases sources@.len() - k,
    {
        let ghost now = sources_trees(sources@);
        proof {
            assert(now[k as int] == regions_model(sources@[k as int].regions@));
            assert(now[k as int] == trees[k as int]);
        }
        let found = if k == side {
            Some(copy_path(&path))
        } else {
            path_where(sources[k].regions.as_slice(), &Wanted::Alignment(alignment))
        };
        match found {
            None => {},
            Some(p) => {
                proof {
                    lemma_path_where_m_sound(now[k as int], has_alignment(alignment));
                    crate::paths::lemma_region_at_siblings(now[k as int], path_model(p@));
                    assert(path_model(p@).skip(0) =~= path_model(p@));
                }
                let other_len = line_len_of(&crate::paths::at(sources[k].regions.as_slice(), &p, 0).range);
                if other_len != len {
                    return Err(MoveError::DifferentLength(id));
                }
                let piece_id = fresh.id();
                let piece_state = match state {
                    Some(s) => s,
                    None => piece_id,
                };
                state = Some(piece_state);
                let ghost pm = path_model(p@);
                let mut parent = p;
                let index = parent.pop().unwrap();
                proof {
                    assert(path_model(parent@) =~= pm.drop_last());
                    assert(path_model(parent@).skip(0) =~= path_model(parent@));
                    let s = siblings_at(now[k as int], pm.drop_last())->0;
                    assert(s.subrange(index as int, index + 1) =~= seq![region_at_m(now[k as int], pm)->0]);
                }
                let Source { text, regions } = take_source(sources, k);
                let mut regions = regions;
                replace_at(
                    &mut regions,
                    &parent,
                    0,
                    index,
                    1,
                    Replace::Split { at, id: piece_id, alignment_id: piece_alignment, fold_state_id: piece_state },
                );
                sources.set(k, Source { text, regions });
                proof {
                    assert(sources_trees(sources@) =~= now.update(
                        k as int,
                        splice_at(
                            now[k as int],
                            pm.drop_last(),
                            pm.last(),
                            1,
                            split_spec(region_at_m(now[k as int], pm)->0, at, piece_id, piece_alignment, piece_state),
                        ),
                    ));
                    assert(sources_texts(sources@) =~= sources_texts(before));
                }
            },
        }
        k += 1;
    }
    Ok(())
}

} // verus!

verus! {

// ── join ─────────────────────────────────────────────────────────────────

/// Paths of machine indices as integer paths.
pub open spec fn paths_model(paths: Seq<Vec<usize>>) -> Seq<Seq<int>> {
    paths.map_values(|p: Vec<usize>| path_model(p@))
}

/// A path `path_where_m` found: not empty, and leading into a sibling list
/// it indexes.
pub open spec fn valid_path(t: Seq<RegionModel>, p: Seq<int>) -> bool {
    &&& p.len() > 0
    &&& siblings_at(t, p.drop_last()) matches Some(s) && 0 <= p.last() < s.len()
}

/// The paths on one side of those of `ids` it holds, in the order of `ids`.
fn found_paths_exec(regions: &Vec<Region>, ids: &Vec<u32>) -> (paths: Vec<Vec<usize>>)
    ensures
        paths_model(paths@) == found_paths(regions_model(regions@), ids@),
        forall|j: int| 0 <= j < paths@.len() ==> valid_path(regions_model(regions@), #[trigger] paths_model(paths@)[j]),
{
    let ghost t = regions_model(regions@);
    let ghost f = |id: u32| path_where_m(t, has_id(id));
    let mut paths: Vec<Vec<usize>> = Vec::new();
    let mut i: usize = 0;
    while i < ids.len()
        invariant
            i <= ids@.len(),
            t == regions_model(regions@),
            f == (|id: u32| path_where_m(t, has_id(id))),
            paths_model(paths@) == ids@.take(i as int).filter_map(f),
            forall|j: int| 0 <= j < paths@.len() ==> valid_path(t, #[trigger] paths_model(paths@)[j]),
        decreases ids@.len() - i,
    {
        assert(ids@.take(i + 1).drop_last() =~= ids@.take(i as int));
        assert(ids@.take(i + 1).last() == ids@[i as int]);
        proof {
            lemma_path_where_m_sound(t, has_id(ids@[i as int]));
        }
        match path_where(regions.as_slice(), &Wanted::Id(ids[i])) {
            Some(p) => {
                let ghost before = paths@;
                paths.push(p);
                assert(paths_model(paths@) =~= paths_model(before) + seq![path_model(p@)]);
            },
            None => {},
        }
        i += 1;
    }
    assert(ids@.take(ids@.len() as int) =~= ids@);
    paths
}

proof fn lemma_min_max(paths: Seq<Seq<int>>)
    requires
        paths.len() >= 1,
    ensures
        exists|j: int| 0 <= j < paths.len() && #[trigger] paths[j].last() == min_last(paths),
        exists|j: int| 0 <= j < paths.len() && #[trigger] paths[j].last() == max_last(paths),
        forall|j: int| 0 <= j < paths.len() ==> min_last(paths) <= #[trigger] paths[j].last() <= max_last(paths),
    decreases paths.len(),
{
    if paths.len() > 1 {
        let rest = paths.drop_last();
        lemma_min_max(rest);
        let jmin = choose|j: int| 0 <= j < rest.len() && #[trigger] rest[j].last() == min_last(rest);
        let jmax = choose|j: int| 0 <= j < rest.len() && #[trigger] rest[j].last() == max_last(rest);
        assert(rest[jmin] == paths[jmin]);
        assert(rest[jmax] == paths[jmax]);
        assert forall|j: int| 0 <= j < paths.len() implies min_last(paths) <= #[trigger] paths[j].last() <= max_last(
            paths,
        ) by {
            if j < paths.len() - 1 {
                assert(rest[j] == paths[j]);
            }
        }
        if paths.last().last() < min_last(rest) {
            assert(paths[paths.len() - 1].last() == min_last(paths));
        } else {
            assert(paths[jmin].last() == min_last(paths));
        }
        if paths.last().last() > max_last(rest) {
            assert(paths[paths.len() - 1].last() == max_last(paths));
        } else {
            assert(paths[jmax].last() == max_last(paths));
        }
    } else {
        assert(paths[0].last() == min_last(paths));
        assert(paths[0].last() == max_last(paths));
    }
}

/// Whether two nonempty paths lead into the same sibling list.
fn same_parent(a: &Vec<usize>, b: &Vec<usize>) -> (same: bool)
    requires
        a@.len() > 0,
        b@.len() > 0,
    ensures
        same == (a@.len() == b@.len() && path_model(a@).drop_last() == path_model(b@).drop_last()),
{
    if a.len() != b.len() {
        return false;
    }
    let mut i: usize = 0;
    while i < a.len() - 1
        invariant
            a@.len() == b@.len(),
            a@.len() > 0,
            i <= a@.len() - 1,
            forall|j: int| 0 <= j < i ==> a@[j] == b@[j],
        decreases a@.len() - i,
    {
        if a[i] != b[i] {
            assert(path_model(a@).drop_last()[i as int] != path_model(b@).drop_last()[i as int]);
            return false;
        }
        i += 1;
    }
    assert(path_model(a@).drop_last() =~= path_model(b@).drop_last());
    true
}

/// Where a run of found paths starts, if they lead to consecutive siblings
/// under one parent.
fn consecutive_exec(paths: &Vec<Vec<usize>>) -> (first: Option<usize>)
    requires
        paths@.len() >= 2,
        forall|j: int| 0 <= j < paths@.len() ==> (#[trigger] paths@[j])@.len() > 0,
    ensures
        match first {
            Some(f) => consecutive(paths_model(paths@)) && f == min_last(paths_model(paths@)),
            None => !consecutive(paths_model(paths@)),
        },
{
    let ghost pm = paths_model(paths@);
    let mut j: usize = 0;
    while j < paths.len()
        invariant
            j <= paths@.len(),
            pm == paths_model(paths@),
            paths@.len() >= 2,
            forall|i: int| 0 <= i < paths@.len() ==> (#[trigger] paths@[i])@.len() > 0,
            forall|i: int|
                0 <= i < j ==> #[trigger] pm[i].len() == pm[0].len() && pm[i].drop_last() == pm[0].drop_last(),
        decreases paths@.len() - j,
    {
        if !same_parent(&paths[j], &paths[0]) {
            assert(!(pm[j as int].len() == pm[0].len() && pm[j as int].drop_last() == pm[0].drop_last()));
            return None;
        }
        j += 1;
    }
    let first0 = paths[0][paths[0].len() - 1];
    let mut low: usize = first0;
    let mut high: usize = first0;
    let mut j: usize = 1;
    proof {
        assert(pm.take(1).len() == 1);
        assert(pm.take(1)[0] == pm[0]);
        assert(pm[0].last() == first0 as int);
    }
    while j < paths.len()
        invariant
            1 <= j <= paths@.len(),
            pm == paths_model(paths@),
            forall|i: int| 0 <= i < paths@.len() ==> (#[trigger] paths@[i])@.len() > 0,
            low == min_last(pm.take(j as int)),
            high == max_last(pm.take(j as int)),
            low <= high,
        decreases paths@.len() - j,
    {
        let last = paths[j][paths[j].len() - 1];
        proof {
            assert(pm.take(j + 1).drop_last() =~= pm.take(j as int));
            assert(pm.take(j + 1).last() == pm[j as int]);
            assert(pm[j as int].last() == last as int);
        }
        if last < low {
            low = last;
        }
        if last > high {
            high = last;
        }
        j += 1;
    }
    assert(pm.take(paths@.len() as int) =~= pm);
    if high - low == paths.len() - 1 {
        Some(low)
    } else {
        None
    }
}

/// `JoinFolds { regions: ids }` on the present sides.
fn join(sources: &mut Vec<Source>, ids: &Vec<u32>, fresh: &mut Fresh, Ghost(b): Ghost<Board>) -> (result: Result<
    (),
    MoveError,
>)
    requires
        b.fresh == *old(fresh),
        b.trees == sources_trees(old(sources)@),
        old(fresh).id + old(sources)@.len() <= u32::MAX,
    ensures
        join_step(b, ids@) == (result, Board { fresh: *final(fresh), trees: sources_trees(final(sources)@), ..b }),
        sources_texts(final(sources)@) == sources_texts(old(sources)@),
        old(fresh).id <= final(fresh).id <= old(fresh).id + old(sources)@.len(),
        final(fresh).alignment == old(fresh).alignment,        final(sources)@.len() == old(sources)@.len(),
{
    let ghost before = sources@;
    if let Some(e) = list_check(ids, ListMove::Join) {
        return Err(e);
    }
    if let Some(id) = first_missing_exec(sources, ids) {
        return Err(MoveError::NoRegion(id));
    }
    let mut state: Option<u32> = None;
    let mut k: usize = 0;
    while k < sources.len()
        invariant
            k <= sources@.len(),
            before == old(sources)@,
            sources@.len() == before.len(),
            fresh.id + (sources@.len() - k) <= u32::MAX,
            old(fresh).id <= fresh.id <= old(fresh).id + k,
            fresh.alignment == old(fresh).alignment,
            forall|j: int| k <= j < before.len() ==> #[trigger] sources@[j] == before[j],
            sources_texts(sources@) == sources_texts(before),
            join_step(b, ids@) == ({
                let (result, f, t) = join_sides(sources_trees(sources@), k as int, ids@, *fresh, state);
                (result, Board { fresh: f, trees: t, ..b })
            }),
        decreases sources@.len() - k,
    {
        let ghost now = sources_trees(sources@);
        assert(now[k as int] == regions_model(sources@[k as int].regions@));
        let paths = found_paths_exec(&sources[k].regions, ids);
        let ghost pm = paths_model(paths@);
        if paths.len() == 0 {
        } else if paths.len() < 2 {
            return Err(MoveError::HoldsOnlyOne);
        } else {
            proof {
                assert forall|j: int| 0 <= j < paths@.len() implies (#[trigger] paths@[j])@.len() > 0 by {
                    assert(valid_path(now[k as int], pm[j]));
                }
            }
            let first = match consecutive_exec(&paths) {
                Some(first) => first,
                None => {
                    return Err(MoveError::NotConsecutive);
                },
            };
            let count = paths.len();
            let mut parent = copy_path(&paths[0]);
            parent.pop();
            proof {
                assert(path_model(parent@) =~= pm[0].drop_last());
                assert(path_model(parent@).skip(0) =~= path_model(parent@));
                lemma_min_max(pm);
                assert(valid_path(now[k as int], pm[0]));
                let jmax = choose|j: int| 0 <= j < pm.len() && #[trigger] pm[j].last() == max_last(pm);
                assert(valid_path(now[k as int], pm[jmax]));
                assert(pm[jmax].drop_last() == pm[0].drop_last());
            }
            let id = fresh.id();
            let fold_state = match state {
                Some(s) => s,
                None => id,
            };
            state = Some(fold_state);
            let Source { text, regions } = take_source(sources, k);
            let mut regions = regions;
            replace_at(&mut regions, &parent, 0, first, count, Replace::Wrap { id, fold_state_id: fold_state });
            sources.set(k, Source { text, regions });
            proof {
                let s = siblings_at(now[k as int], pm[0].drop_last())->0;
                assert(sources_trees(sources@) =~= now.update(
                    k as int,
                    splice_at(
                        now[k as int],
                        pm[0].drop_last(),
                        first as int,
                        count as int,
                        seq![wrap_spec(s.subrange(first as int, first + count), id, fold_state)],
                    ),
                ));
                assert(sources_texts(sources@) =~= sources_texts(before));
            }
        }
        k += 1;
    }
    Ok(())
}

} // verus!

verus! {

// ── link ─────────────────────────────────────────────────────────────────

proof fn lemma_none_missing(trees: Seq<Seq<RegionModel>>, ids: Seq<u32>)
    requires
        first_missing(trees, ids) is None,
    ensures
        forall|k: int| 0 <= k < ids.len() ==> #[trigger] lookup(trees, ids[k]) is Some,
    decreases ids.len(),
{
    if ids.len() > 0 {
        lemma_none_missing(trees, ids.drop_first());
        assert forall|k: int| 0 <= k < ids.len() implies #[trigger] lookup(trees, ids[k]) is Some by {
            if k > 0 {
                assert(ids.drop_first()[k - 1] == ids[k]);
            }
        }
    }
}

/// `LinkFoldState { regions: ids }` on the present sides.
fn link(sources: &mut Vec<Source>, ids: &Vec<u32>, Ghost(b): Ghost<Board>) -> (result: Result<(), MoveError>)
    requires
        b.trees == sources_trees(old(sources)@),
    ensures
        link_step(b, ids@) == (result, Board { trees: sources_trees(final(sources)@), ..b }),
        sources_texts(final(sources)@) == sources_texts(old(sources)@),        final(sources)@.len() == old(sources)@.len(),
{
    let ghost trees = sources_trees(sources@);
    if let Some(e) = list_check(ids, ListMove::Link) {
        return Err(e);
    }
    if let Some(id) = first_missing_exec(sources, ids) {
        return Err(MoveError::NoRegion(id));
    }
    proof {
        lemma_none_missing(trees, ids@);
        assert(lookup(trees, ids@[0]) is Some);
    }
    let (state, collapsed) = match lookup_exec(sources, ids[0]) {
        Some(first) => (first.fold_state_id, first.visibility.collapsed),
        None => {
            return Err(MoveError::NoRegion(ids[0]));
        },
    };
    let mut states = std::collections::BTreeSet::new();
    let mut i: usize = 0;
    while i < ids.len()
        invariant
            i <= ids@.len(),
            trees == sources_trees(sources@),
            forall|k: int| 0 <= k < ids@.len() ==> #[trigger] lookup(trees, ids@[k]) is Some,
            states@ == Set::new(
                |s: u32|
                    exists|k: int|
                        0 <= k < i && (#[trigger] lookup(trees, ids@[k]) matches Some(r) && r.fold_state_id == s),
            ),
        decreases ids@.len() - i,
    {
        assert(lookup(trees, ids@[i as int]) is Some);
        let found = lookup_exec(sources, ids[i]);
        match found {
            Some(region) => {
                let ghost old_states = states@;
                id_set_insert(&mut states, region.fold_state_id);
                assert(states@ =~= Set::new(
                    |s: u32|
                        exists|k: int|
                            0 <= k < i + 1 && (#[trigger] lookup(trees, ids@[k]) matches Some(r) && r.fold_state_id
                                == s),
                )) by {
                    assert forall|s: u32| states@.contains(s) implies exists|k: int|
                        0 <= k < i + 1 && (#[trigger] lookup(trees, ids@[k]) matches Some(r) && r.fold_state_id
                            == s) by {
                        if s == region.fold_state_id {
                            assert(lookup(trees, ids@[i as int]) matches Some(r) && r.fold_state_id == s);
                        }
                    }
                }
            },
            None => {},
        }
        i += 1;
    }
    assert(states@ =~= states_of(trees, ids@));
    let edit = Recolor::Link { states, state, collapsed };
    recolor_sources(sources, &edit);
    Ok(())
}

// ── the applier ──────────────────────────────────────────────────────────

/// An empty pairing, to take another's place for a moment.
fn empty_sides() -> (sides: Pairing<Source>)
    ensures
        sides matches Pairing::LeftOnly { lhs } && lhs.text@.len() == 0 && lhs.regions@.len() == 0,
{
    Pairing::LeftOnly { lhs: empty_source() }
}

/// Take the sides out, leaving an empty one behind.
fn take_sides(sides: &mut Pairing<Source>) -> (taken: Pairing<Source>)
    ensures
        taken == *old(sides),
{
    let mut taken = empty_sides();
    std::mem::swap(sides, &mut taken);
    taken
}

/// Room left for the fresh ids a move may take: a cut takes an `id` on each
/// side and one `alignment_id`, a join an `id` on each side.
pub open spec fn room_for(fresh: Fresh, next: Move, sides: int) -> bool {
    match next {
        Move::Cut { .. } => fresh.alignment < u32::MAX && fresh.id + sides <= u32::MAX,
        Move::JoinFolds { .. } => fresh.id + sides <= u32::MAX,
        _ => true,
    }
}

/// Carries out one plugin's moves, handing out fresh ids as they need them.
pub struct Applier {
    fresh: Fresh,
}

impl Applier {
    /// The ids the next moves hand out.
    pub closed spec fn next_ids(&self) -> Fresh {
        self.fresh
    }

    /// An applier for moves on `sides` as they are now.
    pub fn new(sides: &Pairing<Source>) -> (applier: Applier)
        requires
            fresh_id_of(sources_trees(sides.present())) <= u32::MAX,
            fresh_alignment_of(sources_trees(sides.present())) <= u32::MAX,
        ensures
            applier.next_ids().id == fresh_id_of(sources_trees(sides.present())),
            applier.next_ids().alignment == fresh_alignment_of(sources_trees(sides.present())),
    {
        Applier { fresh: Fresh::of(sides) }
    }

    /// Carry out one move on `sides` and `file`, the file's own visibility.
    pub fn apply(&mut self, next: Move, sides: &mut Pairing<Source>, file: &mut Visibility) -> (result: Result<
        (),
        MoveError,
    >)
        requires
            room_for(old(self).next_ids(), next, old(sides).present().len() as int),
        ensures
            step(board(old(self).next_ids(), *old(sides), *old(file)), next) == (result, board(
                final(self).next_ids(),
                *final(sides),
                *final(file),
            )),
            texts(*final(sides)) == texts(*old(sides)),
            old(self).next_ids().id <= final(self).next_ids().id <= old(self).next_ids().id + old(
                sides,
            ).present().len(),
            old(self).next_ids().alignment <= final(self).next_ids().alignment <= old(
                self,
            ).next_ids().alignment + 1,
    {
        let ghost b = board(self.fresh, *sides, *file);
        let ghost original = *sides;
        let taken = take_sides(sides);
        let (mut sources, shape) = unpack(taken);
        let mut fresh = self.fresh;
        let result = match next {
            Move::Cut { region, at } => {
                let r = cut(&mut sources, region, at, &mut fresh, Ghost(b));
                assert(step(b, next).0 == r);
                r
            },
            Move::JoinFolds { regions } => {
                let r = join(&mut sources, &regions, &mut fresh, Ghost(b));
                assert(step(b, next).0 == r);
                r
            },
            Move::LinkFoldState { regions } => {
                let r = link(&mut sources, &regions, Ghost(b));
                assert(step(b, next).0 == r);
                r
            },
            Move::SetCollapsed { region, collapsed } => {
                if region == ROOT {
                    file.collapsed = collapsed;
                    Ok(())
                } else {
                    match lookup_exec(&sources, region) {
                        Some(found) => {
                            let edit = Recolor::Collapse { state: found.fold_state_id, collapsed };
                            recolor_sources(&mut sources, &edit);
                            Ok(())
                        },
                        None => Err(MoveError::NoRegion(region)),
                    }
                }
            },
            Move::SetLabel { region, label } => {
                let ghost given = label;
                let label = match label {
                    Some(label) => label,
                    None => String::new(),
                };
                assert(label@ == label_of(given));
                if region == ROOT {
                    file.label = label;
                    Ok(())
                } else {
                    let ghost how = Replace::Label(label);
                    proof {
                        assert((|r: RegionModel| crate::paths::replace_spec(how, seq![r])[0]) =~= (|r: RegionModel|
                            RegionModel { label: label_of(given), ..r }));
                    }
                    let r = edit_one(&mut sources, region, Replace::Label(label));
                    assert(step(b, next).0 == r);
                    r
                }
            },
            Move::SetTags { region, tags } => {
                if region == ROOT {
                    Err(MoveError::FileTags)
                } else {
                    let ghost how = Replace::Tags(tags);
                    proof {
                        assert((|r: RegionModel| crate::paths::replace_spec(how, seq![r])[0]) =~= (|r: RegionModel|
                            RegionModel { tags: tags_model(tags@), ..r }));
                    }
                    let r = edit_one(&mut sources, region, Replace::Tags(tags));
                    assert(step(b, next).0 == r);
                    r
                }
            },
        };
        self.fresh = fresh;
        let ghost kept = sources@;
        let rebuilt = repack(sources, shape);
        proof {
            lemma_texts_kept(rebuilt, original);
            assert(board(fresh, rebuilt, *file) == Board { fresh, trees: sources_trees(kept), collapsed: file.collapsed, label: file.label@ });
            assert(step(b, next).0 == result);
            assert(step(b, next).1.trees == sources_trees(kept));
            assert(step(b, next).1.fresh == fresh);
            assert(step(b, next).1.collapsed == file.collapsed);
            assert(step(b, next).1.label == file.label@);
        }
        *sides = rebuilt;
        result
    }
}

proof fn lemma_fresh_nonneg(trees: Seq<Seq<RegionModel>>)
    ensures
        fresh_id_of(trees) >= 1,
        fresh_alignment_of(trees) >= 0,
    decreases trees.len(),
{
    if trees.len() > 0 {
        lemma_fresh_nonneg(trees.drop_last());
    }
}

/// Carry out `moves` in order, stopping at the first that cannot be
/// carried out.
pub fn apply(moves: Vec<Move>, sides: &mut Pairing<Source>, file: &mut Visibility) -> (result: Result<
    (),
    MoveError,
>)
    requires
        fresh_id_of(sources_trees(old(sides).present())) + 2 * moves@.len() <= u32::MAX,
        fresh_alignment_of(sources_trees(old(sides).present())) + moves@.len() <= u32::MAX,
    ensures
        ({
            let start = Fresh {
                id: fresh_id_of(sources_trees(old(sides).present())) as u32,
                alignment: fresh_alignment_of(sources_trees(old(sides).present())) as u32,
            };
            let (outcome, end) = steps(board(start, *old(sides), *old(file)), moves@);
            &&& outcome == result
            &&& end.trees == sources_trees(final(sides).present())
            &&& end.collapsed == final(file).collapsed
            &&& end.label == final(file).label@
        }),
        texts(*final(sides)) == texts(*old(sides)),
{
    let ghost start = Fresh {
        id: fresh_id_of(sources_trees(sides.present())) as u32,
        alignment: fresh_alignment_of(sources_trees(sides.present())) as u32,
    };
    let ghost whole = steps(board(start, *sides, *file), moves@);
    let ghost original = *sides;
    proof {
        lemma_fresh_nonneg(sources_trees(sides.present()));
    }
    let mut applier = Applier::new(sides);
    let mut queue = moves;
    let ghost all = queue@;
    let mut i: usize = 0;
    assert(all.skip(0) =~= all);
    while i < queue.len()
        invariant
            i <= queue@.len(),
            queue@.len() == all.len(),
            all == moves@,
            original == *old(sides),
            start == (Fresh {
                id: fresh_id_of(sources_trees(old(sides).present())) as u32,
                alignment: fresh_alignment_of(sources_trees(old(sides).present())) as u32,
            }),
            whole == steps(board(start, *old(sides), *old(file)), all),
            forall|j: int| i <= j < all.len() ==> queue@[j] == all[j],
            sides.present().len() == original.present().len(),
            original.present().len() <= 2,
            texts(*sides) == texts(original),
            applier.next_ids().id + 2 * (all.len() - i) <= u32::MAX,
            applier.next_ids().alignment + (all.len() - i) <= u32::MAX,
            whole == steps(board(applier.next_ids(), *sides, *file), all.skip(i as int)),
        decreases all.len() - i,
    {
        let mut next = Move::SetCollapsed { region: ROOT, collapsed: false };
        queue.set_and_swap(i, &mut next);
        proof {
            assert(all.skip(i as int)[0] == next);
            assert(all.skip(i as int).drop_first() =~= all.skip(i + 1));
            assert(sides.present().len() == original.present().len());
        }
        let ghost prev = board(applier.next_ids(), *sides, *file);
        let outcome = applier.apply(next, sides, file);
        proof {
            assert(step(prev, all.skip(i as int)[0]) == (outcome, board(applier.next_ids(), *sides, *file)));
        }
        if outcome.is_err() {
            assert(whole == (outcome, board(applier.next_ids(), *sides, *file)));
            return outcome;
        }
        i += 1;
    }
    assert(all.skip(all.len() as int) =~= Seq::<Move>::empty());
    Ok(())
}

/// Every side's regions, lhs first.
pub fn trees_ref(sides: &Pairing<Source>) -> (trees: Vec<&[Region]>)
    ensures
        trees@.len() == sides.present().len(),
        forall|i: int| 0 <= i < trees@.len() ==> (#[trigger] trees@[i])@ == sides.present()[i].regions@,
{
    let mut trees = Vec::new();
    match sides {
        Pairing::Both { lhs, rhs } => {
            trees.push(lhs.regions.as_slice());
            trees.push(rhs.regions.as_slice());
        },
        Pairing::LeftOnly { lhs } => trees.push(lhs.regions.as_slice()),
        Pairing::RightOnly { rhs } => trees.push(rhs.regions.as_slice()),
    }
    trees
}

} // verus!

verus! {

/// The region with this `id`, on whichever side holds it: the first in
/// preorder, lhs first.
pub fn region_of<'a>(sides: &'a Pairing<Source>, id: u32) -> (found: Result<&'a Region, MoveError>)
    ensures
        match lookup(sources_trees(sides.present()), id) {
            Some(r) => found matches Ok(f) && region_model(*f) == r,
            None => found == Err::<&Region, MoveError>(MoveError::NoRegion(id)),
        },
{
    let ghost trees = sources_trees(sides.present());
    match sides {
        Pairing::Both { lhs, rhs } => {
            proof {
                assert(trees[0] == regions_model(lhs.regions@));
                assert(trees[1] == regions_model(rhs.regions@));
                assert(trees.drop_first()[0] == trees[1]);
                assert(trees.drop_first().drop_first().len() == 0);
                lemma_path_where_m_sound(trees[0], has_id(id));
                lemma_path_where_m_sound(trees[1], has_id(id));
                lemma_locate_at(trees, id, 0);
                if path_where_m(trees[0], has_id(id)) is None {
                    lemma_locate_at(trees, id, 1);
                    if path_where_m(trees[1], has_id(id)) is None {
                        lemma_locate_at(trees, id, 2);
                    }
                }
            }
            match path_where(lhs.regions.as_slice(), &Wanted::Id(id)) {
                Some(path) => {
                    assert(path_model(path@).skip(0) =~= path_model(path@));
                    Ok(crate::paths::at(lhs.regions.as_slice(), &path, 0))
                },
                None => match path_where(rhs.regions.as_slice(), &Wanted::Id(id)) {
                    Some(path) => {
                        assert(path_model(path@).skip(0) =~= path_model(path@));
                        Ok(crate::paths::at(rhs.regions.as_slice(), &path, 0))
                    },
                    None => Err(MoveError::NoRegion(id)),
                },
            }
        },
        Pairing::LeftOnly { lhs } => {
            proof {
                assert(trees[0] == regions_model(lhs.regions@));
                assert(trees.drop_first().len() == 0);
                lemma_path_where_m_sound(trees[0], has_id(id));
                lemma_locate_at(trees, id, 0);
                if path_where_m(trees[0], has_id(id)) is None {
                    lemma_locate_at(trees, id, 1);
                }
            }
            match path_where(lhs.regions.as_slice(), &Wanted::Id(id)) {
                Some(path) => {
                    assert(path_model(path@).skip(0) =~= path_model(path@));
                    Ok(crate::paths::at(lhs.regions.as_slice(), &path, 0))
                },
                None => Err(MoveError::NoRegion(id)),
            }
        },
        Pairing::RightOnly { rhs } => {
            proof {
                assert(trees[0] == regions_model(rhs.regions@));
                assert(trees.drop_first().len() == 0);
                lemma_path_where_m_sound(trees[0], has_id(id));
                lemma_locate_at(trees, id, 0);
                if path_where_m(trees[0], has_id(id)) is None {
                    lemma_locate_at(trees, id, 1);
                }
            }
            match path_where(rhs.regions.as_slice(), &Wanted::Id(id)) {
                Some(path) => {
                    assert(path_model(path@).skip(0) =~= path_model(path@));
                    Ok(crate::paths::at(rhs.regions.as_slice(), &path, 0))
                },
                None => Err(MoveError::NoRegion(id)),
            }
        },
    }
}

impl Applier {
    /// Whether the fresh ids left can serve `next` on `sides`.
    pub fn has_room(&self, next: &Move, sides: &Pairing<Source>) -> (room: bool)
        ensures
            room == room_for(self.next_ids(), *next, sides.present().len() as int),
    {
        let count: u32 = match sides {
            Pairing::Both { .. } => 2,
            _ => 1,
        };
        match next {
            Move::Cut { .. } => self.fresh.alignment < u32::MAX && self.fresh.id <= u32::MAX - count,
            Move::JoinFolds { .. } => self.fresh.id <= u32::MAX - count,
            _ => true,
        }
    }
}

} // verus!
