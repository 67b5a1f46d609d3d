//! What the moves promise of the trees they leave, proved over the values
//! the moves' own contracts speak of.
use crate::apply::{
    alignment_bound, board, collapse_in, fresh_alignment_of, fresh_id_of, id_bound, link_into, lookup, map_header_one,
    map_headers, map_trees, states_of, step, steps, Board, Fresh,
};
use crate::draft::{alignment_of, Draft};
use crate::paths::{region_at_m, spans_in, split_spec};
use crate::tree::{NodeModel, Pairing, RegionModel, Source};
use crate::types::{Move, Visibility, ROOT};
use vstd::prelude::*;

verus! {

proof fn lemma_bound_at(t: Seq<RegionModel>, path: Seq<int>)
    requires
        region_at_m(t, path) is Some,
    ensures
        region_at_m(t, path) matches Some(r) && r.id < id_bound(t) && (alignment_of(r) matches Some(a) ==> a
            < alignment_bound(t)),
    decreases path.len(),
{
    let i = path[0];
    crate::apply::lemma_bounds_prefix(t, i + 1);
    if path.len() > 1 {
        match t[i].node {
            NodeModel::Fold { children } => {
                lemma_bound_at(children, path.drop_first());
            },
            NodeModel::Leaf { .. } => {},
        }
    }
}

proof fn lemma_fresh_above(trees: Seq<Seq<RegionModel>>, k: int)
    requires
        0 <= k < trees.len(),
    ensures
        id_bound(trees[k]) <= fresh_id_of(trees),
        alignment_bound(trees[k]) <= fresh_alignment_of(trees),
    decreases trees.len(),
{
    if k < trees.len() - 1 {
        assert(trees.drop_last()[k] == trees[k]);
        lemma_fresh_above(trees.drop_last(), k);
    }
}

/// Fresh ids are unused: every region on every side has an `id` below the
/// first fresh `id`, and every leaf an `alignment_id` below the first fresh
/// `alignment_id`, so the regions a cut or a join creates never share an
/// id with one already there.
pub proof fn fresh_ids_are_unused(trees: Seq<Seq<RegionModel>>, k: int, path: Seq<int>)
    requires
        0 <= k < trees.len(),
        region_at_m(trees[k], path) is Some,
    ensures
        region_at_m(trees[k], path) matches Some(r) && r.id < fresh_id_of(trees) && (alignment_of(r) matches Some(
            a,
        ) ==> a < fresh_alignment_of(trees)),
{
    lemma_bound_at(trees[k], path);
    lemma_fresh_above(trees, k);
}

/// A header edit over a whole tree changes each region's header alone: the
/// region a path leads to afterwards is the one it led to before, edited.
pub proof fn lemma_map_headers_at(t: Seq<RegionModel>, f: spec_fn(RegionModel) -> RegionModel, path: Seq<int>)
    ensures
        region_at_m(map_headers(t, f), path) == match region_at_m(t, path) {
            Some(r) => Some(map_header_one(r, f)),
            None => None,
        },
    decreases path.len(),
{
    crate::apply::lemma_map_headers_index(t, f);
    if path.len() > 1 && 0 <= path[0] < t.len() {
        match t[path[0]].node {
            NodeModel::Fold { children } => {
                lemma_map_headers_at(children, f, path.drop_first());
            },
            NodeModel::Leaf { .. } => {},
        }
    }
}

/// Regions open and close together: once `SetCollapsed` on a region
/// succeeds, every region on either side in that region's fold state starts
/// as the move says, and every other region keeps whether it starts
/// collapsed; nothing else of any region changes.
pub proof fn collapse_reaches_the_fold_state(b: Board, region: u32, collapsed: bool, k: int, path: Seq<int>)
    requires
        region != ROOT,
        0 <= k < b.trees.len(),
        step(b, Move::SetCollapsed { region, collapsed }).0 is Ok,
    ensures
        lookup(b.trees, region) matches Some(target) && {
            let after = step(b, Move::SetCollapsed { region, collapsed }).1.trees;
            match region_at_m(b.trees[k], path) {
                Some(r) => region_at_m(after[k], path) == Some(
                    if r.fold_state_id == target.fold_state_id {
                        RegionModel { collapsed, node: map_header_one(r, collapse_in(target.fold_state_id, collapsed)).node, ..r }
                    } else {
                        RegionModel { node: map_header_one(r, collapse_in(target.fold_state_id, collapsed)).node, ..r }
                    },
                ),
                None => region_at_m(after[k], path) is None,
            }
        },
{
    let target = lookup(b.trees, region)->0;
    let f = collapse_in(target.fold_state_id, collapsed);
    let after = map_trees(b.trees, f);
    assert(after[k] == map_headers(b.trees[k], f));
    lemma_map_headers_at(b.trees[k], f, path);
}

/// A link gives every region in any of the linked regions' fold states, on
/// either side, the first region's fold state and whether it starts
/// collapsed; every other region keeps both.
pub proof fn link_merges_the_fold_states(b: Board, ids: Vec<u32>, k: int, path: Seq<int>)
    requires
        0 <= k < b.trees.len(),
        step(b, Move::LinkFoldState { regions: ids }).0 is Ok,
    ensures
        lookup(b.trees, ids@[0]) matches Some(first) && {
            let after = step(b, Move::LinkFoldState { regions: ids }).1.trees;
            let states = states_of(b.trees, ids@);
            match region_at_m(b.trees[k], path) {
                Some(r) => region_at_m(after[k], path) matches Some(now) && (if states.contains(r.fold_state_id) {
                    now.fold_state_id == first.fold_state_id && now.collapsed == first.collapsed
                } else {
                    now.fold_state_id == r.fold_state_id && now.collapsed == r.collapsed
                }) && now.id == r.id && now.range == r.range && now.label == r.label && now.tags == r.tags,
                None => region_at_m(after[k], path) is None,
            }
        },
{
    let first = lookup(b.trees, ids@[0])->0;
    let f = link_into(states_of(b.trees, ids@), first.fold_state_id, first.collapsed);
    let after = map_trees(b.trees, f);
    assert(after[k] == map_headers(b.trees[k], f));
    lemma_map_headers_at(b.trees[k], f, path);
}

/// A cut's two pieces tile the leaf: the first starts where the leaf does,
/// the second ends where it does, they meet at the cut line, and their
/// lines add up to the leaf's; each changed span on the leaf's lines stays
/// on exactly one piece, and a span off them on neither.
pub proof fn cut_pieces_tile_the_leaf(leaf: RegionModel, at: u32, id: u32, alignment_id: u32, fold_state_id: u32)
    requires
        leaf.node is Leaf,
        0 < at < leaf.range.line_len(),
    ensures
        ({
            let pieces = split_spec(leaf, at, id, alignment_id, fold_state_id);
            &&& pieces.len() == 2
            &&& pieces[0].range.start == leaf.range.start
            &&& pieces[0].range.end == pieces[1].range.start
            &&& pieces[1].range.end == leaf.range.end
            &&& pieces[0].range.line_len() == at
            &&& pieces[0].range.line_len() + pieces[1].range.line_len() == leaf.range.line_len()
            &&& forall|line: int|
                #![trigger leaf.range.touches(line)]
                leaf.range.touches(line) == (pieces[0].range.touches(line) || pieces[1].range.touches(line))
            &&& forall|line: int|
                #![trigger leaf.range.touches(line)]
                !(pieces[0].range.touches(line) && pieces[1].range.touches(line))
        }),
{
}

/// A draft predicts its moves exactly: carried out in order on the sides
/// the draft was made from, with the file open and unlabelled, every move
/// succeeds and the trees end as the draft holds them.
pub proof fn draft_predicts_apply(draft: Draft, sides: Pairing<Source>, file: Visibility)
    requires
        draft.wf(),
        !file.collapsed,
        file.label@.len() == 0,
        draft.start() == (Board {
            fresh: Fresh {
                id: fresh_id_of(crate::apply::sources_trees(sides.present())) as u32,
                alignment: fresh_alignment_of(crate::apply::sources_trees(sides.present())) as u32,
            },
            trees: crate::apply::sources_trees(sides.present()),
            collapsed: false,
            label: Seq::empty(),
        }),
    ensures
        steps(
            board(
                Fresh {
                    id: fresh_id_of(crate::apply::sources_trees(sides.present())) as u32,
                    alignment: fresh_alignment_of(crate::apply::sources_trees(sides.present())) as u32,
                },
                sides,
                file,
            ),
            draft.moves(),
        ) == (Ok::<(), crate::apply::MoveError>(()), draft.now()),
{
    assert(file.label@ =~= Seq::<char>::empty());
    draft.lemma_wf();
}

} // verus!
