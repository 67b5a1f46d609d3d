//! What the bundled plugins share: the board a plugin's draft starts
//! from, the room its fresh ids need, and the label of a removed stretch.
use crate::apply::{fresh_alignment_of, fresh_id_of, locate, sources_trees, Board, Fresh};
use crate::draft::all_regions;
use crate::places::{lemma_found_in_preorder, lemma_located};
use crate::text::{owned, push_decimal, push_str};
use crate::tree::{fold_states, leaf_alignments, preorder, regions_model, OtherSide, Pairing, Source};
use crate::types::ROOT;
use vstd::prelude::*;

verus! {

/// The board a plugin's draft starts from: the file's trees, the first
/// fresh ids, the file open and unlabelled.
pub open spec fn start_of(sides: Pairing<Source>) -> Board {
    Board {
        fresh: Fresh {
            id: fresh_id_of(sources_trees(sides.present())) as u32,
            alignment: fresh_alignment_of(sources_trees(sides.present())) as u32,
        },
        trees: sources_trees(sides.present()),
        collapsed: false,
        label: Seq::empty(),
    }
}

/// The ids the file's regions use leave room for the fresh ones a plugin's
/// moves take.
pub open spec fn ids_fit(sides: Pairing<Source>) -> bool {
    fresh_id_of(sources_trees(sides.present())) <= u32::MAX && fresh_alignment_of(sources_trees(sides.present()))
        <= u32::MAX
}

/// The label of a collapsed stretch: `"<count> lines removed"`.
pub open spec fn removed_label(count: nat) -> Seq<char> {
    crate::text::decimal(count) + " lines removed"@
}

pub(crate) fn removed_label_exec(count: u64) -> (label: String)
    ensures
        label@ == removed_label(count as nat),
{
    let mut label = owned("");
    proof {
        reveal_strlit("");
    }
    push_decimal(&mut label, count);
    push_str(&mut label, " lines removed");
    label
}

/// How many lines a range touches.
pub(crate) fn lines_of_range(range: &crate::types::Range) -> (len: u64)
    ensures
        len == range.line_len(),
{
    let end: u64 = if range.end.column == 0 {
        range.end.line as u64
    } else {
        range.end.line as u64 + 1
    };
    if end >= range.start.line as u64 {
        end - range.start.line as u64
    } else {
        0
    }
}

/// No region of the sides has the id that names the file.
pub open spec fn no_root_ids(sides: Pairing<Source>) -> bool {
    forall|k: int| 0 <= k < all_regions(sides).len() ==> (#[trigger] all_regions(sides)[k]).id != ROOT
}

/// What the other side holds, seen from the before side: the leaves and
/// fold states of the after side, or nothing when there is none.
pub open spec fn other_side_of(sides: Pairing<Source>) -> OtherSide {
    choose|other: OtherSide|
        match sides {
            Pairing::Both { rhs, .. } => other.leaf_ids() == leaf_alignments(preorder(rhs.regions@))
                && other.fold_state_ids() == fold_states(preorder(rhs.regions@)),
            _ => other.leaf_ids() == Set::<u32>::empty() && other.fold_state_ids() == Set::<u32>::empty(),
        }
}

/// A region of the before side is found in the trees a draft starts
/// from, and, when no region names the file, does not.
pub proof fn lemma_before_located(sides: Pairing<Source>, lhs: Source, k: int)
    requires
        sides.left() == Some(lhs),
        0 <= k < preorder(lhs.regions@).len(),
    ensures
        locate(start_of(sides).trees, preorder(lhs.regions@)[k].id) is Some,
        no_root_ids(sides) ==> preorder(lhs.regions@)[k].id != ROOT,
{
    let trees = start_of(sides).trees;
    assert(trees[0] == regions_model(lhs.regions@));
    lemma_found_in_preorder(lhs.regions@, k);
    lemma_located(trees, 0, preorder(lhs.regions@)[k].id);
    assert(all_regions(sides)[k] == preorder(lhs.regions@)[k]);
}

} // verus!
