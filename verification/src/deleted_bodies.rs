//! Collapsing deleted function bodies.
use crate::apply::{steps, MoveError};
use crate::apply::{lookup, ListMove, list_error, first_missing};
use crate::draft::{moves_model, Draft, MoveModel};
use crate::places::{lemma_locate_leads, lemma_same_places_locate, lemma_same_places_refl, lemma_same_places_trans, same_places};
use crate::types::ROOT;
use crate::plugins::{
    ids_fit, lemma_before_located, lines_of_range, no_root_ids, other_side_of, removed_label, removed_label_exec,
    start_of,
};
use crate::tree::{
    any_region, before_and_after_ids, docstring_of, docstring_spec, has_tag, is_fold,
    lemma_path_where_none, one_sided, paired_leaf, preorder, preorder_one, walk, with_id,
    OtherSide, Pairing, Region, Source,
};
use crate::types::{FileEntry, Move};
use vstd::prelude::*;

verus! {

broadcast use vstd::std_specs::vec::group_vec_axioms, vstd::seq::group_seq_axioms;

/// The plugin's name, and the tag its queries set on function bodies.
pub const DELETED_BODIES: &'static str = "deleted-bodies";

pub const DELETED_FUNCTION: &'static str = "deleted-bodies:function";

pub struct Options {
    pub min_lines: usize,
}

/// Deleted function bodies of at least `min_lines` start collapsed with a
/// line count, linked to their docstrings, which collapse with them. A body
/// counts as deleted only when nothing under it is paired: a fold whose lines
/// still align with the after side is a rewrite, not a removal.
pub struct DeletedBodies {
    pub options: Options,
}

/// A deleted body: a function body fold of at least `min_lines` lines with
/// no leaf under it paired with the other side.
pub open spec fn deleted_body(r: Region, other: OtherSide, min_lines: nat) -> bool {
    &&& r.is_fold_spec()
    &&& r.has_tag_spec(DELETED_FUNCTION@)
    &&& !any_region(preorder_one(r), paired_leaf(other))
    &&& r.range.line_len() >= min_lines
}

/// The deleted bodies among `visited`, in order: each one's id, line count
/// and docstring on the side whose regions are `regions`.
pub open spec fn deleted_bodies_spec(visited: Seq<Region>, regions: Seq<Region>, other: OtherSide, min_lines: nat) -> Seq<
    (u32, u64, Option<u32>),
>
    decreases visited.len(),
{
    if visited.len() == 0 {
        Seq::empty()
    } else {
        let rest = deleted_bodies_spec(visited.drop_last(), regions, other, min_lines);
        let r = visited.last();
        if deleted_body(r, other, min_lines) {
            rest.push((r.id, r.range.line_len() as u64, docstring_spec(regions, r, DELETED_BODIES@)))
        } else {
            rest
        }
    }
}

/// The deleted bodies on the before side, in document order, each with its
/// line count and docstring.
pub fn deleted_bodies(lhs: &Source, rhs: &OtherSide, min_lines: usize) -> (bodies: Vec<(u32, u64, Option<u32>)>)
    ensures
        bodies@ == deleted_bodies_spec(preorder(lhs.regions@), lhs.regions@, *rhs, min_lines as nat),
{
    let visited = walk(lhs.regions.as_slice());
    let ghost seen = visited@.map_values(|r: &Region| *r);
    let mut bodies: Vec<(u32, u64, Option<u32>)> = Vec::new();
    let mut i: usize = 0;
    while i < visited.len()
        invariant
            i <= visited@.len(),
            seen == visited@.map_values(|r: &Region| *r),
            seen == preorder(lhs.regions@),
            bodies@ == deleted_bodies_spec(seen.take(i as int), lhs.regions@, *rhs, min_lines as nat),
        decreases visited@.len() - i,
    {
        let region = visited[i];
        assert(seen.take(i + 1).drop_last() =~= seen.take(i as int));
        assert(seen.take(i + 1).last() == *region);
        let count = lines_of_range(&region.range);
        if is_fold(region) && has_tag(region, DELETED_FUNCTION) && one_sided(region, rhs) && count >= min_lines as u64 {
            proof {
                lemma_path_where_none(lhs.regions@, with_id(region.id));
                assert(with_id(region.id)(seen[i as int]));
            }
            let docstring = docstring_of(lhs, region, DELETED_BODIES);
            bodies.push((region.id, count, docstring));
        }
        i += 1;
    }
    assert(seen.take(seen.len() as int) =~= seen);
    bodies
}

/// The deleted bodies of a file, as [`deleted_bodies`] finds them on its
/// before side; none when it has no before side.
pub open spec fn deleted_plan(sides: Pairing<Source>, min_lines: nat) -> Seq<(u32, u64, Option<u32>)> {
    match sides.left() {
        Some(lhs) => deleted_bodies_spec(preorder(lhs.regions@), lhs.regions@, other_side_of(sides), min_lines),
        None => Seq::empty(),
    }
}

/// Each body's docstring, if it has one, is a region other than the body
/// and not the file, found in `trees`.
pub open spec fn docstrings_apart(bodies: Seq<(u32, u64, Option<u32>)>, trees: Seq<Seq<crate::tree::RegionModel>>) -> bool {
    forall|j: int|
        0 <= j < bodies.len() ==> ((#[trigger] bodies[j]).2 matches Some(d) ==> d != bodies[j].0 && d != ROOT
            && lookup(trees, d) is Some)
}

/// Two views of the other side that hold the same leaves and fold states
/// find the same deleted bodies.
proof fn lemma_plan_other(visited: Seq<Region>, regions: Seq<Region>, a: OtherSide, b: OtherSide, min_lines: nat)
    requires
        a.leaf_ids() == b.leaf_ids(),
        a.fold_state_ids() == b.fold_state_ids(),
    ensures
        deleted_bodies_spec(visited, regions, a, min_lines) == deleted_bodies_spec(visited, regions, b, min_lines),
    decreases visited.len(),
{
    if visited.len() > 0 {
        lemma_plan_other(visited.drop_last(), regions, a, b, min_lines);
        assert(paired_leaf(a) =~= paired_leaf(b));
    }
}

/// Every deleted body is one of the regions visited.
proof fn lemma_bodies_visited(visited: Seq<Region>, regions: Seq<Region>, other: OtherSide, min_lines: nat)
    ensures
        forall|j: int|
            0 <= j < deleted_bodies_spec(visited, regions, other, min_lines).len() ==> exists|k: int|
                0 <= k < visited.len() && visited[k].id == (#[trigger] deleted_bodies_spec(
                    visited,
                    regions,
                    other,
                    min_lines,
                )[j]).0,
    decreases visited.len(),
{
    if visited.len() > 0 {
        let before = visited.drop_last();
        lemma_bodies_visited(before, regions, other, min_lines);
        let rest = deleted_bodies_spec(before, regions, other, min_lines);
        let all = deleted_bodies_spec(visited, regions, other, min_lines);
        assert forall|j: int| 0 <= j < all.len() implies exists|k: int|
            0 <= k < visited.len() && visited[k].id == (#[trigger] all[j]).0 by {
            if j < rest.len() {
                assert(all[j] == rest[j]);
                let k = choose|k: int| 0 <= k < before.len() && before[k].id == rest[j].0;
                assert(visited[k] == before[k]);
            } else {
                assert(visited[visited.len() - 1].id == all[j].0);
            }
        }
    }
}

impl DeletedBodies {
    /// Tags to add to the file's manifest entry: none.
    pub fn classify(&self, file: &FileEntry) -> (tags: Result<Vec<String>, MoveError>)
        ensures
            tags matches Ok(t) && t@.len() == 0,
    {
        Ok(Vec::new())
    }

    /// Collapse each deleted body behind its line count, linked to its
    /// docstring. A file without a before side has none. Every deleted body
    /// is collapsed and labelled, and the moves succeed when no region names
    /// the file and each docstring is a region apart from its body.
    pub fn mutate(&self, file: &FileEntry, sides: &Pairing<Source>) -> (moves: Result<Vec<Move>, MoveError>)
        requires
            ids_fit(*sides),
        ensures
            sides is RightOnly ==> (moves matches Ok(m) && m@.len() == 0),
            moves matches Ok(m) ==> steps(start_of(*sides), m@).0 is Ok,
            moves matches Ok(m) ==> forall|j: int|
                0 <= j < deleted_plan(*sides, self.options.min_lines as nat).len() ==> {
                    let body = #[trigger] deleted_plan(*sides, self.options.min_lines as nat)[j];
                    &&& moves_model(m@).contains(MoveModel::SetCollapsed { region: body.0, collapsed: true })
                    &&& moves_model(m@).contains(
                        MoveModel::SetLabel { region: body.0, label: Some(removed_label(body.1 as nat)) },
                    )
                },
            no_root_ids(*sides) && docstrings_apart(
                deleted_plan(*sides, self.options.min_lines as nat),
                start_of(*sides).trees,
            ) ==> moves is Ok,
    {
        let (lhs, rhs) = match before_and_after_ids(sides) {
            Some(found) => found,
            None => {
                let none: Vec<Move> = Vec::new();
                assert(steps(start_of(*sides), none@).0 is Ok);
                return Ok(none);
            },
        };
        let min_lines = self.options.min_lines;
        let ghost plan = deleted_plan(*sides, min_lines as nat);
        let ghost trees = start_of(*sides).trees;
        let bodies = deleted_bodies(lhs, &rhs, min_lines);
        proof {
            let other = other_side_of(*sides);
            assert(other.leaf_ids() == rhs.leaf_ids() && other.fold_state_ids() == rhs.fold_state_ids());
            lemma_plan_other(preorder(lhs.regions@), lhs.regions@, rhs, other, min_lines as nat);
            lemma_bodies_visited(preorder(lhs.regions@), lhs.regions@, rhs, min_lines as nat);
            assert(sides.left() == Some(*lhs));
        }
        let mut draft = Draft::new(sides);
        proof {
            lemma_same_places_refl(trees);
        }
        let mut i: usize = 0;
        assert(!(sides is RightOnly));
        while i < bodies.len()
            invariant
                i <= bodies@.len(),
                !(sides is RightOnly),
                sides.left() == Some(*lhs),
                draft.wf(),
                draft.start() == start_of(*sides),
                trees == start_of(*sides).trees,
                min_lines == self.options.min_lines,
                plan == deleted_plan(*sides, min_lines as nat),
                bodies@ == plan,
                same_places(trees, draft.now().trees),
                forall|j: int|
                    0 <= j < plan.len() ==> exists|k: int|
                        0 <= k < preorder(lhs.regions@).len() && preorder(lhs.regions@)[k].id == (#[trigger] plan[j]).0,
                forall|j: int|
                    0 <= j < i ==> {
                        let body = #[trigger] plan[j];
                        &&& moves_model(draft.moves()).contains(MoveModel::SetCollapsed { region: body.0, collapsed: true })
                        &&& moves_model(draft.moves()).contains(
                            MoveModel::SetLabel { region: body.0, label: Some(removed_label(body.1 as nat)) },
                        )
                    },
            decreases bodies@.len() - i,
        {
            let (id, count, docstring) = bodies[i];
            let ghost k = choose|k: int| 0 <= k < preorder(lhs.regions@).len() && preorder(lhs.regions@)[k].id == plan[i as int].0;
            let ghost before = moves_model(draft.moves());
            let ghost now = draft.now().trees;
            proof {
                lemma_before_located(*sides, *lhs, k);
                lemma_same_places_locate(trees, now, id);
                lemma_locate_leads(now, id);
            }
            let label = removed_label_exec(count);
            draft.collapse(id, label)?;
            let ghost collapsed = moves_model(draft.moves());
            proof {
                lemma_same_places_trans(trees, now, draft.now().trees);
                assert(collapsed[before.len() as int] == MoveModel::SetCollapsed { region: id, collapsed: true });
                assert(collapsed[before.len() as int + 1] == MoveModel::SetLabel { region: id, label: Some(removed_label(count as nat)) });
                assert forall|j: int| 0 <= j < i implies {
                    let body = #[trigger] plan[j];
                    &&& collapsed.contains(MoveModel::SetCollapsed { region: body.0, collapsed: true })
                    &&& collapsed.contains(MoveModel::SetLabel { region: body.0, label: Some(removed_label(body.1 as nat)) })
                } by {
                    let body = plan[j];
                    let a = choose|x: int| 0 <= x < before.len() && before[x] == MoveModel::SetCollapsed { region: body.0, collapsed: true };
                    let b = choose|x: int| 0 <= x < before.len() && before[x] == MoveModel::SetLabel { region: body.0, label: Some(removed_label(body.1 as nat)) };
                    assert(collapsed[a] == before[a]);
                    assert(collapsed[b] == before[b]);
                }
            }
            if let Some(docstring) = docstring {
                let mut pair = Vec::new();
                pair.push(id);
                pair.push(docstring);
                let ghost linked_from = draft.now().trees;
                assert(no_root_ids(*sides) && docstrings_apart(plan, trees) ==> (list_error(pair@, ListMove::Link) is None
                    && first_missing(linked_from, pair@) is None)) by {
                    if no_root_ids(*sides) && docstrings_apart(plan, trees) {
                        assert(plan[i as int].2 == Some(docstring));
                        lemma_locate_leads(trees, docstring);
                        lemma_same_places_locate(trees, linked_from, docstring);
                        lemma_same_places_locate(trees, linked_from, id);
                        lemma_locate_leads(linked_from, docstring);
                        lemma_locate_leads(linked_from, id);
                        assert(pair@ =~= seq![id, docstring]);
                        assert(pair@.no_duplicates());
                        assert(!pair@.contains(ROOT));
                        assert(list_error(pair@, ListMove::Link) is None);
                        assert(lookup(linked_from, id) is Some);
                        assert(lookup(linked_from, docstring) is Some);
                        assert(pair@.drop_first() =~= seq![docstring]);
                        assert(seq![docstring].drop_first() =~= Seq::<u32>::empty());
                        assert(first_missing(linked_from, Seq::<u32>::empty()) is None);
                        assert(first_missing(linked_from, seq![docstring]) is None);
                        assert(first_missing(linked_from, pair@) is None);
                    }
                }
                draft.link(&pair)?;
                proof {
                    lemma_same_places_trans(trees, linked_from, draft.now().trees);
                    let linked = moves_model(draft.moves());
                    assert forall|j: int| 0 <= j <= i implies {
                        let body = #[trigger] plan[j];
                        &&& linked.contains(MoveModel::SetCollapsed { region: body.0, collapsed: true })
                        &&& linked.contains(MoveModel::SetLabel { region: body.0, label: Some(removed_label(body.1 as nat)) })
                    } by {
                        let body = plan[j];
                        let a = choose|x: int| 0 <= x < collapsed.len() && collapsed[x] == MoveModel::SetCollapsed { region: body.0, collapsed: true };
                        let b = choose|x: int| 0 <= x < collapsed.len() && collapsed[x] == MoveModel::SetLabel { region: body.0, label: Some(removed_label(body.1 as nat)) };
                        assert(linked[a] == collapsed[a]);
                        assert(linked[b] == collapsed[b]);
                    }
                }
            }
            i += 1;
        }
        proof {
            draft.lemma_wf();
        }
        Ok(draft.into_moves())
    }
}


/// Every body the plugin finds is one of the regions it visits: a fold
/// tagged as a function body, with no leaf under it paired with the other
/// side, of at least `min_lines` lines. A fold without the tag is never
/// planned, whatever its pairing and size.
pub proof fn deleted_bodies_are_tagged_function_bodies(
    visited: Seq<Region>,
    regions: Seq<Region>,
    other: OtherSide,
    min_lines: nat,
)
    ensures
        forall|j: int|
            0 <= j < deleted_bodies_spec(visited, regions, other, min_lines).len() ==> exists|k: int|
                0 <= k < visited.len() && (#[trigger] visited[k]).id == (#[trigger] deleted_bodies_spec(
                    visited,
                    regions,
                    other,
                    min_lines,
                )[j]).0 && visited[k].node is Fold && visited[k].has_tag_spec(DELETED_FUNCTION@)
                    && !any_region(preorder_one(visited[k]), paired_leaf(other)) && visited[k].range.line_len()
                    >= min_lines,
    decreases visited.len(),
{
    if visited.len() > 0 {
        let front = visited.drop_last();
        deleted_bodies_are_tagged_function_bodies(front, regions, other, min_lines);
        let rest = deleted_bodies_spec(front, regions, other, min_lines);
        let all = deleted_bodies_spec(visited, regions, other, min_lines);
        assert forall|j: int| 0 <= j < all.len() implies exists|k: int|
            0 <= k < visited.len() && (#[trigger] visited[k]).id == (#[trigger] all[j]).0 && visited[k].node is Fold
                && visited[k].has_tag_spec(DELETED_FUNCTION@) && !any_region(preorder_one(visited[k]), paired_leaf(other))
                && visited[k].range.line_len() >= min_lines by {
            if j < rest.len() {
                assert(all[j] == rest[j]);
                let k = choose|k: int|
                    0 <= k < front.len() && (#[trigger] front[k]).id == (#[trigger] rest[j]).0 && front[k].node is Fold
                        && front[k].has_tag_spec(DELETED_FUNCTION@) && !any_region(preorder_one(front[k]), paired_leaf(other))
                        && front[k].range.line_len() >= min_lines;
                assert(visited[k] == front[k]);
            } else {
                assert(visited[visited.len() - 1] == visited.last());
            }
        }
    }
}


/// Every fold the plugin visits that is tagged as a function body, has no
/// leaf under it paired with the other side and holds at least `min_lines`
/// lines is among the bodies found.
pub proof fn tagged_deleted_bodies_are_found(visited: Seq<Region>, regions: Seq<Region>, other: OtherSide, min_lines: nat)
    ensures
        forall|k: int|
            0 <= k < visited.len() && (#[trigger] visited[k]).node is Fold && visited[k].has_tag_spec(DELETED_FUNCTION@)
                && !any_region(preorder_one(visited[k]), paired_leaf(other)) && visited[k].range.line_len() >= min_lines
                ==> exists|j: int|
                0 <= j < deleted_bodies_spec(visited, regions, other, min_lines).len() && (#[trigger] deleted_bodies_spec(
                    visited,
                    regions,
                    other,
                    min_lines,
                )[j]).0 == visited[k].id,
    decreases visited.len(),
{
    if visited.len() > 0 {
        let front = visited.drop_last();
        tagged_deleted_bodies_are_found(front, regions, other, min_lines);
        let rest = deleted_bodies_spec(front, regions, other, min_lines);
        let all = deleted_bodies_spec(visited, regions, other, min_lines);
        assert forall|k: int|
            0 <= k < visited.len() && (#[trigger] visited[k]).node is Fold && visited[k].has_tag_spec(DELETED_FUNCTION@)
                && !any_region(preorder_one(visited[k]), paired_leaf(other)) && visited[k].range.line_len() >= min_lines
                implies exists|j: int| 0 <= j < all.len() && (#[trigger] all[j]).0 == visited[k].id by {
            if k < front.len() {
                assert(front[k] == visited[k]);
                let j = choose|j: int| 0 <= j < rest.len() && (#[trigger] rest[j]).0 == front[k].id;
                assert(all[j] == rest[j]);
            } else {
                assert(visited.last() == visited[k]);
                assert(all[all.len() - 1].0 == visited[k].id);
            }
        }
    }
}

} // verus!
