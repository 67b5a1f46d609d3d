//! Where regions are found. Moves that edit regions in place (collapse,
//! label, link) leave every id where it was: a search by id finds the same
//! path before and after. These facts let the library promise that such
//! moves succeed.
use crate::apply::{edit_region, locate, lookup, map_headers, map_header_one, map_trees, sources_trees};
use crate::paths::{has_id, path_where_m, region_at_m, siblings_at, splice_at, lemma_path_where_m_sound};
use crate::tree::{preorder, preorder_one, region_model, regions_model, lemma_regions_model, Node, NodeModel, Region, RegionModel, Source};
use vstd::prelude::*;

verus! {

broadcast use vstd::seq::group_seq_axioms;

/// Two regions with the same id and kind, and, for folds, children alike
/// in turn.
pub open spec fn alike(a: RegionModel, b: RegionModel) -> bool
    decreases a,
{
    a.id == b.id && match (a.node, b.node) {
        (NodeModel::Fold { children: x }, NodeModel::Fold { children: y }) => all_alike(x, y),
        (NodeModel::Leaf { .. }, NodeModel::Leaf { .. }) => true,
        _ => false,
    }
}

/// Two sibling lists of the same length whose regions are alike index by
/// index.
pub open spec fn all_alike(x: Seq<RegionModel>, y: Seq<RegionModel>) -> bool
    decreases x,
{
    x.len() == y.len() && (x.len() == 0 || (all_alike(x.drop_last(), y.drop_last()) && alike(x.last(), y.last())))
}

/// Lists alike are alike index by index.
proof fn lemma_all_alike_index(x: Seq<RegionModel>, y: Seq<RegionModel>)
    ensures
        all_alike(x, y) <==> (x.len() == y.len() && forall|i: int| 0 <= i < x.len() ==> alike(#[trigger] x[i], y[i])),
    decreases x.len(),
{
    if x.len() > 0 && x.len() == y.len() {
        lemma_all_alike_index(x.drop_last(), y.drop_last());
        if forall|i: int| 0 <= i < x.len() ==> alike(#[trigger] x[i], y[i]) {
            assert forall|i: int| 0 <= i < x.drop_last().len() implies alike(
                #[trigger] x.drop_last()[i],
                y.drop_last()[i],
            ) by {
                assert(alike(x[i], y[i]));
            }
        }
        if all_alike(x, y) {
            assert forall|i: int| 0 <= i < x.len() implies alike(#[trigger] x[i], y[i]) by {
                if i < x.len() - 1 {
                    assert(x.drop_last()[i] == x[i]);
                    assert(y.drop_last()[i] == y[i]);
                }
            }
        }
    }
}

/// Every region is alike itself.
proof fn lemma_alike_refl(a: RegionModel)
    ensures
        alike(a, a),
    decreases a,
{
    if let NodeModel::Fold { children } = a.node {
        lemma_all_alike_refl(children);
    }
}

proof fn lemma_all_alike_refl(x: Seq<RegionModel>)
    ensures
        all_alike(x, x),
    decreases x,
{
    if x.len() > 0 {
        lemma_all_alike_refl(x.drop_last());
        lemma_alike_refl(x.last());
    }
}

/// A search by id finds the same path in lists alike.
proof fn lemma_alike_path(x: Seq<RegionModel>, y: Seq<RegionModel>, id: u32)
    requires
        all_alike(x, y),
    ensures
        path_where_m(x, has_id(id)) == path_where_m(y, has_id(id)),
    decreases x,
{
    if x.len() > 0 {
        assert(all_alike(x.drop_last(), y.drop_last()));
        assert(alike(x.last(), y.last()));
        lemma_alike_path(x.drop_last(), y.drop_last(), id);
        match (x.last().node, y.last().node) {
            (NodeModel::Fold { children: cx }, NodeModel::Fold { children: cy }) => {
                assert(decreases_to!(x => x[x.len() - 1]));
                lemma_alike_path(cx, cy, id);
            },
            _ => {},
        }
    }
}

/// A header edit that keeps ids leaves a list alike itself.
proof fn lemma_map_alike(t: Seq<RegionModel>, f: spec_fn(RegionModel) -> RegionModel)
    requires
        forall|r: RegionModel| #[trigger] f(r).id == r.id,
    ensures
        all_alike(t, map_headers(t, f)),
    decreases t,
{
    if t.len() > 0 {
        lemma_map_alike(t.drop_last(), f);
        let last = t.last();
        if let NodeModel::Fold { children } = last.node {
            assert(decreases_to!(t => t[t.len() - 1]));
            lemma_map_alike(children, f);
        }
        assert(map_headers(t, f).drop_last() =~= map_headers(t.drop_last(), f));
        assert(map_headers(t, f).last() == map_header_one(last, f));
        assert(f(last).id == last.id);
        crate::apply::lemma_map_headers_index(t, f);
        assert(alike(last, map_header_one(last, f)));
    }
}

/// Replacing one region by one alike it leaves the list alike itself.
proof fn lemma_splice_alike(t: Seq<RegionModel>, parent: Seq<int>, index: int, r: RegionModel)
    requires
        siblings_at(t, parent) matches Some(s) && 0 <= index < s.len() && alike(s[index], r),
    ensures
        all_alike(t, splice_at(t, parent, index, 1, seq![r])),
    decreases parent.len(),
{
    let after = splice_at(t, parent, index, 1, seq![r]);
    if parent.len() == 0 {
        assert(after =~= t.update(index, r));
        assert forall|i: int| 0 <= i < t.len() implies alike(#[trigger] t[i], after[i]) by {
            if i != index {
                lemma_alike_refl(t[i]);
            }
        }
        lemma_all_alike_index(t, after);
    } else {
        let p = parent[0];
        if let NodeModel::Fold { children } = t[p].node {
            lemma_splice_alike(children, parent.drop_first(), index, r);
            assert forall|i: int| 0 <= i < t.len() implies alike(#[trigger] t[i], after[i]) by {
                if i != p {
                    lemma_alike_refl(t[i]);
                }
            }
            lemma_all_alike_index(t, after);
        }
    }
}

/// Each side's search by id finds the same path in both lists of trees.
pub open spec fn same_places(a: Seq<Seq<RegionModel>>, b: Seq<Seq<RegionModel>>) -> bool {
    a.len() == b.len() && forall|k: int, id: u32|
        0 <= k < a.len() ==> #[trigger] path_where_m(a[k], has_id(id)) == path_where_m(b[k], has_id(id))
}

/// Trees with the same places locate every id alike.
pub proof fn lemma_same_places_locate(a: Seq<Seq<RegionModel>>, b: Seq<Seq<RegionModel>>, id: u32)
    requires
        same_places(a, b),
    ensures
        locate(a, id) == locate(b, id),
    decreases a.len(),
{
    if a.len() > 0 {
        assert(path_where_m(a[0], has_id(id)) == path_where_m(b[0], has_id(id)));
        assert forall|k: int, x: u32| 0 <= k < a.drop_first().len() implies #[trigger] path_where_m(a.drop_first()[k], has_id(x)) == path_where_m(b.drop_first()[k], has_id(x)) by {
            assert(a.drop_first()[k] == a[k + 1]);
            assert(b.drop_first()[k] == b[k + 1]);
            assert(path_where_m(a[k + 1], has_id(x)) == path_where_m(b[k + 1], has_id(x)));
        }
        lemma_same_places_locate(a.drop_first(), b.drop_first(), id);
    }
}

/// A header edit that keeps ids keeps every place.
pub proof fn lemma_map_trees_places(trees: Seq<Seq<RegionModel>>, f: spec_fn(RegionModel) -> RegionModel)
    requires
        forall|r: RegionModel| #[trigger] f(r).id == r.id,
    ensures
        same_places(trees, map_trees(trees, f)),
{
    assert forall|k: int, id: u32| 0 <= k < trees.len() implies #[trigger] path_where_m(trees[k], has_id(id))
        == path_where_m(map_trees(trees, f)[k], has_id(id)) by {
        lemma_map_alike(trees[k], f);
        lemma_alike_path(trees[k], map_headers(trees[k], f), id);
    }
}

/// Giving the region at a found path a new header that keeps its id and
/// its children keeps every place.
pub proof fn lemma_edit_places(trees: Seq<Seq<RegionModel>>, side: int, path: Seq<int>, r: RegionModel)
    requires
        0 <= side < trees.len(),
        region_at_m(trees[side], path) matches Some(old) && alike(old, r),
        siblings_at(trees[side], path.drop_last()) matches Some(s) && 0 <= path.last() < s.len() && Some(
            s[path.last()],
        ) == region_at_m(trees[side], path),
    ensures
        same_places(
            trees,
            trees.update(side, splice_at(trees[side], path.drop_last(), path.last(), 1, seq![r])),
        ),
{
    let after = trees.update(side, splice_at(trees[side], path.drop_last(), path.last(), 1, seq![r]));
    lemma_splice_alike(trees[side], path.drop_last(), path.last(), r);
    assert forall|k: int, id: u32| 0 <= k < trees.len() implies #[trigger] path_where_m(trees[k], has_id(id))
        == path_where_m(after[k], has_id(id)) by {
        if k == side {
            lemma_alike_path(trees[side], after[side], id);
        }
    }
}

/// Same places is an equivalence that chains.
pub proof fn lemma_same_places_trans(a: Seq<Seq<RegionModel>>, b: Seq<Seq<RegionModel>>, c: Seq<Seq<RegionModel>>)
    requires
        same_places(a, b),
        same_places(b, c),
    ensures
        same_places(a, c),
{
    assert forall|k: int, id: u32| 0 <= k < a.len() implies #[trigger] path_where_m(a[k], has_id(id))
        == path_where_m(c[k], has_id(id)) by {
        assert(path_where_m(a[k], has_id(id)) == path_where_m(b[k], has_id(id)));
        assert(path_where_m(b[k], has_id(id)) == path_where_m(c[k], has_id(id)));
    }
}

/// Every list has its own places.
pub proof fn lemma_same_places_refl(a: Seq<Seq<RegionModel>>)
    ensures
        same_places(a, a),
{
}

/// A region met in preorder is found by a search for its id.
pub proof fn lemma_found_in_preorder(regions: Seq<Region>, k: int)
    requires
        0 <= k < preorder(regions).len(),
    ensures
        path_where_m(regions_model(regions), has_id(preorder(regions)[k].id)) is Some,
    decreases regions,
{
    let id = preorder(regions)[k].id;
    lemma_regions_model(regions);
    let before = regions.drop_last();
    let last = regions.last();
    let head = preorder(before);
    assert(regions_model(regions).drop_last() =~= regions_model(before)) by {
        lemma_regions_model(before);
    }
    if k < head.len() {
        assert(preorder(regions)[k] == head[k]);
        lemma_found_in_preorder(before, k);
    } else {
        let j = k - head.len();
        assert(preorder(regions)[k] == preorder_one(last)[j]);
        if j > 0 {
            if let Node::Fold { children } = last.node {
                assert(decreases_to!(regions => regions[regions.len() - 1]));
                assert(preorder_one(last)[j] == preorder(children@)[j - 1]);
                lemma_found_in_preorder(children@, j - 1);
                assert(regions_model(regions).last() == region_model(last));
            }
        } else {
            assert(regions_model(regions).last() == region_model(last));
        }
    }
}

/// A search that finds `x` on some side locates it.
pub proof fn lemma_located(trees: Seq<Seq<RegionModel>>, j: int, x: u32)
    requires
        0 <= j < trees.len(),
        path_where_m(trees[j], has_id(x)) is Some,
    ensures
        locate(trees, x) is Some,
    decreases j,
{
    if j > 0 && path_where_m(trees[0], has_id(x)) is None {
        assert(trees.drop_first()[j - 1] == trees[j]);
        lemma_located(trees.drop_first(), j - 1, x);
    }
}

/// What `locate` finds, a search on that side finds, and the path leads to
/// a region with that id.
pub proof fn lemma_locate_leads(trees: Seq<Seq<RegionModel>>, x: u32)
    ensures
        locate(trees, x) matches Some((side, path)) ==> {
            &&& 0 <= side < trees.len()
            &&& path_where_m(trees[side], has_id(x)) == Some(path)
            &&& region_at_m(trees[side], path) matches Some(r) && r.id == x
            &&& siblings_at(trees[side], path.drop_last()) matches Some(s) && 0 <= path.last() < s.len()
                && Some(s[path.last()]) == region_at_m(trees[side], path)
        },
        locate(trees, x) is Some <==> lookup(trees, x) is Some,
    decreases trees.len(),
{
    if trees.len() > 0 {
        lemma_locate_leads(trees.drop_first(), x);
        lemma_path_where_m_sound(trees[0], has_id(x));
        if let Some((side, path)) = locate(trees, x) {
            if side > 0 {
                assert(trees.drop_first()[side - 1] == trees[side]);
            }
            lemma_path_where_m_sound(trees[side], has_id(x));
        }
    }
}

/// A new label leaves a region alike itself.
pub proof fn lemma_relabel_alike(r: RegionModel, label: Seq<char>)
    ensures
        alike(r, RegionModel { label, ..r }),
{
    if let NodeModel::Fold { children } = r.node {
        lemma_all_alike_refl(children);
    }
}

/// A new set of tags leaves a region alike itself.
pub proof fn lemma_retag_alike(r: RegionModel, tags: Seq<Seq<char>>)
    ensures
        alike(r, RegionModel { tags, ..r }),
{
    if let NodeModel::Fold { children } = r.node {
        lemma_all_alike_refl(children);
    }
}

/// Editing the header of the region with `id` in a way that keeps it
/// alike keeps every place.
pub proof fn lemma_edit_keeps_places(trees: Seq<Seq<RegionModel>>, id: u32, f: spec_fn(RegionModel) -> RegionModel)
    requires
        forall|r: RegionModel| #[trigger] alike(r, f(r)),
        edit_region(trees, id, f) is Some,
    ensures
        same_places(trees, edit_region(trees, id, f)->0),
{
    lemma_locate_leads(trees, id);
    let (side, path) = locate(trees, id)->0;
    let r = region_at_m(trees[side], path)->0;
    assert(alike(r, f(r)));
    lemma_edit_places(trees, side, path, f(r));
}

} // verus!
