//! A plugin's moves, carried out on a copy of the region trees as the plugin
//! makes them. The copy lets a plugin name what its own moves create (the
//! piece a cut leaves, the fold a join adds) with the ids the applier will
//! give them, since both hand out ids the same way.
//!
//! The helpers here are the moves the bundled plugins make together:
//! collapsing a region under a label, linking regions, cutting lines out of
//! a leaf, and grouping siblings under a labelled fold.
use crate::apply::{
    board, collapse_in, edit_region, first_missing, fresh_alignment_of, fresh_id_of, label_of, link_into, list_error,
    locate, lookup, region_of, room_for, sources_trees, states_of, step, steps, Applier, Board, Fresh, ListMove,
    MoveError,
};
use crate::tree::{
    clone_regions, clone_tags, preorder, region_model, regions_model, siblings_of, siblings_spec, walk,
    Node, NodeModel, Pairing, Region, RegionModel, Source,
};
use crate::places::{
    lemma_edit_keeps_places, lemma_found_in_preorder, lemma_locate_leads, lemma_located, lemma_map_trees_places,
    lemma_relabel_alike, lemma_same_places_locate, lemma_same_places_trans, alike, same_places,
};
use crate::paths::{has_id, path_where_m};
use crate::types::{Move, Visibility, ROOT};
use vstd::prelude::*;

verus! {

broadcast use vstd::std_specs::vec::group_vec_axioms, vstd::seq::group_seq_axioms;

/// A move as a value.
pub enum MoveModel {
    Cut { region: u32, at: u32 },
    JoinFolds { regions: Seq<u32> },
    LinkFoldState { regions: Seq<u32> },
    SetCollapsed { region: u32, collapsed: bool },
    SetLabel { region: u32, label: Option<Seq<char>> },
    SetTags { region: u32, tags: Seq<Seq<char>> },
}

pub open spec fn move_model(m: Move) -> MoveModel {
    match m {
        Move::Cut { region, at } => MoveModel::Cut { region, at },
        Move::JoinFolds { regions } => MoveModel::JoinFolds { regions: regions@ },
        Move::LinkFoldState { regions } => MoveModel::LinkFoldState { regions: regions@ },
        Move::SetCollapsed { region, collapsed } => MoveModel::SetCollapsed { region, collapsed },
        Move::SetLabel { region, label } => MoveModel::SetLabel { region, label: label_view(label) },
        Move::SetTags { region, tags } => MoveModel::SetTags { region, tags: crate::tree::tags_model(tags@) },
    }
}

/// The moves `b` begin with the moves `a`.
pub open spec fn extends(a: Seq<MoveModel>, b: Seq<MoveModel>) -> bool {
    a.len() <= b.len() && b.take(a.len() as int) == a
}

/// A move that collapses a region.
pub open spec fn is_collapse(m: MoveModel) -> bool {
    m matches MoveModel::SetCollapsed { collapsed: true, .. }
}

/// Some move collapses a region.
pub open spec fn collapses_one(moves: Seq<MoveModel>) -> bool {
    exists|i: int| 0 <= i < moves.len() && is_collapse(#[trigger] moves[i])
}

/// Moves that begin with ones that collapse a region collapse one too.
pub broadcast proof fn lemma_extends_collapses(a: Seq<MoveModel>, b: Seq<MoveModel>)
    ensures
        #[trigger] extends(a, b) ==> (collapses_one(a) ==> collapses_one(b)),
{
    if extends(a, b) && collapses_one(a) {
        let i = choose|i: int| 0 <= i < a.len() && is_collapse(#[trigger] a[i]);
        assert(b.take(a.len() as int)[i] == b[i]);
    }
}

/// Moves that begin with ones holding a move hold it too.
pub broadcast proof fn lemma_extends_contains(a: Seq<MoveModel>, b: Seq<MoveModel>, x: MoveModel)
    ensures
        #![trigger extends(a, b), a.contains(x)]
        extends(a, b) ==> (a.contains(x) ==> b.contains(x)),
{
    if extends(a, b) && a.contains(x) {
        let i = choose|i: int| 0 <= i < a.len() && a[i] == x;
        assert(b.take(a.len() as int)[i] == b[i]);
    }
}

/// Moves followed by more begin with them.
pub proof fn lemma_extends_concat(a: Seq<MoveModel>, e: Seq<MoveModel>)
    ensures
        extends(a, a + e),
{
    assert((a + e).take(a.len() as int) =~= a);
}

pub open spec fn moves_model(moves: Seq<Move>) -> Seq<MoveModel> {
    moves.map_values(|m: Move| move_model(m))
}

/// A copy of a list of ids.
fn copy_ids(ids: &Vec<u32>) -> (copy: Vec<u32>)
    ensures
        copy@ == ids@,
{
    let mut copy: Vec<u32> = Vec::new();
    let mut i: usize = 0;
    while i < ids.len()
        invariant
            i <= ids@.len(),
            copy@ == ids@.take(i as int),
        decreases ids@.len() - i,
    {
        copy.push(ids[i]);
        assert(ids@.take(i + 1) =~= ids@.take(i as int).push(ids@[i as int]));
        i += 1;
    }
    assert(ids@.take(ids@.len() as int) =~= ids@);
    copy
}

/// A copy of a move.
fn copy_move(m: &Move) -> (copy: Move)
    ensures
        move_model(copy) == move_model(*m),
{
    match m {
        Move::Cut { region, at } => Move::Cut { region: *region, at: *at },
        Move::JoinFolds { regions } => Move::JoinFolds { regions: copy_ids(regions) },
        Move::LinkFoldState { regions } => Move::LinkFoldState { regions: copy_ids(regions) },
        Move::SetCollapsed { region, collapsed } => Move::SetCollapsed { region: *region, collapsed: *collapsed },
        Move::SetLabel { region, label } => Move::SetLabel {
            region: *region,
            label: match label {
                Some(l) => Some(l.clone()),
                None => None,
            },
        },
        Move::SetTags { region, tags } => Move::SetTags { region: *region, tags: clone_tags(tags) },
    }
}

/// Two moves with the same value do the same.
proof fn lemma_step_model(b: Board, m1: Move, m2: Move)
    requires
        move_model(m1) == move_model(m2),
    ensures
        step(b, m1) == step(b, m2),
{
    match (m1, m2) {
        (Move::SetLabel { region, label: l1 }, Move::SetLabel { label: l2, .. }) => {
            assert(crate::apply::label_of(l1) == crate::apply::label_of(l2));
        },
        (Move::SetTags { region, tags: t1 }, Move::SetTags { tags: t2, .. }) => {
            assert((|r: RegionModel| RegionModel { tags: crate::tree::tags_model(t1@), ..r }) == (|r: RegionModel|
                RegionModel { tags: crate::tree::tags_model(t2@), ..r }));
        },
        _ => {},
    }
}

/// One more move after moves that all succeeded does what that move does.
proof fn lemma_steps_push(b: Board, moves: Seq<Move>, next: Move)
    requires
        steps(b, moves).0 is Ok,
    ensures
        steps(b, moves.push(next)) == step(steps(b, moves).1, next),
    decreases moves.len(),
{
    let s = moves.push(next);
    assert(s[0] == if moves.len() == 0 { next } else { moves[0] });
    if moves.len() == 0 {
        assert(s.drop_first() =~= Seq::<Move>::empty());
        assert(steps(b, moves) == (Ok::<(), MoveError>(()), b));
        let (result, after) = step(b, next);
        assert(step(b, next) == (result, after));
        assert(steps(after, s.drop_first()) == (Ok::<(), MoveError>(()), after));
        match result {
            Ok(u) => {
                assert(u == ());
                assert(steps(b, s) == (Ok::<(), MoveError>(()), after));
                assert(result == Ok::<(), MoveError>(()));
                assert(steps(b, moves.push(next)) == step(steps(b, moves).1, next));
            },
            Err(e) => {
                assert(steps(b, s) == (Err::<(), MoveError>(e), after));
            },
        }
    } else {
        let (result, after) = step(b, moves[0]);
        assert(step(b, moves[0]) == (result, after));
        assert(s.drop_first() =~= moves.drop_first().push(next));
        match result {
            Ok(()) => {
                assert(steps(b, moves) == steps(after, moves.drop_first()));
                lemma_steps_push(after, moves.drop_first(), next);
                assert(steps(b, s) == steps(after, s.drop_first()));
            },
            Err(e) => {
                assert(steps(b, moves).0 is Err);
            },
        }
    }
}

proof fn lemma_same_sides(a: Pairing<Source>, b: Pairing<Source>)
    requires
        crate::apply::texts(a) == crate::apply::texts(b),
    ensures
        a.present().len() == b.present().len(),
{
    match (a, b) {
        (Pairing::Both { .. }, Pairing::Both { .. }) => {},
        (Pairing::LeftOnly { .. }, Pairing::LeftOnly { .. }) => {},
        (Pairing::RightOnly { .. }, Pairing::RightOnly { .. }) => {},
        (Pairing::Both { .. }, _) => {
            assert(crate::apply::texts(a) is Both);
        },
        (Pairing::LeftOnly { .. }, _) => {
            assert(crate::apply::texts(a) is LeftOnly);
        },
        (Pairing::RightOnly { .. }, _) => {
            assert(crate::apply::texts(a) is RightOnly);
        },
    }
}

/// Every region of every present side, lhs first, each side in preorder.
pub open spec fn all_regions(sides: Pairing<Source>) -> Seq<Region> {
    match sides {
        Pairing::Both { lhs, rhs } => preorder(lhs.regions@) + preorder(rhs.regions@),
        Pairing::LeftOnly { lhs } => preorder(lhs.regions@),
        Pairing::RightOnly { rhs } => preorder(rhs.regions@),
    }
}

/// Every region of every present side, as [`all_regions`] says.
fn all_of(sides: &Pairing<Source>) -> (all: Vec<&Region>)
    ensures
        all@.map_values(|r: &Region| *r) == all_regions(*sides),
{
    match sides {
        Pairing::Both { lhs, rhs } => {
            let mut all = walk(lhs.regions.as_slice());
            let ghost first = all@;
            let mut more = walk(rhs.regions.as_slice());
            let ghost second = more@;
            all.append(&mut more);
            assert(all@ == first + second);
            assert(all@.map_values(|r: &Region| *r) =~= first.map_values(|r: &Region| *r) + second.map_values(
                |r: &Region| *r,
            ));
            all
        },
        Pairing::LeftOnly { lhs } => walk(lhs.regions.as_slice()),
        Pairing::RightOnly { rhs } => walk(rhs.regions.as_slice()),
    }
}

/// The sides with their texts left out: only regions are copied.
fn regions_only(sides: &Pairing<Source>) -> (copy: Pairing<Source>)
    ensures
        sources_trees(copy.present()) == sources_trees(sides.present()),
        copy.present().len() == sides.present().len(),
        forall|i: int| 0 <= i < copy.present().len() ==> (#[trigger] copy.present()[i]).text@.len() == 0,
{
    let copy = match sides {
        Pairing::Both { lhs, rhs } => Pairing::Both {
            lhs: Source { text: String::new(), regions: clone_regions(&lhs.regions) },
            rhs: Source { text: String::new(), regions: clone_regions(&rhs.regions) },
        },
        Pairing::LeftOnly { lhs } => Pairing::LeftOnly {
            lhs: Source { text: String::new(), regions: clone_regions(&lhs.regions) },
        },
        Pairing::RightOnly { rhs } => Pairing::RightOnly {
            rhs: Source { text: String::new(), regions: clone_regions(&rhs.regions) },
        },
    };
    assert(sources_trees(copy.present()) =~= sources_trees(sides.present()));
    copy
}

/// A plugin's moves so far, and the trees as they leave them.
pub struct Draft {
    /// The trees as the moves so far leave them. Only regions are copied.
    sides: Pairing<Source>,
    file: Visibility,
    applier: Applier,
    moves: Vec<Move>,
    start: Ghost<Board>,
}

impl Draft {
    /// The trees as the moves so far leave them.
    pub closed spec fn sides(&self) -> Pairing<Source> {
        self.sides
    }

    /// The moves so far, in order.
    pub closed spec fn moves(&self) -> Seq<Move> {
        self.moves@
    }

    /// The board the moves start from.
    pub closed spec fn start(&self) -> Board {
        self.start@
    }

    /// The board the moves so far leave.
    pub closed spec fn now(&self) -> Board {
        board(self.applier.next_ids(), self.sides, self.file)
    }

    /// The moves so far all succeed on the start, and leave the board the
    /// draft holds.
    pub closed spec fn wf(&self) -> bool {
        &&& steps(self.start@, self.moves@) == (Ok::<(), MoveError>(()), self.now())
        &&& self.sides.present().len() <= 2
    }

    /// What a well-formed draft holds: its moves all succeed on the start
    /// and leave the board it holds.
    pub proof fn lemma_wf(&self)
        requires
            self.wf(),
        ensures
            steps(self.start(), self.moves()) == (Ok::<(), MoveError>(()), self.now()),
            self.sides().present().len() <= 2,
    {
    }

    /// A draft of moves on `sides` as they are now.
    pub fn new(sides: &Pairing<Source>) -> (draft: Draft)
        requires
            fresh_id_of(sources_trees(sides.present())) <= u32::MAX,
            fresh_alignment_of(sources_trees(sides.present())) <= u32::MAX,
        ensures
            draft.wf(),
            draft.moves() == Seq::<Move>::empty(),
            draft.start() == (Board {
                fresh: Fresh {
                    id: fresh_id_of(sources_trees(sides.present())) as u32,
                    alignment: fresh_alignment_of(sources_trees(sides.present())) as u32,
                },
                trees: sources_trees(sides.present()),
                collapsed: false,
                label: Seq::empty(),
            }),
            draft.now() == draft.start(),
    {
        let copy = regions_only(sides);
        let applier = Applier::new(&copy);
        let file = Visibility::open_unlabelled();
        let ghost start = board(applier.next_ids(), copy, file);
        let draft = Draft { sides: copy, file, applier, moves: Vec::new(), start: Ghost(start) };
        assert(draft.file.label@ =~= Seq::<char>::empty());
        draft
    }

    /// Carry out `next` on the copy and keep it. A move the applier refuses
    /// is an error, as it would be in the pipeline, and so is one that would
    /// need an id past the largest a `u32` holds.
    pub fn push(&mut self, next: Move) -> (result: Result<(), MoveError>)
        requires
            old(self).wf(),
        ensures
            final(self).start() == old(self).start(),
            result is Ok ==> final(self).wf() && final(self).moves() == old(self).moves().push(next)
                && final(self).now() == step(old(self).now(), next).1,
            result matches Err(e) ==> (e == MoveError::OutOfIds && !room_for(
                old(self).now().fresh,
                next,
                old(self).sides().present().len() as int,
            )) || step(old(self).now(), next).0 == Err::<(), MoveError>(e),
            result is Ok <==> (room_for(old(self).now().fresh, next, old(self).sides().present().len() as int)
                && step(old(self).now(), next).0 is Ok),
    {
        if !self.applier.has_room(&next, &self.sides) {
            return Err(MoveError::OutOfIds);
        }
        let ghost before = self.now();
        let ghost old_sides = self.sides;
        let copy = copy_move(&next);
        proof {
            lemma_step_model(before, copy, next);
        }
        let result = self.applier.apply(copy, &mut self.sides, &mut self.file);
        match result {
            Ok(u) => {
                proof {
                    assert(u == ());
                    lemma_steps_push(self.start@, self.moves@, next);
                    lemma_same_sides(self.sides, old_sides);
                }
                self.moves.push(next);
                Ok(())
            },
            Err(e) => Err(e),
        }
    }

    /// The moves made, in order.
    pub fn into_moves(self) -> (moves: Vec<Move>)
        ensures
            moves@ == self.moves(),
    {
        self.moves
    }
}

/// Labelling a region that exists succeeds, and moves no region.
pub proof fn lemma_label_step(b: Board, region: u32, label: Option<String>)
    ensures
        (region == ROOT || locate(b.trees, region) is Some) ==> step(b, Move::SetLabel { region, label }).0 is Ok,
        step(b, Move::SetLabel { region, label }).0 is Ok ==> same_places(
            b.trees,
            step(b, Move::SetLabel { region, label }).1.trees,
        ),
{
    let f = |r: RegionModel| RegionModel { label: label_of(label), ..r };
    lemma_locate_leads(b.trees, region);
    if region != ROOT {
        assert forall|r: RegionModel| #[trigger] alike(r, f(r)) by {
            lemma_relabel_alike(r, label_of(label));
        }
        if edit_region(b.trees, region, f) is Some {
            lemma_edit_keeps_places(b.trees, region, f);
        }
    }
}

/// Collapsing a region that exists succeeds, and moves no region.
pub proof fn lemma_collapse_step(b: Board, region: u32, collapsed: bool)
    ensures
        (region == ROOT || lookup(b.trees, region) is Some) ==> step(
            b,
            Move::SetCollapsed { region, collapsed },
        ).0 is Ok,
        step(b, Move::SetCollapsed { region, collapsed }).0 is Ok ==> same_places(
            b.trees,
            step(b, Move::SetCollapsed { region, collapsed }).1.trees,
        ),
{
    if region != ROOT {
        if let Some(r) = lookup(b.trees, region) {
            let f = collapse_in(r.fold_state_id, collapsed);
            assert forall|x: RegionModel| #[trigger] f(x).id == x.id by {}
            lemma_map_trees_places(b.trees, f);
        }
    }
}

/// Linking regions that all exist, two or more distinct ones and none the
/// file, succeeds, and moves no region.
pub proof fn lemma_link_step(b: Board, regions: Vec<u32>)
    ensures
        (list_error(regions@, ListMove::Link) is None && first_missing(b.trees, regions@) is None) ==> step(
            b,
            Move::LinkFoldState { regions },
        ).0 is Ok,
        step(b, Move::LinkFoldState { regions }).0 is Ok ==> same_places(
            b.trees,
            step(b, Move::LinkFoldState { regions }).1.trees,
        ),
{
    if list_error(regions@, ListMove::Link) is None && first_missing(b.trees, regions@) is None {
        assert(lookup(b.trees, regions@[0]) is Some);
        let first = lookup(b.trees, regions@[0])->0;
        let f = link_into(states_of(b.trees, regions@), first.fold_state_id, first.collapsed);
        assert forall|x: RegionModel| #[trigger] f(x).id == x.id by {}
        lemma_map_trees_places(b.trees, f);
    }
}

/// Every region of the sides is located in their trees.
proof fn lemma_all_regions_located(sides: Pairing<Source>, k: int)
    requires
        0 <= k < all_regions(sides).len(),
    ensures
        locate(sources_trees(sides.present()), all_regions(sides)[k].id) is Some,
{
    let trees = sources_trees(sides.present());
    let id = all_regions(sides)[k].id;
    match sides {
        Pairing::Both { lhs, rhs } => {
            assert(trees[0] == regions_model(lhs.regions@));
            assert(trees[1] == regions_model(rhs.regions@));
            let left = preorder(lhs.regions@);
            if k < left.len() {
                assert(all_regions(sides)[k] == left[k]);
                lemma_found_in_preorder(lhs.regions@, k);
                lemma_located(trees, 0, id);
            } else {
                assert(all_regions(sides)[k] == preorder(rhs.regions@)[k - left.len()]);
                lemma_found_in_preorder(rhs.regions@, k - left.len());
                lemma_located(trees, 1, id);
            }
        },
        Pairing::LeftOnly { lhs } => {
            assert(trees[0] == regions_model(lhs.regions@));
            lemma_found_in_preorder(lhs.regions@, k);
            lemma_located(trees, 0, id);
        },
        Pairing::RightOnly { rhs } => {
            assert(trees[0] == regions_model(rhs.regions@));
            lemma_found_in_preorder(rhs.regions@, k);
            lemma_located(trees, 0, id);
        },
    }
}

/// Every id `ids_where` picks is the id of one of the regions it looked at.
proof fn lemma_ids_where_from(all: Seq<Region>, pred: spec_fn(Region) -> bool)
    ensures
        forall|j: int|
            0 <= j < ids_where(all, pred).len() ==> exists|k: int| 0 <= k < all.len() && all[k].id == #[trigger] ids_where(all, pred)[j],
    decreases all.len(),
{
    if all.len() > 0 {
        lemma_ids_where_from(all.drop_last(), pred);
        let rest = ids_where(all.drop_last(), pred);
        assert forall|j: int|
            0 <= j < ids_where(all, pred).len() implies exists|k: int| 0 <= k < all.len() && all[k].id == #[trigger] ids_where(all, pred)[j] by {
            if j < rest.len() {
                assert(ids_where(all, pred)[j] == rest[j]);
                let k = choose|k: int| 0 <= k < all.drop_last().len() && all.drop_last()[k].id == rest[j];
                assert(all[k] == all.drop_last()[k]);
            } else {
                assert(all[all.len() - 1].id == ids_where(all, pred)[j]);
            }
        }
    }
}

/// Every id `ids_where` picks from the sides' regions is located in their
/// trees.
proof fn lemma_picked_located(sides: Pairing<Source>, pred: spec_fn(Region) -> bool)
    ensures
        forall|j: int|
            0 <= j < ids_where(all_regions(sides), pred).len() ==> locate(
                sources_trees(sides.present()),
                #[trigger] ids_where(all_regions(sides), pred)[j],
            ) is Some,
{
    let all = all_regions(sides);
    lemma_ids_where_from(all, pred);
    assert forall|j: int| 0 <= j < ids_where(all, pred).len() implies locate(
        sources_trees(sides.present()),
        #[trigger] ids_where(all, pred)[j],
    ) is Some by {
        let k = choose|k: int| 0 <= k < all.len() && all[k].id == ids_where(all, pred)[j];
        lemma_all_regions_located(sides, k);
    }
}

/// The ids, in order, of the regions `pred` accepts.
pub open spec fn ids_where(all: Seq<Region>, pred: spec_fn(Region) -> bool) -> Seq<u32>
    decreases all.len(),
{
    if all.len() == 0 {
        Seq::empty()
    } else {
        let rest = ids_where(all.drop_last(), pred);
        if pred(all.last()) {
            rest.push(all.last().id)
        } else {
            rest
        }
    }
}

/// A leaf's row alignment; a fold has none.
pub open spec fn alignment_of(r: RegionModel) -> Option<u32> {
    match r.node {
        NodeModel::Leaf { alignment_id, .. } => Some(alignment_id),
        NodeModel::Fold { .. } => None,
    }
}

/// Another region that pairs with a leaf of alignment `alignment`.
pub open spec fn pairs_with(id: u32, alignment: Option<u32>) -> spec_fn(Region) -> bool {
    |r: Region| r.id != id && alignment is Some && r.alignment() == alignment
}

/// Another region in fold state `state` that pairs with the leaf.
pub open spec fn named_by(id: u32, state: u32, alignment: Option<u32>) -> spec_fn(Region) -> bool {
    |r: Region| r.fold_state_id == state && pairs_with(id, alignment)(r)
}

/// Another region in fold state `state`, not paired with the leaf, open
/// and labelled.
pub open spec fn cleared_by(id: u32, state: u32, alignment: Option<u32>) -> spec_fn(Region) -> bool {
    |r: Region|
        r.fold_state_id == state && r.id != id && !pairs_with(id, alignment)(r) && !r.visibility.collapsed
            && r.visibility.label@.len() > 0
}

/// A region in one of `states`, open and labelled.
pub open spec fn opened_in(states: Seq<u32>) -> spec_fn(Region) -> bool {
    |r: Region| states.contains(r.fold_state_id) && !r.visibility.collapsed && r.visibility.label@.len() > 0
}

/// A label's text, if it is set.
pub open spec fn label_view(label: Option<String>) -> Option<Seq<char>> {
    match label {
        Some(l) => Some(l@),
        None => None,
    }
}

/// Set or clear the label of each region.
pub open spec fn label_moves(ids: Seq<u32>, label: Option<Seq<char>>) -> Seq<MoveModel> {
    ids.map_values(|region: u32| MoveModel::SetLabel { region, label })
}

/// The ids of the regions the test accepts, as [`ids_where`] says.
fn collect_ids(all: &Vec<&Region>, test: &RegionTest) -> (ids: Vec<u32>)
    ensures
        ids@ == ids_where(all@.map_values(|r: &Region| *r), test_spec(*test)),
{
    let ghost seen = all@.map_values(|r: &Region| *r);
    let mut ids: Vec<u32> = Vec::new();
    let mut i: usize = 0;
    while i < all.len()
        invariant
            i <= all@.len(),
            seen == all@.map_values(|r: &Region| *r),
            ids@ == ids_where(seen.take(i as int), test_spec(*test)),
        decreases all@.len() - i,
    {
        let region = all[i];
        assert(seen.take(i + 1).drop_last() =~= seen.take(i as int));
        assert(seen.take(i + 1).last() == *region);
        if passes(region, test) {
            ids.push(region.id);
        }
        i += 1;
    }
    assert(seen.take(seen.len() as int) =~= seen);
    ids
}

/// Which regions a collection picks.
enum RegionTest {
    Paired { id: u32, alignment: Option<u32> },
    Named { id: u32, state: u32, alignment: Option<u32> },
    Cleared { id: u32, state: u32, alignment: Option<u32> },
    Opened { states: Vec<u32> },
}

spec fn test_spec(test: RegionTest) -> spec_fn(Region) -> bool {
    match test {
        RegionTest::Paired { id, alignment } => pairs_with(id, alignment),
        RegionTest::Named { id, state, alignment } => named_by(id, state, alignment),
        RegionTest::Cleared { id, state, alignment } => cleared_by(id, state, alignment),
        RegionTest::Opened { states } => opened_in(states@),
    }
}

/// Whether `states` holds `state`.
fn holds(states: &Vec<u32>, state: u32) -> (found: bool)
    ensures
        found == states@.contains(state),
{
    let mut i: usize = 0;
    while i < states.len()
        invariant
            i <= states@.len(),
            forall|k: int| 0 <= k < i ==> states@[k] != state,
        decreases states@.len() - i,
    {
        if states[i] == state {
            assert(states@[i as int] == state);
            return true;
        }
        i += 1;
    }
    false
}

fn passes(region: &Region, test: &RegionTest) -> (yes: bool)
    ensures
        yes == test_spec(*test)(*region),
{
    match test {
        RegionTest::Paired { id, alignment } => {
            region.id != *id && alignment.is_some() && region.alignment_id() == *alignment
        },
        RegionTest::Named { id, state, alignment } => {
            region.fold_state_id == *state && region.id != *id && alignment.is_some() && region.alignment_id()
                == *alignment
        },
        RegionTest::Cleared { id, state, alignment } => {
            let paired = region.id != *id && alignment.is_some() && region.alignment_id() == *alignment;
            region.fold_state_id == *state && region.id != *id && !paired && !region.visibility.collapsed
                && region.visibility.label.as_str().unicode_len() > 0
        },
        RegionTest::Opened { states } => {
            holds(states, region.fold_state_id) && !region.visibility.collapsed && region.visibility.label.as_str().unicode_len()
                > 0
        },
    }
}

impl Draft {
    /// Push a label move for each region, in order.
    fn push_labels(&mut self, ids: &Vec<u32>, label: &Option<String>) -> (result: Result<(), MoveError>)
        requires
            old(self).wf(),
        ensures
            final(self).start() == old(self).start(),
            result is Ok ==> final(self).wf() && moves_model(final(self).moves()) == moves_model(
                old(self).moves(),
            ) + label_moves(ids@, label_view(*label)) && same_places(old(self).now().trees, final(self).now().trees),
            (forall|j: int| 0 <= j < ids@.len() ==> ids@[j] == ROOT || locate(old(self).now().trees, #[trigger] ids@[j]) is Some)
                ==> result is Ok,
    {
        let ghost given = label_view(*label);
        let ghost before = moves_model(self.moves());
        let ghost trees = self.now().trees;
        let mut i: usize = 0;
        while i < ids.len()
            invariant
                i <= ids@.len(),
                self.wf(),
                self.start() == old(self).start(),
                before == moves_model(old(self).moves()),
                given == label_view(*label),
                trees == old(self).now().trees,
                moves_model(self.moves()) == before + label_moves(ids@.take(i as int), given),
                same_places(trees, self.now().trees),
            decreases ids@.len() - i,
        {
            let copy = match label {
                Some(l) => Some(l.clone()),
                None => None,
            };
            let next = Move::SetLabel { region: ids[i], label: copy };
            let ghost pushed = moves_model(self.moves());
            let ghost now = self.now();
            proof {
                lemma_label_step(now, ids@[i as int], copy);
                lemma_same_places_locate(trees, now.trees, ids@[i as int]);
            }
            self.push(next)?;
            proof {
                lemma_same_places_trans(trees, now.trees, self.now().trees);
            }
            assert(moves_model(self.moves()) =~= pushed.push(move_model(next)));
            assert(label_moves(ids@.take(i + 1), given) =~= label_moves(ids@.take(i as int), given).push(
                MoveModel::SetLabel { region: ids@[i as int], label: given },
            ));
            i += 1;
        }
        assert(ids@.take(ids@.len() as int) =~= ids@);
        Ok(())
    }
}

/// The moves [`Draft::collapse`] makes: collapse the region, label it and
/// the leaves paired with it in its fold state, and clear the labels of the
/// other open regions there.
pub open spec fn collapse_moves(all: Seq<Region>, id: u32, label: Seq<char>, target: RegionModel) -> Seq<MoveModel> {
    let state = target.fold_state_id;
    let alignment = alignment_of(target);
    seq![MoveModel::SetCollapsed { region: id, collapsed: true }] + label_moves(
        seq![id] + ids_where(all, named_by(id, state, alignment)),
        Some(label),
    ) + label_moves(ids_where(all, cleared_by(id, state, alignment)), None)
}

/// The fold states of the regions `ids` name.
pub open spec fn states_of_ids(trees: Seq<Seq<RegionModel>>, ids: Seq<u32>) -> Seq<u32> {
    ids.map_values(
        |id: u32|
            match lookup(trees, id) {
                Some(r) => r.fold_state_id,
                None => 0,
            },
    )
}

/// Whether a region in one of `states` starts collapsed.
pub open spec fn any_collapsed(all: Seq<Region>, states: Seq<u32>) -> bool {
    exists|k: int| 0 <= k < all.len() && states.contains(#[trigger] all[k].fold_state_id) && all[k].visibility.collapsed
}

/// The moves [`Draft::link`] makes: the link, and when a region in the
/// linked fold states starts collapsed, collapse the first region if it
/// starts open, and clear the labels of the open regions there.
pub open spec fn link_moves(trees: Seq<Seq<RegionModel>>, all: Seq<Region>, ids: Seq<u32>) -> Seq<MoveModel> {
    let states = states_of_ids(trees, ids);
    let first_collapsed = match lookup(trees, ids[0]) {
        Some(r) => r.collapsed,
        None => false,
    };
    seq![MoveModel::LinkFoldState { regions: ids }] + if any_collapsed(all, states) {
        (if first_collapsed {
            Seq::empty()
        } else {
            seq![MoveModel::SetCollapsed { region: ids[0], collapsed: true }]
        }) + label_moves(ids_where(all, opened_in(states)), None)
    } else {
        Seq::empty()
    }
}

impl Draft {
    /// The leaf on the other side whose rows pair with the leaf `id`.
    pub fn paired_leaf(&self, id: u32) -> (paired: Result<Option<u32>, MoveError>)
        ensures
            match lookup(self.now().trees, id) {
                Some(target) => paired == Ok::<Option<u32>, MoveError>(
                    {
                        let found = ids_where(all_regions(self.sides()), pairs_with(id, alignment_of(target)));
                        if found.len() == 0 {
                            None
                        } else {
                            Some(found.last())
                        }
                    },
                ),
                None => paired == Err::<Option<u32>, MoveError>(MoveError::NoRegion(id)),
            },
    {
        let target = region_of(&self.sides, id)?;
        let alignment = target.alignment_id();
        let all = all_of(&self.sides);
        let found = collect_ids(&all, &RegionTest::Paired { id, alignment });
        if found.len() == 0 {
            Ok(None)
        } else {
            Ok(Some(found[found.len() - 1]))
        }
    }

    /// Start `id` collapsed behind `label`, and with it every region in its
    /// fold state. The leaf paired with a leaf `id` takes the label too. Any
    /// other region in the fold state that was open loses its label, so it
    /// reads as part of `id`'s row rather than as its own placeholder.
    pub fn collapse(&mut self, id: u32, label: String) -> (result: Result<(), MoveError>)
        requires
            old(self).wf(),
        ensures
            final(self).start() == old(self).start(),
            lookup(old(self).now().trees, id) is None ==> result == Err::<(), MoveError>(MoveError::NoRegion(id))
                && *final(self) == *old(self),
            result is Ok ==> final(self).wf() && (lookup(old(self).now().trees, id) matches Some(target)
                && moves_model(final(self).moves()) == moves_model(old(self).moves()) + collapse_moves(
                all_regions(old(self).sides()),
                id,
                label@,
                target,
            )) && same_places(old(self).now().trees, final(self).now().trees),
            lookup(old(self).now().trees, id) is Some ==> result is Ok,
            result is Ok ==> final(self).moves().len() > old(self).moves().len(),
            result is Ok ==> extends(moves_model(old(self).moves()), moves_model(final(self).moves())),
            result is Ok ==> collapses_one(moves_model(final(self).moves())),
            result is Ok ==> moves_model(final(self).moves()).contains(MoveModel::SetCollapsed { region: id, collapsed: true }),
    {
        let ghost trees = self.now().trees;
        let ghost sides = self.sides;
        let (state, alignment) = {
            let target = region_of(&self.sides, id)?;
            (target.fold_state_id, target.alignment_id())
        };
        let ghost all = all_regions(self.sides);
        let (named, cleared) = {
            let regions = all_of(&self.sides);
            let mut named: Vec<u32> = Vec::new();
            named.push(id);
            let mut paired = collect_ids(&regions, &RegionTest::Named { id, state, alignment });
            named.append(&mut paired);
            let cleared = collect_ids(&regions, &RegionTest::Cleared { id, state, alignment });
            (named, cleared)
        };
        let ghost start = moves_model(self.moves());
        proof {
            lemma_collapse_step(self.now(), id, true);
            lemma_picked_located(sides, named_by(id, state, alignment));
            lemma_picked_located(sides, cleared_by(id, state, alignment));
            lemma_locate_leads(trees, id);
            assert(named@ =~= seq![id] + ids_where(all, named_by(id, state, alignment)));
        }
        self.push(Move::SetCollapsed { region: id, collapsed: true })?;
        let ghost collapsed_trees = self.now().trees;
        proof {
            assert forall|j: int| 0 <= j < named@.len() implies named@[j] == ROOT || locate(
                collapsed_trees,
                #[trigger] named@[j],
            ) is Some by {
                lemma_same_places_locate(trees, collapsed_trees, named@[j]);
                if j > 0 {
                    assert(named@[j] == ids_where(all, named_by(id, state, alignment))[j - 1]);
                }
            }
        }
        self.push_labels(&named, &Some(label))?;
        let ghost labelled_trees = self.now().trees;
        proof {
            lemma_same_places_trans(trees, collapsed_trees, labelled_trees);
            assert forall|j: int| 0 <= j < cleared@.len() implies cleared@[j] == ROOT || locate(
                labelled_trees,
                #[trigger] cleared@[j],
            ) is Some by {
                lemma_same_places_locate(trees, labelled_trees, cleared@[j]);
            }
        }
        self.push_labels(&cleared, &None)?;
        proof {
            lemma_same_places_trans(trees, labelled_trees, self.now().trees);
            assert(named@ =~= seq![id] + ids_where(all, named_by(id, state, alignment)));
            let extra = collapse_moves(all, id, label@, lookup(old(self).now().trees, id)->0);
            assert(moves_model(self.moves()) =~= start + extra);
            lemma_extends_concat(start, extra);
            assert(moves_model(self.moves())[start.len() as int] == extra[0]);
            assert(is_collapse(moves_model(self.moves())[start.len() as int]));
            assert(moves_model(self.moves())[start.len() as int] == MoveModel::SetCollapsed { region: id, collapsed: true });
        }
        Ok(())
    }

    /// Open and close `ids` together, collapsed if any region in their fold
    /// states starts collapsed. A region that was open and so starts
    /// collapsed loses its label, as in [`Draft::collapse`].
    pub fn link(&mut self, ids: &Vec<u32>) -> (result: Result<(), MoveError>)
        requires
            old(self).wf(),
            ids@.len() > 0,
        ensures
            final(self).start() == old(self).start(),
            crate::apply::first_missing(old(self).now().trees, ids@) matches Some(missing) ==> result == Err::<
                (),
                MoveError,
            >(MoveError::NoRegion(missing)) && *final(self) == *old(self),
            result is Ok ==> final(self).wf() && moves_model(final(self).moves()) == moves_model(
                old(self).moves(),
            ) + link_moves(old(self).now().trees, all_regions(old(self).sides()), ids@) && same_places(
                old(self).now().trees,
                final(self).now().trees,
            ),
            list_error(ids@, ListMove::Link) is None && first_missing(old(self).now().trees, ids@) is None ==> result is Ok,
    {
        let ghost trees = self.now().trees;
        let ghost all = all_regions(self.sides);
        let ghost sides = self.sides;
        let mut states: Vec<u32> = Vec::new();
        let mut i: usize = 0;
        assert(ids@.skip(0) =~= ids@);
        while i < ids.len()
            invariant
                i <= ids@.len(),
                trees == self.now().trees,
                trees == sources_trees(self.sides.present()),
                crate::apply::first_missing(trees, ids@) == crate::apply::first_missing(trees, ids@.skip(i as int)),
                states@ == states_of_ids(trees, ids@.take(i as int)),
            decreases ids@.len() - i,
        {
            assert(ids@.skip(i as int)[0] == ids@[i as int]);
            assert(ids@.skip(i as int).drop_first() =~= ids@.skip(i + 1));
            let region = region_of(&self.sides, ids[i])?;
            states.push(region.fold_state_id);
            assert(states_of_ids(trees, ids@.take(i + 1)) =~= states_of_ids(trees, ids@.take(i as int)).push(
                region.fold_state_id,
            ));
            i += 1;
        }
        assert(ids@.take(ids@.len() as int) =~= ids@);
        let first_collapsed = region_of(&self.sides, ids[0])?.visibility.collapsed;
        let (collapsed, cleared) = {
            let regions = all_of(&self.sides);
            let ghost seen = regions@.map_values(|r: &Region| *r);
            let mut collapsed = false;
            let mut k: usize = 0;
            while k < regions.len()
                invariant
                    k <= regions@.len(),
                    seen == regions@.map_values(|r: &Region| *r),
                    collapsed == exists|j: int| 0 <= j < k && states@.contains(#[trigger] seen[j].fold_state_id)
                        && seen[j].visibility.collapsed,
                decreases regions@.len() - k,
            {
                let region = regions[k];
                assert(seen[k as int] == *region);
                if holds(&states, region.fold_state_id) && region.visibility.collapsed {
                    collapsed = true;
                }
                k += 1;
            }
            let cleared = collect_ids(&regions, &RegionTest::Opened { states: copy_ids(&states) });
            (collapsed, cleared)
        };
        let ghost start = moves_model(self.moves());
        let regions = copy_ids(ids);
        proof {
            lemma_link_step(self.now(), regions);
            lemma_picked_located(sides, opened_in(states@));
            lemma_locate_leads(trees, ids@[0]);
        }
        self.push(Move::LinkFoldState { regions })?;
        let ghost linked_trees = self.now().trees;
        proof {
            lemma_same_places_locate(trees, linked_trees, ids@[0]);
            lemma_locate_leads(linked_trees, ids@[0]);
        }
        if collapsed {
            if !first_collapsed {
                proof {
                    lemma_collapse_step(self.now(), ids@[0], true);
                }
                self.push(Move::SetCollapsed { region: ids[0], collapsed: true })?;
            }
            let ghost before_labels = self.now().trees;
            proof {
                lemma_same_places_trans(trees, linked_trees, before_labels);
                assert forall|j: int| 0 <= j < cleared@.len() implies cleared@[j] == ROOT || locate(
                    before_labels,
                    #[trigger] cleared@[j],
                ) is Some by {
                    lemma_same_places_locate(trees, before_labels, cleared@[j]);
                }
            }
            self.push_labels(&cleared, &None)?;
            proof {
                lemma_same_places_trans(trees, before_labels, self.now().trees);
            }
        }
        proof {
            assert(moves_model(self.moves()) =~= start + link_moves(trees, all, ids@));
        }
        Ok(())
    }
}

/// The first index in `siblings` of the region with this `id`.
pub open spec fn index_of(siblings: Seq<Region>, id: u32) -> Option<int>
    decreases siblings.len(),
{
    if siblings.len() == 0 {
        None
    } else if siblings[0].id == id {
        Some(0)
    } else {
        match index_of(siblings.drop_first(), id) {
            Some(k) => Some(k + 1),
            None => None,
        }
    }
}

/// The `id` of the region just after `id` among its siblings, on the first
/// side, lhs first, where it has one.
pub open spec fn next_sibling_of(sources: Seq<Source>, id: u32) -> Option<u32>
    decreases sources.len(),
{
    if sources.len() == 0 {
        None
    } else {
        let here = match siblings_spec(sources[0].regions@, id) {
            Some(siblings) => match index_of(siblings, id) {
                Some(k) => if k + 1 < siblings.len() {
                    Some(siblings[k + 1].id)
                } else {
                    None
                },
                None => None,
            },
            None => None,
        };
        match here {
            Some(next) => Some(next),
            None => next_sibling_of(sources.drop_first(), id),
        }
    }
}

/// The `id` of the region just after `id` in `siblings`, if there is one.
fn next_in(siblings: &[Region], id: u32) -> (next: Option<u32>)
    ensures
        next == match index_of(siblings@, id) {
            Some(k) => if k + 1 < siblings@.len() {
                Some(siblings@[k + 1].id)
            } else {
                None
            },
            None => None,
        },
{
    let mut i: usize = 0;
    assert(siblings@.skip(0) =~= siblings@);
    while i < siblings.len()
        invariant
            i <= siblings@.len(),
            index_of(siblings@, id) == match index_of(siblings@.skip(i as int), id) {
                Some(k) => Some(k + i),
                None => None,
            },
        decreases siblings@.len() - i,
    {
        assert(siblings@.skip(i as int)[0] == siblings@[i as int]);
        assert(siblings@.skip(i as int).drop_first() =~= siblings@.skip(i + 1));
        if siblings[i].id == id {
            if i + 1 < siblings.len() {
                return Some(siblings[i + 1].id);
            }
            return None;
        }
        i += 1;
    }
    None
}

/// The moves [`Draft::cut_lines`] makes: a cut at `start` when lines come
/// before it, and a cut of the piece at `end` when lines come after.
pub open spec fn cut_lines_moves(id: u32, piece: u32, start: u32, end: u32, len: nat) -> Seq<MoveModel> {
    (if start > 0 {
        seq![MoveModel::Cut { region: id, at: start }]
    } else {
        Seq::empty()
    }) + (if end < len {
        seq![MoveModel::Cut { region: piece, at: (end - start) as u32 }]
    } else {
        Seq::empty()
    })
}

impl Draft {
    /// The `id` of the region just after `id` among its siblings.
    fn next_sibling(&self, id: u32) -> (next: Result<u32, MoveError>)
        ensures
            match next_sibling_of(self.sides().present(), id) {
                Some(n) => next == Ok::<u32, MoveError>(n),
                None => next == Err::<u32, MoveError>(MoveError::NoNextSibling(id)),
            },
    {
        let ghost sources = self.sides.present();
        let trees = crate::apply::trees_ref(&self.sides);
        let mut k: usize = 0;
        assert(sources.skip(0) =~= sources);
        while k < trees.len()
            invariant
                k <= trees@.len(),
                trees@.len() == sources.len(),
                sources == self.sides.present(),
                forall|i: int| 0 <= i < trees@.len() ==> (#[trigger] trees@[i])@ == sources[i].regions@,
                next_sibling_of(sources, id) == next_sibling_of(sources.skip(k as int), id),
            decreases trees@.len() - k,
        {
            assert(sources.skip(k as int)[0] == sources[k as int]);
            assert(sources.skip(k as int).drop_first() =~= sources.skip(k + 1));
            if let Some(siblings) = siblings_of(trees[k], id) {
                if let Some(next) = next_in(siblings, id) {
                    return Ok(next);
                }
            }
            k += 1;
        }
        Err(MoveError::NoNextSibling(id))
    }

    /// Cut the lines `start..end`, relative to the leaf `id`'s first line
    /// and half-open, out of it (and so out of the leaf paired with it),
    /// returning the `id` of the piece on `id`'s side that holds them. The
    /// leaf keeps its `id` for the lines before `start`.
    pub fn cut_lines(&mut self, id: u32, start: u32, end: u32) -> (result: Result<u32, MoveError>)
        requires
            old(self).wf(),
        ensures
            final(self).start() == old(self).start(),
            match lookup(old(self).now().trees, id) {
                None => result == Err::<u32, MoveError>(MoveError::NoRegion(id)) && *final(self) == *old(self),
                Some(leaf) => {
                    &&& leaf.node is Fold ==> result == Err::<u32, MoveError>(MoveError::FoldToLines(id))
                        && *final(self) == *old(self)
                    &&& (leaf.node is Leaf && !(start < end && end <= leaf.range.line_len())) ==> result
                        == Err::<u32, MoveError>(
                        MoveError::LinesOutside { start, end, region: id, lines: leaf.range.line_len() as u64 },
                    ) && *final(self) == *old(self)
                    &&& result matches Ok(piece) ==> final(self).wf() && (start == 0 ==> piece == id)
                        && final(self).moves().len() >= old(self).moves().len()
                        && extends(moves_model(old(self).moves()), moves_model(final(self).moves()))
                        && moves_model(final(self).moves()) == moves_model(old(self).moves()) + cut_lines_moves(
                        id,
                        piece,
                        start,
                        end,
                        leaf.range.line_len(),
                    )
                },
            },
    {
        let (is_leaf, len) = {
            let leaf = region_of(&self.sides, id)?;
            (leaf.alignment_id().is_some(), line_len_of(&leaf.range))
        };
        if !is_leaf {
            return Err(MoveError::FoldToLines(id));
        }
        if !(start < end && (end as u64) <= len) {
            return Err(MoveError::LinesOutside { start, end, region: id, lines: len });
        }
        let ghost before = moves_model(self.moves());
        let mut piece = id;
        if start > 0 {
            self.push(Move::Cut { region: id, at: start })?;
            piece = self.next_sibling(id)?;
        }
        if (end as u64) < len {
            self.push(Move::Cut { region: piece, at: end - start })?;
        }
        assert(moves_model(self.moves()) =~= before + cut_lines_moves(
            id,
            piece,
            start,
            end,
            len as nat,
        ));
        proof {
            lemma_extends_concat(before, cut_lines_moves(id, piece, start, end, len as nat));
        }
        Ok(piece)
    }
}

/// How many lines a range touches.
fn line_len_of(range: &crate::types::Range) -> (len: u64)
    ensures
        len == range.line_len(),
{
    let end: u64 = if range.end.column == 0 {
        range.end.line as u64
    } else {
        range.end.line as u64 + 1
    };
    if end >= range.start.line as u64 {
        end - range.start.line as u64
    } else {
        0
    }
}

/// The last fold in preorder with a child among `ids`.
pub open spec fn wrapper_in(t: Seq<RegionModel>, ids: Seq<u32>) -> Option<u32>
    decreases t,
{
    if t.len() == 0 {
        None
    } else {
        let before = wrapper_in(t.drop_last(), ids);
        let r = t.last();
        match r.node {
            NodeModel::Fold { children } => match wrapper_in(children, ids) {
                Some(inner) => Some(inner),
                None => if exists|k: int| 0 <= k < children.len() && ids.contains(#[trigger] children[k].id) {
                    Some(r.id)
                } else {
                    before
                },
            },
            NodeModel::Leaf { .. } => before,
        }
    }
}

/// The folds each side wraps `ids` in, lhs first.
pub open spec fn wrappers(trees: Seq<Seq<RegionModel>>, ids: Seq<u32>) -> Seq<u32>
    decreases trees.len(),
{
    if trees.len() == 0 {
        Seq::empty()
    } else {
        let rest = wrappers(trees.drop_last(), ids);
        match wrapper_in(trees.last(), ids) {
            Some(fold) => rest.push(fold),
            None => rest,
        }
    }
}

/// A search finds something in a list when it finds it at one of its
/// regions or under one.
proof fn lemma_path_found(t: Seq<RegionModel>, pred: spec_fn(RegionModel) -> bool, i: int)
    requires
        0 <= i < t.len(),
        pred(t[i]) || (t[i].node matches NodeModel::Fold { children } && path_where_m(children, pred) is Some),
    ensures
        path_where_m(t, pred) is Some,
    decreases t.len(),
{
    if i < t.len() - 1 {
        assert(t.drop_last()[i] == t[i]);
        lemma_path_found(t.drop_last(), pred, i);
    }
}

/// The fold a side wraps the ids in is a region of that side.
proof fn lemma_wrapper_found(t: Seq<RegionModel>, ids: Seq<u32>)
    ensures
        wrapper_in(t, ids) matches Some(f) ==> path_where_m(t, has_id(f)) is Some,
    decreases t,
{
    if t.len() > 0 {
        let r = t.last();
        let last = t.len() - 1;
        assert(t[last] == r);
        lemma_wrapper_found(t.drop_last(), ids);
        if let NodeModel::Fold { children } = r.node {
            assert(decreases_to!(t => t[last]));
            lemma_wrapper_found(children, ids);
            if let Some(inner) = wrapper_in(children, ids) {
                lemma_path_found(t, has_id(inner), last);
            } else if exists|k: int| 0 <= k < children.len() && ids.contains(#[trigger] children[k].id) {
                assert(has_id(r.id)(t[last]));
                lemma_path_found(t, has_id(r.id), last);
            }
        }
    }
}

/// Every fold the sides wrap the ids in is a region of one of the sides.
proof fn lemma_wrappers_located(trees: Seq<Seq<RegionModel>>, ids: Seq<u32>)
    ensures
        forall|j: int| 0 <= j < wrappers(trees, ids).len() ==> lookup(trees, #[trigger] wrappers(trees, ids)[j]) is Some,
    decreases trees.len(),
{
    if trees.len() > 0 {
        let front = trees.drop_last();
        let last = trees.len() - 1;
        lemma_wrappers_found(trees, ids);
        assert forall|j: int| 0 <= j < wrappers(trees, ids).len() implies lookup(
            trees,
            #[trigger] wrappers(trees, ids)[j],
        ) is Some by {
            let x = wrappers(trees, ids)[j];
            let k = choose|k: int| 0 <= k < trees.len() && path_where_m(trees[k], has_id(x)) is Some;
            lemma_located(trees, k, x);
            lemma_locate_leads(trees, x);
        }
    }
}

/// Every fold the sides wrap the ids in is found on some side.
proof fn lemma_wrappers_found(trees: Seq<Seq<RegionModel>>, ids: Seq<u32>)
    ensures
        forall|j: int|
            0 <= j < wrappers(trees, ids).len() ==> exists|k: int|
                0 <= k < trees.len() && path_where_m(trees[k], has_id(#[trigger] wrappers(trees, ids)[j])) is Some,
    decreases trees.len(),
{
    if trees.len() > 0 {
        let front = trees.drop_last();
        let last = trees.len() - 1;
        lemma_wrappers_found(front, ids);
        lemma_wrapper_found(trees.last(), ids);
        let rest = wrappers(front, ids);
        assert forall|j: int| 0 <= j < wrappers(trees, ids).len() implies exists|k: int|
            0 <= k < trees.len() && path_where_m(trees[k], has_id(#[trigger] wrappers(trees, ids)[j])) is Some by {
            if j < rest.len() {
                assert(wrappers(trees, ids)[j] == rest[j]);
                let k = choose|k: int| 0 <= k < front.len() && path_where_m(front[k], has_id(#[trigger] rest[j])) is Some;
                assert(front[k] == trees[k]);
            } else {
                assert(trees[last] == trees.last());
            }
        }
    }
}

/// The moves [`Draft::group`] makes after its join: collapse the first new
/// fold, which collapses the others with it, and label them all.
pub open spec fn group_moves(folds: Seq<u32>, label: Seq<char>) -> Seq<MoveModel> {
    if folds.len() == 0 {
        Seq::empty()
    } else {
        seq![MoveModel::SetCollapsed { region: folds[0], collapsed: true }] + label_moves(folds, Some(label))
    }
}

/// Whether one of the regions has an id among `ids`.
fn holds_child(children: &Vec<Region>, ids: &Vec<u32>) -> (found: bool)
    ensures
        found == exists|k: int| 0 <= k < children@.len() && ids@.contains(#[trigger] children@[k].id),
{
    let mut i: usize = 0;
    while i < children.len()
        invariant
            i <= children@.len(),
            forall|k: int| 0 <= k < i ==> !ids@.contains(#[trigger] children@[k].id),
        decreases children@.len() - i,
    {
        if holds(ids, children[i].id) {
            return true;
        }
        i += 1;
    }
    false
}

/// The last fold in preorder with a child among `ids`, as [`wrapper_in`]
/// says.
fn wrapper_of(regions: &[Region], ids: &Vec<u32>) -> (fold: Option<u32>)
    ensures
        fold == wrapper_in(regions_model(regions@), ids@),
    decreases regions@,
{
    let ghost t = regions_model(regions@);
    let mut found: Option<u32> = None;
    let mut i: usize = 0;
    proof {
        crate::paths::lemma_regions_model_take_skip(regions@, 0);
    }
    while i < regions.len()
        invariant
            i <= regions@.len(),
            t == regions_model(regions@),
            found == wrapper_in(t.take(i as int), ids@),
        decreases regions@.len() - i,
    {
        let region = &regions[i];
        proof {
            crate::tree::lemma_regions_model(regions@);
            assert(t.take(i + 1).drop_last() =~= t.take(i as int));
            assert(t.take(i + 1).last() == region_model(*region));
        }
        match &region.node {
            Node::Fold { children } => {
                assert(decreases_to!(regions@ => regions@[i as int]));
                proof {
                    crate::tree::lemma_regions_model(children@);
                }
                match wrapper_of(children.as_slice(), ids) {
                    Some(inner) => {
                        found = Some(inner);
                    },
                    None => {
                        if holds_child(children, ids) {
                            found = Some(region.id);
                        }
                        proof {
                            let m = regions_model(children@);
                            assert((exists|k: int| 0 <= k < children@.len() && ids@.contains(#[trigger] children@[k].id))
                                == (exists|k: int| 0 <= k < m.len() && ids@.contains(#[trigger] m[k].id))) by {
                                if exists|k: int| 0 <= k < m.len() && ids@.contains(#[trigger] m[k].id) {
                                    let k = choose|k: int| 0 <= k < m.len() && ids@.contains(#[trigger] m[k].id);
                                    assert(m[k].id == children@[k].id);
                                }
                                if exists|k: int| 0 <= k < children@.len() && ids@.contains(#[trigger] children@[k].id) {
                                    let k = choose|k: int| 0 <= k < children@.len() && ids@.contains(
                                        #[trigger] children@[k].id,
                                    );
                                    assert(m[k].id == children@[k].id);
                                }
                            }
                        }
                    },
                }
            },
            Node::Leaf { .. } => {},
        }
        i += 1;
    }
    proof {
        crate::tree::lemma_regions_model(regions@);
    }
    assert(t.take(regions@.len() as int) =~= t);
    found
}

impl Draft {
    /// Wrap `ids`, consecutive siblings on each side that holds them, in a
    /// new fold on each such side, starting collapsed behind `label`.
    pub fn group(&mut self, ids: Vec<u32>, label: String) -> (result: Result<(), MoveError>)
        requires
            old(self).wf(),
        ensures
            final(self).start() == old(self).start(),
            result is Ok <==> (room_for(
                old(self).now().fresh,
                Move::JoinFolds { regions: ids },
                old(self).sides().present().len() as int,
            ) && step(old(self).now(), Move::JoinFolds { regions: ids }).0 is Ok),
            result is Ok ==> final(self).moves().len() > old(self).moves().len(),
            result is Ok ==> extends(moves_model(old(self).moves()), moves_model(final(self).moves())),
            result is Ok ==> final(self).wf() && moves_model(final(self).moves()) == moves_model(old(self).moves())
                + seq![MoveModel::JoinFolds { regions: ids@ }] + group_moves(
                wrappers(step(old(self).now(), Move::JoinFolds { regions: ids }).1.trees, ids@),
                label@,
            ),
    {
        let ghost before = moves_model(self.moves());
        let ghost joined = step(self.now(), Move::JoinFolds { regions: ids });
        let join = Move::JoinFolds { regions: copy_ids(&ids) };
        proof {
            lemma_step_model(self.now(), join, Move::JoinFolds { regions: ids });
        }
        self.push(join)?;
        let ghost after_join = moves_model(self.moves());
        let mut folds: Vec<u32> = Vec::new();
        let trees = crate::apply::trees_ref(&self.sides);
        let ghost models = self.now().trees;
        let mut k: usize = 0;
        while k < trees.len()
            invariant
                k <= trees@.len(),
                trees@.len() == models.len(),
                models == sources_trees(self.sides.present()),
                trees@.len() == self.sides.present().len(),
                forall|i: int| 0 <= i < trees@.len() ==> (#[trigger] trees@[i])@ == self.sides.present()[i].regions@,
                folds@ == wrappers(models.take(k as int), ids@),
            decreases trees@.len() - k,
        {
            assert(models[k as int] == regions_model(self.sides.present()[k as int].regions@));
            assert(models.take(k + 1).drop_last() =~= models.take(k as int));
            assert(models.take(k + 1).last() == models[k as int]);
            if let Some(fold) = wrapper_of(trees[k], &ids) {
                folds.push(fold);
            }
            k += 1;
        }
        assert(models.take(models.len() as int) =~= models);
        proof {
            lemma_wrappers_located(models, ids@);
        }
        if folds.len() > 0 {
            proof {
                assert(lookup(models, folds@[0]) is Some);
                lemma_collapse_step(self.now(), folds@[0], true);
            }
            let ghost joined_trees = self.now().trees;
            self.push(Move::SetCollapsed { region: folds[0], collapsed: true })?;
            proof {
                assert forall|j: int| 0 <= j < folds@.len() implies folds@[j] == ROOT || locate(
                    self.now().trees,
                    #[trigger] folds@[j],
                ) is Some by {
                    lemma_locate_leads(joined_trees, folds@[j]);
                    lemma_same_places_locate(joined_trees, self.now().trees, folds@[j]);
                }
            }
            self.push_labels(&folds, &Some(label))?;
        }
        proof {
            assert(moves_model(self.moves()) =~= before + (seq![MoveModel::JoinFolds { regions: ids@ }]
                + group_moves(folds@, label@)));
            lemma_extends_concat(before, seq![MoveModel::JoinFolds { regions: ids@ }] + group_moves(folds@, label@));
        }
        Ok(())
    }
}

} // verus!
