//! Collapsing test bodies and test modules.
use crate::apply::{first_missing, list_error, locate, lookup, sources_trees, steps, ListMove, MoveError};
use crate::draft::{all_regions, moves_model, Draft, MoveModel};
use crate::places::{
    lemma_found_in_preorder, lemma_locate_leads, lemma_located, lemma_same_places_locate, lemma_same_places_refl,
    lemma_same_places_trans, same_places,
};
use crate::plugins::{ids_fit, lines_of_range, no_root_ids, start_of};
use crate::text::owned;
use crate::tree::{
    docstring_of, docstring_spec, has_tag, is_fold, lemma_path_where_none, preorder, walk, with_id,
    Pairing, Region, Source,
};
use crate::tree::regions_model;
use crate::types::{FileEntry, Move, ROOT};
use vstd::prelude::*;

verus! {

broadcast use vstd::std_specs::vec::group_vec_axioms, vstd::seq::group_seq_axioms;

/// The plugin's name, and the tags its queries set: a test function's body,
/// and a test module's body.
pub const TEST_BODIES: &'static str = "test-bodies";

pub const TEST_TAG: &'static str = "test-bodies:test";

pub const MODULE_TAG: &'static str = "test-bodies:module";

pub struct Options {
    pub min_lines: usize,
}

/// Test bodies of at least `min_lines` start collapsed on both sides, paired
/// or not, so a diff reads as the code under test first. A whole test
/// module collapses as one fold labelled "test module"; the header stays
/// visible and the fold expands like any other. A test body is linked to
/// its docstring, which collapses with it.
pub struct TestBodies {
    pub options: Options,
}

/// A region's own label, or `fallback` when it has none.
pub open spec fn own_or(r: Region, fallback: Seq<char>) -> Seq<char> {
    if r.visibility.label@.len() == 0 {
        fallback
    } else {
        r.visibility.label@
    }
}

/// What one region adds to the collapses: a test module replaces what an
/// id had, a test body keeps what it had.
pub open spec fn test_entry(
    m: Map<u32, (Seq<char>, Option<u32>)>,
    r: Region,
    regions: Seq<Region>,
    min_lines: nat,
) -> Map<u32, (Seq<char>, Option<u32>)> {
    if !(r.is_fold_spec() && r.range.line_len() >= min_lines) {
        m
    } else if r.has_tag_spec(MODULE_TAG@) {
        m.insert(r.id, (own_or(r, "test module"@), None))
    } else if r.has_tag_spec(TEST_TAG@) {
        if m.contains_key(r.id) {
            m
        } else {
            m.insert(r.id, (own_or(r, "test body"@), docstring_spec(regions, r, TEST_BODIES@)))
        }
    } else {
        m
    }
}

/// The collapses one side's regions, in preorder, add.
pub open spec fn test_entries_side(
    m: Map<u32, (Seq<char>, Option<u32>)>,
    visited: Seq<Region>,
    regions: Seq<Region>,
    min_lines: nat,
) -> Map<u32, (Seq<char>, Option<u32>)>
    decreases visited.len(),
{
    if visited.len() == 0 {
        m
    } else {
        test_entry(test_entries_side(m, visited.drop_last(), regions, min_lines), visited.last(), regions, min_lines)
    }
}

/// The collapses over every side, lhs first: by id, a label and a
/// docstring.
pub open spec fn test_entries(sources: Seq<Source>, min_lines: nat) -> Map<u32, (Seq<char>, Option<u32>)>
    decreases sources.len(),
{
    if sources.len() == 0 {
        Map::empty()
    } else {
        let s = sources.last();
        test_entries_side(test_entries(sources.drop_last(), min_lines), preorder(s.regions@), s.regions@, min_lines)
    }
}

/// The entries as a map by id.
pub open spec fn entries_map(v: Seq<(u32, String, Option<u32>)>) -> Map<u32, (Seq<char>, Option<u32>)> {
    Map::new(
        |id: u32| exists|k: int| 0 <= k < v.len() && #[trigger] v[k].0 == id,
        |id: u32| {
            let k = choose|k: int| 0 <= k < v.len() && #[trigger] v[k].0 == id;
            (v[k].1@, v[k].2)
        },
    )
}

/// Entries in strictly increasing order of id.
pub open spec fn ascending(v: Seq<(u32, String, Option<u32>)>) -> bool {
    forall|i: int, j: int| 0 <= i < j < v.len() ==> #[trigger] v[i].0 < #[trigger] v[j].0
}

/// Put `entry` in its place by id, replacing an entry with its id when
/// `replace` is set and else keeping that one.
fn place(entries: &mut Vec<(u32, String, Option<u32>)>, entry: (u32, String, Option<u32>), replace: bool)
    requires
        ascending(old(entries)@),
    ensures
        ascending(final(entries)@),
        entries_map(final(entries)@) == if !replace && entries_map(old(entries)@).contains_key(entry.0) {
            entries_map(old(entries)@)
        } else {
            entries_map(old(entries)@).insert(entry.0, (entry.1@, entry.2))
        },
{
    let ghost before = entries@;
    let id = entry.0;
    let mut pos: usize = 0;
    while pos < entries.len() && entries[pos].0 < id
        invariant
            pos <= entries@.len(),
            entries@ == before,
            ascending(before),
            forall|k: int| 0 <= k < pos ==> #[trigger] before[k].0 < id,
        decreases entries@.len() - pos,
    {
        pos += 1;
    }
    proof {
        assert forall|k: int| pos <= k < before.len() implies #[trigger] before[k].0 >= id by {
            if k > pos {
                assert(before[pos as int].0 < before[k].0);
            }
        }
    }
    if pos < entries.len() && entries[pos].0 == id {
        assert(entries_map(before).contains_key(id));
        if replace {
            let mut slot = entry;
            entries.set(pos, slot);
            proof {
                let after = entries@;
                assert forall|i: int, j: int| 0 <= i < j < after.len() implies #[trigger] after[i].0 < #[trigger] after[j].0 by {
                    assert(before[i].0 < before[j].0);
                }
                assert forall|x: u32| #[trigger] entries_map(after).contains_key(x) == entries_map(before).insert(id, (entry.1@, entry.2)).contains_key(x) by {
                    if entries_map(before).contains_key(x) {
                        let k = choose|k: int| 0 <= k < before.len() && #[trigger] before[k].0 == x;
                        assert(after[k].0 == x);
                    }
                    if entries_map(after).contains_key(x) {
                        let k = choose|k: int| 0 <= k < after.len() && #[trigger] after[k].0 == x;
                        assert(before[k].0 == x);
                    }
                    assert(after[pos as int].0 == id);
                }
                assert forall|x: u32| #[trigger] entries_map(after).contains_key(x) implies entries_map(after)[x] == entries_map(before).insert(id, (entry.1@, entry.2))[x] by {
                    let k = choose|k: int| 0 <= k < after.len() && #[trigger] after[k].0 == x;
                    if x == id {
                        assert(k == pos) by {
                            if k < pos {
                                assert(after[k].0 < after[pos as int].0);
                            }
                            if k > pos {
                                assert(after[pos as int].0 < after[k].0);
                            }
                        }
                    } else {
                        let kb = choose|k: int| 0 <= k < before.len() && #[trigger] before[k].0 == x;
                        assert(k == kb) by {
                            if k < kb {
                                assert(before[k].0 < before[kb].0);
                            }
                            if k > kb {
                                assert(before[kb].0 < before[k].0);
                            }
                        }
                    }
                }
                assert(entries_map(after) =~= entries_map(before).insert(id, (entry.1@, entry.2)));
            }
        }
    } else {
        entries.insert(pos, entry);
        proof {
            let after = entries@;
            assert(!entries_map(before).contains_key(id)) by {
                if entries_map(before).contains_key(id) {
                    let k = choose|k: int| 0 <= k < before.len() && #[trigger] before[k].0 == id;
                    if k < pos {
                        assert(before[k].0 < id);
                    } else if k > pos {
                        assert(before[pos as int].0 < before[k].0);
                    }
                }
            }
            assert forall|i: int, j: int| 0 <= i < j < after.len() implies #[trigger] after[i].0 < #[trigger] after[j].0 by {
                if j < pos {
                    assert(before[i].0 < before[j].0);
                } else if j == pos {
                } else if i < pos {
                    assert(after[j] == before[j - 1]);
                } else if i == pos {
                    assert(after[j] == before[j - 1]);
                    assert(before[j - 1].0 >= id);
                    if before[j - 1].0 == id {
                        assert(entries_map(before).contains_key(id));
                    }
                } else {
                    assert(before[i - 1].0 < before[j - 1].0);
                }
            }
            assert forall|x: u32| #[trigger] entries_map(after).contains_key(x) == entries_map(before).insert(id, (entry.1@, entry.2)).contains_key(x) by {
                if entries_map(before).contains_key(x) {
                    let k = choose|k: int| 0 <= k < before.len() && #[trigger] before[k].0 == x;
                    if k < pos {
                        assert(after[k].0 == x);
                    } else {
                        assert(after[k + 1].0 == x);
                    }
                }
                if entries_map(after).contains_key(x) {
                    let k = choose|k: int| 0 <= k < after.len() && #[trigger] after[k].0 == x;
                    if k < pos {
                        assert(before[k].0 == x);
                    } else if k > pos {
                        assert(before[k - 1].0 == x);
                    }
                }
                assert(after[pos as int].0 == id);
            }
            assert forall|x: u32| #[trigger] entries_map(after).contains_key(x) implies entries_map(after)[x] == entries_map(before).insert(id, (entry.1@, entry.2))[x] by {
                let k = choose|k: int| 0 <= k < after.len() && #[trigger] after[k].0 == x;
                if x == id {
                    assert(k == pos) by {
                        if k < pos {
                            assert(after[k].0 < after[pos as int].0);
                        }
                        if k > pos {
                            assert(after[pos as int].0 < after[k].0);
                        }
                    }
                } else {
                    let kb = choose|k: int| 0 <= k < before.len() && #[trigger] before[k].0 == x;
                    let expected = if kb < pos { kb } else { kb + 1 };
                    assert(after[expected].0 == x);
                    assert(k == expected) by {
                        if k < expected {
                            assert(after[k].0 < after[expected].0);
                        }
                        if k > expected {
                            assert(after[expected].0 < after[k].0);
                        }
                    }
                }
            }
            assert(entries_map(after) =~= entries_map(before).insert(id, (entry.1@, entry.2)));
        }
    }
}

} // verus!

verus! {

/// Each test body's docstring, if it has one, is a region other than the
/// body and not the file, found in `trees`.
pub open spec fn test_docstrings_apart(
    entries: Map<u32, (Seq<char>, Option<u32>)>,
    trees: Seq<Seq<crate::tree::RegionModel>>,
) -> bool {
    forall|id: u32|
        #[trigger] entries.contains_key(id) ==> (entries[id].1 matches Some(d) ==> d != id && d != ROOT && lookup(
            trees,
            d,
        ) is Some)
}

/// Every id one side adds is the id of one of the regions visited, or was
/// there before.
proof fn lemma_side_keys(
    m: Map<u32, (Seq<char>, Option<u32>)>,
    visited: Seq<Region>,
    regions: Seq<Region>,
    min_lines: nat,
)
    ensures
        forall|id: u32|
            #[trigger] test_entries_side(m, visited, regions, min_lines).contains_key(id) ==> m.contains_key(id)
                || exists|k: int| 0 <= k < visited.len() && visited[k].id == id,
    decreases visited.len(),
{
    if visited.len() > 0 {
        let before = visited.drop_last();
        lemma_side_keys(m, before, regions, min_lines);
        assert forall|id: u32| #[trigger] test_entries_side(m, visited, regions, min_lines).contains_key(id) implies m.contains_key(id)
            || exists|k: int| 0 <= k < visited.len() && visited[k].id == id by {
            if test_entries_side(m, before, regions, min_lines).contains_key(id) {
                if !m.contains_key(id) {
                    let k = choose|k: int| 0 <= k < before.len() && before[k].id == id;
                    assert(visited[k] == before[k]);
                }
            } else {
                assert(visited[visited.len() - 1].id == id);
            }
        }
    }
}

/// Every id with a collapse is the id of a region on one of the sides.
proof fn lemma_entry_keys(sources: Seq<Source>, min_lines: nat)
    ensures
        forall|id: u32|
            #[trigger] test_entries(sources, min_lines).contains_key(id) ==> exists|s: int, k: int|
                0 <= s < sources.len() && 0 <= k < preorder(sources[s].regions@).len() && preorder(
                    sources[s].regions@,
                )[k].id == id,
    decreases sources.len(),
{
    if sources.len() > 0 {
        let before = sources.drop_last();
        let last = sources.last();
        lemma_entry_keys(before, min_lines);
        lemma_side_keys(test_entries(before, min_lines), preorder(last.regions@), last.regions@, min_lines);
        assert forall|id: u32| #[trigger] test_entries(sources, min_lines).contains_key(id) implies exists|s: int, k: int|
            0 <= s < sources.len() && 0 <= k < preorder(sources[s].regions@).len() && preorder(
                sources[s].regions@,
            )[k].id == id by {
            if test_entries(before, min_lines).contains_key(id) {
                let (s, k) = choose|s: int, k: int|
                    0 <= s < before.len() && 0 <= k < preorder(before[s].regions@).len() && preorder(
                        before[s].regions@,
                    )[k].id == id;
                assert(sources[s] == before[s]);
            } else {
                let k = choose|k: int| 0 <= k < preorder(last.regions@).len() && preorder(last.regions@)[k].id == id;
                assert(sources[sources.len() - 1] == last);
            }
        }
    }
}

/// A region on a present side is found in the trees a draft starts from,
/// and, when no region names the file, does not.
proof fn lemma_present_located(sides: Pairing<Source>, s: int, k: int)
    requires
        0 <= s < sides.present().len(),
        0 <= k < preorder(sides.present()[s].regions@).len(),
    ensures
        locate(start_of(sides).trees, preorder(sides.present()[s].regions@)[k].id) is Some,
        no_root_ids(sides) ==> preorder(sides.present()[s].regions@)[k].id != ROOT,
{
    let trees = start_of(sides).trees;
    let source = sides.present()[s];
    assert(trees[s] == regions_model(source.regions@));
    lemma_found_in_preorder(source.regions@, k);
    lemma_located(trees, s, preorder(source.regions@)[k].id);
    match sides {
        Pairing::Both { lhs, rhs } => {
            if s == 1 {
                assert(all_regions(sides)[preorder(lhs.regions@).len() + k] == preorder(source.regions@)[k]);
            } else {
                assert(all_regions(sides)[k] == preorder(source.regions@)[k]);
            }
        },
        _ => {
            assert(all_regions(sides)[k] == preorder(source.regions@)[k]);
        },
    }
}

/// Entries in ascending order map each of their ids to their own label
/// and docstring.
proof fn lemma_entries_map_at(v: Seq<(u32, String, Option<u32>)>, i: int)
    requires
        ascending(v),
        0 <= i < v.len(),
    ensures
        entries_map(v).contains_key(v[i].0),
        entries_map(v)[v[i].0] == (v[i].1@, v[i].2),
{
    let k = choose|k: int| 0 <= k < v.len() && #[trigger] v[k].0 == v[i].0;
    if k < i {
        assert(v[k].0 < v[i].0);
    } else if k > i {
        assert(v[i].0 < v[k].0);
    }
}

/// A region's own label, or `fallback` when it has none.
fn own_label_or(region: &Region, fallback: &str) -> (label: String)
    ensures
        label@ == own_or(*region, fallback@),
{
    if region.visibility.label.as_str().unicode_len() == 0 {
        owned(fallback)
    } else {
        region.visibility.label.clone()
    }
}

/// The test bodies and modules to collapse, in order of id: each with its
/// label and, for a test body, its docstring.
pub fn test_body_entries(sides: &Pairing<Source>, min_lines: usize) -> (entries: Vec<(u32, String, Option<u32>)>)
    ensures
        ascending(entries@),
        entries_map(entries@) == test_entries(sides.present(), min_lines as nat),
{
    let sources = sides.sides();
    let ghost present = sides.present();
    let mut entries: Vec<(u32, String, Option<u32>)> = Vec::new();
    let mut k: usize = 0;
    assert(entries_map(entries@) =~= Map::<u32, (Seq<char>, Option<u32>)>::empty());
    assert(present.take(0) =~= Seq::<Source>::empty());
    while k < sources.len()
        invariant
            k <= sources@.len(),
            sources@.len() == present.len(),
            present == sides.present(),
            forall|j: int| 0 <= j < sources@.len() ==> *sources@[j] == present[j],
            ascending(entries@),
            entries_map(entries@) == test_entries(present.take(k as int), min_lines as nat),
        decreases sources@.len() - k,
    {
        let source = sources[k];
        let visited = walk(source.regions.as_slice());
        let ghost seen = visited@.map_values(|r: &Region| *r);
        let ghost base = test_entries(present.take(k as int), min_lines as nat);
        let mut i: usize = 0;
        while i < visited.len()
            invariant
                i <= visited@.len(),
                seen == visited@.map_values(|r: &Region| *r),
                seen == preorder(source.regions@),
                ascending(entries@),
                entries_map(entries@) == test_entries_side(base, seen.take(i as int), source.regions@, min_lines as nat),
            decreases visited@.len() - i,
        {
            let region = visited[i];
            assert(seen.take(i + 1).drop_last() =~= seen.take(i as int));
            assert(seen.take(i + 1).last() == *region);
            if is_fold(region) && lines_of_range(&region.range) >= min_lines as u64 {
                if has_tag(region, MODULE_TAG) {
                    let label = own_label_or(region, "test module");
                    place(&mut entries, (region.id, label, None), true);
                } else if has_tag(region, TEST_TAG) {
                    let label = own_label_or(region, "test body");
                    proof {
                        lemma_path_where_none(source.regions@, with_id(region.id));
                        assert(with_id(region.id)(seen[i as int]));
                    }
                    let docstring = docstring_of(source, region, TEST_BODIES);
                    place(&mut entries, (region.id, label, docstring), false);
                }
            }
            i += 1;
        }
        assert(seen.take(seen.len() as int) =~= seen);
        proof {
            assert(present.take(k + 1).drop_last() =~= present.take(k as int));
            assert(present.take(k + 1).last() == present[k as int]);
        }
        k += 1;
    }
    assert(present.take(present.len() as int) =~= present);
    entries
}

impl TestBodies {
    /// Tags to add to the file's manifest entry: none.
    pub fn classify(&self, file: &FileEntry) -> (tags: Result<Vec<String>, MoveError>)
        ensures
            tags matches Ok(t) && t@.len() == 0,
    {
        Ok(Vec::new())
    }

    /// Collapse each test body and test module on either side, in order of
    /// id, behind its own label or "test body" / "test module", and link a
    /// test body to its docstring. Every one is collapsed and labelled, and
    /// the moves succeed when no region names the file and each docstring
    /// is a region apart from its body.
    pub fn mutate(&self, file: &FileEntry, sides: &Pairing<Source>) -> (moves: Result<Vec<Move>, MoveError>)
        requires
            ids_fit(*sides),
        ensures
            moves matches Ok(m) ==> steps(start_of(*sides), m@).0 is Ok,
            moves matches Ok(m) ==> forall|id: u32|
                #[trigger] test_entries(sides.present(), self.options.min_lines as nat).contains_key(id) ==> {
                    &&& moves_model(m@).contains(MoveModel::SetCollapsed { region: id, collapsed: true })
                    &&& moves_model(m@).contains(
                        MoveModel::SetLabel {
                            region: id,
                            label: Some(test_entries(sides.present(), self.options.min_lines as nat)[id].0),
                        },
                    )
                },
            no_root_ids(*sides) && test_docstrings_apart(
                test_entries(sides.present(), self.options.min_lines as nat),
                start_of(*sides).trees,
            ) ==> moves is Ok,
    {
        let min_lines = self.options.min_lines;
        let ghost plan = test_entries(sides.present(), min_lines as nat);
        let ghost trees = start_of(*sides).trees;
        let entries = test_body_entries(sides, min_lines);
        proof {
            lemma_entry_keys(sides.present(), min_lines as nat);
        }
        let mut draft = Draft::new(sides);
        proof {
            lemma_same_places_refl(trees);
        }
        let mut i: usize = 0;
        while i < entries.len()
            invariant
                i <= entries@.len(),
                draft.wf(),
                draft.start() == start_of(*sides),
                trees == start_of(*sides).trees,
                min_lines == self.options.min_lines,
                plan == test_entries(sides.present(), min_lines as nat),
                ascending(entries@),
                entries_map(entries@) == plan,
                same_places(trees, draft.now().trees),
                forall|id: u32|
                    #[trigger] plan.contains_key(id) ==> exists|s: int, k: int|
                        0 <= s < sides.present().len() && 0 <= k < preorder(sides.present()[s].regions@).len()
                            && preorder(sides.present()[s].regions@)[k].id == id,
                forall|j: int|
                    0 <= j < i ==> {
                        let entry = #[trigger] entries@[j];
                        &&& moves_model(draft.moves()).contains(MoveModel::SetCollapsed { region: entry.0, collapsed: true })
                        &&& moves_model(draft.moves()).contains(
                            MoveModel::SetLabel { region: entry.0, label: Some(entry.1@) },
                        )
                    },
            decreases entries@.len() - i,
        {
            let id = entries[i].0;
            let label = entries[i].1.clone();
            let ghost before = moves_model(draft.moves());
            let ghost now = draft.now().trees;
            proof {
                lemma_entries_map_at(entries@, i as int);
                let (s, k) = choose|s: int, k: int|
                    0 <= s < sides.present().len() && 0 <= k < preorder(sides.present()[s].regions@).len()
                        && preorder(sides.present()[s].regions@)[k].id == id;
                lemma_present_located(*sides, s, k);
                lemma_same_places_locate(trees, now, id);
                lemma_locate_leads(now, id);
            }
            draft.collapse(id, label)?;
            let ghost collapsed = moves_model(draft.moves());
            proof {
                lemma_same_places_trans(trees, now, draft.now().trees);
                assert(collapsed[before.len() as int] == MoveModel::SetCollapsed { region: id, collapsed: true });
                assert(collapsed[before.len() as int + 1] == MoveModel::SetLabel { region: id, label: Some(entries@[i as int].1@) });
                assert forall|j: int| 0 <= j < i implies {
                    let entry = #[trigger] entries@[j];
                    &&& collapsed.contains(MoveModel::SetCollapsed { region: entry.0, collapsed: true })
                    &&& collapsed.contains(MoveModel::SetLabel { region: entry.0, label: Some(entry.1@) })
                } by {
                    let entry = entries@[j];
                    let a = choose|x: int| 0 <= x < before.len() && before[x] == MoveModel::SetCollapsed { region: entry.0, collapsed: true };
                    let b = choose|x: int| 0 <= x < before.len() && before[x] == MoveModel::SetLabel { region: entry.0, label: Some(entry.1@) };
                    assert(collapsed[a] == before[a]);
                    assert(collapsed[b] == before[b]);
                }
            }
            if let Some(docstring) = entries[i].2 {
                let mut pair = Vec::new();
                pair.push(id);
                pair.push(docstring);
                let ghost linked_from = draft.now().trees;
                assert(no_root_ids(*sides) && test_docstrings_apart(plan, trees) ==> (list_error(pair@, ListMove::Link) is None
                    && first_missing(linked_from, pair@) is None)) by {
                    if no_root_ids(*sides) && test_docstrings_apart(plan, trees) {
                        assert(plan.contains_key(id));
                        assert(plan[id].1 == Some(docstring));
                        let (s, k) = choose|s: int, k: int|
                            0 <= s < sides.present().len() && 0 <= k < preorder(sides.present()[s].regions@).len()
                                && preorder(sides.present()[s].regions@)[k].id == id;
                        lemma_present_located(*sides, s, k);
                        lemma_locate_leads(trees, docstring);
                        lemma_same_places_locate(trees, linked_from, docstring);
                        lemma_same_places_locate(trees, linked_from, id);
                        lemma_locate_leads(linked_from, docstring);
                        lemma_locate_leads(linked_from, id);
                        assert(pair@ =~= seq![id, docstring]);
                        assert(pair@.no_duplicates());
                        assert(!pair@.contains(ROOT));
                        assert(list_error(pair@, ListMove::Link) is None);
                        assert(lookup(linked_from, id) is Some);
                        assert(lookup(linked_from, docstring) is Some);
                        assert(pair@.drop_first() =~= seq![docstring]);
                        assert(seq![docstring].drop_first() =~= Seq::<u32>::empty());
                        assert(first_missing(linked_from, Seq::<u32>::empty()) is None);
                        assert(first_missing(linked_from, seq![docstring]) is None);
                        assert(first_missing(linked_from, pair@) is None);
                    }
                }
                draft.link(&pair)?;
                proof {
                    lemma_same_places_trans(trees, linked_from, draft.now().trees);
                    let linked = moves_model(draft.moves());
                    assert forall|j: int| 0 <= j <= i implies {
                        let entry = #[trigger] entries@[j];
                        &&& linked.contains(MoveModel::SetCollapsed { region: entry.0, collapsed: true })
                        &&& linked.contains(MoveModel::SetLabel { region: entry.0, label: Some(entry.1@) })
                    } by {
                        let entry = entries@[j];
                        let a = choose|x: int| 0 <= x < collapsed.len() && collapsed[x] == MoveModel::SetCollapsed { region: entry.0, collapsed: true };
                        let b = choose|x: int| 0 <= x < collapsed.len() && collapsed[x] == MoveModel::SetLabel { region: entry.0, label: Some(entry.1@) };
                        assert(linked[a] == collapsed[a]);
                        assert(linked[b] == collapsed[b]);
                    }
                }
            }
            i += 1;
        }
        proof {
            draft.lemma_wf();
            assert forall|id: u32| #[trigger] plan.contains_key(id) implies {
                &&& moves_model(draft.moves()).contains(MoveModel::SetCollapsed { region: id, collapsed: true })
                &&& moves_model(draft.moves()).contains(MoveModel::SetLabel { region: id, label: Some(plan[id].0) })
            } by {
                let j = choose|j: int| 0 <= j < entries@.len() && #[trigger] entries@[j].0 == id;
                lemma_entries_map_at(entries@, j);
            }
        }
        Ok(draft.into_moves())
    }
}


/// A fold of at least `min_lines` lines tagged as a test body or a test
/// module.
pub open spec fn tagged_test_fold(r: Region, min_lines: nat) -> bool {
    &&& r.node is Fold
    &&& r.range.line_len() >= min_lines
    &&& (r.has_tag_spec(MODULE_TAG@) || r.has_tag_spec(TEST_TAG@))
}

/// Every region the plugin collapses on one side is one it visits there:
/// a fold tagged as a test body or a test module, of at least `min_lines`
/// lines. An untagged fold is never collapsed, however long.
pub proof fn test_collapses_are_tagged_folds(
    m: Map<u32, (Seq<char>, Option<u32>)>,
    visited: Seq<Region>,
    regions: Seq<Region>,
    min_lines: nat,
)
    ensures
        forall|id: u32|
            #[trigger] test_entries_side(m, visited, regions, min_lines).contains_key(id) ==> m.contains_key(id)
                || exists|k: int| 0 <= k < visited.len() && (#[trigger] visited[k]).id == id && tagged_test_fold(
                visited[k],
                min_lines,
            ),
    decreases visited.len(),
{
    if visited.len() > 0 {
        let front = visited.drop_last();
        test_collapses_are_tagged_folds(m, front, regions, min_lines);
        let before = test_entries_side(m, front, regions, min_lines);
        let r = visited.last();
        assert(visited[visited.len() - 1] == r);
        assert forall|id: u32| #[trigger] test_entries_side(m, visited, regions, min_lines).contains_key(id) implies m.contains_key(id)
            || exists|k: int| 0 <= k < visited.len() && (#[trigger] visited[k]).id == id && tagged_test_fold(
            visited[k],
            min_lines,
        ) by {
            if before.contains_key(id) {
                if !m.contains_key(id) {
                    let k = choose|k: int| 0 <= k < front.len() && (#[trigger] front[k]).id == id && tagged_test_fold(front[k], min_lines);
                    assert(visited[k] == front[k]);
                }
            } else {
                assert(r.id == id);
            }
        }
    }
}

} // verus!
