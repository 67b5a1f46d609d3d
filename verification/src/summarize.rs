//! The summarizer's own rules: which new function bodies it summarizes,
//! what text of their docstrings it sends, which answers it keeps, and the
//! moves that put the kept summaries in place. The request to the model is
//! made outside the library; its answers come back in as plain values.
use crate::tree::{
    all_sane, any_region, walk, docstring_of, docstring_spec, has_tag, is_fold, lemma_path_where_none, lemma_preorder_concat,
    lemma_preorder_take, one_sided, paired_leaf, preorder, preorder_one, with_id, Node, OtherSide, Pairing,
    Region, Source,
};
use crate::apply::{first_missing, list_error, lookup, steps, ListMove, MoveError};
use crate::draft::{moves_model, Draft, MoveModel};
use crate::places::{
    lemma_locate_leads, lemma_same_places_locate, lemma_same_places_refl, lemma_same_places_trans, same_places,
};
use crate::types::ROOT;
use crate::plugins::{ids_fit, start_of};
use crate::types::Move;
use crate::lines::{is_whitespace, lines_of, split_on_newlines, white_space};
use crate::text::{
    chars_of, decimal, decimal_chars, owned, push_char, push_chars, push_decimal, push_str, contains_chars, has_infix, has_prefix, string_of, slice_chars, starts_with, strip_leading, strip_trailing, trim, trimmed, without_leading,
    without_trailing,
};
use vstd::prelude::*;

verus! {

broadcast use vstd::std_specs::vec::group_vec_axioms, vstd::seq::group_seq_axioms;

/// The plugin's name, and the tags its queries set: a function body, and a
/// test body, which is never summarized.
pub const SUMMARIZE: &'static str = "summarize";

pub const SUMMARIZE_FUNCTION: &'static str = "summarize:function";

pub const SUMMARIZE_TEST: &'static str = "summarize:test";

/// A leaf whose alignment is one of `leaves`.
pub open spec fn leaf_in(leaves: Set<u32>) -> spec_fn(Region) -> bool {
    |r: Region|
        match r.node {
            Node::Leaf { alignment_id, .. } => leaves.contains(alignment_id),
            Node::Fold { .. } => false,
        }
}

/// A new function body: a function fold, not a test body, not collapsed, of
/// at least `min_lines` lines, with no leaf under it paired with the before
/// side, whose leaves' alignments are `leaves`.
pub open spec fn new_body(r: Region, leaves: Set<u32>, min_lines: nat) -> bool {
    &&& r.is_fold_spec()
    &&& r.has_tag_spec(SUMMARIZE_FUNCTION@)
    &&& !r.has_tag_spec(SUMMARIZE_TEST@)
    &&& !r.visibility.collapsed
    &&& !any_region(preorder_one(r), leaf_in(leaves))
    &&& r.range.line_len() >= min_lines
}

/// The new bodies among `regions` and the folds under them, outermost only,
/// in document order: each its id, its 1-based inclusive line range, and its
/// docstring on the side whose regions are `top`.
pub open spec fn selected_spec(regions: Seq<Region>, top: Seq<Region>, leaves: Set<u32>, min_lines: nat) -> Seq<
    (u32, u32, u32, Option<u32>),
>
    decreases regions,
{
    if regions.len() == 0 {
        Seq::empty()
    } else {
        let rest = selected_spec(regions.drop_last(), top, leaves, min_lines);
        let r = regions.last();
        if new_body(r, leaves, min_lines) {
            rest.push(
                (r.id, (r.range.start.line + 1) as u32, r.range.lines_end() as u32, docstring_spec(top, r, SUMMARIZE@)),
            )
        } else {
            match r.node {
                Node::Fold { children } => {
                    proof {
                        assert(decreases_to!(regions => regions[regions.len() - 1]));
                    }
                    rest + selected_spec(children@, top, leaves, min_lines)
                },
                Node::Leaf { .. } => rest,
            }
        }
    }
}

/// The new bodies the summarizer takes on a file's sides: on the after
/// side, against the before side's leaves when there is one.
pub open spec fn select_spec(sides: Pairing<Source>, min_lines: nat) -> Seq<(u32, u32, u32, Option<u32>)> {
    match sides {
        Pairing::Both { lhs, rhs } => selected_spec(
            rhs.regions@,
            rhs.regions@,
            crate::tree::leaf_alignments(preorder(lhs.regions@)),
            min_lines,
        ),
        Pairing::RightOnly { rhs } => selected_spec(rhs.regions@, rhs.regions@, Set::empty(), min_lines),
        Pairing::LeftOnly { .. } => Seq::empty(),
    }
}

/// Every region of `regions`, and under them, has an id one of `top`'s
/// regions has.
pub open spec fn inside(regions: Seq<Region>, top: Seq<Region>) -> bool {
    forall|k: int|
        0 <= k < preorder(regions).len() ==> any_region(preorder(top), with_id(#[trigger] preorder(regions)[k].id))
}

/// Every region of `regions`, and under them, has a range whose lines fit a
/// `u32` once one is added to its first and last.
pub open spec fn lines_fit(regions: Seq<Region>) -> bool {
    forall|k: int|
        0 <= k < preorder(regions).len() ==> {
            let r = #[trigger] preorder(regions)[k];
            r.range.sane() && r.range.start.line < u32::MAX
        }
}

/// The `i`th region of `regions` and everything under it stand in
/// `preorder(regions)`: the region at `at`, its subtree right after.
pub(crate) proof fn lemma_subtree_in_preorder(regions: Seq<Region>, i: int) -> (at: int)
    requires
        0 <= i < regions.len(),
    ensures
        0 <= at,
        at + preorder_one(regions[i]).len() <= preorder(regions).len(),
        forall|k: int|
            0 <= k < preorder_one(regions[i]).len() ==> #[trigger] preorder_one(regions[i])[k] == preorder(regions)[at + k],
{
    let rest = regions.subrange(i + 1, regions.len() as int);
    lemma_preorder_take(regions, i);
    assert(regions == regions.take(i + 1) + rest);
    lemma_preorder_concat(regions.take(i + 1), rest);
    let at = preorder(regions.take(i)).len() as int;
    assert forall|k: int| 0 <= k < preorder_one(regions[i]).len() implies #[trigger] preorder_one(regions[i])[k]
        == preorder(regions)[at + k] by {
        assert(preorder(regions.take(i + 1))[at + k] == preorder_one(regions[i])[k]);
    }
    at
}

/// What holds of `regions` holds of the children of each of its folds.
proof fn lemma_children_inherit(regions: Seq<Region>, top: Seq<Region>, i: int)
    requires
        0 <= i < regions.len(),
        inside(regions, top),
        lines_fit(regions),
    ensures
        inside(regions[i].children_spec(), top),
        lines_fit(regions[i].children_spec()),
        any_region(preorder(top), with_id(regions[i].id)),
        regions[i].range.sane(),
        regions[i].range.start.line < u32::MAX,
{
    let r = regions[i];
    let under = r.children_spec();
    let at = lemma_subtree_in_preorder(regions, i);
    assert(preorder_one(r) == seq![r] + preorder(under));
    assert(preorder_one(r)[0] == r);
    assert(preorder(regions)[at] == r);
    assert forall|k: int| 0 <= k < preorder(under).len() implies any_region(
        preorder(top),
        with_id(#[trigger] preorder(under)[k].id),
    ) by {
        assert(preorder_one(r)[k + 1] == preorder(under)[k]);
        assert(preorder(regions)[at + k + 1] == preorder(under)[k]);
    }
    assert forall|k: int| 0 <= k < preorder(under).len() implies {
        let x = #[trigger] preorder(under)[k];
        x.range.sane() && x.range.start.line < u32::MAX
    } by {
        assert(preorder_one(r)[k + 1] == preorder(under)[k]);
        assert(preorder(regions)[at + k + 1] == preorder(under)[k]);
    }
}

/// Append the new bodies among `regions` and under them to `selected`.
fn visit_new_bodies(
    rhs: &Source,
    regions: &[Region],
    lhs: &OtherSide,
    min_lines: usize,
    selected: &mut Vec<(u32, u32, u32, Option<u32>)>,
)
    requires
        inside(regions@, rhs.regions@),
        lines_fit(regions@),
    ensures
        final(selected)@ == old(selected)@ + selected_spec(regions@, rhs.regions@, lhs.leaf_ids(), min_lines as nat),
    decreases regions@,
{
    let ghost start = old(selected)@;
    let ghost leaves = lhs.leaf_ids();
    let mut i: usize = 0;
    assert(regions@.take(0) =~= Seq::<Region>::empty());
    assert(start + Seq::<(u32, u32, u32, Option<u32>)>::empty() =~= start);
    while i < regions.len()
        invariant
            i <= regions@.len(),
            inside(regions@, rhs.regions@),
            lines_fit(regions@),
            leaves == lhs.leaf_ids(),
            selected@ == start + selected_spec(regions@.take(i as int), rhs.regions@, leaves, min_lines as nat),
        decreases regions@.len() - i,
    {
        let region = &regions[i];
        proof {
            lemma_children_inherit(regions@, rhs.regions@, i as int);
            assert(regions@.take(i + 1).drop_last() =~= regions@.take(i as int));
            assert(regions@.take(i + 1).last() == *region);
            assert(paired_leaf(*lhs) =~= leaf_in(leaves));
        }
        let ghost before = selected@;
        if is_fold(region) && has_tag(region, SUMMARIZE_FUNCTION) && !has_tag(region, SUMMARIZE_TEST)
            && !region.visibility.collapsed && one_sided(region, lhs) && region.range.line_count() >= min_lines {
            let lines = region.range.lines();
            proof {
                lemma_path_where_none(rhs.regions@, with_id(region.id));
            }
            let docstring = docstring_of(rhs, region, SUMMARIZE);
            selected.push((region.id, lines.start + 1, lines.end, docstring));
        } else {
            match &region.node {
                Node::Fold { children } => {
                    assert(decreases_to!(regions@ => regions@[i as int]));
                    visit_new_bodies(rhs, children.as_slice(), lhs, min_lines, selected);
                    assert(selected@ =~= start + selected_spec(regions@.take(i + 1), rhs.regions@, leaves, min_lines as nat));
                },
                Node::Leaf { .. } => {},
            }
        }
        i += 1;
    }
    assert(regions@.take(regions@.len() as int) =~= regions@);
}

/// New function bodies on the after side of at least `min_lines` lines:
/// function folds with no line inside them paired with the before side, so
/// a body that only moved, or a file diffed by line whose bodies still
/// align, is not new. Only the outermost qualifying body is taken, never one
/// nested inside it; test bodies and folds that already start collapsed are
/// skipped. Each is its id, its 1-based inclusive line range, and its
/// docstring's id.
pub fn select(sides: &Pairing<Source>, min_lines: usize) -> (selected: Vec<(u32, u32, u32, Option<u32>)>)
    requires
        sides.right() matches Some(rhs) ==> lines_fit(rhs.regions@),
    ensures
        selected@ == select_spec(*sides, min_lines as nat),
{
    let (lhs, rhs) = match sides {
        Pairing::Both { lhs, rhs } => (OtherSide::of(lhs.regions.as_slice()), rhs),
        Pairing::RightOnly { rhs } => (OtherSide::none(), rhs),
        Pairing::LeftOnly { .. } => {
            return Vec::new();
        },
    };
    let mut selected = Vec::new();
    proof {
        assert forall|k: int| 0 <= k < preorder(rhs.regions@).len() implies any_region(
            preorder(rhs.regions@),
            with_id(#[trigger] preorder(rhs.regions@)[k].id),
        ) by {
            assert(with_id(preorder(rhs.regions@)[k].id)(preorder(rhs.regions@)[k]));
        }
    }
    visit_new_bodies(rhs, rhs.regions.as_slice(), &lhs, min_lines, &mut selected);
    assert(selected@ =~= select_spec(*sides, min_lines as nat));
    selected
}

} // verus!

verus! {

/// The comment marker a docstring line starts with, the first of
/// `///`, `//!`, `//`, `/**`, `/*`, `*/`, `*`, `#`, `--`, `;;`, `;`, `%`
/// that does.
pub open spec fn marker(t: Seq<char>) -> Option<Seq<char>> {
    if has_prefix(t, "///"@) {
        Some("///"@)
    } else if has_prefix(t, "//!"@) {
        Some("//!"@)
    } else if has_prefix(t, "//"@) {
        Some("//"@)
    } else if has_prefix(t, "/**"@) {
        Some("/**"@)
    } else if has_prefix(t, "/*"@) {
        Some("/*"@)
    } else if has_prefix(t, "*/"@) {
        Some("*/"@)
    } else if has_prefix(t, "*"@) {
        Some("*"@)
    } else if has_prefix(t, "#"@) {
        Some("#"@)
    } else if has_prefix(t, "--"@) {
        Some("--"@)
    } else if has_prefix(t, ";;"@) {
        Some(";;"@)
    } else if has_prefix(t, ";"@) {
        Some(";"@)
    } else if has_prefix(t, "%"@) {
        Some("%"@)
    } else {
        None
    }
}

/// A docstring line's text: trimmed, without its comment marker, without
/// the triple quotes around it, and without a closing `*/`.
pub open spec fn stripped(line: Seq<char>) -> Seq<char> {
    let text = trim(line);
    let text = match marker(text) {
        Some(m) => trim(text.skip(m.len() as int)),
        None => text,
    };
    let text = trim(strip_trailing(strip_leading(text, "\"\"\""@), "\"\"\""@));
    let text = trim(strip_trailing(strip_leading(text, "'''"@), "'''"@));
    trim(strip_trailing(text, "*/"@))
}

/// The length of the comment marker `t` starts with, if any.
fn marker_len(t: &Vec<char>) -> (len: Option<usize>)
    ensures
        len == match marker(t@) {
            Some(m) => Some(m.len() as usize),
            None => None,
        },
{
    if starts_with(t, "///") {
        Some("///".unicode_len())
    } else if starts_with(t, "//!") {
        Some("//!".unicode_len())
    } else if starts_with(t, "//") {
        Some("//".unicode_len())
    } else if starts_with(t, "/**") {
        Some("/**".unicode_len())
    } else if starts_with(t, "/*") {
        Some("/*".unicode_len())
    } else if starts_with(t, "*/") {
        Some("*/".unicode_len())
    } else if starts_with(t, "*") {
        Some("*".unicode_len())
    } else if starts_with(t, "#") {
        Some("#".unicode_len())
    } else if starts_with(t, "--") {
        Some("--".unicode_len())
    } else if starts_with(t, ";;") {
        Some(";;".unicode_len())
    } else if starts_with(t, ";") {
        Some(";".unicode_len())
    } else if starts_with(t, "%") {
        Some("%".unicode_len())
    } else {
        None
    }
}

/// A docstring line's text, with comment markers and quotes stripped.
pub fn strip_markers(line: &Vec<char>) -> (text: Vec<char>)
    ensures
        text@ == stripped(line@),
{
    let mut text = trimmed(line);
    match marker_len(&text) {
        Some(len) => {
            let rest = slice_chars(&text, len, text.len());
            assert(rest@ =~= text@.skip(len as int));
            text = trimmed(&rest);
        },
        None => {},
    }
    let text = trimmed(&without_trailing(&without_leading(&text, "\"\"\""), "\"\"\""));
    let text = trimmed(&without_trailing(&without_leading(&text, "'''"), "'''"));
    trimmed(&without_trailing(&text, "*/"))
}

} // verus!

verus! {

/// The lines closed by a newline so far, and the line still open.
pub open spec fn line_pieces(s: Seq<char>) -> (Seq<Seq<char>>, Seq<char>)
    decreases s.len(),
{
    if s.len() == 0 {
        (Seq::empty(), Seq::empty())
    } else {
        let (done, open) = line_pieces(s.drop_last());
        if s.last() == '\n' {
            (done.push(open), Seq::empty())
        } else {
            (done, open.push(s.last()))
        }
    }
}

/// `s` split on `\n`, each newline ending a line, as
/// `str::split_terminator('\n')` splits it: no line for an empty last
/// piece.
pub open spec fn terminated_lines(s: Seq<char>) -> Seq<Seq<char>> {
    let (done, open) = line_pieces(s);
    if open.len() == 0 {
        done
    } else {
        done.push(open)
    }
}

/// The lines of `s`, as [`terminated_lines`] splits it.
pub fn split_terminated(s: &str) -> (lines: Vec<Vec<char>>)
    ensures
        lines@.map_values(|l: Vec<char>| l@) == terminated_lines(s@),
{
    let chars = chars_of(s);
    let mut done: Vec<Vec<char>> = Vec::new();
    let mut open: Vec<char> = Vec::new();
    let mut i: usize = 0;
    assert(s@.take(0) =~= Seq::<char>::empty());
    assert(done@.map_values(|l: Vec<char>| l@) =~= Seq::<Seq<char>>::empty());
    while i < chars.len()
        invariant
            i <= chars@.len(),
            chars@ == s@,
            (done@.map_values(|l: Vec<char>| l@), open@) == line_pieces(s@.take(i as int)),
        decreases chars@.len() - i,
    {
        let c = chars[i];
        assert(s@.take(i + 1).drop_last() =~= s@.take(i as int));
        assert(s@.take(i + 1).last() == c);
        if c == '\n' {
            let ghost before = done@;
            let line = open;
            done.push(line);
            assert(done@.map_values(|l: Vec<char>| l@) =~= before.map_values(|l: Vec<char>| l@).push(line@));
            open = Vec::new();
        } else {
            open.push(c);
        }
        i += 1;
    }
    assert(s@.take(s@.len() as int) =~= s@);
    if open.len() > 0 {
        let ghost before = done@;
        let line = open;
        done.push(line);
        assert(done@.map_values(|l: Vec<char>| l@) =~= before.map_values(|l: Vec<char>| l@).push(line@));
    }
    done
}

/// Words joined with one space between each two.
pub open spec fn joined(words: Seq<Seq<char>>) -> Seq<char>
    decreases words.len(),
{
    if words.len() == 0 {
        Seq::empty()
    } else if words.len() == 1 {
        words[0]
    } else {
        joined(words.drop_last()) + seq![' '] + words.last()
    }
}

/// The words joined with one space between each two.
pub fn join_words(words: &Vec<Vec<char>>) -> (text: Vec<char>)
    ensures
        text@ == joined(words@.map_values(|w: Vec<char>| w@)),
{
    let ghost view = words@.map_values(|w: Vec<char>| w@);
    let mut text: Vec<char> = Vec::new();
    let mut i: usize = 0;
    assert(view.take(0) =~= Seq::<Seq<char>>::empty());
    while i < words.len()
        invariant
            i <= words@.len(),
            view == words@.map_values(|w: Vec<char>| w@),
            text@ == joined(view.take(i as int)),
        decreases words@.len() - i,
    {
        let ghost before = text@;
        if i > 0 {
            text.push(' ');
        }
        let word = &words[i];
        let mut k: usize = 0;
        let ghost base = text@;
        while k < word.len()
            invariant
                k <= word@.len(),
                text@ == base + word@.take(k as int),
            decreases word@.len() - k,
        {
            text.push(word[k]);
            assert(word@.take(k + 1) =~= word@.take(k as int).push(word@[k as int]));
            assert(text@ =~= base + word@.take(k + 1));
            k += 1;
        }
        assert(word@.take(word@.len() as int) =~= word@);
        assert(view.take(i + 1).drop_last() =~= view.take(i as int));
        assert(view.take(i + 1).last() == word@);
        if i == 0 {
            assert(view.take(1) =~= seq![word@]);
            assert(text@ =~= joined(view.take(1)));
        } else {
            assert(text@ =~= before + seq![' '] + word@);
        }
        i += 1;
    }
    assert(view.take(words@.len() as int) =~= view);
    text
}

/// The words a docstring's lines `start..end` hold: each line's stripped
/// text, blank ones left out.
pub open spec fn line_words(lines: Seq<Seq<char>>, start: int, end: int) -> Seq<Seq<char>>
    decreases end - start,
{
    if end <= start {
        Seq::empty()
    } else {
        let rest = line_words(lines, start, end - 1);
        let word = stripped(lines[end - 1]);
        if word.len() > 0 {
            rest.push(word)
        } else {
            rest
        }
    }
}

/// The words of every region among `visited` with the id `docstring`.
pub open spec fn doc_words(visited: Seq<Region>, lines: Seq<Seq<char>>, docstring: u32) -> Seq<Seq<char>>
    decreases visited.len(),
{
    if visited.len() == 0 {
        Seq::empty()
    } else {
        let rest = doc_words(visited.drop_last(), lines, docstring);
        let r = visited.last();
        if r.id == docstring {
            rest + line_words(lines, r.range.start.line as int, r.range.lines_end())
        } else {
            rest
        }
    }
}

/// The text of the docstring region with this id, with comment markers and
/// quotes stripped, or nothing when it says nothing.
pub open spec fn documentation_spec(source: Source, docstring: u32) -> Option<Seq<char>> {
    let text = joined(doc_words(preorder(source.regions@), terminated_lines(source.text@), docstring));
    if text.len() == 0 {
        None
    } else {
        Some(text)
    }
}

/// Every region with this id has a sane range whose lines are lines of the
/// source's text.
pub open spec fn doc_lines_exist(source: Source, docstring: u32) -> bool {
    forall|k: int|
        0 <= k < preorder(source.regions@).len() && (#[trigger] preorder(source.regions@)[k]).id == docstring ==> {
            let r = preorder(source.regions@)[k];
            r.range.sane() && (r.range.lines_end() <= r.range.start.line || r.range.lines_end()
                <= terminated_lines(source.text@).len())
        }
}

proof fn lemma_joined_empty(words: Seq<Seq<char>>)
    requires
        forall|i: int| 0 <= i < words.len() ==> (#[trigger] words[i]).len() > 0,
    ensures
        (joined(words).len() == 0) == (words.len() == 0),
    decreases words.len(),
{
    if words.len() > 1 {
        lemma_joined_empty(words.drop_last());
    }
}

/// The text of the docstring region with this id, with comment markers and
/// quotes stripped, its lines' words joined by spaces, or `None` when it
/// says nothing.
pub fn documentation(source: &Source, docstring: u32) -> (doc: Option<String>)
    requires
        doc_lines_exist(*source, docstring),
    ensures
        doc == None::<String> <==> documentation_spec(*source, docstring) is None,
        doc matches Some(text) ==> documentation_spec(*source, docstring) == Some(text@),
{
    let lines = split_terminated(source.text.as_str());
    let ghost texts = lines@.map_values(|l: Vec<char>| l@);
    let visited = walk(source.regions.as_slice());
    let ghost seen = visited@.map_values(|r: &Region| *r);
    let mut words: Vec<Vec<char>> = Vec::new();
    let mut i: usize = 0;
    assert(words@.map_values(|w: Vec<char>| w@) =~= doc_words(seen.take(0), texts, docstring));
    while i < visited.len()
        invariant
            i <= visited@.len(),
            seen == visited@.map_values(|r: &Region| *r),
            seen == preorder(source.regions@),
            texts == lines@.map_values(|l: Vec<char>| l@),
            texts == terminated_lines(source.text@),
            doc_lines_exist(*source, docstring),
            words@.map_values(|w: Vec<char>| w@) == doc_words(seen.take(i as int), texts, docstring),
            forall|k: int| 0 <= k < words@.len() ==> (#[trigger] words@[k])@.len() > 0,
        decreases visited@.len() - i,
    {
        let region = visited[i];
        assert(seen.take(i + 1).drop_last() =~= seen.take(i as int));
        assert(seen.take(i + 1).last() == *region);
        if region.id == docstring {
            assert(seen[i as int] == *region);
            let span = region.range.lines();
            let ghost base = words@.map_values(|w: Vec<char>| w@);
            if span.start < span.end {
                assert(preorder(source.regions@)[i as int].id == docstring);
                let mut line = span.start;
                assert(base + line_words(texts, span.start as int, span.start as int) =~= base);
                while line < span.end
                    invariant
                        span.start <= line <= span.end,
                        span.end == region.range.lines_end(),
                        span.end <= texts.len(),
                        texts == lines@.map_values(|l: Vec<char>| l@),
                        words@.map_values(|w: Vec<char>| w@) == base + line_words(texts, span.start as int, line as int),
                        forall|k: int| 0 <= k < words@.len() ==> (#[trigger] words@[k])@.len() > 0,
                    decreases span.end - line,
                {
                    let word = strip_markers(&lines[line as usize]);
                    assert(lines@[line as int]@ == texts[line as int]);
                    if word.len() > 0 {
                        let ghost before = words@;
                        words.push(word);
                        assert(words@.map_values(|w: Vec<char>| w@) =~= before.map_values(|w: Vec<char>| w@).push(word@));
                    }
                    line += 1;
                }
            }
            assert(words@.map_values(|w: Vec<char>| w@) =~= doc_words(seen.take(i + 1), texts, docstring));
        }
        i += 1;
    }
    assert(seen.take(seen.len() as int) =~= seen);
    let text = join_words(&words);
    proof {
        let view = words@.map_values(|w: Vec<char>| w@);
        assert forall|k: int| 0 <= k < view.len() implies (#[trigger] view[k]).len() > 0 by {
            assert(view[k] == words@[k]@);
        }
        lemma_joined_empty(view);
    }
    if text.len() == 0 {
        None
    } else {
        Some(string_of(&text))
    }
}

} // verus!

verus! {

/// The words closed by white space so far, and the word still open.
pub open spec fn word_pieces(s: Seq<char>) -> (Seq<Seq<char>>, Seq<char>)
    decreases s.len(),
{
    if s.len() == 0 {
        (Seq::empty(), Seq::empty())
    } else {
        let (done, open) = word_pieces(s.drop_last());
        if white_space(s.last()) {
            if open.len() > 0 {
                (done.push(open), Seq::empty())
            } else {
                (done, Seq::empty())
            }
        } else {
            (done, open.push(s.last()))
        }
    }
}

/// The words of `s`: its maximal runs of characters that are not white
/// space, as `str::split_whitespace` yields them.
pub open spec fn words_of(s: Seq<char>) -> Seq<Seq<char>> {
    let (done, open) = word_pieces(s);
    if open.len() == 0 {
        done
    } else {
        done.push(open)
    }
}

/// `s` with every run of white space made one space, and none at either
/// end.
pub open spec fn squashed(s: Seq<char>) -> Seq<char> {
    joined(words_of(s))
}

/// `s` with every run of white space made one space, and none at either
/// end.
pub fn squash(s: &str) -> (out: Vec<char>)
    ensures
        out@ == squashed(s@),
{
    let chars = chars_of(s);
    let mut done: Vec<Vec<char>> = Vec::new();
    let mut open: Vec<char> = Vec::new();
    let mut i: usize = 0;
    assert(s@.take(0) =~= Seq::<char>::empty());
    assert(done@.map_values(|l: Vec<char>| l@) =~= Seq::<Seq<char>>::empty());
    while i < chars.len()
        invariant
            i <= chars@.len(),
            chars@ == s@,
            (done@.map_values(|l: Vec<char>| l@), open@) == word_pieces(s@.take(i as int)),
        decreases chars@.len() - i,
    {
        let c = chars[i];
        assert(s@.take(i + 1).drop_last() =~= s@.take(i as int));
        assert(s@.take(i + 1).last() == c);
        if is_whitespace(c) {
            if open.len() > 0 {
                let ghost before = done@;
                let word = open;
                done.push(word);
                assert(done@.map_values(|l: Vec<char>| l@) =~= before.map_values(|l: Vec<char>| l@).push(word@));
            }
            open = Vec::new();
        } else {
            open.push(c);
        }
        i += 1;
    }
    assert(s@.take(s@.len() as int) =~= s@);
    if open.len() > 0 {
        let ghost before = done@;
        let word = open;
        done.push(word);
        assert(done@.map_values(|l: Vec<char>| l@) =~= before.map_values(|l: Vec<char>| l@).push(word@));
    }
    join_words(&done)
}

/// The model's sentence, kept only when it is a verbatim quote from the
/// docstring once runs of white space are squashed in both.
pub open spec fn quoted_spec(doc: Option<Seq<char>>, summary: Seq<char>) -> Option<Seq<char>> {
    match doc {
        None => None,
        Some(doc) => {
            let sentence = squashed(summary);
            if sentence.len() > 0 && has_infix(squashed(doc), sentence) {
                Some(sentence)
            } else {
                None
            }
        },
    }
}

/// The model's sentence, kept only when it really is a verbatim quote from
/// the docstring: compared with runs of whitespace collapsed.
pub fn quoted(doc: Option<&str>, summary: &str) -> (quote: Option<String>)
    ensures
        quote == None::<String> <==> quoted_spec(
            match doc {
                Some(d) => Some(d@),
                None => None,
            },
            summary@,
        ) is None,
        quote matches Some(q) ==> quoted_spec(
            match doc {
                Some(d) => Some(d@),
                None => None,
            },
            summary@,
        ) == Some(q@),
{
    let doc = match doc {
        Some(doc) => squash(doc),
        None => {
            return None;
        },
    };
    let sentence = squash(summary);
    if sentence.len() > 0 && contains_chars(&doc, &sentence) {
        Some(string_of(&sentence))
    } else {
        None
    }
}

/// A line holds something besides white space.
pub open spec fn nonblank(line: Seq<char>) -> bool {
    trim(line).len() > 0
}

/// How many of `lines` are not blank.
pub open spec fn nonblank_count(lines: Seq<Seq<char>>) -> nat
    decreases lines.len(),
{
    if lines.len() == 0 {
        0
    } else {
        nonblank_count(lines.drop_last()) + if nonblank(lines.last()) {
            1nat
        } else {
            0nat
        }
    }
}

/// Pseudocode earns its place only when it has at most half as many
/// non-blank lines as the body it stands for.
pub open spec fn compresses_spec(summary: Seq<char>, body: Seq<Seq<char>>) -> bool {
    2 * nonblank_count(lines_of(summary)) <= nonblank_count(body)
}

/// How many of the lines are not blank.
fn count_nonblank(lines: &[String]) -> (count: usize)
    ensures
        count == nonblank_count(lines@.map_values(|l: String| l@)),
{
    let ghost view = lines@.map_values(|l: String| l@);
    let mut count: usize = 0;
    let mut i: usize = 0;
    assert(view.take(0) =~= Seq::<Seq<char>>::empty());
    while i < lines.len()
        invariant
            i <= lines@.len(),
            view == lines@.map_values(|l: String| l@),
            count == nonblank_count(view.take(i as int)),
            count <= i,
        decreases lines@.len() - i,
    {
        assert(view.take(i + 1).drop_last() =~= view.take(i as int));
        assert(view.take(i + 1).last() == lines@[i as int]@);
        let chars = chars_of(lines[i].as_str());
        if trimmed(&chars).len() > 0 {
            count += 1;
        }
        i += 1;
    }
    assert(view.take(lines@.len() as int) =~= view);
    count
}

/// Pseudocode earns its place only when it is clearly shorter than the
/// code: a summary with more than half the body's non-blank lines is
/// dropped and the body stays open.
pub fn compresses(summary: &str, body: &[String]) -> (keep: bool)
    ensures
        keep == compresses_spec(summary@, body@.map_values(|l: String| l@)),
{
    let lines = split_on_newlines(summary);
    let summary_lines = count_nonblank(lines.as_slice());
    let body_lines = count_nonblank(body);
    summary_lines <= body_lines / 2
}

} // verus!

verus! {

/// One fold to summarize: its region id, its 1-based inclusive line range,
/// and its docstring region and that region's text when it has one.
pub struct Request {
    pub id: u32,
    pub first_line: u32,
    pub last_line: u32,
    pub docstring: Option<u32>,
    pub doc: Option<String>,
}

/// What the model answered for one fold: a sentence it quotes from the
/// docstring, possibly empty, and the pseudocode.
pub struct Answer {
    pub id: u32,
    pub summary: String,
    pub pseudocode: String,
}

/// What is kept of an answer: the sentence when it really is a quote from
/// the docstring, and the pseudocode, trimmed.
pub struct Summary {
    pub quote: Option<String>,
    pub pseudocode: String,
}

/// An optional text as its characters.
pub open spec fn text_view(text: Option<String>) -> Option<Seq<char>> {
    match text {
        Some(t) => Some(t@),
        None => None,
    }
}

/// Every region's range is sane, its lines fit a `u32` once one is added,
/// and the lines it touches are lines of the source's text.
pub open spec fn lines_exist(source: Source) -> bool {
    &&& lines_fit(source.regions@)
    &&& forall|k: int|
        0 <= k < preorder(source.regions@).len() ==> {
            let r = #[trigger] preorder(source.regions@)[k];
            r.range.lines_end() <= r.range.start.line || r.range.lines_end() <= terminated_lines(source.text@).len()
        }
}

/// The after side, when there is one.
pub open spec fn after_side(sides: Pairing<Source>) -> Option<Source> {
    match sides {
        Pairing::Both { rhs, .. } => Some(rhs),
        Pairing::RightOnly { rhs } => Some(rhs),
        Pairing::LeftOnly { .. } => None,
    }
}

/// The request for a selected fold: its docstring's text goes with it.
pub open spec fn request_matches(request: Request, chosen: (u32, u32, u32, Option<u32>), rhs: Source) -> bool {
    &&& request.id == chosen.0
    &&& request.first_line == chosen.1
    &&& request.last_line == chosen.2
    &&& request.docstring == chosen.3
    &&& text_view(request.doc) == match chosen.3 {
        Some(d) => documentation_spec(rhs, d),
        None => None,
    }
}

/// The folds to ask the model about: the selected new bodies, each with
/// the text of its docstring.
pub fn requests(sides: &Pairing<Source>, min_lines: usize) -> (folds: Vec<Request>)
    requires
        after_side(*sides) matches Some(rhs) ==> lines_exist(rhs),
    ensures
        after_side(*sides) is None ==> folds@.len() == 0,
        after_side(*sides) matches Some(rhs) ==> {
            &&& folds@.len() == select_spec(*sides, min_lines as nat).len()
            &&& forall|k: int|
                0 <= k < folds@.len() ==> request_matches(
                    #[trigger] folds@[k],
                    select_spec(*sides, min_lines as nat)[k],
                    rhs,
                )
        },
{
    let rhs = match sides {
        Pairing::Both { rhs, .. } => rhs,
        Pairing::RightOnly { rhs } => rhs,
        Pairing::LeftOnly { .. } => {
            return Vec::new();
        },
    };
    let selected = select(sides, min_lines);
    let mut folds: Vec<Request> = Vec::new();
    let mut i: usize = 0;
    while i < selected.len()
        invariant
            i <= selected@.len(),
            after_side(*sides) == Some(*rhs),
            lines_exist(*rhs),
            selected@ == select_spec(*sides, min_lines as nat),
            folds@.len() == i,
            forall|k: int| 0 <= k < i ==> request_matches(#[trigger] folds@[k], selected@[k], *rhs),
        decreases selected@.len() - i,
    {
        let (id, first_line, last_line, docstring) = selected[i];
        let doc = match docstring {
            Some(d) => documentation(rhs, d),
            None => None,
        };
        folds.push(Request { id, first_line, last_line, docstring, doc });
        i += 1;
    }
    folds
}

} // verus!

verus! {

/// A kept answer as plain values: the quote and the pseudocode.
pub open spec fn summary_view(s: Summary) -> (Option<Seq<char>>, Seq<char>) {
    (text_view(s.quote), s.pseudocode@)
}

/// Kept answers in strictly increasing order of fold id.
pub open spec fn by_id(v: Seq<(u32, Summary)>) -> bool {
    forall|i: int, j: int| 0 <= i < j < v.len() ==> #[trigger] v[i].0 < #[trigger] v[j].0
}

/// Kept answers as a map from fold id.
pub open spec fn summary_map(v: Seq<(u32, Summary)>) -> Map<u32, (Option<Seq<char>>, Seq<char>)> {
    Map::new(
        |id: u32| exists|k: int| 0 <= k < v.len() && #[trigger] v[k].0 == id,
        |id: u32| {
            let k = choose|k: int| 0 <= k < v.len() && #[trigger] v[k].0 == id;
            summary_view(v[k].1)
        },
    )
}

/// Put `entry` in its place by id, replacing the entry with its id.
fn insert_summary(entries: &mut Vec<(u32, Summary)>, entry: (u32, Summary))
    requires
        by_id(old(entries)@),
    ensures
        by_id(final(entries)@),
        summary_map(final(entries)@) == summary_map(old(entries)@).insert(entry.0, summary_view(entry.1)),
{
    let ghost before = entries@;
    let ghost value = summary_view(entry.1);
    let id = entry.0;
    let mut pos: usize = 0;
    while pos < entries.len() && entries[pos].0 < id
        invariant
            pos <= entries@.len(),
            entries@ == before,
            by_id(before),
            forall|k: int| 0 <= k < pos ==> #[trigger] before[k].0 < id,
        decreases entries@.len() - pos,
    {
        pos += 1;
    }
    proof {
        assert forall|k: int| pos <= k < before.len() implies #[trigger] before[k].0 >= id by {
            if k > pos {
                assert(before[pos as int].0 < before[k].0);
            }
        }
    }
    let replace = pos < entries.len() && entries[pos].0 == id;
    if replace {
        entries.set(pos, entry);
    } else {
        entries.insert(pos, entry);
    }
    proof {
        let after = entries@;
        let at = |x: u32| if x == id { pos as int } else {
            let kb = choose|k: int| 0 <= k < before.len() && #[trigger] before[k].0 == x;
            if replace || kb < pos { kb } else { kb + 1 }
        };
        assert(after[pos as int].0 == id);
        assert forall|i: int, j: int| 0 <= i < j < after.len() implies #[trigger] after[i].0 < #[trigger] after[j].0 by {
            if replace {
                if i != pos && j != pos {
                    assert(before[i].0 < before[j].0);
                } else if i == pos {
                    assert(before[i].0 < before[j].0);
                } else {
                    assert(before[i].0 < before[j].0);
                }
            } else if j < pos {
                assert(before[i].0 < before[j].0);
            } else if j == pos {
            } else if i < pos {
                assert(after[j] == before[j - 1]);
            } else if i == pos {
                assert(after[j] == before[j - 1]);
                assert(before[j - 1].0 >= id);
                assert(before[j - 1].0 != id);
            } else {
                assert(before[i - 1].0 < before[j - 1].0);
            }
        }
        assert forall|x: u32| #[trigger] summary_map(after).contains_key(x) == summary_map(before).insert(
            id,
            value,
        ).contains_key(x) by {
            if x != id && summary_map(before).contains_key(x) {
                let k = choose|k: int| 0 <= k < before.len() && #[trigger] before[k].0 == x;
                if replace || k < pos {
                    assert(after[k].0 == x);
                } else {
                    assert(after[k + 1].0 == x);
                }
            }
            if summary_map(after).contains_key(x) && x != id {
                let k = choose|k: int| 0 <= k < after.len() && #[trigger] after[k].0 == x;
                if replace || k < pos {
                    assert(before[k].0 == x);
                } else {
                    assert(k != pos);
                    assert(before[k - 1].0 == x);
                }
            }
        }
        assert forall|x: u32| #[trigger] summary_map(after).contains_key(x) implies summary_map(after)[x]
            == summary_map(before).insert(id, value)[x] by {
            let k = choose|k: int| 0 <= k < after.len() && #[trigger] after[k].0 == x;
            let expected = at(x);
            assert(after[expected].0 == x);
            assert(k == expected) by {
                if k < expected {
                    assert(after[k].0 < after[expected].0);
                }
                if k > expected {
                    assert(after[expected].0 < after[k].0);
                }
            }
            if x != id {
                let kb = choose|k: int| 0 <= k < before.len() && #[trigger] before[k].0 == x;
                assert(after[expected].1 == before[kb].1);
            }
        }
        assert(summary_map(after) =~= summary_map(before).insert(id, value));
    }
}

/// The docstring text of the first fold with this id.
pub open spec fn fold_doc(folds: Seq<Request>, id: u32) -> Option<Seq<char>>
    decreases folds.len(),
{
    if folds.len() == 0 {
        None
    } else if folds[0].id == id {
        text_view(folds[0].doc)
    } else {
        fold_doc(folds.drop_first(), id)
    }
}

/// Some fold has this id.
pub open spec fn asked(folds: Seq<Request>, id: u32) -> bool {
    exists|k: int| 0 <= k < folds.len() && #[trigger] folds[k].id == id
}

/// The first answer for a fold nobody asked about.
pub open spec fn first_unknown(folds: Seq<Request>, answers: Seq<Answer>) -> Option<u32>
    decreases answers.len(),
{
    if answers.len() == 0 {
        None
    } else if !asked(folds, answers[0].id) {
        Some(answers[0].id)
    } else {
        first_unknown(folds, answers.drop_first())
    }
}

/// The answers kept by fold id: those with pseudocode beyond white space,
/// the later of two for one fold winning, each with its quote checked
/// against the fold's docstring and its pseudocode trimmed.
pub open spec fn answered(folds: Seq<Request>, answers: Seq<Answer>) -> Map<u32, (Option<Seq<char>>, Seq<char>)>
    decreases answers.len(),
{
    if answers.len() == 0 {
        Map::empty()
    } else {
        let kept = answered(folds, answers.drop_last());
        let a = answers.last();
        if trim(a.pseudocode@).len() > 0 {
            kept.insert(a.id, (quoted_spec(fold_doc(folds, a.id), a.summary@), trim(a.pseudocode@)))
        } else {
            kept
        }
    }
}

/// Why the model's answers cannot be used.
#[derive(Debug, Clone, Copy, PartialEq, Eq, Structural)]
pub enum AnswerError {
    /// An answer names a fold the request did not hold.
    UnknownFold { id: u32 },
}

/// What an answer error says.
pub open spec fn answer_error_text(e: AnswerError) -> Seq<char> {
    match e {
        AnswerError::UnknownFold { id } => "answered for unknown fold "@ + crate::text::decimal(id as nat),
    }
}

impl AnswerError {
    /// What went wrong, in words.
    pub fn message(&self) -> (text: String)
        ensures
            text@ == answer_error_text(*self),
    {
        match self {
            AnswerError::UnknownFold { id } => {
                let mut text = crate::text::owned("answered for unknown fold ");
                crate::text::push_decimal(&mut text, *id as u64);
                text
            },
        }
    }
}

/// The docstring text of the first fold with this id.
fn doc_of(folds: &[Request], id: u32) -> (doc: Option<&str>)
    ensures
        match doc {
            Some(d) => fold_doc(folds@, id) == Some(d@),
            None => fold_doc(folds@, id) is None,
        },
{
    let mut i: usize = 0;
    assert(folds@.skip(0) =~= folds@);
    while i < folds.len()
        invariant
            i <= folds@.len(),
            fold_doc(folds@, id) == fold_doc(folds@.skip(i as int), id),
        decreases folds@.len() - i,
    {
        assert(folds@.skip(i as int)[0] == folds@[i as int]);
        assert(folds@.skip(i as int).drop_first() =~= folds@.skip(i + 1));
        if folds[i].id == id {
            return match &folds[i].doc {
                Some(d) => Some(d.as_str()),
                None => None,
            };
        }
        i += 1;
    }
    None
}

/// Whether some fold has this id.
fn is_asked(folds: &[Request], id: u32) -> (found: bool)
    ensures
        found == asked(folds@, id),
{
    let mut i: usize = 0;
    while i < folds.len()
        invariant
            i <= folds@.len(),
            forall|k: int| 0 <= k < i ==> #[trigger] folds@[k].id != id,
        decreases folds@.len() - i,
    {
        if folds[i].id == id {
            return true;
        }
        i += 1;
    }
    false
}

/// The model's answers, kept by fold id in increasing order: an answer for
/// a fold that was not asked about fails the whole reply; an answer whose
/// pseudocode is blank is dropped; the quote is kept only when it is
/// verbatim from the fold's docstring.
pub fn summaries(folds: &[Request], answers: &[Answer]) -> (kept: Result<Vec<(u32, Summary)>, AnswerError>)
    ensures
        match kept {
            Err(AnswerError::UnknownFold { id }) => first_unknown(folds@, answers@) == Some(id),
            Ok(v) => first_unknown(folds@, answers@) is None && by_id(v@) && summary_map(v@) == answered(
                folds@,
                answers@,
            ),
        },
{
    let mut kept: Vec<(u32, Summary)> = Vec::new();
    let mut i: usize = 0;
    assert(answers@.take(0) =~= Seq::<Answer>::empty());
    assert(summary_map(kept@) =~= Map::<u32, (Option<Seq<char>>, Seq<char>)>::empty());
    assert(answers@.skip(0) =~= answers@);
    while i < answers.len()
        invariant
            i <= answers@.len(),
            by_id(kept@),
            summary_map(kept@) == answered(folds@, answers@.take(i as int)),
            forall|k: int| 0 <= k < i ==> asked(folds@, #[trigger] answers@[k].id),
            first_unknown(folds@, answers@) == first_unknown(folds@, answers@.skip(i as int)),
        decreases answers@.len() - i,
    {
        let answer = &answers[i];
        assert(answers@.skip(i as int)[0] == answers@[i as int]);
        assert(answers@.skip(i as int).drop_first() =~= answers@.skip(i + 1));
        if !is_asked(folds, answer.id) {
            return Err(AnswerError::UnknownFold { id: answer.id });
        }
        assert(answers@.take(i + 1).drop_last() =~= answers@.take(i as int));
        assert(answers@.take(i + 1).last() == *answer);
        let pseudocode = trimmed(&chars_of(answer.pseudocode.as_str()));
        if pseudocode.len() > 0 {
            let quote = quoted(doc_of(folds, answer.id), answer.summary.as_str());
            insert_summary(&mut kept, (answer.id, Summary { quote, pseudocode: string_of(&pseudocode) }));
        }
        i += 1;
    }
    assert(answers@.take(answers@.len() as int) =~= answers@);
    assert(answers@.skip(answers@.len() as int) =~= Seq::<Answer>::empty());
    Ok(kept)
}

} // verus!

verus! {

/// The first fold asked about with this id.
pub open spec fn request_for(folds: Seq<Request>, id: u32) -> Option<Request>
    decreases folds.len(),
{
    if folds.len() == 0 {
        None
    } else if folds[0].id == id {
        Some(folds[0])
    } else {
        request_for(folds.drop_first(), id)
    }
}

/// A fold's line range picks out lines of the after side's text.
pub open spec fn range_within(fold: Request, line_count: nat) -> bool {
    1 <= fold.first_line && fold.first_line - 1 <= fold.last_line <= line_count
}

/// The body lines of a fold: its 1-based inclusive range of `lines`.
pub open spec fn body_of(lines: Seq<Seq<char>>, fold: Request) -> Seq<Seq<char>> {
    lines.subrange(fold.first_line - 1, fold.last_line as int)
}

/// A kept answer stays when its pseudocode compresses the body of its fold.
pub open spec fn compressing(lines: Seq<Seq<char>>, folds: Seq<Request>, entry: (u32, Summary)) -> bool {
    match request_for(folds, entry.0) {
        Some(fold) => compresses_spec(entry.1.pseudocode@, body_of(lines, fold)),
        None => false,
    }
}

/// The kept answers whose pseudocode compresses their body, in order.
pub open spec fn compressing_spec(lines: Seq<Seq<char>>, folds: Seq<Request>, texts: Seq<(u32, Summary)>) -> Seq<
    (u32, Summary),
>
    decreases texts.len(),
{
    if texts.len() == 0 {
        Seq::empty()
    } else {
        let rest = compressing_spec(lines, folds, texts.drop_last());
        if compressing(lines, folds, texts.last()) {
            rest.push(texts.last())
        } else {
            rest
        }
    }
}

/// The first fold asked about with this id, when there is one.
fn find_request<'a>(folds: &'a [Request], id: u32) -> (found: Option<&'a Request>)
    ensures
        match found {
            Some(f) => request_for(folds@, id) == Some(*f),
            None => request_for(folds@, id) is None,
        },
{
    let mut i: usize = 0;
    assert(folds@.skip(0) =~= folds@);
    while i < folds.len()
        invariant
            i <= folds@.len(),
            request_for(folds@, id) == request_for(folds@.skip(i as int), id),
        decreases folds@.len() - i,
    {
        assert(folds@.skip(i as int)[0] == folds@[i as int]);
        assert(folds@.skip(i as int).drop_first() =~= folds@.skip(i + 1));
        if folds[i].id == id {
            return Some(&folds[i]);
        }
        i += 1;
    }
    None
}

/// The lines `from..to` of `lines`, as strings.
fn lines_between(lines: &Vec<Vec<char>>, from: usize, to: usize) -> (body: Vec<String>)
    requires
        from <= to <= lines@.len(),
    ensures
        body@.map_values(|l: String| l@) == lines@.map_values(|l: Vec<char>| l@).subrange(from as int, to as int),
{
    let mut body: Vec<String> = Vec::new();
    let mut i: usize = from;
    while i < to
        invariant
            from <= i <= to <= lines@.len(),
            body@.map_values(|l: String| l@) == lines@.map_values(|l: Vec<char>| l@).subrange(from as int, i as int),
        decreases to - i,
    {
        let ghost before = body@;
        body.push(string_of(&lines[i]));
        assert(body@.map_values(|l: String| l@) =~= before.map_values(|l: String| l@).push(lines@[i as int]@));
        assert(lines@.map_values(|l: Vec<char>| l@).subrange(from as int, i + 1) =~= lines@.map_values(
            |l: Vec<char>| l@,
        ).subrange(from as int, i as int).push(lines@[i as int]@));
        i += 1;
    }
    body
}

/// The kept answers whose pseudocode is clearly shorter than the body it
/// stands for.
fn keep_compressing(lines: &Vec<Vec<char>>, folds: &[Request], texts: Vec<(u32, Summary)>) -> (kept: Vec<
    (u32, Summary),
>)
    requires
        forall|k: int| 0 <= k < folds@.len() ==> range_within(#[trigger] folds@[k], lines@.len()),
    ensures
        kept@ == compressing_spec(lines@.map_values(|l: Vec<char>| l@), folds@, texts@),
{
    let ghost view = lines@.map_values(|l: Vec<char>| l@);
    let ghost all = texts@;
    let mut kept: Vec<(u32, Summary)> = Vec::new();
    let mut rest = texts;
    let total = rest.len();
    let mut i: usize = 0;
    assert(all.take(0) =~= Seq::<(u32, Summary)>::empty());
    assert(all.skip(0) =~= all);
    while rest.len() > 0
        invariant
            i + rest@.len() == all.len(),
            total == all.len(),
            rest@ == all.skip(i as int),
            forall|k: int| 0 <= k < folds@.len() ==> range_within(#[trigger] folds@[k], lines@.len()),
            view == lines@.map_values(|l: Vec<char>| l@),
            kept@ == compressing_spec(view, folds@, all.take(i as int)),
        decreases rest@.len(),
    {
        let entry = rest.remove(0);
        assert(entry == all[i as int]);
        assert(rest@ =~= all.skip(i + 1));
        assert(all.take(i + 1).drop_last() =~= all.take(i as int));
        assert(all.take(i + 1).last() == entry);
        let keep = match find_request(folds, entry.0) {
            Some(fold) => {
                proof {
                    assert(request_for(folds@, entry.0) == Some(*fold));
                    lemma_request_for_in(folds@, entry.0);
                }
                let body = lines_between(lines, (fold.first_line - 1) as usize, fold.last_line as usize);
                compresses(entry.1.pseudocode.as_str(), body.as_slice())
            },
            None => false,
        };
        if keep {
            kept.push(entry);
        }
        i += 1;
    }
    assert(all.take(all.len() as int) =~= all);
    kept
}

proof fn lemma_request_for_in(folds: Seq<Request>, id: u32)
    ensures
        request_for(folds, id) matches Some(f) ==> exists|k: int| 0 <= k < folds.len() && #[trigger] folds[k] == f,
    decreases folds.len(),
{
    if folds.len() > 0 && folds[0].id != id {
        lemma_request_for_in(folds.drop_first(), id);
        if request_for(folds.drop_first(), id) is Some {
            let k = choose|k: int| 0 <= k < folds.drop_first().len() && #[trigger] folds.drop_first()[k] == request_for(folds.drop_first(), id)->0;
            assert(folds[k + 1] == folds.drop_first()[k]);
        }
    } else if folds.len() > 0 {
        assert(folds[0] == folds[0]);
    }
}

/// The text a summarized body's row shows: the quote, a newline and the
/// pseudocode, or the pseudocode alone.
pub open spec fn summary_text(s: (Option<Seq<char>>, Seq<char>)) -> Seq<char> {
    match s.0 {
        Some(quote) => quote + seq!['\n'] + s.1,
        None => s.1,
    }
}

fn summary_text_exec(s: &Summary) -> (text: String)
    ensures
        text@ == summary_text(summary_view(*s)),
{
    match &s.quote {
        Some(quote) => {
            let mut text = quote.clone();
            crate::text::push_char(&mut text, '\n');
            crate::text::push_str(&mut text, s.pseudocode.as_str());
            text
        },
        None => s.pseudocode.clone(),
    }
}

/// Each fold asked about is a region found in `trees`, not the file, and
/// its docstring, if it has one, is another such region.
pub open spec fn requests_placed(folds: Seq<Request>, trees: Seq<Seq<crate::tree::RegionModel>>) -> bool {
    forall|k: int|
        0 <= k < folds.len() ==> {
            let fold = #[trigger] folds[k];
            &&& fold.id != ROOT
            &&& lookup(trees, fold.id) is Some
            &&& (fold.docstring matches Some(d) ==> d != fold.id && d != ROOT && lookup(trees, d) is Some)
        }
}

/// The request found for an id is one of the requests, with that id.
proof fn lemma_request_for(folds: Seq<Request>, id: u32)
    ensures
        request_for(folds, id) matches Some(fold) ==> exists|k: int| 0 <= k < folds.len() && folds[k] == fold && fold.id == id,
    decreases folds.len(),
{
    if folds.len() > 0 && folds[0].id != id {
        lemma_request_for(folds.drop_first(), id);
        if let Some(fold) = request_for(folds, id) {
            let k = choose|k: int| 0 <= k < folds.drop_first().len() && folds.drop_first()[k] == fold && fold.id == id;
            assert(folds[k + 1] == folds.drop_first()[k]);
        }
    }
}

/// Every kept summary answers a fold asked about.
proof fn lemma_kept_asked(lines: Seq<Seq<char>>, folds: Seq<Request>, texts: Seq<(u32, Summary)>)
    ensures
        forall|j: int|
            0 <= j < compressing_spec(lines, folds, texts).len() ==> request_for(
                folds,
                (#[trigger] compressing_spec(lines, folds, texts)[j]).0,
            ) is Some,
    decreases texts.len(),
{
    if texts.len() > 0 {
        lemma_kept_asked(lines, folds, texts.drop_last());
    }
}

/// Collapse every summarized body behind its summary, then link each to its
/// docstring: a summary and its docstring are one thing. Only the answers
/// whose pseudocode is clearly shorter than their body are used. A file with
/// no after side has nothing to summarize.
pub fn summary_moves(sides: &Pairing<Source>, folds: &[Request], texts: Vec<(u32, Summary)>) -> (moves: Result<
    Vec<Move>,
    MoveError,
>)
    requires
        ids_fit(*sides),
        after_side(*sides) matches Some(rhs) ==> forall|k: int|
            0 <= k < folds@.len() ==> range_within(#[trigger] folds@[k], terminated_lines(rhs.text@).len()),
    ensures
        after_side(*sides) is None ==> (moves matches Ok(m) && m@.len() == 0),
        moves matches Ok(m) ==> steps(start_of(*sides), m@).0 is Ok,
        moves matches Ok(m) ==> after_side(*sides) matches Some(rhs) ==> forall|j: int|
            0 <= j < compressing_spec(terminated_lines(rhs.text@), folds@, texts@).len() ==> {
                let kept = #[trigger] compressing_spec(terminated_lines(rhs.text@), folds@, texts@)[j];
                &&& moves_model(m@).contains(MoveModel::SetCollapsed { region: kept.0, collapsed: true })
                &&& moves_model(m@).contains(
                    MoveModel::SetLabel { region: kept.0, label: Some(summary_text(summary_view(kept.1))) },
                )
            },
        requests_placed(folds@, start_of(*sides).trees) ==> moves is Ok,
{
    let rhs = match sides {
        Pairing::Both { rhs, .. } => rhs,
        Pairing::RightOnly { rhs } => rhs,
        Pairing::LeftOnly { .. } => {
            let none: Vec<Move> = Vec::new();
            assert(steps(start_of(*sides), none@).0 is Ok);
            return Ok(none);
        },
    };
    let lines = split_terminated(rhs.text.as_str());
    let kept = keep_compressing(&lines, folds, texts);
    let ghost trees = start_of(*sides).trees;
    let ghost placed = requests_placed(folds@, trees);
    proof {
        lemma_kept_asked(lines@.map_values(|l: Vec<char>| l@), folds@, texts@);
    }
    let mut draft = Draft::new(sides);
    proof {
        lemma_same_places_refl(trees);
    }
    let mut links: Vec<Vec<u32>> = Vec::new();
    let mut i: usize = 0;
    while i < kept.len()
        invariant
            i <= kept@.len(),
            after_side(*sides) == Some(*rhs),
            draft.wf(),
            draft.start() == start_of(*sides),
            trees == start_of(*sides).trees,
            placed == requests_placed(folds@, trees),
            same_places(trees, draft.now().trees),
            forall|j: int| 0 <= j < kept@.len() ==> request_for(folds@, (#[trigger] kept@[j]).0) is Some,
            forall|k: int| 0 <= k < links@.len() ==> (#[trigger] links@[k])@.len() > 0,
            placed ==> forall|k: int| 0 <= k < links@.len() ==> {
                let link = #[trigger] links@[k];
                &&& list_error(link@, ListMove::Link) is None
                &&& link@.len() == 2
                &&& lookup(trees, link@[0]) is Some
                &&& lookup(trees, link@[1]) is Some
            },
            forall|j: int|
                0 <= j < i ==> {
                    let entry = #[trigger] kept@[j];
                    &&& moves_model(draft.moves()).contains(MoveModel::SetCollapsed { region: entry.0, collapsed: true })
                    &&& moves_model(draft.moves()).contains(
                        MoveModel::SetLabel { region: entry.0, label: Some(summary_text(summary_view(entry.1))) },
                    )
                },
        decreases kept@.len() - i,
    {
        let id = kept[i].0;
        let text = summary_text_exec(&kept[i].1);
        let ghost before = moves_model(draft.moves());
        let ghost now = draft.now().trees;
        proof {
            lemma_request_for(folds@, id);
            if placed {
                let fold = request_for(folds@, id)->0;
                let k = choose|k: int| 0 <= k < folds@.len() && folds@[k] == fold && fold.id == id;
                assert(lookup(trees, folds@[k].id) is Some);
                lemma_locate_leads(trees, id);
                lemma_same_places_locate(trees, now, id);
                lemma_locate_leads(now, id);
            }
        }
        draft.collapse(id, text)?;
        let ghost collapsed = moves_model(draft.moves());
        proof {
            lemma_same_places_trans(trees, now, draft.now().trees);
            assert(collapsed[before.len() as int] == MoveModel::SetCollapsed { region: id, collapsed: true });
            assert(collapsed[before.len() as int + 1] == MoveModel::SetLabel {
                region: id,
                label: Some(summary_text(summary_view(kept@[i as int].1))),
            });
            assert forall|j: int| 0 <= j < i implies {
                let entry = #[trigger] kept@[j];
                &&& collapsed.contains(MoveModel::SetCollapsed { region: entry.0, collapsed: true })
                &&& collapsed.contains(MoveModel::SetLabel { region: entry.0, label: Some(summary_text(summary_view(entry.1))) })
            } by {
                let entry = kept@[j];
                let a = choose|x: int| 0 <= x < before.len() && before[x] == MoveModel::SetCollapsed { region: entry.0, collapsed: true };
                let b = choose|x: int| 0 <= x < before.len() && before[x] == MoveModel::SetLabel { region: entry.0, label: Some(summary_text(summary_view(entry.1))) };
                assert(collapsed[a] == before[a]);
                assert(collapsed[b] == before[b]);
            }
        }
        match find_request(folds, id) {
            Some(fold) => {
                if let Some(docstring) = fold.docstring {
                    let mut link = Vec::new();
                    link.push(id);
                    link.push(docstring);
                    proof {
                        assert(link@ =~= seq![id, docstring]);
                        if placed {
                            let k = choose|k: int| 0 <= k < folds@.len() && folds@[k] == *fold && fold.id == id;
                            assert(folds@[k] == *fold);
                            assert(link@.no_duplicates());
                            assert(!link@.contains(ROOT));
                        }
                    }
                    links.push(link);
                }
            },
            None => {},
        }
        i += 1;
    }
    let mut j: usize = 0;
    while j < links.len()
        invariant
            j <= links@.len(),
            after_side(*sides) == Some(*rhs),
            draft.wf(),
            draft.start() == start_of(*sides),
            trees == start_of(*sides).trees,
            placed == requests_placed(folds@, trees),
            same_places(trees, draft.now().trees),
            forall|k: int| 0 <= k < links@.len() ==> (#[trigger] links@[k])@.len() > 0,
            placed ==> forall|k: int| 0 <= k < links@.len() ==> {
                let link = #[trigger] links@[k];
                &&& list_error(link@, ListMove::Link) is None
                &&& link@.len() == 2
                &&& lookup(trees, link@[0]) is Some
                &&& lookup(trees, link@[1]) is Some
            },
            forall|q: int|
                0 <= q < kept@.len() ==> {
                    let entry = #[trigger] kept@[q];
                    &&& moves_model(draft.moves()).contains(MoveModel::SetCollapsed { region: entry.0, collapsed: true })
                    &&& moves_model(draft.moves()).contains(
                        MoveModel::SetLabel { region: entry.0, label: Some(summary_text(summary_view(entry.1))) },
                    )
                },
        decreases links@.len() - j,
    {
        let ghost before = moves_model(draft.moves());
        let ghost now = draft.now().trees;
        assert(placed ==> first_missing(now, links@[j as int]@) is None) by {
            if placed {
                let link = links@[j as int]@;
                lemma_locate_leads(trees, link[0]);
                lemma_locate_leads(trees, link[1]);
                lemma_same_places_locate(trees, now, link[0]);
                lemma_same_places_locate(trees, now, link[1]);
                lemma_locate_leads(now, link[0]);
                lemma_locate_leads(now, link[1]);
                assert(link.drop_first() =~= seq![link[1]]);
                assert(seq![link[1]].drop_first() =~= Seq::<u32>::empty());
                assert(first_missing(now, Seq::<u32>::empty()) is None);
                assert(first_missing(now, seq![link[1]]) is None);
            }
        }
        draft.link(&links[j])?;
        proof {
            lemma_same_places_trans(trees, now, draft.now().trees);
            let linked = moves_model(draft.moves());
            assert forall|q: int| 0 <= q < kept@.len() implies {
                let entry = #[trigger] kept@[q];
                &&& linked.contains(MoveModel::SetCollapsed { region: entry.0, collapsed: true })
                &&& linked.contains(MoveModel::SetLabel { region: entry.0, label: Some(summary_text(summary_view(entry.1))) })
            } by {
                let entry = kept@[q];
                let a = choose|x: int| 0 <= x < before.len() && before[x] == MoveModel::SetCollapsed { region: entry.0, collapsed: true };
                let b = choose|x: int| 0 <= x < before.len() && before[x] == MoveModel::SetLabel { region: entry.0, label: Some(summary_text(summary_view(entry.1))) };
                assert(linked[a] == before[a]);
                assert(linked[b] == before[b]);
            }
        }
        j += 1;
    }
    proof {
        draft.lemma_wf();
    }
    Ok(draft.into_moves())
}

} // verus!

verus! {

/// The service that answers the summarizer.
#[derive(Clone, Copy, Debug)]
pub enum Provider {
    Gemini,
}

/// The summarizer's options: the service and model it asks, the smallest
/// body it summarizes, the key and endpoint of the service, how long one
/// request may take, how many run at once, how often a failed one is tried
/// again, and the instruction every request carries.
pub struct Options {
    pub provider: Provider,
    pub model: String,
    pub min_lines: usize,
    pub api_key: Option<String>,
    pub endpoint: Option<String>,
    pub request_timeout_ms: u64,
    pub max_concurrency: usize,
    pub retries: u32,
    pub system_prompt: String,
}

/// Where requests go when the options name no endpoint.
pub const DEFAULT_ENDPOINT: &'static str = "https://generativelanguage.googleapis.com";

/// The endpoint the options name, or the default one.
pub open spec fn endpoint_of(options: Options) -> Seq<char> {
    match options.endpoint {
        Some(endpoint) => endpoint@,
        None => DEFAULT_ENDPOINT@,
    }
}

/// Where a request goes: the endpoint without its trailing slashes, then
/// the model's `generateContent` method.
pub open spec fn url_spec(options: Options) -> Seq<char> {
    match options.provider {
        Provider::Gemini => strip_trailing(endpoint_of(options), "/"@) + "/v1beta/models/"@ + options.model@
            + ":generateContent"@,
    }
}

/// Where a request goes.
pub fn url(options: &Options) -> (url: String)
    ensures
        url@ == url_spec(*options),
{
    let endpoint: Vec<char> = match &options.endpoint {
        Some(endpoint) => chars_of(endpoint.as_str()),
        None => chars_of(DEFAULT_ENDPOINT),
    };
    match options.provider {
        Provider::Gemini => {
            let mut url = string_of(&without_trailing(&endpoint, "/"));
            push_str(&mut url, "/v1beta/models/");
            push_str(&mut url, options.model.as_str());
            push_str(&mut url, ":generateContent");
            url
        },
    }
}

/// Texts joined with a newline between each two.
pub open spec fn joined_lines(parts: Seq<Seq<char>>) -> Seq<char>
    decreases parts.len(),
{
    if parts.len() == 0 {
        Seq::empty()
    } else if parts.len() == 1 {
        parts[0]
    } else {
        joined_lines(parts.drop_last()) + seq!['\n'] + parts.last()
    }
}

/// `n` in decimal, right-aligned in five columns.
pub open spec fn padded(n: nat) -> Seq<char> {
    let digits = decimal(n);
    if digits.len() < 5 {
        Seq::new((5 - digits.len()) as nat, |i: int| ' ') + digits
    } else {
        digits
    }
}

/// A line of the file as the prompt shows it: its 1-based number, a bar,
/// and the line.
pub open spec fn numbered_line(number: nat, line: Seq<char>) -> Seq<char> {
    padded(number) + " | "@ + line
}

/// Every line of the file, numbered.
pub open spec fn numbered(lines: Seq<Seq<char>>) -> Seq<Seq<char>> {
    Seq::new(lines.len(), |i: int| numbered_line((i + 1) as nat, lines[i]))
}

/// A fold as the prompt lists it: its id and lines, and its docstring's
/// text on a line of its own when it has one.
pub open spec fn fold_line(fold: Request) -> Seq<char> {
    "- fold "@ + decimal(fold.id as nat) + ": lines "@ + decimal(fold.first_line as nat) + "-"@ + decimal(
        fold.last_line as nat,
    ) + match text_view(fold.doc) {
        Some(doc) => "\n  doc: "@ + doc,
        None => Seq::empty(),
    }
}

/// The prompt: the file's path, its lines numbered, then the folds to
/// summarize.
pub open spec fn prompt_spec(path: Seq<char>, src: Seq<char>, folds: Seq<Request>) -> Seq<char> {
    "File "@ + path + ":\n\n"@ + joined_lines(numbered(terminated_lines(src))) + "\n\nFolds:\n"@ + joined_lines(
        folds.map_values(|fold: Request| fold_line(fold)),
    )
}

/// The language a prompt names: the file's, or "unknown language".
pub open spec fn language_spec(language: Option<Seq<char>>) -> Seq<char> {
    match language {
        Some(l) => l,
        None => "unknown language"@,
    }
}

/// An optional language as its characters.
pub open spec fn language_view(language: Option<&str>) -> Option<Seq<char>> {
    match language {
        Some(l) => Some(l@),
        None => None,
    }
}

/// The prompt naming the file's language after its path, as the built-in
/// summarizer sends it.
pub open spec fn language_prompt_spec(path: Seq<char>, language: Option<Seq<char>>, src: Seq<char>, folds: Seq<
    Request,
>) -> Seq<char> {
    prompt_spec(path + " ("@ + language_spec(language) + ")"@, src, folds)
}

/// The prompt for the folds of the file at `path` in `language`, whose
/// text is `src`: the file's header names its language, or "unknown
/// language".
pub fn language_prompt(path: &str, language: Option<&str>, src: &str, folds: &[Request]) -> (text: String)
    ensures
        text@ == language_prompt_spec(path@, language_view(language), src@, folds@),
{
    let mut header = owned(path);
    push_str(&mut header, " (");
    match language {
        Some(l) => push_str(&mut header, l),
        None => push_str(&mut header, "unknown language"),
    }
    push_str(&mut header, ")");
    assert(header@ =~= path@ + " ("@ + language_spec(language_view(language)) + ")"@);
    prompt(header.as_str(), src, folds)
}

/// Append `n` in decimal, right-aligned in five columns.
fn push_padded(s: &mut String, n: u64)
    ensures
        final(s)@ == old(s)@ + padded(n as nat),
{
    let digits = decimal_chars(n);
    let mut k: usize = digits.len();
    let ghost start = s@;
    while k < 5
        invariant
            digits@ == decimal(n as nat),
            digits@.len() <= k <= 5 || (k == digits@.len() && k >= 5),
            s@ == start + Seq::new((k - digits@.len()) as nat, |i: int| ' '),
        decreases 5 - k,
    {
        let ghost before = s@;
        push_char(s, ' ');
        assert(Seq::new((k + 1 - digits@.len()) as nat, |i: int| ' ') =~= Seq::new(
            (k - digits@.len()) as nat,
            |i: int| ' ',
        ).push(' '));
        k += 1;
    }
    proof {
        if digits@.len() >= 5 {
            assert(Seq::new((k - digits@.len()) as nat, |i: int| ' ') =~= Seq::<char>::empty());
            assert(s@ =~= start);
        }
    }
    push_chars(s, &digits);
}

/// Append `parts[i]`, after a newline unless it is the first part, to a
/// text holding the parts before it.
proof fn lemma_joined_lines_step(parts: Seq<Seq<char>>, i: int)
    requires
        0 <= i < parts.len(),
    ensures
        joined_lines(parts.take(i + 1)) == if i == 0 {
            parts[0]
        } else {
            joined_lines(parts.take(i)) + seq!['\n'] + parts[i]
        },
{
    assert(parts.take(i + 1).drop_last() =~= parts.take(i));
    if i == 0 {
        assert(parts.take(1) =~= seq![parts[0]]);
    }
}

/// Append a fold as the prompt lists it.
fn push_fold_line(text: &mut String, fold: &Request)
    ensures
        final(text)@ == old(text)@ + fold_line(*fold),
{
    push_str(text, "- fold ");
    push_decimal(text, fold.id as u64);
    push_str(text, ": lines ");
    push_decimal(text, fold.first_line as u64);
    push_str(text, "-");
    push_decimal(text, fold.last_line as u64);
    match &fold.doc {
        Some(doc) => {
            push_str(text, "\n  doc: ");
            push_str(text, doc.as_str());
        },
        None => {},
    }
    assert(text@ =~= old(text)@ + fold_line(*fold));
}

/// The prompt the model is sent for the folds of the file at `path`,
/// whose text is `src`.
pub fn prompt(path: &str, src: &str, folds: &[Request]) -> (text: String)
    ensures
        text@ == prompt_spec(path@, src@, folds@),
{
    let mut text = owned("File ");
    push_str(&mut text, path);
    push_str(&mut text, ":\n\n");
    let lines = split_terminated(src);
    let ghost views = lines@.map_values(|l: Vec<char>| l@);
    let ghost listed = numbered(views);
    let ghost head = text@;
    let mut i: usize = 0;
    assert(listed.take(0) =~= Seq::<Seq<char>>::empty());
    while i < lines.len()
        invariant
            i <= lines@.len(),
            views == lines@.map_values(|l: Vec<char>| l@),
            listed == numbered(views),
            text@ == head + joined_lines(listed.take(i as int)),
        decreases lines@.len() - i,
    {
        proof {
            lemma_joined_lines_step(listed, i as int);
        }
        let ghost before = text@;
        if i > 0 {
            push_char(&mut text, '\n');
        }
        push_padded(&mut text, i as u64 + 1);
        push_str(&mut text, " | ");
        push_chars(&mut text, &lines[i]);
        assert(listed[i as int] == numbered_line((i + 1) as nat, views[i as int]));
        if i == 0 {
            assert(text@ =~= head + listed[0]);
        } else {
            assert(text@ =~= before + seq!['\n'] + listed[i as int]);
        }
        i += 1;
    }
    assert(listed.take(lines@.len() as int) =~= listed);
    let ghost body = text@;
    push_str(&mut text, "\n\nFolds:\n");
    let ghost listing = folds@.map_values(|fold: Request| fold_line(fold));
    let ghost tail = text@;
    let mut j: usize = 0;
    assert(listing.take(0) =~= Seq::<Seq<char>>::empty());
    while j < folds.len()
        invariant
            j <= folds@.len(),
            listing == folds@.map_values(|fold: Request| fold_line(fold)),
            text@ == tail + joined_lines(listing.take(j as int)),
        decreases folds@.len() - j,
    {
        proof {
            lemma_joined_lines_step(listing, j as int);
        }
        let ghost before = text@;
        if j > 0 {
            push_char(&mut text, '\n');
        }
        push_fold_line(&mut text, &folds[j]);
        if j == 0 {
            assert(text@ =~= tail + listing[0]);
        } else {
            assert(text@ =~= before + seq!['\n'] + listing[j as int]);
        }
        j += 1;
    }
    assert(listing.take(folds@.len() as int) =~= listing);
    text
}

/// The most tokens the model may answer with: room for every fold, and
/// some to spare.
pub fn max_output_tokens(folds: usize) -> (tokens: u64)
    requires
        600 * folds + 200 <= u64::MAX,
    ensures
        tokens == 600 * folds + 200,
{
    600 * (folds as u64) + 200
}

} // verus!

verus! {

/// What one attempt to call the model came back with.
pub enum Reply {
    /// A response: its status code, the status as shown to a reader, and
    /// its body.
    Response { status: u16, shown: String, body: String },
    /// No response: whether the failure is worth another try (a timeout, a
    /// refused connection, a request that could not be sent), and its text.
    Failure { transient: bool, message: String },
}

/// What to do after an attempt: read the response's body, try again after
/// a pause as the given attempt, or give up with a message.
pub enum Next {
    Read,
    Retry { attempt: u32, delay_ms: u64 },
    Fail { message: String },
}

/// [`Next`] with its message as characters.
pub enum Step {
    Read,
    Retry { attempt: nat, delay_ms: nat },
    Fail { message: Seq<char> },
}

/// A decision as a [`Step`].
pub open spec fn step_of(next: Next) -> Step {
    match next {
        Next::Read => Step::Read,
        Next::Retry { attempt, delay_ms } => Step::Retry { attempt: attempt as nat, delay_ms: delay_ms as nat },
        Next::Fail { message } => Step::Fail { message: message@ },
    }
}

/// `2` to the power `k`.
pub open spec fn doubled(k: nat) -> nat
    decreases k,
{
    if k == 0 {
        1
    } else {
        2 * doubled((k - 1) as nat)
    }
}

/// The pause before attempt `attempt`: a quarter second, doubled with each
/// attempt up to the sixth.
pub open spec fn backoff_ms(attempt: nat) -> nat {
    250 * doubled(if attempt < 6 { attempt } else { 6 })
}

/// At most the first 200 characters of `text`.
pub open spec fn first_200(text: Seq<char>) -> Seq<char> {
    if text.len() <= 200 {
        text
    } else {
        text.take(200)
    }
}

/// Whether a status asks for another try: too many requests, or a server
/// error.
pub open spec fn transient_status(status: u16) -> bool {
    status == 429 || (500 <= status && status < 600)
}

/// A failure of the call, named by the model asked.
pub open spec fn failed(model: Seq<char>, message: Seq<char>) -> Seq<char> {
    model + ": "@ + message
}

/// Another try after a transient failure described by `retry`, or a
/// failure once `retries` more tries have been made.
pub open spec fn again(model: Seq<char>, retries: nat, attempt: nat, retry: Seq<char>) -> Step {
    if attempt >= retries {
        Step::Fail { message: failed(model, retry + " after "@ + decimal(attempt + 1) + " attempts"@) }
    } else {
        Step::Retry { attempt: attempt + 1, delay_ms: backoff_ms(attempt + 1) }
    }
}

/// What follows attempt `attempt` (0 for the first) when it came back
/// with `reply`: a successful status is read; too many requests, a server
/// error or a transient failure is tried again while tries are left; any
/// other status fails with up to 200 characters of the body, any other
/// failure with its text.
pub open spec fn next_spec(model: Seq<char>, retries: nat, attempt: nat, reply: Reply) -> Step {
    match reply {
        Reply::Response { status, shown, body } => if 200 <= status && status < 300 {
            Step::Read
        } else if transient_status(status) {
            again(model, retries, attempt, "HTTP "@ + shown@)
        } else {
            Step::Fail { message: failed(model, "HTTP "@ + shown@ + " "@ + first_200(body@)) }
        },
        Reply::Failure { transient, message } => if transient {
            again(model, retries, attempt, message@)
        } else {
            Step::Fail { message: failed(model, message@) }
        },
    }
}

/// The pause before attempt `attempt`.
fn backoff(attempt: u32) -> (delay_ms: u64)
    ensures
        delay_ms == backoff_ms(attempt as nat),
{
    let capped: u32 = if attempt < 6 { attempt } else { 6 };
    let mut factor: u64 = 1;
    let mut k: u32 = 0;
    while k < capped
        invariant
            k <= capped <= 6,
            factor == doubled(k as nat),
            factor <= 64,
        decreases capped - k,
    {
        proof {
            reveal_with_fuel(doubled, 7);
        }
        factor = factor * 2;
        k += 1;
        assert(factor == doubled(k as nat));
    }
    250 * factor
}

/// A failure message: the model's name, then `message`.
fn failure(model: &str, message: &String) -> (text: String)
    ensures
        text@ == failed(model@, message@),
{
    let mut text = owned(model);
    push_str(&mut text, ": ");
    push_str(&mut text, message.as_str());
    text
}

/// Another try, or a failure once the tries are used up.
fn try_again(model: &str, retries: u32, attempt: u32, retry: String) -> (next: Next)
    ensures
        step_of(next) == again(model@, retries as nat, attempt as nat, retry@),
{
    if attempt >= retries {
        let mut message = retry;
        push_str(&mut message, " after ");
        push_decimal(&mut message, attempt as u64 + 1);
        push_str(&mut message, " attempts");
        Next::Fail { message: failure(model, &message) }
    } else {
        let next: u32 = attempt + 1;
        Next::Retry { attempt: next, delay_ms: backoff(next) }
    }
}

/// What to do after attempt `attempt` (0 for the first) of a call to
/// `model`, allowed `retries` more tries, came back with `reply`.
pub fn next_step(model: &str, retries: u32, attempt: u32, reply: &Reply) -> (next: Next)
    ensures
        step_of(next) == next_spec(model@, retries as nat, attempt as nat, *reply),
{
    match reply {
        Reply::Response { status, shown, body } => {
            if 200 <= *status && *status < 300 {
                Next::Read
            } else if *status == 429 || (500 <= *status && *status < 600) {
                let mut retry = owned("HTTP ");
                push_str(&mut retry, shown.as_str());
                try_again(model, retries, attempt, retry)
            } else {
                let mut message = owned("HTTP ");
                push_str(&mut message, shown.as_str());
                push_str(&mut message, " ");
                let chars = chars_of(body.as_str());
                let end: usize = if chars.len() <= 200 { chars.len() } else { 200 };
                push_chars(&mut message, &slice_chars(&chars, 0, end));
                assert(chars@.subrange(0, end as int) == first_200(body@));
                Next::Fail { message: failure(model, &message) }
            }
        },
        Reply::Failure { transient, message } => {
            if *transient {
                try_again(model, retries, attempt, owned(message.as_str()))
            } else {
                Next::Fail { message: failure(model, message) }
            }
        },
    }
}

} // verus!
