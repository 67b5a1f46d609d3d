//! Hiding whole files by their tags or status.
use crate::apply::MoveError;
use crate::draft::{moves_model, MoveModel};
use crate::text::{owned, push_chars, push_str};
use crate::tree::{Pairing, Source};
use crate::types::{FileEntry, FileStatus, Move, ROOT};
use vstd::prelude::*;

verus! {

broadcast use vstd::std_specs::vec::group_vec_axioms, vstd::seq::group_seq_axioms;

/// What `char::to_uppercase` gives for a character: one or more characters.
pub uninterp spec fn uppercase(c: char) -> Seq<char>;

/// A call of `char::to_uppercase`, collected: the characters of `c`'s
/// uppercase mapping. The mapping is named, not spelled out.
#[verifier::external_body]
fn upper(c: char) -> (chars: Vec<char>)
    ensures
        chars@ == uppercase(c),
{
    c.to_uppercase().collect()
}

/// `text` with its first character uppercased.
pub open spec fn capitalized_spec(text: Seq<char>) -> Seq<char> {
    if text.len() == 0 {
        Seq::empty()
    } else {
        uppercase(text[0]) + text.drop_first()
    }
}

/// `text` with its first character uppercased.
pub fn capitalized(text: &str) -> (out: String)
    ensures
        out@ == capitalized_spec(text@),
{
    let chars = crate::text::chars_of(text);
    if chars.len() == 0 {
        return String::new();
    }
    let mut out = crate::text::string_of(&upper(chars[0]));
    let mut rest: Vec<char> = Vec::new();
    let mut i: usize = 1;
    while i < chars.len()
        invariant
            1 <= i <= chars@.len(),
            rest@ == chars@.subrange(1, i as int),
        decreases chars@.len() - i,
    {
        rest.push(chars[i]);
        assert(chars@.subrange(1, i + 1) =~= chars@.subrange(1, i as int).push(chars@[i as int]));
        i += 1;
    }
    push_chars(&mut out, &rest);
    assert(chars@.subrange(1, chars@.len() as int) =~= text@.drop_first());
    out
}

/// A deleted file, when `deleted` is set, or a file carrying one of `tags`
/// starts hidden.
pub struct Options {
    pub tags: Vec<String>,
    pub deleted: bool,
}

/// Hide whole files by their tags or status. The reason names the status
/// or the first listed tag the file carries: "Deleted file · hidden by
/// default", "Generated file · hidden by default".
pub struct HideFiles {
    pub options: Options,
}

/// Whether the file's tags hold `tag`.
pub open spec fn carries(file: FileEntry, tag: Seq<char>) -> bool {
    exists|i: int| 0 <= i < file.tags@.len() && #[trigger] file.tags@[i]@ == tag
}

/// The first of `tags` the file carries.
pub open spec fn first_carried(tags: Seq<String>, file: FileEntry) -> Option<Seq<char>>
    decreases tags.len(),
{
    if tags.len() == 0 {
        None
    } else if carries(file, tags[0]@) {
        Some(tags[0]@)
    } else {
        first_carried(tags.drop_first(), file)
    }
}

/// Why the file starts hidden, if it does.
pub open spec fn hidden_because(options: Options, file: FileEntry) -> Option<Seq<char>> {
    if options.deleted && file.status == FileStatus::Deleted {
        Some("Deleted"@)
    } else {
        match first_carried(options.tags@, file) {
            Some(tag) => Some(capitalized_spec(tag)),
            None => None,
        }
    }
}

/// Whether the file's tags hold `tag`.
fn carries_exec(file: &FileEntry, tag: &String) -> (found: bool)
    ensures
        found == carries(*file, tag@),
{
    let mut i: usize = 0;
    while i < file.tags.len()
        invariant
            i <= file.tags@.len(),
            forall|k: int| 0 <= k < i ==> #[trigger] file.tags@[k]@ != tag@,
        decreases file.tags@.len() - i,
    {
        if crate::text::str_eq(file.tags[i].as_str(), tag.as_str()) {
            return true;
        }
        i += 1;
    }
    false
}

impl HideFiles {
    /// Tags to add to the file's manifest entry: none.
    pub fn classify(&self, file: &FileEntry) -> (tags: Result<Vec<String>, MoveError>)
        ensures
            tags matches Ok(t) && t@.len() == 0,
    {
        Ok(Vec::new())
    }

    /// Hide the file, behind a label naming why, when it is deleted and
    /// `deleted` is set or it carries one of `tags`.
    pub fn mutate(&self, file: &FileEntry, sides: &Pairing<Source>) -> (moves: Result<Vec<Move>, MoveError>)
        ensures
            moves matches Ok(m) && moves_model(m@) == match hidden_because(self.options, *file) {
                Some(what) => seq![
                    MoveModel::SetCollapsed { region: ROOT, collapsed: true },
                    MoveModel::SetLabel { region: ROOT, label: Some(what + " file · hidden by default"@) },
                ],
                None => Seq::empty(),
            },
    {
        let options = &self.options;
        let what = if options.deleted && file.status == FileStatus::Deleted {
            owned("Deleted")
        } else {
            let mut i: usize = 0;
            let mut found: Option<String> = None;
            assert(options.tags@.skip(0) =~= options.tags@);
            while i < options.tags.len() && found.is_none()
                invariant
                    i <= options.tags@.len(),
                    found is None ==> first_carried(options.tags@, *file) == first_carried(
                        options.tags@.skip(i as int),
                        *file,
                    ),
                    found matches Some(w) ==> first_carried(options.tags@, *file) matches Some(tag) && w@
                        == capitalized_spec(tag),
                decreases options.tags@.len() - i,
            {
                assert(options.tags@.skip(i as int)[0] == options.tags@[i as int]);
                assert(options.tags@.skip(i as int).drop_first() =~= options.tags@.skip(i + 1));
                if carries_exec(file, &options.tags[i]) {
                    found = Some(capitalized(options.tags[i].as_str()));
                }
                i += 1;
            }
            match found {
                Some(what) => what,
                None => {
                    assert(options.tags@.skip(i as int).len() == 0);
                    let none: Vec<Move> = Vec::new();
                    assert(moves_model(none@) =~= Seq::<MoveModel>::empty());
                    return Ok(none);
                },
            }
        };
        let mut label = what;
        push_str(&mut label, " file · hidden by default");
        let mut moves = Vec::new();
        moves.push(Move::SetCollapsed { region: ROOT, collapsed: true });
        moves.push(Move::SetLabel { region: ROOT, label: Some(label) });
        assert(moves_model(moves@) =~= seq![
            MoveModel::SetCollapsed { region: ROOT, collapsed: true },
            MoveModel::SetLabel { region: ROOT, label: Some(label@) },
        ]);
        Ok(moves)
    }
}


proof fn lemma_first_carried_none(tags: Seq<String>, file: FileEntry)
    requires
        forall|i: int| 0 <= i < tags.len() ==> !carries(file, #[trigger] tags[i]@),
    ensures
        first_carried(tags, file) is None,
    decreases tags.len(),
{
    if tags.len() > 0 {
        assert(!carries(file, tags[0]@));
        assert forall|i: int| 0 <= i < tags.drop_first().len() implies !carries(file, #[trigger] tags.drop_first()[i]@) by {
            assert(tags.drop_first()[i] == tags[i + 1]);
        }
        lemma_first_carried_none(tags.drop_first(), file);
    }
}

proof fn lemma_first_carried_some(tags: Seq<String>, file: FileEntry)
    ensures
        first_carried(tags, file) matches Some(tag) ==> exists|i: int|
            0 <= i < tags.len() && #[trigger] tags[i]@ == tag && carries(file, tag),
    decreases tags.len(),
{
    if tags.len() > 0 && !carries(file, tags[0]@) {
        lemma_first_carried_some(tags.drop_first(), file);
        if let Some(tag) = first_carried(tags, file) {
            let i = choose|i: int| 0 <= i < tags.drop_first().len() && #[trigger] tags.drop_first()[i]@ == tag && carries(file, tag);
            assert(tags[i + 1] == tags.drop_first()[i]);
        }
    }
}

proof fn lemma_first_carried_found(tags: Seq<String>, file: FileEntry, i: int)
    requires
        0 <= i < tags.len(),
        carries(file, tags[i]@),
    ensures
        first_carried(tags, file) is Some,
    decreases tags.len(),
{
    if i > 0 && !carries(file, tags[0]@) {
        assert(tags.drop_first()[i - 1] == tags[i]);
        lemma_first_carried_found(tags.drop_first(), file, i - 1);
    }
}

/// A file is hidden only for a reason the options name: it was deleted and
/// `deleted` is set, or it carries one of `tags`. With `deleted` unset, a
/// file carrying none of the tags stays in view, whatever its status.
pub proof fn hidden_only_for_a_named_reason(options: Options, file: FileEntry)
    ensures
        hidden_because(options, file) is Some ==> (options.deleted && file.status == FileStatus::Deleted)
            || exists|i: int| 0 <= i < options.tags@.len() && carries(file, #[trigger] options.tags@[i]@),
        !options.deleted && (forall|i: int| 0 <= i < options.tags@.len() ==> !carries(file, #[trigger] options.tags@[i]@))
            ==> hidden_because(options, file) is None,
        options.deleted && file.status == FileStatus::Deleted ==> hidden_because(options, file) == Some("Deleted"@),
        (exists|i: int| 0 <= i < options.tags@.len() && carries(file, #[trigger] options.tags@[i]@)) ==> hidden_because(
            options,
            file,
        ) is Some,
{
    if exists|i: int| 0 <= i < options.tags@.len() && carries(file, #[trigger] options.tags@[i]@) {
        let i = choose|i: int| 0 <= i < options.tags@.len() && carries(file, #[trigger] options.tags@[i]@);
        lemma_first_carried_found(options.tags@, file, i);
    }
    lemma_first_carried_some(options.tags@, file);
    if !options.deleted && (forall|i: int| 0 <= i < options.tags@.len() ==> !carries(file, #[trigger] options.tags@[i]@)) {
        lemma_first_carried_none(options.tags@, file);
    }
}

} // verus!
