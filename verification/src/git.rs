//! What a git comparison is made of, apart from the repository itself: the
//! two snapshots compared, which way git is asked to diff them, the files it
//! reports and the order they are shown in, and why a file could not be
//! diffed.
use crate::protocol::FileRef;
use crate::text::{owned, str_eq};
use crate::tree::Pairing;
use vstd::prelude::*;

verus! {

/// One side of a comparison: a revision, the index, the working tree, or
/// the empty tree.
#[derive(Clone, Debug)]
pub enum Operand {
    Revision { reference: String },
    Index,
    WorkingTree,
    EmptyTree,
}

impl Operand {
    /// The revision `reference` names.
    pub fn revision(reference: String) -> (operand: Operand)
        ensures
            operand == (Operand::Revision { reference }),
    {
        Operand::Revision { reference }
    }
}

/// The two snapshots a comparison diffs.
#[derive(Clone, Debug)]
pub struct Comparison {
    pub before: Operand,
    pub after: Operand,
}

impl Comparison {
    /// Swap the two sides.
    pub fn reverse(&mut self)
        ensures
            final(self).before == old(self).after,
            final(self).after == old(self).before,
    {
        std::mem::swap(&mut self.before, &mut self.after);
    }

    /// Whether git is asked to diff the after side against the before side
    /// and its deltas are then reversed: git diffs the working tree, and the
    /// index against a tree, only as the newer side.
    pub fn diffs_reversed(&self) -> (reversed: bool)
        ensures
            reversed == (self.before is WorkingTree || (self.before is Index && (self.after is Revision
                || self.after is EmptyTree))),
    {
        match (&self.before, &self.after) {
            (Operand::WorkingTree, _) => true,
            (Operand::Index, Operand::Revision { .. }) => true,
            (Operand::Index, Operand::EmptyTree) => true,
            _ => false,
        }
    }
}

/// Git's status of a changed file.
#[derive(Clone, Copy, Debug, PartialEq, Eq, Structural)]
pub enum FileStatus {
    Added,
    Deleted,
    Modified,
    Renamed,
    TypeChanged,
    Conflicted,
}

/// A file git reports as changed: its paths on each side, its status, its
/// tags (sorted and deduplicated), and git's delta sides.
#[derive(Clone, Debug)]
pub struct FileChange {
    pub old_path: Option<String>,
    pub new_path: Option<String>,
    pub status: FileStatus,
    pub tags: Vec<String>,
    pub sides: Pairing<FileRef>,
}

/// The path that stands for a side that does not exist.
pub const DEV_NULL: &'static str = "/dev/null";

/// The path named, unless it is [`DEV_NULL`].
pub open spec fn named(path: Seq<char>) -> Option<Seq<char>> {
    if path == DEV_NULL@ {
        None
    } else {
        Some(path)
    }
}

/// An optional path as its characters.
pub open spec fn path_view(path: Option<String>) -> Option<Seq<char>> {
    match path {
        Some(p) => Some(p@),
        None => None,
    }
}

/// A side of a standalone comparison: its path, with no object id or mode.
pub open spec fn bare_ref(r: FileRef, path: Seq<char>) -> bool {
    r.path@ == path && r.oid@.len() == 0 && r.mode@.len() == 0
}

/// A side of a standalone comparison.
fn bare(path: &str) -> (r: FileRef)
    ensures
        bare_ref(r, path@),
{
    FileRef { path: owned(path), oid: String::new(), mode: String::new() }
}

impl FileChange {
    /// The path the file is shown under: its new path, or its old one when
    /// it was deleted.
    pub fn path(&self) -> (path: &str)
        requires
            self.new_path is Some || self.old_path is Some,
        ensures
            path@ == match self.new_path {
                Some(new) => new@,
                None => self.old_path->0@,
            },
    {
        match &self.new_path {
            Some(new) => new.as_str(),
            None => match &self.old_path {
                Some(old) => old.as_str(),
                None => "",
            },
        }
    }

    /// A standalone comparison of two paths, outside any repository: a
    /// side whose path is [`DEV_NULL`] does not exist. Such a file has no
    /// tags.
    pub fn standalone(before: &str, after: &str) -> (file: FileChange)
        requires
            named(before@) is Some || named(after@) is Some,
        ensures
            path_view(file.old_path) == named(before@),
            path_view(file.new_path) == named(after@),
            file.tags@.len() == 0,
            file.status == match (named(before@), named(after@)) {
                (Some(_), Some(_)) => FileStatus::Modified,
                (Some(_), None) => FileStatus::Deleted,
                _ => FileStatus::Added,
            },
            match file.sides {
                Pairing::Both { lhs, rhs } => named(before@) is Some && named(after@) is Some && bare_ref(
                    lhs,
                    before@,
                ) && bare_ref(rhs, after@),
                Pairing::LeftOnly { lhs } => named(after@) is None && bare_ref(lhs, before@),
                Pairing::RightOnly { rhs } => named(before@) is None && bare_ref(rhs, after@),
            },
    {
        let has_before = !str_eq(before, DEV_NULL);
        let has_after = !str_eq(after, DEV_NULL);
        let old_path = if has_before { Some(owned(before)) } else { None };
        let new_path = if has_after { Some(owned(after)) } else { None };
        let (status, sides) = if has_before && has_after {
            (FileStatus::Modified, Pairing::Both { lhs: bare(before), rhs: bare(after) })
        } else if has_before {
            (FileStatus::Deleted, Pairing::LeftOnly { lhs: bare(before) })
        } else {
            (FileStatus::Added, Pairing::RightOnly { rhs: bare(after) })
        };
        FileChange { old_path, new_path, status, tags: Vec::new(), sides }
    }
}

/// Where a file ranks when files are ordered by `order`: the position of
/// the first tag in `order` that the file carries, or past the end when it
/// carries none.
pub open spec fn rank_spec(order: Seq<String>, tags: Seq<String>) -> nat
    decreases order.len(),
{
    if order.len() == 0 {
        0
    } else if rank_spec(order.drop_last(), tags) < order.len() - 1 {
        rank_spec(order.drop_last(), tags)
    } else if exists|k: int| 0 <= k < tags.len() && tags[k]@ == order.last()@ {
        (order.len() - 1) as nat
    } else {
        order.len()
    }
}

/// Whether the tags hold `tag`.
fn carries(tags: &[String], tag: &String) -> (found: bool)
    ensures
        found == exists|k: int| 0 <= k < tags@.len() && tags@[k]@ == tag@,
{
    let mut k: usize = 0;
    while k < tags.len()
        invariant
            k <= tags@.len(),
            forall|j: int| 0 <= j < k ==> tags@[j]@ != tag@,
        decreases tags@.len() - k,
    {
        if str_eq(tags[k].as_str(), tag.as_str()) {
            return true;
        }
        k += 1;
    }
    false
}

/// Where a file with `tags` ranks among files ordered by `order`: the
/// position of the first tag in `order` it carries, or `order.len()`.
pub fn rank(order: &[String], tags: &[String]) -> (rank: usize)
    ensures
        rank == rank_spec(order@, tags@),
        rank <= order@.len(),
{
    let mut k: usize = 0;
    while k < order.len()
        invariant
            k <= order@.len(),
            forall|j: int| 0 <= j <= k ==> rank_spec(#[trigger] order@.take(j), tags@) == j,
        decreases order@.len() - k,
    {
        assert(order@.take(k + 1).drop_last() =~= order@.take(k as int));
        assert(order@.take(k + 1).last() == order@[k as int]);
        if carries(tags, &order[k]) {
            proof {
                lemma_rank_settles(order@, tags@, k as int + 1);
            }
            assert(order@.take(order@.len() as int) =~= order@);
            return k;
        }
        k += 1;
    }
    assert(order@.take(order@.len() as int) =~= order@);
    order.len()
}

/// Once a prefix of `order` ranks a file before its end, longer prefixes
/// rank it the same.
proof fn lemma_rank_settles(order: Seq<String>, tags: Seq<String>, j: int)
    requires
        0 < j <= order.len(),
        rank_spec(order.take(j), tags) < j,
    ensures
        rank_spec(order, tags) == rank_spec(order.take(j), tags),
    decreases order.len() - j,
{
    if j < order.len() {
        assert(order.take(j + 1).drop_last() =~= order.take(j));
        lemma_rank_settles(order, tags, j + 1);
    } else {
        assert(order.take(j) =~= order);
    }
}

/// How git's diff reports a delta.
#[derive(Clone, Copy, Debug, PartialEq, Eq, Structural)]
pub enum DeltaKind {
    Added,
    Deleted,
    Modified,
    Renamed,
    Typechange,
    Conflicted,
    /// Unmodified, ignored, untracked, copied or unreadable: not shown.
    Other,
}

/// The status a shown delta gets, if it is shown.
pub open spec fn status_of(kind: DeltaKind) -> Option<FileStatus> {
    match kind {
        DeltaKind::Added => Some(FileStatus::Added),
        DeltaKind::Deleted => Some(FileStatus::Deleted),
        DeltaKind::Modified => Some(FileStatus::Modified),
        DeltaKind::Renamed => Some(FileStatus::Renamed),
        DeltaKind::Typechange => Some(FileStatus::TypeChanged),
        DeltaKind::Conflicted => Some(FileStatus::Conflicted),
        DeltaKind::Other => None,
    }
}

/// The file a delta shows, before its tags are found: an added file has no
/// old side and a deleted one no new side; every other file has both. A
/// delta of another kind is not shown.
pub fn file_change(kind: DeltaKind, old: FileRef, new: FileRef) -> (file: Option<FileChange>)
    ensures
        match status_of(kind) {
            None => file is None,
            Some(status) => file matches Some(f) && f.status == status && f.tags@.len() == 0 && path_view(
                f.old_path,
            ) == (if kind == DeltaKind::Added {
                None
            } else {
                Some(old.path@)
            }) && path_view(f.new_path) == (if kind == DeltaKind::Deleted {
                None
            } else {
                Some(new.path@)
            }) && f.sides == (if kind == DeltaKind::Added {
                Pairing::RightOnly { rhs: new }
            } else if kind == DeltaKind::Deleted {
                Pairing::LeftOnly { lhs: old }
            } else {
                Pairing::Both { lhs: old, rhs: new }
            }),
        },
{
    let status = match kind {
        DeltaKind::Added => FileStatus::Added,
        DeltaKind::Deleted => FileStatus::Deleted,
        DeltaKind::Modified => FileStatus::Modified,
        DeltaKind::Renamed => FileStatus::Renamed,
        DeltaKind::Typechange => FileStatus::TypeChanged,
        DeltaKind::Conflicted => FileStatus::Conflicted,
        DeltaKind::Other => {
            return None;
        },
    };
    let old_path = match kind {
        DeltaKind::Added => None,
        _ => Some(copy_text(&old.path)),
    };
    let new_path = match kind {
        DeltaKind::Deleted => None,
        _ => Some(copy_text(&new.path)),
    };
    let sides = match kind {
        DeltaKind::Added => Pairing::RightOnly { rhs: new },
        DeltaKind::Deleted => Pairing::LeftOnly { lhs: old },
        _ => Pairing::Both { lhs: old, rhs: new },
    };
    Some(FileChange { old_path, new_path, status, tags: Vec::new(), sides })
}

/// A copy of a string.
fn copy_text(s: &String) -> (c: String)
    ensures
        c@ == s@,
{
    owned(s.as_str())
}

/// The path a file is shown under, as its characters.
pub open spec fn shown_path(f: FileChange) -> Seq<char> {
    match f.new_path {
        Some(new) => new@,
        None => match f.old_path {
            Some(old) => old@,
            None => Seq::empty(),
        },
    }
}

/// `a` sorts no later than `b`, character by character, a prefix first:
/// the order of `str`, whose bytes in UTF-8 follow the characters' order.
pub open spec fn text_le(a: Seq<char>, b: Seq<char>) -> bool
    decreases a.len(),
{
    if a.len() == 0 {
        true
    } else if b.len() == 0 {
        false
    } else if (a[0] as u32) < (b[0] as u32) {
        true
    } else if (a[0] as u32) > (b[0] as u32) {
        false
    } else {
        text_le(a.drop_first(), b.drop_first())
    }
}

/// Whether `a` sorts no later than `b`.
fn text_le_exec(a: &str, b: &str) -> (le: bool)
    ensures
        le == text_le(a@, b@),
{
    let x = crate::text::chars_of(a);
    let y = crate::text::chars_of(b);
    let mut i: usize = 0;
    assert(x@.skip(0) =~= x@);
    assert(y@.skip(0) =~= y@);
    while i < x.len()
        invariant
            i <= x@.len(),
            x@ == a@,
            y@ == b@,
            i <= y@.len(),
            text_le(a@, b@) == text_le(x@.skip(i as int), y@.skip(i as int)),
        decreases x@.len() - i,
    {
        if i == y.len() {
            return false;
        }
        let cx = x[i] as u32;
        let cy = y[i] as u32;
        assert(x@.skip(i as int)[0] == x@[i as int]);
        assert(y@.skip(i as int)[0] == y@[i as int]);
        assert(x@.skip(i as int).drop_first() =~= x@.skip(i + 1));
        assert(y@.skip(i as int).drop_first() =~= y@.skip(i + 1));
        if cx < cy {
            return true;
        }
        if cx > cy {
            return false;
        }
        i += 1;
    }
    true
}

/// `a` comes no later than `b` when files are ordered by `order`: by rank,
/// then by the path shown.
pub open spec fn file_le(order: Seq<String>, a: FileChange, b: FileChange) -> bool {
    rank_spec(order, a.tags@) < rank_spec(order, b.tags@) || (rank_spec(order, a.tags@) == rank_spec(order, b.tags@)
        && text_le(shown_path(a), shown_path(b)))
}

/// `x` put into the ordered `sorted` after every file that comes no later.
pub open spec fn insert_file(order: Seq<String>, sorted: Seq<FileChange>, x: FileChange) -> Seq<FileChange>
    decreases sorted.len(),
{
    if sorted.len() == 0 {
        seq![x]
    } else if file_le(order, sorted.last(), x) {
        sorted.push(x)
    } else {
        insert_file(order, sorted.drop_last(), x).push(sorted.last())
    }
}

/// The files ordered by `order`, ties kept in the order git gave them.
pub open spec fn ordered_files(order: Seq<String>, files: Seq<FileChange>) -> Seq<FileChange>
    decreases files.len(),
{
    if files.len() == 0 {
        Seq::empty()
    } else {
        insert_file(order, ordered_files(order, files.drop_last()), files.last())
    }
}

proof fn lemma_insert_file(order: Seq<String>, sorted: Seq<FileChange>, x: FileChange, p: int)
    requires
        0 <= p <= sorted.len(),
        forall|k: int| p <= k < sorted.len() ==> !file_le(order, #[trigger] sorted[k], x),
        p > 0 ==> file_le(order, sorted[p - 1], x),
    ensures
        insert_file(order, sorted, x) == sorted.insert(p, x),
    decreases sorted.len(),
{
    if sorted.len() > 0 && p < sorted.len() {
        assert(!file_le(order, sorted[sorted.len() - 1], x));
        assert forall|k: int| p <= k < sorted.drop_last().len() implies !file_le(order, #[trigger] sorted.drop_last()[k], x) by {
            assert(sorted.drop_last()[k] == sorted[k]);
        }
        if p > 0 {
            assert(sorted.drop_last()[p - 1] == sorted[p - 1]);
        }
        lemma_insert_file(order, sorted.drop_last(), x, p);
        assert(sorted.drop_last().insert(p, x).push(sorted.last()) =~= sorted.insert(p, x));
    } else if sorted.len() > 0 {
        assert(sorted.last() == sorted[p - 1]);
        assert(sorted.push(x) =~= sorted.insert(p, x));
    } else {
        assert(seq![x] =~= sorted.insert(p, x));
    }
}

/// Order the files by `order`: a file ranks by the first tag of `order` it
/// carries, files of one rank by the path they are shown under, and files
/// alike in both keep the order git gave them.
pub fn order_files(files: Vec<FileChange>, order: &Vec<String>) -> (sorted: Vec<FileChange>)
    ensures
        sorted@ == ordered_files(order@, files@),
{
    let mut sorted: Vec<FileChange> = Vec::new();
    let mut rest = files;
    let ghost all = rest@;
    let ghost mut t: int = 0;
    assert(all.take(0) =~= Seq::<FileChange>::empty());
    while rest.len() > 0
        invariant
            0 <= t <= all.len(),
            rest@ == all.skip(t),
            sorted@ == ordered_files(order@, all.take(t)),
        decreases rest@.len(),
    {
        let ghost before = sorted@;
        let x = rest.remove(0);
        assert(x == all[t]) by {
            assert(all.skip(t)[0] == all[t]);
        }
        assert(rest@ =~= all.skip(t + 1));
        let rx = rank(order.as_slice(), x.tags.as_slice());
        let mut p: usize = sorted.len();
        while p > 0
            invariant
                p <= sorted@.len(),
                sorted@ == before,
                rx == rank_spec(order@, x.tags@),
                forall|k: int| p <= k < sorted@.len() ==> !file_le(order@, #[trigger] sorted@[k], x),
            ensures
                p <= sorted@.len(),
                sorted@ == before,
                forall|k: int| p <= k < sorted@.len() ==> !file_le(order@, #[trigger] sorted@[k], x),
                p > 0 ==> file_le(order@, sorted@[p - 1], x),
            decreases p,
        {
            let prev = &sorted[p - 1];
            let rp = rank(order.as_slice(), prev.tags.as_slice());
            let le = rp < rx || (rp == rx && text_le_exec(shown(prev), shown(&x)));
            if le {
                break;
            }
            p -= 1;
        }
        proof {
            if p > 0 {
                assert(file_le(order@, sorted@[p - 1], x));
            }
        }
        sorted.insert(p, x);
        proof {
            lemma_insert_file(order@, before, x, p as int);
            assert(all.take(t + 1).drop_last() =~= all.take(t));
            assert(all.take(t + 1).last() == x);
            t = t + 1;
        }
    }
    assert(all.take(t) =~= all);
    sorted
}

/// The path a file is shown under.
fn shown(f: &FileChange) -> (path: &str)
    ensures
        path@ == shown_path(*f),
{
    match &f.new_path {
        Some(new) => new.as_str(),
        None => match &f.old_path {
            Some(old) => old.as_str(),
            None => {
                proof {
                    reveal_strlit("");
                }
                ""
            },
        },
    }
}

/// Why one file could not be diffed.
#[derive(Debug, Clone, Copy, PartialEq, Eq, Structural)]
pub enum FileError {
    UnsupportedFileType,
    ReadFailed,
    NotUtf8,
    Unmerged,
}

impl FileError {
    /// The record's code for the error.
    pub fn code(self) -> (code: &'static str)
        ensures
            code@ == match self {
                FileError::UnsupportedFileType => "unsupported_file_type"@,
                FileError::ReadFailed => "read_failed"@,
                FileError::NotUtf8 => "not_utf8"@,
                FileError::Unmerged => "unmerged"@,
            },
    {
        match self {
            FileError::UnsupportedFileType => "unsupported_file_type",
            FileError::ReadFailed => "read_failed",
            FileError::NotUtf8 => "not_utf8",
            FileError::Unmerged => "unmerged",
        }
    }

    /// What the error tells a reader.
    pub fn message(self) -> (message: &'static str)
        ensures
            message@ == match self {
                FileError::UnsupportedFileType =>
                    "structural diffs currently require regular text files (not symlinks or submodules)"@,
                FileError::ReadFailed => "could not read the source"@,
                FileError::NotUtf8 => "the source is not valid UTF-8"@,
                FileError::Unmerged =>
                    "unmerged index entry: resolve the conflict before requesting a structural diff"@,
            },
    {
        match self {
            FileError::UnsupportedFileType =>
                "structural diffs currently require regular text files (not symlinks or submodules)",
            FileError::ReadFailed => "could not read the source",
            FileError::NotUtf8 => "the source is not valid UTF-8",
            FileError::Unmerged =>
                "unmerged index entry: resolve the conflict before requesting a structural diff",
        }
    }
}

} // verus!
