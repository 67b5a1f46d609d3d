//! The rules by which diffr reads `git diff`'s arguments: which words name
//! revisions and which name paths, and which two snapshots the revisions,
//! `--cached`, `--merge-base` and `-R` ask for. What git knows (whether a
//! word names a revision, whether the branch has a commit yet, where two
//! commits last met) is handed in.
use crate::git::Operand;
use crate::text::{chars_of, occurs_at, occurs_at_exec, owned, push_str, slice_chars, string_of};
use vstd::prelude::*;

verus! {

broadcast use vstd::std_specs::vec::group_vec_axioms, vstd::seq::group_seq_axioms;

/// `s` quoted as Rust's `Debug` writes a string: in double quotes, with
/// quotes, backslashes and control characters escaped.
pub uninterp spec fn debug_quoted(s: Seq<char>) -> Seq<char>;

/// A call of `<str as Debug>::fmt`, through `format!`: the string quoted as
/// `Debug` writes it.
#[verifier::external_body]
fn quoted(text: &str) -> (q: String)
    ensures
        q@ == debug_quoted(text@),
{
    format!("{text:?}")
}

/// Where `needle` first occurs in `s` at or after `from`, if it does.
pub open spec fn find_spec(s: Seq<char>, needle: Seq<char>, from: int) -> Option<int>
    decreases s.len() + 1 - from,
{
    if from < 0 || from + needle.len() > s.len() {
        None
    } else if occurs_at(s, needle, from) {
        Some(from)
    } else {
        find_spec(s, needle, from + 1)
    }
}

/// What the search finds is an occurrence, at or after where it starts.
proof fn lemma_find_spec(s: Seq<char>, needle: Seq<char>, from: int)
    ensures
        find_spec(s, needle, from) matches Some(i) ==> from <= i && occurs_at(s, needle, i),
    decreases s.len() + 1 - from,
{
    if !(from < 0 || from + needle.len() > s.len()) && !occurs_at(s, needle, from) {
        lemma_find_spec(s, needle, from + 1);
    }
}

/// Where `needle` first occurs in `s`.
fn find(s: &Vec<char>, needle: &str) -> (at: Option<usize>)
    requires
        needle@.len() > 0,
    ensures
        match at {
            Some(i) => find_spec(s@, needle@, 0) == Some(i as int),
            None => find_spec(s@, needle@, 0) is None,
        },
{
    let pattern = chars_of(needle);
    let mut i: usize = 0;
    while i < s.len() && pattern.len() <= s.len() - i
        invariant
            i <= s@.len(),
            pattern@ == needle@,
            pattern@.len() > 0,
            find_spec(s@, needle@, 0) == find_spec(s@, needle@, i as int),
        decreases s@.len() - i,
    {
        if occurs_at_exec(s, &pattern, i) {
            return Some(i);
        }
        i += 1;
    }
    None
}

/// The revision an empty end of a range stands for.
pub open spec fn or_head(end: Seq<char>) -> Seq<char> {
    if end.len() == 0 {
        "HEAD"@
    } else {
        end
    }
}

/// The two ends of a range `a..b` or `a...b`, an empty end standing for
/// `HEAD`, and whether it is the three-dot form, which compares `b` with
/// where `a` and `b` last met. The first `...` splits it when there is one,
/// else the first `..`.
pub open spec fn range_ends(range: Seq<char>) -> (Seq<char>, Seq<char>, bool) {
    match find_spec(range, "..."@, 0) {
        Some(i) => (or_head(range.take(i)), or_head(range.skip(i + 3)), true),
        None => {
            let i = find_spec(range, ".."@, 0)->0;
            (or_head(range.take(i)), or_head(range.skip(i + 2)), false)
        },
    }
}

/// One side of a comparison as it is planned: a snapshot, or where two
/// revisions last met, which git finds.
#[derive(Clone, Debug)]
pub enum Before {
    Snapshot(Operand),
    MergeBase { a: String, b: String },
}

/// The comparison the arguments ask for: the before side, the after side,
/// and whether `-R` swaps them once the before side is found.
#[derive(Clone, Debug)]
pub struct Plan {
    pub before: Before,
    pub after: Operand,
    pub reverse: bool,
}

/// A side of a comparison, as plain values.
pub enum SideModel {
    Revision(Seq<char>),
    Index,
    WorkingTree,
    EmptyTree,
    MergeBase(Seq<char>, Seq<char>),
}

pub open spec fn operand_model(o: Operand) -> SideModel {
    match o {
        Operand::Revision { reference } => SideModel::Revision(reference@),
        Operand::Index => SideModel::Index,
        Operand::WorkingTree => SideModel::WorkingTree,
        Operand::EmptyTree => SideModel::EmptyTree,
    }
}

pub open spec fn before_model(b: Before) -> SideModel {
    match b {
        Before::Snapshot(o) => operand_model(o),
        Before::MergeBase { a, b } => SideModel::MergeBase(a@, b@),
    }
}

/// A plan as plain values.
pub open spec fn plan_view(p: Plan) -> (SideModel, SideModel, bool) {
    (before_model(p.before), operand_model(p.after), p.reverse)
}

/// The two sides the revisions ask for, before `--merge-base` and `-R`:
/// none compares the index with the working tree, or with `--cached` the
/// last commit (the empty tree on a branch with no commit yet) with the
/// index; one range compares its ends; one revision compares it with the
/// working tree, or with `--cached` the index; two compare them.
pub open spec fn sides_spec(revs: Seq<Seq<char>>, cached: bool, head_born: bool) -> Result<
    (SideModel, SideModel),
    Seq<char>,
> {
    if revs.len() == 0 {
        if cached {
            Ok(
                (
                    if head_born {
                        SideModel::Revision("HEAD"@)
                    } else {
                        SideModel::EmptyTree
                    },
                    SideModel::Index,
                ),
            )
        } else {
            Ok((SideModel::Index, SideModel::WorkingTree))
        }
    } else if revs.len() == 1 && find_spec(revs[0], ".."@, 0) is Some {
        if cached {
            Err("--cached takes one revision, not a range"@)
        } else {
            let (a, b, merge) = range_ends(revs[0]);
            Ok(
                (
                    if merge {
                        SideModel::MergeBase(a, b)
                    } else {
                        SideModel::Revision(a)
                    },
                    SideModel::Revision(b),
                ),
            )
        }
    } else if revs.len() == 1 {
        Ok(
            (
                SideModel::Revision(revs[0]),
                if cached {
                    SideModel::Index
                } else {
                    SideModel::WorkingTree
                },
            ),
        )
    } else if revs.len() == 2 && !cached {
        Ok((SideModel::Revision(revs[0]), SideModel::Revision(revs[1])))
    } else {
        Err("expected at most two revisions (--cached takes at most one)"@)
    }
}

/// The comparison the arguments ask for: `--merge-base` compares with where
/// the first revision and the second (or `HEAD`) last met, and needs one
/// revision that is not a range.
pub open spec fn comparison_spec(
    revs: Seq<Seq<char>>,
    cached: bool,
    head_born: bool,
    merge_base: bool,
    reverse: bool,
) -> Result<(SideModel, SideModel, bool), Seq<char>> {
    match sides_spec(revs, cached, head_born) {
        Err(e) => Err(e),
        Ok((before, after)) => if !merge_base {
            Ok((before, after, reverse))
        } else if revs.len() == 0 {
            Err("--merge-base requires a revision"@)
        } else if find_spec(revs[0], ".."@, 0) is Some {
            Err("do not combine --merge-base with a range"@)
        } else {
            Ok(
                (
                    SideModel::MergeBase(
                        revs[0],
                        if revs.len() > 1 {
                            revs[1]
                        } else {
                            "HEAD"@
                        },
                    ),
                    after,
                    reverse,
                ),
            )
        },
    }
}

/// The revisions as their characters.
pub open spec fn texts(revs: Seq<String>) -> Seq<Seq<char>> {
    revs.map_values(|r: String| r@)
}

/// The revision `text` names, or `HEAD` when it is empty.
fn head_or(text: &Vec<char>) -> (s: String)
    ensures
        s@ == or_head(text@),
{
    if text.len() == 0 {
        owned("HEAD")
    } else {
        string_of(text)
    }
}

/// A copy of a string.
fn copy_string(s: &String) -> (c: String)
    ensures
        c@ == s@,
{
    let chars = chars_of(s.as_str());
    string_of(&chars)
}

/// The comparison that the revisions, `--cached` (`cached`), `--merge-base`
/// (`merge_base`) and `-R` (`reverse`) ask for. `head_born` tells whether
/// the branch has a commit yet.
pub fn comparison(revisions: &Vec<String>, cached: bool, head_born: bool, merge_base: bool, reverse: bool) -> (plan:
    Result<Plan, String>)
    ensures
        match plan {
            Ok(p) => comparison_spec(texts(revisions@), cached, head_born, merge_base, reverse) == Ok::<
                (SideModel, SideModel, bool),
                Seq<char>,
            >(plan_view(p)),
            Err(e) => comparison_spec(texts(revisions@), cached, head_born, merge_base, reverse) == Err::<
                (SideModel, SideModel, bool),
                Seq<char>,
            >(e@),
        },
{
    let ghost revs = texts(revisions@);
    proof {
        reveal_strlit("..");
        reveal_strlit("...");
    }
    let n = revisions.len();
    let first_range: bool = if n == 1 {
        let chars = chars_of(revisions[0].as_str());
        find(&chars, "..").is_some()
    } else {
        false
    };
    proof {
        if n >= 1 {
            assert(revs[0] == revisions@[0]@);
        }
        if n >= 2 {
            assert(revs[1] == revisions@[1]@);
        }
    }
    let (before, after): (Before, Operand) = if n == 0 {
        if cached {
            let before = if head_born {
                Operand::Revision { reference: owned("HEAD") }
            } else {
                Operand::EmptyTree
            };
            (Before::Snapshot(before), Operand::Index)
        } else {
            (Before::Snapshot(Operand::Index), Operand::WorkingTree)
        }
    } else if n == 1 && first_range {
        if cached {
            return Err(owned("--cached takes one revision, not a range"));
        }
        let range = chars_of(revisions[0].as_str());
        match find(&range, "...") {
            Some(i) => {
                proof {
                    lemma_find_spec(range@, "..."@, 0);
                    reveal_strlit("...");
                    assert(occurs_at(range@, "..."@, i as int));
                    assert(i + 3 <= range@.len());
                    assert(range@.len() == range.len());
                }
                let a = slice_chars(&range, 0, i);
                let b = slice_chars(&range, i + 3, range.len());
                assert(a@ =~= range@.take(i as int));
                assert(b@ =~= range@.skip(i + 3));
                (Before::MergeBase { a: head_or(&a), b: head_or(&b) }, Operand::Revision { reference: head_or(&b) })
            },
            None => {
                let i = match find(&range, "..") {
                    Some(i) => i,
                    None => {
                        proof {
                            assert(false);
                        }
                        return Err(String::new());
                    },
                };
                proof {
                    lemma_find_spec(range@, ".."@, 0);
                    reveal_strlit("..");
                    assert(occurs_at(range@, ".."@, i as int));
                    assert(i + 2 <= range@.len());
                    assert(range@.len() == range.len());
                }
                let a = slice_chars(&range, 0, i);
                let b = slice_chars(&range, i + 2, range.len());
                assert(a@ =~= range@.take(i as int));
                assert(b@ =~= range@.skip(i + 2));
                (
                    Before::Snapshot(Operand::Revision { reference: head_or(&a) }),
                    Operand::Revision { reference: head_or(&b) },
                )
            },
        }
    } else if n == 1 {
        let after = if cached {
            Operand::Index
        } else {
            Operand::WorkingTree
        };
        (Before::Snapshot(Operand::Revision { reference: copy_string(&revisions[0]) }), after)
    } else if n == 2 && !cached {
        (
            Before::Snapshot(Operand::Revision { reference: copy_string(&revisions[0]) }),
            Operand::Revision { reference: copy_string(&revisions[1]) },
        )
    } else {
        return Err(owned("expected at most two revisions (--cached takes at most one)"));
    };
    proof {
        assert(sides_spec(revs, cached, head_born) == Ok::<(SideModel, SideModel), Seq<char>>(
            (before_model(before), operand_model(after)),
        ));
    }
    let before = if merge_base {
        if n == 0 {
            return Err(owned("--merge-base requires a revision"));
        }
        let chars = chars_of(revisions[0].as_str());
        if find(&chars, "..").is_some() {
            return Err(owned("do not combine --merge-base with a range"));
        }
        let b = if n > 1 {
            copy_string(&revisions[1])
        } else {
            owned("HEAD")
        };
        Before::MergeBase { a: copy_string(&revisions[0]), b }
    } else {
        before
    };
    Ok(Plan { before, after, reverse })
}

/// One word of the arguments before `--`: its text, whether it names a
/// revision, and whether it names a path that exists.
pub struct Word {
    pub text: String,
    pub is_revision: bool,
    pub is_path: bool,
}

/// The revisions and the paths the words name, in order, or why they do
/// not make a command: a word that is both needs `--` to tell which; a
/// revision after a path is out of place; a word that is neither is
/// unknown.
pub open spec fn classify_spec(words: Seq<Word>, has_separator: bool) -> Result<
    (Seq<Seq<char>>, Seq<Seq<char>>),
    Seq<char>,
>
    decreases words.len(),
{
    if words.len() == 0 {
        Ok((Seq::empty(), Seq::empty()))
    } else {
        match classify_spec(words.drop_last(), has_separator) {
            Err(e) => Err(e),
            Ok((revs, paths)) => {
                let w = words.last();
                if w.is_revision && w.is_path && !has_separator {
                    Err("ambiguous revision and path "@ + debug_quoted(w.text@) + "; use -- to separate them"@)
                } else if w.is_revision && paths.len() == 0 {
                    Ok((revs.push(w.text@), paths))
                } else if w.is_revision {
                    Err("revisions must precede paths; use -- to separate them"@)
                } else if w.is_path {
                    Ok((revs, paths.push(w.text@)))
                } else {
                    Err("unknown revision or path "@ + debug_quoted(w.text@) + "; use -- before pathspecs"@)
                }
            },
        }
    }
}

/// Sort the words before `--` into revisions and paths, in order.
pub fn classify(words: &Vec<Word>, has_separator: bool) -> (sorted: Result<(Vec<String>, Vec<String>), String>)
    ensures
        match sorted {
            Ok((revs, paths)) => classify_spec(words@, has_separator) == Ok::<
                (Seq<Seq<char>>, Seq<Seq<char>>),
                Seq<char>,
            >((texts(revs@), texts(paths@))),
            Err(e) => classify_spec(words@, has_separator) == Err::<(Seq<Seq<char>>, Seq<Seq<char>>), Seq<char>>(
                e@,
            ),
        },
{
    let mut revs: Vec<String> = Vec::new();
    let mut paths: Vec<String> = Vec::new();
    let mut i: usize = 0;
    assert(words@.take(0) =~= Seq::<Word>::empty());
    assert(texts(revs@) =~= Seq::<Seq<char>>::empty());
    assert(texts(paths@) =~= Seq::<Seq<char>>::empty());
    while i < words.len()
        invariant
            i <= words@.len(),
            classify_spec(words@.take(i as int), has_separator) == Ok::<
                (Seq<Seq<char>>, Seq<Seq<char>>),
                Seq<char>,
            >((texts(revs@), texts(paths@))),
        decreases words@.len() - i,
    {
        let w = &words[i];
        proof {
            assert(words@.take(i + 1).drop_last() =~= words@.take(i as int));
            assert(words@.take(i + 1).last() == words@[i as int]);
        }
        if w.is_revision && w.is_path && !has_separator {
            let mut text = owned("ambiguous revision and path ");
            let q = quoted(w.text.as_str());
            push_str(&mut text, q.as_str());
            push_str(&mut text, "; use -- to separate them");
            proof {
                assert(text@ =~= "ambiguous revision and path "@ + debug_quoted(w.text@) + "; use -- to separate them"@);
                lemma_classify_err(words@, i as int, has_separator);
            }
            return Err(text);
        } else if w.is_revision && paths.len() == 0 {
            let ghost prev = revs@;
            revs.push(copy_string(&w.text));
            assert(texts(revs@) =~= texts(prev).push(w.text@));
        } else if w.is_revision {
            proof {
                lemma_classify_err(words@, i as int, has_separator);
            }
            return Err(owned("revisions must precede paths; use -- to separate them"));
        } else if w.is_path {
            let ghost prev = paths@;
            paths.push(copy_string(&w.text));
            assert(texts(paths@) =~= texts(prev).push(w.text@));
        } else {
            let mut text = owned("unknown revision or path ");
            let q = quoted(w.text.as_str());
            push_str(&mut text, q.as_str());
            push_str(&mut text, "; use -- before pathspecs");
            proof {
                assert(text@ =~= "unknown revision or path "@ + debug_quoted(w.text@) + "; use -- before pathspecs"@);
                lemma_classify_err(words@, i as int, has_separator);
            }
            return Err(text);
        }
        i += 1;
    }
    assert(words@.take(words@.len() as int) =~= words@);
    Ok((revs, paths))
}

/// Once a prefix of the words fails, so do all the words, with its error.
proof fn lemma_classify_err(words: Seq<Word>, i: int, has_separator: bool)
    requires
        0 <= i < words.len(),
        classify_spec(words.take(i + 1), has_separator) is Err,
    ensures
        classify_spec(words, has_separator) == classify_spec(words.take(i + 1), has_separator),
    decreases words.len(),
{
    if words.len() > i + 1 {
        assert(words.drop_last().take(i + 1) =~= words.take(i + 1));
        lemma_classify_err(words.drop_last(), i, has_separator);
    } else {
        assert(words.take(i + 1) =~= words);
    }
}

} // verus!
