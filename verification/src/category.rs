//! File categories: `source`, `test`, `generated`, or `docs`.
//!
//! A `diffr-classify` git attribute wins outright. Otherwise a set
//! `linguist-generated` attribute means generated, and failing both, the
//! path is matched against built-in rules. Anything else is unclassified.
use crate::text::{chars_of, contains, ends_with, has_infix, has_prefix, has_suffix, is_text, starts_with};
use vstd::prelude::*;

verus! {

pub const GENERATED: &'static str = "generated";

pub const TEST: &'static str = "test";

pub const DOCS: &'static str = "docs";

/// The '/'-separated parts of `s` closed so far that are not empty, and the
/// part still open at its end.
pub open spec fn scan_parts(s: Seq<char>) -> (Seq<Seq<char>>, Seq<char>)
    decreases s.len(),
{
    if s.len() == 0 {
        (Seq::empty(), Seq::empty())
    } else {
        let (done, open) = scan_parts(s.drop_last());
        if s.last() == '/' {
            (if open.len() > 0 { done.push(open) } else { done }, Seq::empty())
        } else {
            (done, open.push(s.last()))
        }
    }
}

/// The parts of a path between its '/' separators, empty ones left out.
pub open spec fn path_parts(path: Seq<char>) -> Seq<Seq<char>> {
    let (done, open) = scan_parts(path);
    if open.len() > 0 {
        done.push(open)
    } else {
        done
    }
}

/// A path's last part, or nothing for a path of separators alone.
pub open spec fn file_name(path: Seq<char>) -> Seq<char> {
    let parts = path_parts(path);
    if parts.len() > 0 {
        parts.last()
    } else {
        Seq::empty()
    }
}

/// The parts before a path's last.
pub open spec fn dir_names(path: Seq<char>) -> Seq<Seq<char>> {
    let parts = path_parts(path);
    if parts.len() > 0 {
        parts.drop_last()
    } else {
        Seq::empty()
    }
}

/// Directory names, anywhere in the path, that mark everything under them
/// as generated.
pub open spec fn generated_dir(dir: Seq<char>) -> bool {
    dir == "dist"@ || dir == "build"@ || dir == "vendor"@ || dir == "node_modules"@ || dir
        == "__generated__"@
}

pub open spec fn test_dir(dir: Seq<char>) -> bool {
    dir == "tests"@ || dir == "test"@ || dir == "__tests__"@ || dir == "spec"@
}

pub open spec fn docs_dir(dir: Seq<char>) -> bool {
    dir == "docs"@
}

/// Exact file names of generated files: lock files.
pub open spec fn generated_file(name: Seq<char>) -> bool {
    name == "package-lock.json"@ || name == "pnpm-lock.yaml"@ || name == "yarn.lock"@ || name
        == "Cargo.lock"@ || name == "go.sum"@ || name == "composer.lock"@ || name == "Gemfile.lock"@
        || name == "poetry.lock"@ || name == "uv.lock"@ || name == "bun.lock"@ || name == "bun.lockb"@
}

pub open spec fn any_dir(dirs: Seq<Seq<char>>, marks: spec_fn(Seq<char>) -> bool) -> bool {
    exists|i: int| 0 <= i < dirs.len() && #[trigger] marks(dirs[i])
}

/// The built-in generated rule.
pub open spec fn generated_path(path: Seq<char>) -> bool {
    let name = file_name(path);
    any_dir(dir_names(path), |dir: Seq<char>| generated_dir(dir)) || generated_file(name) || has_suffix(
        name,
        ".lock"@,
    ) || has_suffix(name, ".min.js"@) || has_suffix(name, ".min.css"@) || has_suffix(name, ".pb.go"@)
        || has_infix(name, ".generated."@) || has_infix(name, "_generated."@)
}

/// The built-in test rule.
pub open spec fn test_path(path: Seq<char>) -> bool {
    let name = file_name(path);
    any_dir(dir_names(path), |dir: Seq<char>| test_dir(dir)) || name == "conftest.py"@ || has_suffix(
        name,
        "_test.go"@,
    ) || has_suffix(name, "_test.py"@) || name == "tests.rs"@ || name == "test.rs"@ || has_suffix(
        name,
        "_test.rs"@,
    ) || has_suffix(name, "_tests.rs"@) || (has_prefix(name, "test_"@) && has_suffix(name, ".py"@))
        || has_infix(name, ".test."@) || has_infix(name, ".spec."@)
}

/// The built-in docs rule.
pub open spec fn docs_path(path: Seq<char>) -> bool {
    any_dir(dir_names(path), |dir: Seq<char>| docs_dir(dir)) || has_suffix(file_name(path), ".md"@)
}

/// The built-in category of a path: generated wins over test, and test
/// over docs.
pub open spec fn category_of(path: Seq<char>) -> Option<Seq<char>> {
    if generated_path(path) {
        Some(GENERATED@)
    } else if test_path(path) {
        Some(TEST@)
    } else if docs_path(path) {
        Some(DOCS@)
    } else {
        None
    }
}

/// The parts of a path between its '/' separators, empty ones left out.
fn split_parts(path: &Vec<char>) -> (parts: Vec<Vec<char>>)
    ensures
        parts@.map_values(|p: Vec<char>| p@) == path_parts(path@),
{
    let mut done: Vec<Vec<char>> = Vec::new();
    let mut open: Vec<char> = Vec::new();
    let mut i: usize = 0;
    while i < path.len()
        invariant
            i <= path@.len(),
            (done@.map_values(|p: Vec<char>| p@), open@) == scan_parts(path@.take(i as int)),
        decreases path@.len() - i,
    {
        let c = path[i];
        assert(path@.take(i + 1).drop_last() =~= path@.take(i as int));
        assert(path@.take(i + 1).last() == c);
        if c == '/' {
            if open.len() > 0 {
                let ghost before = done@;
                let part = open;
                done.push(part);
                assert(done@.map_values(|p: Vec<char>| p@) =~= before.map_values(|p: Vec<char>| p@).push(
                    part@,
                ));
            }
            open = Vec::new();
        } else {
            open.push(c);
        }
        i += 1;
    }
    assert(path@.take(path@.len() as int) =~= path@);
    if open.len() > 0 {
        let ghost before = done@;
        let part = open;
        done.push(part);
        assert(done@.map_values(|p: Vec<char>| p@) =~= before.map_values(|p: Vec<char>| p@).push(part@));
    }
    done
}

fn is_generated_dir(dir: &Vec<char>) -> (yes: bool)
    ensures
        yes == generated_dir(dir@),
{
    is_text(dir, "dist") || is_text(dir, "build") || is_text(dir, "vendor") || is_text(dir, "node_modules")
        || is_text(dir, "__generated__")
}

fn is_test_dir(dir: &Vec<char>) -> (yes: bool)
    ensures
        yes == test_dir(dir@),
{
    is_text(dir, "tests") || is_text(dir, "test") || is_text(dir, "__tests__") || is_text(dir, "spec")
}

fn is_docs_dir(dir: &Vec<char>) -> (yes: bool)
    ensures
        yes == docs_dir(dir@),
{
    is_text(dir, "docs")
}

fn is_generated_file(name: &Vec<char>) -> (yes: bool)
    ensures
        yes == generated_file(name@),
{
    is_text(name, "package-lock.json") || is_text(name, "pnpm-lock.yaml") || is_text(name, "yarn.lock")
        || is_text(name, "Cargo.lock") || is_text(name, "go.sum") || is_text(name, "composer.lock")
        || is_text(name, "Gemfile.lock") || is_text(name, "poetry.lock") || is_text(name, "uv.lock")
        || is_text(name, "bun.lock") || is_text(name, "bun.lockb")
}

/// Which directory rule a scan looks for.
enum DirRule {
    Generated,
    Test,
    Docs,
}

spec fn dir_rule(rule: DirRule) -> spec_fn(Seq<char>) -> bool {
    match rule {
        DirRule::Generated => |dir: Seq<char>| generated_dir(dir),
        DirRule::Test => |dir: Seq<char>| test_dir(dir),
        DirRule::Docs => |dir: Seq<char>| docs_dir(dir),
    }
}

/// Whether one of the directories marks the path under `rule`.
fn any_dir_exec(dirs: &Vec<Vec<char>>, count: usize, rule: &DirRule) -> (yes: bool)
    requires
        count <= dirs@.len(),
    ensures
        yes == any_dir(dirs@.take(count as int).map_values(|p: Vec<char>| p@), dir_rule(*rule)),
{
    let ghost seen = dirs@.take(count as int).map_values(|p: Vec<char>| p@);
    let mut i: usize = 0;
    while i < count
        invariant
            i <= count <= dirs@.len(),
            seen == dirs@.take(count as int).map_values(|p: Vec<char>| p@),
            forall|k: int| 0 <= k < i ==> !(#[trigger] dir_rule(*rule)(seen[k])),
        decreases count - i,
    {
        let dir = &dirs[i];
        let marked = match rule {
            DirRule::Generated => is_generated_dir(dir),
            DirRule::Test => is_test_dir(dir),
            DirRule::Docs => is_docs_dir(dir),
        };
        assert(seen[i as int] == dir@);
        if marked {
            assert(dir_rule(*rule)(seen[i as int]));
            return true;
        }
        i += 1;
    }
    false
}

/// The built-in rule for a repository-relative path, if one matches.
pub fn from_path(path: &str) -> (category: Option<&'static str>)
    ensures
        match category {
            Some(c) => category_of(path@) == Some(c@),
            None => category_of(path@) is None,
        },
{
    let chars = chars_of(path);
    let parts = split_parts(&chars);
    let ghost all = parts@.map_values(|p: Vec<char>| p@);
    let (name, count) = if parts.len() > 0 {
        (chars_of_part(&parts, parts.len() - 1), parts.len() - 1)
    } else {
        (Vec::new(), 0)
    };
    proof {
        assert(name@ == file_name(path@));
        assert(dir_names(path@) =~= parts@.take(count as int).map_values(|p: Vec<char>| p@));
        assert(dir_rule(DirRule::Generated) == (|dir: Seq<char>| generated_dir(dir)));
        assert(dir_rule(DirRule::Test) == (|dir: Seq<char>| test_dir(dir)));
        assert(dir_rule(DirRule::Docs) == (|dir: Seq<char>| docs_dir(dir)));
    }
    if any_dir_exec(&parts, count, &DirRule::Generated) || is_generated_file(&name) || ends_with(&name, ".lock")
        || ends_with(&name, ".min.js") || ends_with(&name, ".min.css") || ends_with(&name, ".pb.go")
        || contains(&name, ".generated.") || contains(&name, "_generated.") {
        return Some(GENERATED);
    }
    if any_dir_exec(&parts, count, &DirRule::Test) || is_text(&name, "conftest.py") || ends_with(&name, "_test.go")
        || ends_with(&name, "_test.py") || is_text(&name, "tests.rs") || is_text(&name, "test.rs")
        || ends_with(&name, "_test.rs") || ends_with(&name, "_tests.rs") || (starts_with(&name, "test_")
        && ends_with(&name, ".py")) || contains(&name, ".test.") || contains(&name, ".spec.") {
        return Some(TEST);
    }
    if any_dir_exec(&parts, count, &DirRule::Docs) || ends_with(&name, ".md") {
        return Some(DOCS);
    }
    None
}

/// A copy of one part's characters.
fn chars_of_part(parts: &Vec<Vec<char>>, index: usize) -> (copy: Vec<char>)
    requires
        index < parts@.len(),
    ensures
        copy@ == parts@[index as int]@,
{
    let part = &parts[index];
    let mut copy: Vec<char> = Vec::new();
    let mut i: usize = 0;
    while i < part.len()
        invariant
            i <= part@.len(),
            copy@ == part@.take(i as int),
        decreases part@.len() - i,
    {
        copy.push(part[i]);
        assert(part@.take(i + 1) =~= part@.take(i as int).push(part@[i as int]));
        i += 1;
    }
    assert(part@.take(part@.len() as int) =~= part@);
    copy
}

} // verus!
