//! Mutations run on the manifest before a record is written: the file
//! mutation that hides whole files by category, and the comment marker and
//! label of a summary.
use crate::category::{GENERATED, TEST};
use crate::lines::{is_whitespace, white_space};
use crate::protocol::{FileChange, Problem};
use crate::text::{chars_of, owned, push_chars, push_str, trim_end};
use vstd::prelude::*;

verus! {

/// Languages whose line comments start with `//`.
pub open spec fn slash_language(name: Seq<char>) -> bool {
    name == "C"@ || name == "C++"@ || name == "C#"@ || name == "Objective-C"@ || name == "Rust"@
        || name == "Go"@ || name == "Java"@ || name == "Kotlin"@ || name == "Swift"@ || name
        == "Scala"@ || name == "Dart"@ || name == "JavaScript"@ || name == "JavaScript JSX"@ || name
        == "TypeScript"@ || name == "TypeScript TSX"@ || name == "QML"@ || name == "PHP"@ || name
        == "Zig"@ || name == "Solidity"@ || name == "Proto"@ || name == "Verilog"@ || name == "Smali"@
        || name == "Gleam"@ || name == "F#"@ || name == "Apex"@ || name == "Pascal"@
}

/// Languages whose line comments start with `--`.
pub open spec fn dash_language(name: Seq<char>) -> bool {
    name == "Lua"@ || name == "SQL"@ || name == "Haskell"@ || name == "Elm"@ || name == "Ada"@ || name
        == "VHDL"@ || name == "OCaml"@ || name == "OCaml Interface"@
}

/// Languages whose line comments start with `;`.
pub open spec fn semicolon_language(name: Seq<char>) -> bool {
    name == "Common Lisp"@ || name == "Emacs Lisp"@ || name == "Clojure"@ || name == "Scheme"@ || name
        == "Racket"@ || name == "Janet"@ || name == "Assembly"@
}

/// Languages whose line comments start with `%`.
pub open spec fn percent_language(name: Seq<char>) -> bool {
    name == "Erlang"@ || name == "LaTeX"@
}

/// The line-comment marker for a language's display name, `#` when unknown.
pub open spec fn marker_of(language: Option<Seq<char>>) -> Seq<char> {
    let name = match language {
        Some(name) => name,
        None => Seq::empty(),
    };
    if slash_language(name) {
        "//"@
    } else if dash_language(name) {
        "--"@
    } else if semicolon_language(name) {
        ";"@
    } else if percent_language(name) {
        "%"@
    } else {
        "#"@
    }
}

fn is_slash_language(name: &str) -> (yes: bool)
    ensures
        yes == slash_language(name@),
{
    let name = chars_of(name);
    crate::text::is_text(&name, "C") || crate::text::is_text(&name, "C++") || crate::text::is_text(&name, "C#")
        || crate::text::is_text(&name, "Objective-C") || crate::text::is_text(&name, "Rust")
        || crate::text::is_text(&name, "Go") || crate::text::is_text(&name, "Java")
        || crate::text::is_text(&name, "Kotlin") || crate::text::is_text(&name, "Swift")
        || crate::text::is_text(&name, "Scala") || crate::text::is_text(&name, "Dart")
        || crate::text::is_text(&name, "JavaScript") || crate::text::is_text(&name, "JavaScript JSX")
        || crate::text::is_text(&name, "TypeScript") || crate::text::is_text(&name, "TypeScript TSX")
        || crate::text::is_text(&name, "QML") || crate::text::is_text(&name, "PHP")
        || crate::text::is_text(&name, "Zig") || crate::text::is_text(&name, "Solidity")
        || crate::text::is_text(&name, "Proto") || crate::text::is_text(&name, "Verilog")
        || crate::text::is_text(&name, "Smali") || crate::text::is_text(&name, "Gleam")
        || crate::text::is_text(&name, "F#") || crate::text::is_text(&name, "Apex")
        || crate::text::is_text(&name, "Pascal")
}

fn is_dash_language(name: &str) -> (yes: bool)
    ensures
        yes == dash_language(name@),
{
    let name = chars_of(name);
    crate::text::is_text(&name, "Lua") || crate::text::is_text(&name, "SQL") || crate::text::is_text(&name, "Haskell")
        || crate::text::is_text(&name, "Elm") || crate::text::is_text(&name, "Ada")
        || crate::text::is_text(&name, "VHDL") || crate::text::is_text(&name, "OCaml")
        || crate::text::is_text(&name, "OCaml Interface")
}

fn is_semicolon_language(name: &str) -> (yes: bool)
    ensures
        yes == semicolon_language(name@),
{
    let name = chars_of(name);
    crate::text::is_text(&name, "Common Lisp") || crate::text::is_text(&name, "Emacs Lisp")
        || crate::text::is_text(&name, "Clojure") || crate::text::is_text(&name, "Scheme")
        || crate::text::is_text(&name, "Racket") || crate::text::is_text(&name, "Janet")
        || crate::text::is_text(&name, "Assembly")
}

fn is_percent_language(name: &str) -> (yes: bool)
    ensures
        yes == percent_language(name@),
{
    let name = chars_of(name);
    crate::text::is_text(&name, "Erlang") || crate::text::is_text(&name, "LaTeX")
}

/// The line-comment marker for a language's display name, `#` when unknown.
pub fn comment_marker(language: Option<&str>) -> (marker: &'static str)
    ensures
        marker@ == marker_of(
            match language {
                Some(name) => Some(name@),
                None => None,
            },
        ),
{
    let name = match language {
        Some(name) => name,
        None => "",
    };
    proof {
        reveal_strlit("");
        assert(name@ == match language {
            Some(n) => n@,
            None => Seq::<char>::empty(),
        });
    }
    if is_slash_language(name) {
        "//"
    } else if is_dash_language(name) {
        "--"
    } else if is_semicolon_language(name) {
        ";"
    } else if is_percent_language(name) {
        "%"
    } else {
        "#"
    }
}

/// The collapsed label for a summary: a comment line saying it is
/// pseudocode, then the text without the white space that ends it.
pub fn summary_label(language: Option<&str>, text: &str) -> (label: String)
    ensures
        label@ == marker_of(
            match language {
                Some(name) => Some(name@),
                None => None,
            },
        ) + " pseudocode\n"@ + trim_end(text@),
{
    let chars = chars_of(text);
    let mut end: usize = chars.len();
    assert(text@.take(end as int) =~= text@);
    while end > 0 && is_whitespace(chars[end - 1])
        invariant
            end <= chars@.len(),
            chars@ == text@,
            trim_end(text@) == trim_end(text@.take(end as int)),
        decreases end,
    {
        proof {
            assert(text@.take(end as int).drop_last() =~= text@.take(end - 1));
            assert(text@.take(end as int).last() == text@[end - 1]);
        }
        end -= 1;
    }
    let mut kept: Vec<char> = Vec::new();
    let mut i: usize = 0;
    while i < end
        invariant
            i <= end <= chars@.len(),
            kept@ == chars@.take(i as int),
        decreases end - i,
    {
        kept.push(chars[i]);
        assert(chars@.take(i + 1) =~= chars@.take(i as int).push(chars@[i as int]));
        i += 1;
    }
    proof {
        assert(text@.take(end as int).len() == 0 || !white_space(text@.take(end as int).last()));
        assert(trim_end(text@.take(end as int)) == text@.take(end as int));
    }
    let mut label = owned(comment_marker(language));
    push_str(&mut label, " pseudocode\n");
    push_chars(&mut label, &kept);
    label
}

/// The placeholder label a hidden file shows, if its category is hidden.
pub open spec fn hidden_label(category: Option<Seq<char>>, generated: bool, tests: bool) -> Option<Seq<char>> {
    match category {
        Some(c) => if c == GENERATED@ && generated {
            Some("Generated file · hidden by default"@)
        } else if c == TEST@ && tests {
            Some("Test file · hidden by default"@)
        } else {
            None
        },
        None => None,
    }
}

/// Generated and test files start hidden behind a placeholder.
pub struct HiddenCategories {
    pub generated: bool,
    pub tests: bool,
}

impl HiddenCategories {
    /// Hide the file if its category is one of those switched on.
    pub fn apply(&self, file: &mut FileChange) -> (result: Result<(), Problem>)
        ensures
            result is Ok,
            match hidden_label(
                match old(file).category {
                    Some(c) => Some(c@),
                    None => None,
                },
                self.generated,
                self.tests,
            ) {
                Some(label) => final(file).visibility.collapsed && final(file).visibility.label@ == label
                    && final(file).file == old(file).file && final(file).status == old(file).status
                    && final(file).category == old(file).category && final(file).language == old(
                    file,
                ).language,
                None => *final(file) == *old(file),
            },
    {
        let label = match &file.category {
            Some(category) => {
                if crate::text::str_eq(category.as_str(), GENERATED) && self.generated {
                    "Generated file · hidden by default"
                } else if crate::text::str_eq(category.as_str(), TEST) && self.tests {
                    "Test file · hidden by default"
                } else {
                    return Ok(());
                }
            },
            None => {
                return Ok(());
            },
        };
        file.visibility.collapsed = true;
        file.visibility.label = owned(label);
        Ok(())
    }
}

} // verus!
