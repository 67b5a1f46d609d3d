//! Where a function's docstring lies in its file's lines: the run of
//! comment lines just above the function, with only blank lines and the
//! function's own signature between them, or, in Python, a string that is
//! the body's first statement.
use crate::lines::{is_all_whitespace, is_whitespace, white_space};
use crate::text::{
    chars_of, contains_chars, ends_with, has_infix, has_prefix, has_suffix, slice_chars, starts_with, str_eq,
    trim_end, trim_start,
};
use vstd::prelude::*;

verus! {

broadcast use vstd::std_specs::vec::group_vec_axioms, vstd::seq::group_seq_axioms;

/// How many signature lines may sit between a docstring and the line a
/// function's body opens on.
pub const MAX_SIGNATURE_LINES: u32 = 12;

/// A line that holds nothing but white space.
pub open spec fn blank(line: Seq<char>) -> bool {
    forall|i: int| 0 <= i < line.len() ==> white_space(#[trigger] line[i])
}

/// A comment line: after its indentation it opens with the language's
/// marker, or, where comments open with `//`, with `/*`, `*` or `*/`.
pub open spec fn comment_line(line: Seq<char>, marker: Seq<char>) -> bool {
    let text = trim_start(line);
    has_prefix(text, marker) || (marker == "//"@ && (has_prefix(text, "/*"@) || has_prefix(text, "*"@)
        || has_prefix(text, "*/"@)))
}

/// A line that ends a statement or a block, or opens one.
pub open spec fn ends_code(line: Seq<char>) -> bool {
    let text = trim_end(line);
    has_suffix(text, ";"@) || has_suffix(text, "}"@) || has_suffix(text, "{"@)
}

/// The first line of the signature above line `at`, having passed `count`
/// signature lines already: signature lines are neither blank nor comments
/// and end no code, and there are at most [`MAX_SIGNATURE_LINES`] of them.
/// `None` when the search leaves the file.
pub open spec fn signature_top(lines: Seq<Seq<char>>, marker: Seq<char>, at: int, count: nat) -> Option<int>
    decreases at,
{
    if at <= 0 {
        Some(at)
    } else if at - 1 >= lines.len() {
        None
    } else if blank(lines[at - 1]) || comment_line(lines[at - 1], marker) || ends_code(lines[at - 1]) || count
        >= MAX_SIGNATURE_LINES {
        Some(at)
    } else {
        signature_top(lines, marker, at - 1, count + 1)
    }
}

/// The first of the blank lines just above line `at`.
pub open spec fn blank_top(lines: Seq<Seq<char>>, at: int) -> int
    decreases at,
{
    if at > 0 && at - 1 < lines.len() && blank(lines[at - 1]) {
        blank_top(lines, at - 1)
    } else {
        at
    }
}

/// The first of the comment lines just above line `at`.
pub open spec fn comment_top(lines: Seq<Seq<char>>, marker: Seq<char>, at: int) -> int
    decreases at,
{
    if at > 0 && at - 1 < lines.len() && comment_line(lines[at - 1], marker) {
        comment_top(lines, marker, at - 1)
    } else {
        at
    }
}

/// The comment lines above the function whose body opens on line `opens`,
/// past its signature and then blank lines, as a half-open line range.
pub open spec fn comment_above_spec(lines: Seq<Seq<char>>, opens: u32, marker: Seq<char>) -> Option<(u32, u32)> {
    match signature_top(lines, marker, opens as int, 0) {
        None => None,
        Some(top) => {
            let end = blank_top(lines, top);
            let start = comment_top(lines, marker, end);
            if start < end {
                Some((start as u32, end as u32))
            } else {
                None
            }
        },
    }
}

/// The lines as their characters.
pub open spec fn line_views(lines: Seq<&str>) -> Seq<Seq<char>> {
    lines.map_values(|line: &str| line@)
}

/// `s` without the white space that opens it.
fn left_trimmed(s: &Vec<char>) -> (out: Vec<char>)
    ensures
        out@ == trim_start(s@),
{
    let mut i: usize = 0;
    assert(s@.skip(0) =~= s@);
    while i < s.len() && is_whitespace(s[i])
        invariant
            i <= s@.len(),
            trim_start(s@) == trim_start(s@.skip(i as int)),
        decreases s@.len() - i,
    {
        assert(s@.skip(i as int).drop_first() =~= s@.skip(i + 1));
        i += 1;
    }
    assert(s@.skip(i as int) =~= s@.subrange(i as int, s@.len() as int));
    slice_chars(s, i, s.len())
}

/// `s` without the white space that ends it.
fn right_trimmed(s: &Vec<char>) -> (out: Vec<char>)
    ensures
        out@ == trim_end(s@),
{
    let mut j: usize = s.len();
    assert(s@.take(s@.len() as int) =~= s@);
    while j > 0 && is_whitespace(s[j - 1])
        invariant
            j <= s@.len(),
            trim_end(s@) == trim_end(s@.take(j as int)),
        decreases j,
    {
        assert(s@.take(j as int).drop_last() =~= s@.take(j - 1));
        j -= 1;
    }
    assert(s@.take(j as int) =~= s@.subrange(0, j as int));
    slice_chars(s, 0, j)
}

/// Whether `line` is a comment line for `marker`.
fn is_comment(line: &str, marker: &str) -> (yes: bool)
    ensures
        yes == comment_line(line@, marker@),
{
    let text = left_trimmed(&chars_of(line));
    starts_with(&text, marker) || (str_eq(marker, "//") && (starts_with(&text, "/*") || starts_with(&text, "*")
        || starts_with(&text, "*/")))
}

/// Whether `line` ends code.
fn is_code_end(line: &str) -> (yes: bool)
    ensures
        yes == ends_code(line@),
{
    let text = right_trimmed(&chars_of(line));
    ends_with(&text, ";") || ends_with(&text, "}") || ends_with(&text, "{")
}

/// Comment lines above the line a function's body opens on, skipping its
/// signature and then blank lines. A line that ends a statement or a block
/// stops the search, so a comment separated from the function by code does
/// not count. `None` when there are none, or when `opens` lies past the
/// lines.
pub fn comment_above(lines: &[&str], opens: u32, marker: &str) -> (found: Option<(u32, u32)>)
    ensures
        found == comment_above_spec(line_views(lines@), opens, marker@),
{
    let ghost views = line_views(lines@);
    let mut at: u32 = opens;
    let mut signature: u32 = 0;
    loop
        invariant
            views == line_views(lines@),
            signature <= MAX_SIGNATURE_LINES,
            signature_top(views, marker@, opens as int, 0) == signature_top(
                views,
                marker@,
                at as int,
                signature as nat,
            ),
        ensures
            signature_top(views, marker@, opens as int, 0) == Some(at as int),
        decreases at,
    {
        if at == 0 {
            break;
        }
        let index = (at - 1) as usize;
        if index >= lines.len() {
            return None;
        }
        let line = lines[index];
        assert(views[at - 1] == line@);
        if is_all_whitespace(line) || is_comment(line, marker) || is_code_end(line)
            || signature >= MAX_SIGNATURE_LINES {
            break;
        }
        at -= 1;
        signature += 1;
    }
    let ghost top = at;
    while at > 0 && ((at - 1) as usize) < lines.len() && is_all_whitespace(lines[(at - 1) as usize])
        invariant
            views == line_views(lines@),
            blank_top(views, top as int) == blank_top(views, at as int),
        decreases at,
    {
        assert(views[at - 1] == lines@[at - 1]@);
        at -= 1;
    }
    proof {
        if at > 0 && at - 1 < lines@.len() {
            assert(views[at - 1] == lines@[at - 1]@);
        }
    }
    let end = at;
    while at > 0 && ((at - 1) as usize) < lines.len() && is_comment(lines[(at - 1) as usize], marker)
        invariant
            views == line_views(lines@),
            at <= end,
            comment_top(views, marker@, end as int) == comment_top(views, marker@, at as int),
        decreases at,
    {
        assert(views[at - 1] == lines@[at - 1]@);
        at -= 1;
    }
    proof {
        if at > 0 && at - 1 < lines@.len() {
            assert(views[at - 1] == lines@[at - 1]@);
        }
    }
    if at < end {
        Some((at, end))
    } else {
        None
    }
}


/// A letter that may open a Python string literal's prefix.
pub open spec fn prefix_letter(c: char) -> bool {
    c == 'r' || c == 'R' || c == 'u' || c == 'U' || c == 'b' || c == 'B' || c == 'f' || c == 'F'
}

/// `s` without the string-prefix letters that open it.
pub open spec fn without_prefix_letters(s: Seq<char>) -> Seq<char>
    decreases s.len(),
{
    if s.len() > 0 && prefix_letter(s[0]) {
        without_prefix_letters(s.drop_first())
    } else {
        s
    }
}

/// The quote a string literal opens with: a triple quote before a single
/// one.
pub open spec fn opening_quote(body: Seq<char>) -> Option<Seq<char>> {
    if has_prefix(body, "\"\"\""@) {
        Some("\"\"\""@)
    } else if has_prefix(body, "'''"@) {
        Some("'''"@)
    } else if has_prefix(body, "\""@) {
        Some("\""@)
    } else if has_prefix(body, "'"@) {
        Some("'"@)
    } else {
        None
    }
}

/// The first line from `from` on that holds `quote`.
pub open spec fn closing_line(lines: Seq<Seq<char>>, from: int, quote: Seq<char>) -> Option<int>
    decreases lines.len() - from,
{
    if from < 0 || from >= lines.len() {
        None
    } else if has_infix(lines[from], quote) {
        Some(from)
    } else {
        closing_line(lines, from + 1, quote)
    }
}

/// The string that is the first statement of a Python body opening on
/// line `opens`, as a half-open line range: one line when its quote is a
/// single one or closes on the same line, else up to the first later line
/// holding the quote.
pub open spec fn python_docstring_spec(lines: Seq<Seq<char>>, opens: u32) -> Option<(u32, u32)> {
    if opens >= lines.len() {
        None
    } else {
        let body = without_prefix_letters(trim_start(lines[opens as int]));
        match opening_quote(body) {
            None => None,
            Some(quote) => if quote.len() == 1 || has_infix(body.skip(quote.len() as int), quote) {
                Some((opens, (opens + 1) as u32))
            } else {
                match closing_line(lines, opens + 1, quote) {
                    Some(last) => Some((opens, (last + 1) as u32)),
                    None => None,
                }
            },
        }
    }
}

/// Whether `c` may open a string literal's prefix.
fn is_prefix_letter(c: char) -> (yes: bool)
    ensures
        yes == prefix_letter(c),
{
    c == 'r' || c == 'R' || c == 'u' || c == 'U' || c == 'b' || c == 'B' || c == 'f' || c == 'F'
}

/// The quote `body` opens with.
fn quote_of(body: &Vec<char>) -> (quote: Option<Vec<char>>)
    ensures
        match (quote, opening_quote(body@)) {
            (Some(q), Some(expected)) => q@ == expected,
            (None, None) => true,
            _ => false,
        },
{
    if starts_with(body, "\"\"\"") {
        Some(chars_of("\"\"\""))
    } else if starts_with(body, "'''") {
        Some(chars_of("'''"))
    } else if starts_with(body, "\"") {
        Some(chars_of("\""))
    } else if starts_with(body, "'") {
        Some(chars_of("'"))
    } else {
        None
    }
}

/// A string that is the first statement of a Python body. The body fold
/// opens on its first statement line, `opens`.
pub fn python_docstring(lines: &[&str], opens: u32) -> (found: Option<(u32, u32)>)
    requires
        lines@.len() <= u32::MAX,
    ensures
        found == python_docstring_spec(line_views(lines@), opens),
{
    let ghost views = line_views(lines@);
    if opens as usize >= lines.len() {
        return None;
    }
    let first = left_trimmed(&chars_of(lines[opens as usize]));
    assert(views[opens as int] == lines@[opens as int]@);
    let mut i: usize = 0;
    assert(first@.skip(0) =~= first@);
    while i < first.len() && is_prefix_letter(first[i])
        invariant
            i <= first@.len(),
            without_prefix_letters(first@) == without_prefix_letters(first@.skip(i as int)),
        decreases first@.len() - i,
    {
        assert(first@.skip(i as int).drop_first() =~= first@.skip(i + 1));
        i += 1;
    }
    assert(first@.skip(i as int) =~= first@.subrange(i as int, first@.len() as int));
    let body = slice_chars(&first, i, first.len());
    let quote = match quote_of(&body) {
        Some(quote) => quote,
        None => return None,
    };
    if quote.len() == 1 {
        return Some((opens, opens + 1));
    }
    let rest = slice_chars(&body, quote.len(), body.len());
    assert(rest@ =~= body@.skip(quote@.len() as int));
    if contains_chars(&rest, &quote) {
        return Some((opens, opens + 1));
    }
    assert(python_docstring_spec(views, opens) == match closing_line(views, opens + 1, quote@) {
        Some(last) => Some((opens, (last + 1) as u32)),
        None => None,
    });
    let mut index: usize = opens as usize + 1;
    while index < lines.len()
        invariant
            views == line_views(lines@),
            python_docstring_spec(views, opens) == match closing_line(views, opens + 1, quote@) {
                Some(last) => Some((opens, (last + 1) as u32)),
                None => None,
            },
            lines@.len() <= u32::MAX,
            opens + 1 <= index <= lines@.len(),
            closing_line(views, opens + 1, quote@) == closing_line(views, index as int, quote@),
        decreases lines@.len() - index,
    {
        assert(views[index as int] == lines@[index as int]@);
        if contains_chars(&chars_of(lines[index]), &quote) {
            return Some((opens, index as u32 + 1));
        }
        index += 1;
    }
    None
}


/// What is left after trimming the end of `s` is a prefix of `s`.
proof fn lemma_trim_end_prefix(s: Seq<char>)
    ensures
        trim_end(s).len() <= s.len(),
        trim_end(s) == s.take(trim_end(s).len() as int),
    decreases s.len(),
{
    if s.len() > 0 && white_space(s.last()) {
        lemma_trim_end_prefix(s.drop_last());
        assert(s.drop_last().take(trim_end(s).len() as int) =~= s.take(trim_end(s).len() as int));
    } else {
        assert(s.take(s.len() as int) =~= s);
    }
}

/// A line that opens or ends a block, or ends a statement, stops the search
/// for a docstring: when the line just above the one a function's body
/// opens on ends in `{`, `}` or `;` (and is no comment), that function has
/// no docstring above it, so the comment of an enclosing `impl` or class,
/// or of code before it, is never taken for the function's.
pub proof fn block_opener_stops_docstring_search(lines: Seq<Seq<char>>, opens: u32, marker: Seq<char>)
    requires
        0 < opens <= lines.len(),
        has_suffix(trim_end(lines[opens - 1]), "{"@) || has_suffix(trim_end(lines[opens - 1]), "}"@) || has_suffix(
            trim_end(lines[opens - 1]),
            ";"@,
        ),
        !comment_line(lines[opens - 1], marker),
    ensures
        comment_above_spec(lines, opens, marker) is None,
{
    let line = lines[opens - 1];
    reveal_strlit("{");
    reveal_strlit(";");
    reveal_strlit("}");
    assert(ends_code(line));
    assert(signature_top(lines, marker, opens as int, 0) == Some(opens as int));
    lemma_trim_end_prefix(line);
    let t = trim_end(line);
    assert(t[t.len() - 1] == '{' || t[t.len() - 1] == '}' || t[t.len() - 1] == ';') by {
        assert(t.subrange(t.len() - 1, t.len() as int)[0] == t[t.len() - 1]);
    }
    assert(line[t.len() - 1] == t[t.len() - 1]);
    assert(!white_space('{') && !white_space('}') && !white_space(';'));
    assert(!blank(line));
    assert(blank_top(lines, opens as int) == opens as int);
    assert(comment_top(lines, marker, opens as int) == opens as int);
}

} // verus!
