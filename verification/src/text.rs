//! Text as sequences of characters: comparison, affixes, and the pieces the
//! labels are built from.
use crate::lines::{is_whitespace, white_space};
use vstd::prelude::*;

verus! {

/// `prefix` starts `s`.
pub open spec fn has_prefix(s: Seq<char>, prefix: Seq<char>) -> bool {
    prefix.len() <= s.len() && s.subrange(0, prefix.len() as int) == prefix
}

/// `suffix` ends `s`.
pub open spec fn has_suffix(s: Seq<char>, suffix: Seq<char>) -> bool {
    suffix.len() <= s.len() && s.subrange(s.len() - suffix.len(), s.len() as int) == suffix
}

/// `needle` occurs in `s` starting at `at`.
pub open spec fn occurs_at(s: Seq<char>, needle: Seq<char>, at: int) -> bool {
    0 <= at && at + needle.len() <= s.len() && s.subrange(at, at + needle.len()) == needle
}

/// `needle` occurs somewhere in `s`.
pub open spec fn has_infix(s: Seq<char>, needle: Seq<char>) -> bool {
    exists|at: int| occurs_at(s, needle, at)
}

/// The characters of `s`.
pub fn chars_of(s: &str) -> (chars: Vec<char>)
    ensures
        chars@ == s@,
{
    let len = s.unicode_len();
    let mut chars: Vec<char> = Vec::new();
    let mut i: usize = 0;
    while i < len
        invariant
            len == s@.len(),
            i <= len,
            chars@ == s@.subrange(0, i as int),
        decreases len - i,
    {
        chars.push(s.get_char(i));
        i += 1;
    }
    chars
}

/// Whether two texts are the same.
pub fn str_eq(a: &str, b: &str) -> (same: bool)
    ensures
        same == (a@ == b@),
{
    let a = chars_of(a);
    let b = chars_of(b);
    chars_eq(&a, &b)
}

/// Whether two character sequences are the same.
pub fn chars_eq(a: &Vec<char>, b: &Vec<char>) -> (same: bool)
    ensures
        same == (a@ == b@),
{
    if a.len() != b.len() {
        return false;
    }
    let mut i: usize = 0;
    while i < a.len()
        invariant
            a.len() == b.len(),
            i <= a.len(),
            a@.subrange(0, i as int) == b@.subrange(0, i as int),
        decreases a.len() - i,
    {
        if a[i] != b[i] {
            assert(a@[i as int] != b@[i as int]);
            return false;
        }
        assert(a@.subrange(0, i + 1) == a@.subrange(0, i as int).push(a@[i as int]));
        assert(b@.subrange(0, i + 1) == b@.subrange(0, i as int).push(b@[i as int]));
        i += 1;
    }
    assert(a@ == a@.subrange(0, a@.len() as int));
    assert(b@ == b@.subrange(0, b@.len() as int));
    true
}

/// Whether `needle` occurs in `s` at `at`.
pub fn occurs_at_exec(s: &Vec<char>, needle: &Vec<char>, at: usize) -> (found: bool)
    ensures
        found == occurs_at(s@, needle@, at as int),
{
    if at > s.len() || needle.len() > s.len() - at {
        return false;
    }
    let mut i: usize = 0;
    while i < needle.len()
        invariant
            at + needle.len() <= s.len(),
            i <= needle.len(),
            s@.subrange(at as int, at + i) == needle@.subrange(0, i as int),
        decreases needle.len() - i,
    {
        if s[at + i] != needle[i] {
            assert(s@.subrange(at as int, at + needle.len())[i as int] != needle@[i as int]);
            return false;
        }
        assert(s@.subrange(at as int, at + i + 1) == s@.subrange(at as int, at + i).push(s@[at + i]));
        assert(needle@.subrange(0, i + 1) == needle@.subrange(0, i as int).push(needle@[i as int]));
        i += 1;
    }
    assert(needle@ == needle@.subrange(0, needle@.len() as int));
    true
}

/// Whether the characters are exactly `text`.
pub fn is_text(s: &Vec<char>, text: &str) -> (same: bool)
    ensures
        same == (s@ == text@),
{
    let text = chars_of(text);
    chars_eq(s, &text)
}

/// Whether `prefix` starts `s`.
pub fn starts_with(s: &Vec<char>, prefix: &str) -> (found: bool)
    ensures
        found == has_prefix(s@, prefix@),
{
    let prefix = chars_of(prefix);
    occurs_at_exec(s, &prefix, 0)
}

/// Whether `suffix` ends `s`.
pub fn ends_with(s: &Vec<char>, suffix: &str) -> (found: bool)
    ensures
        found == has_suffix(s@, suffix@),
{
    let suffix = chars_of(suffix);
    if suffix.len() > s.len() {
        return false;
    }
    occurs_at_exec(s, &suffix, s.len() - suffix.len())
}

/// Whether `needle` occurs anywhere in `s`.
pub fn contains(s: &Vec<char>, needle: &str) -> (found: bool)
    ensures
        found == has_infix(s@, needle@),
{
    let pattern = chars_of(needle);
    contains_chars(s, &pattern)
}

/// Whether the characters of `needle` occur anywhere in `s`.
pub fn contains_chars(s: &Vec<char>, needle: &Vec<char>) -> (found: bool)
    ensures
        found == has_infix(s@, needle@),
{
    if needle.len() > s.len() {
        assert forall|at: int| !occurs_at(s@, needle@, at) by {}
        return false;
    }
    let last = s.len() - needle.len();
    let mut at: usize = 0;
    loop
        invariant
            last == s.len() - needle.len(),
            at <= last,
            forall|k: int| 0 <= k < at ==> !occurs_at(s@, needle@, k),
        decreases last - at,
    {
        if occurs_at_exec(s, needle, at) {
            assert(occurs_at(s@, needle@, at as int));
            return true;
        }
        if at == last {
            assert forall|k: int| !occurs_at(s@, needle@, k) by {
                if 0 <= k <= at {
                }
            }
            return false;
        }
        at += 1;
    }
}

/// Append one character: a call of `String::push`, which appends `c` to
/// the end of the string.
#[verifier::external_body]
pub(crate) fn push_char(s: &mut String, c: char)
    ensures
        final(s)@ == old(s)@.push(c),
{
    s.push(c);
}

/// Append a sequence of characters.
pub fn push_chars(s: &mut String, chars: &Vec<char>)
    ensures
        final(s)@ == old(s)@ + chars@,
{
    let mut i: usize = 0;
    while i < chars.len()
        invariant
            i <= chars.len(),
            s@ == old(s)@ + chars@.subrange(0, i as int),
        decreases chars.len() - i,
    {
        push_char(s, chars[i]);
        assert(chars@.subrange(0, i + 1) == chars@.subrange(0, i as int).push(chars@[i as int]));
        i += 1;
    }
    assert(chars@ == chars@.subrange(0, chars@.len() as int));
}

/// A string holding these characters.
pub fn string_of(chars: &Vec<char>) -> (s: String)
    ensures
        s@ == chars@,
{
    let mut s = String::new();
    push_chars(&mut s, chars);
    s
}

/// The decimal digit for `d`.
pub open spec fn digit_char(d: nat) -> char {
    if d == 0 { '0' } else if d == 1 { '1' } else if d == 2 { '2' } else if d == 3 { '3' }
    else if d == 4 { '4' } else if d == 5 { '5' } else if d == 6 { '6' } else if d == 7 { '7' }
    else if d == 8 { '8' } else { '9' }
}

/// `n` written in decimal, without leading zeros.
pub open spec fn decimal(n: nat) -> Seq<char>
    decreases n,
{
    if n < 10 {
        seq![digit_char(n)]
    } else {
        decimal(n / 10).push(digit_char(n % 10))
    }
}

fn digit(d: u64) -> (c: char)
    requires
        d < 10,
    ensures
        c == digit_char(d as nat),
{
    if d == 0 { '0' } else if d == 1 { '1' } else if d == 2 { '2' } else if d == 3 { '3' }
    else if d == 4 { '4' } else if d == 5 { '5' } else if d == 6 { '6' } else if d == 7 { '7' }
    else if d == 8 { '8' } else { '9' }
}

/// `n` written in decimal.
pub fn decimal_chars(n: u64) -> (chars: Vec<char>)
    ensures
        chars@ == decimal(n as nat),
    decreases n,
{
    if n < 10 {
        let mut chars = Vec::new();
        chars.push(digit(n));
        chars
    } else {
        let mut chars = decimal_chars(n / 10);
        chars.push(digit(n % 10));
        chars
    }
}

/// Append `n` written in decimal.
pub fn push_decimal(s: &mut String, n: u64)
    ensures
        final(s)@ == old(s)@ + decimal(n as nat),
{
    let digits = decimal_chars(n);
    push_chars(s, &digits);
}

/// Append a text.
pub fn push_str(s: &mut String, text: &str)
    ensures
        final(s)@ == old(s)@ + text@,
{
    let chars = chars_of(text);
    push_chars(s, &chars);
}

/// A string holding `text`.
pub fn owned(text: &str) -> (s: String)
    ensures
        s@ == text@,
{
    let mut s = String::new();
    push_str(&mut s, text);
    s
}

} // verus!

verus! {

/// `s` without the white space that starts it.
pub open spec fn trim_start(s: Seq<char>) -> Seq<char>
    decreases s.len(),
{
    if s.len() > 0 && white_space(s[0]) {
        trim_start(s.drop_first())
    } else {
        s
    }
}

/// `s` without the white space that ends it.
pub open spec fn trim_end(s: Seq<char>) -> Seq<char>
    decreases s.len(),
{
    if s.len() > 0 && white_space(s.last()) {
        trim_end(s.drop_last())
    } else {
        s
    }
}

/// `s` without the white space at either end.
pub open spec fn trim(s: Seq<char>) -> Seq<char> {
    trim_end(trim_start(s))
}

/// `s` with every leading repetition of `pattern` removed.
pub open spec fn strip_leading(s: Seq<char>, pattern: Seq<char>) -> Seq<char>
    decreases s.len(),
{
    if pattern.len() > 0 && has_prefix(s, pattern) {
        strip_leading(s.skip(pattern.len() as int), pattern)
    } else {
        s
    }
}

/// `s` with every trailing repetition of `pattern` removed.
pub open spec fn strip_trailing(s: Seq<char>, pattern: Seq<char>) -> Seq<char>
    decreases s.len(),
{
    if pattern.len() > 0 && has_suffix(s, pattern) {
        strip_trailing(s.take(s.len() - pattern.len()), pattern)
    } else {
        s
    }
}

/// The characters of `s` from `from` up to `to`.
pub fn slice_chars(s: &Vec<char>, from: usize, to: usize) -> (out: Vec<char>)
    requires
        from <= to <= s@.len(),
    ensures
        out@ == s@.subrange(from as int, to as int),
{
    let mut out: Vec<char> = Vec::new();
    let mut i: usize = from;
    while i < to
        invariant
            from <= i <= to <= s@.len(),
            out@ == s@.subrange(from as int, i as int),
        decreases to - i,
    {
        out.push(s[i]);
        assert(s@.subrange(from as int, i + 1) =~= s@.subrange(from as int, i as int).push(s@[i as int]));
        i += 1;
    }
    out
}

/// `s` without the white space at either end, as `str::trim` leaves it.
pub fn trimmed(s: &Vec<char>) -> (out: Vec<char>)
    ensures
        out@ == trim(s@),
{
    let mut i: usize = 0;
    assert(s@.skip(0) =~= s@);
    while i < s.len() && is_whitespace(s[i])
        invariant
            i <= s@.len(),
            trim_start(s@) == trim_start(s@.skip(i as int)),
        decreases s@.len() - i,
    {
        assert(s@.skip(i as int).drop_first() =~= s@.skip(i + 1));
        i += 1;
    }
    assert(trim_start(s@) == s@.subrange(i as int, s@.len() as int)) by {
        assert(s@.skip(i as int) =~= s@.subrange(i as int, s@.len() as int));
    }
    let mut j: usize = s.len();
    while j > i && is_whitespace(s[j - 1])
        invariant
            i <= j <= s@.len(),
            trim(s@) == trim_end(s@.subrange(i as int, j as int)),
        decreases j,
    {
        assert(s@.subrange(i as int, j as int).drop_last() =~= s@.subrange(i as int, j - 1));
        j -= 1;
    }
    slice_chars(s, i, j)
}

/// `s` with every leading repetition of `pattern` removed, as
/// `str::trim_start_matches` leaves it.
pub fn without_leading(s: &Vec<char>, pattern: &str) -> (out: Vec<char>)
    ensures
        out@ == strip_leading(s@, pattern@),
{
    let pat = chars_of(pattern);
    let n = s.len();
    let mut at: usize = 0;
    assert(s@.skip(0) =~= s@);
    while pat.len() > 0 && occurs_at_exec(s, &pat, at)
        invariant
            pat@ == pattern@,
            n == s@.len(),
            at <= s@.len(),
            strip_leading(s@, pattern@) == strip_leading(s@.skip(at as int), pattern@),
        decreases s@.len() - at,
    {
        assert(occurs_at(s@, pat@, at as int));
        assert(s@.skip(at as int).subrange(0, pat@.len() as int) =~= s@.subrange(at as int, at + pat@.len()));
        assert(s@.skip(at as int).skip(pat@.len() as int) =~= s@.skip(at + pat@.len()));
        at = at + pat.len();
    }
    proof {
        if pat@.len() > 0 && at + pat@.len() <= s@.len() {
            assert(s@.skip(at as int).subrange(0, pat@.len() as int) =~= s@.subrange(at as int, at + pat@.len()));
        }
    }
    assert(s@.skip(at as int) =~= s@.subrange(at as int, s@.len() as int));
    slice_chars(s, at, s.len())
}

/// `s` with every trailing repetition of `pattern` removed, as
/// `str::trim_end_matches` leaves it.
pub fn without_trailing(s: &Vec<char>, pattern: &str) -> (out: Vec<char>)
    ensures
        out@ == strip_trailing(s@, pattern@),
{
    let pat = chars_of(pattern);
    let mut end: usize = s.len();
    assert(s@.take(s@.len() as int) =~= s@);
    while pat.len() > 0 && pat.len() <= end && occurs_at_exec(s, &pat, end - pat.len())
        invariant
            pat@ == pattern@,
            end <= s@.len(),
            strip_trailing(s@, pattern@) == strip_trailing(s@.take(end as int), pattern@),
        decreases end,
    {
        assert(s@.take(end as int).subrange(end - pat@.len(), end as int) =~= s@.subrange(end - pat@.len(), end as int));
        assert(s@.take(end as int).take(end - pat@.len()) =~= s@.take(end - pat@.len()));
        end -= pat.len();
    }
    proof {
        if pat@.len() > 0 && pat@.len() <= end {
            assert(s@.take(end as int).subrange(end - pat@.len(), end as int) =~= s@.subrange(end - pat@.len(), end as int));
        }
    }
    assert(s@.take(end as int) =~= s@.subrange(0, end as int));
    slice_chars(s, 0, end)
}

} // verus!
