//! Character classification and case folding for the scanner.
//!
//! Tag names, attribute names and the first character of a content run are
//! recognised by the alphanumeric-or-hyphen test, and the self-closing and
//! renderable tag tables are queried by lower-cased name.  Both the
//! alphanumeric test and the case folding are concrete for ASCII characters;
//! beyond ASCII they follow the Unicode tables, which are given a name here
//! rather than restated.

use vstd::prelude::*;
use vstd::string::{StrSliceExecFns, StringExecFns};
use vstd::utf8::is_ascii_chars;

verus! {

/// Classification of characters beyond ASCII by `char::is_alphanumeric`:
/// the Unicode tables decide it, so it is named rather than stated.
pub uninterp spec fn is_alphanum_ext(c: char) -> bool;

/// Whether `c` counts as alphanumeric: for ASCII exactly the letters and
/// digits, and beyond ASCII the Unicode classification, by name.
pub open spec fn is_alphanum(c: char) -> bool {
    if (c as u32) < 128 {
        ('0' <= c && c <= '9') || ('a' <= c && c <= 'z') || ('A' <= c && c <= 'Z')
    } else {
        is_alphanum_ext(c)
    }
}

/// Relies on `char::is_alphanumeric`: ASCII letters and digits are
/// alphanumeric and no other ASCII character is; beyond ASCII the Unicode
/// tables decide, named by `is_alphanum_ext`.
#[verifier::external_body]
pub(crate) fn char_is_alphanumeric(c: char) -> (r: bool)
    ensures
        r == is_alphanum(c),
        (c as u32) >= 128 ==> r == is_alphanum_ext(c),
{
    c.is_alphanumeric()
}

/// A character that may stand in a tag or attribute name, or open a content
/// run: alphanumeric or a hyphen.
pub open spec fn is_name_char(c: char) -> bool {
    is_alphanum(c) || c == '-'
}

/// Executable form of `is_name_char`.
pub(crate) fn name_char(c: char) -> (r: bool)
    ensures
        r == is_name_char(c),
{
    char_is_alphanumeric(c) || c == '-'
}

/// Classification of characters beyond ASCII by `char::is_whitespace`: the
/// Unicode tables decide it, so it is named rather than stated.
pub uninterp spec fn is_white_ext(c: char) -> bool;

/// Whether `c` counts as whitespace: for ASCII exactly the space, tab, line
/// feed, vertical tab, form feed and carriage return characters, and beyond
/// ASCII the Unicode classification, by name.
pub open spec fn is_white(c: char) -> bool {
    if (c as u32) < 128 {
        c == ' ' || c == '\t' || c == '\n' || c == '\u{b}' || c == '\u{c}' || c == '\r'
    } else {
        is_white_ext(c)
    }
}

/// Relies on `char::is_whitespace`: the six ASCII whitespace characters are
/// whitespace and no other ASCII character is; beyond ASCII the Unicode
/// tables decide, named by `is_white_ext`.
#[verifier::external_body]
pub(crate) fn char_is_whitespace(c: char) -> (r: bool)
    ensures
        r == is_white(c),
        (c as u32) >= 128 ==> r == is_white_ext(c),
{
    c.is_whitespace()
}

/// Case folding of a sequence with characters beyond ASCII by
/// `str::to_lowercase`: the Unicode tables decide it, so it is named rather
/// than stated.
pub uninterp spec fn lower_ext(s: Seq<char>) -> Seq<char>;

/// The lowercase counterpart of one ASCII character: letters `A`-`Z` map to
/// `a`-`z` and every other character stays itself.
pub open spec fn to_lower_char(c: char) -> char {
    if 'A' <= c && c <= 'Z' {
        ((c as u32) + 32) as char
    } else {
        c
    }
}

/// The lowercase form of a character sequence: for an all-ASCII sequence the
/// character-wise ASCII folding, and otherwise the Unicode folding, by name.
pub open spec fn lower_of(s: Seq<char>) -> Seq<char> {
    if is_ascii_chars(s) {
        s.map_values(|c: char| to_lower_char(c))
    } else {
        lower_ext(s)
    }
}

/// Relies on `str::to_lowercase`: on an ASCII string each letter `A`-`Z`
/// maps to its lowercase counterpart and every other character stays itself;
/// beyond ASCII the Unicode folding decides, named by `lower_ext`.
#[verifier::external_body]
pub(crate) fn lowercase(s: &str) -> (r: String)
    ensures
        r@ == lower_of(s@),
        !is_ascii_chars(s@) ==> r@ == lower_ext(s@),
{
    s.to_lowercase()
}

/// Relies on `String`'s `FromIterator<char>` implementation: collecting a
/// vector of characters yields the string of exactly those characters, in
/// order.
#[verifier::external_body]
pub(crate) fn chars_to_string(v: &Vec<char>) -> (r: String)
    ensures
        r@ == v@,
{
    v.iter().collect()
}

/// Whether a string equals a given literal, by characters.
pub(crate) fn string_matches(s: &String, lit: &str) -> (r: bool)
    ensures
        r == (s@ == lit@),
{
    let other = String::from_str(lit);
    *s == other
}

/// The characters of a string slice, in order, as a vector.
pub(crate) fn str_to_chars(s: &str) -> (v: Vec<char>)
    ensures
        v@ == s@,
{
    let n: usize = s.unicode_len();
    let mut v: Vec<char> = Vec::new();
    let mut i: usize = 0;
    while i < n
        invariant
            i <= n,
            n == s@.len(),
            v@ =~= s@.subrange(0, i as int),
        decreases n - i,
    {
        v.push(s.get_char(i));
        i = i + 1;
    }
    proof {
        assert(v@ =~= s@);
    }
    v
}

} // verus!
