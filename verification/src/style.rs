//! What the rendering front end reads off the parse tree: classification of
//! tag names against the fixed renderable set, extraction of one property's
//! value from an inline `style` attribute, and conversion of a six-digit
//! hexadecimal colour to its three channels.
//!
//! The style scan is modelled by `parse_style_spec`: the first occurrence of
//! the property name that stands at the start of the text or right after a
//! `;` (whitespace tolerated), is followed, after optional whitespace, by a
//! `:`, and carries at least one character of value before the next `;`,
//! yields that value with surrounding whitespace trimmed.

use vstd::prelude::*;

use crate::chars::{is_white, lower_of};
use crate::chars::{char_is_whitespace, chars_to_string, lowercase, str_to_chars, string_matches};

verus! {

/// The renderable element kinds: the fixed allow-list, plus `Unknown` for
/// every other tag name, which the front end drops from its render tree.
#[derive(Debug, PartialEq, Eq)]
pub enum HtmlElement {
    Html,
    Header,
    Body,
    Div,
    Img,
    H1,
    H2,
    H3,
    Paragraph,
    Content,
    Unknown,
}

/// The element kind for an already lower-cased tag name.
pub open spec fn element_of_name(name: Seq<char>) -> HtmlElement {
    if name == "html"@ {
        HtmlElement::Html
    } else if name == "header"@ {
        HtmlElement::Header
    } else if name == "body"@ {
        HtmlElement::Body
    } else if name == "div"@ {
        HtmlElement::Div
    } else if name == "img"@ {
        HtmlElement::Img
    } else if name == "h1"@ {
        HtmlElement::H1
    } else if name == "h2"@ {
        HtmlElement::H2
    } else if name == "h3"@ {
        HtmlElement::H3
    } else if name == "p"@ {
        HtmlElement::Paragraph
    } else if name == "content"@ {
        HtmlElement::Content
    } else {
        HtmlElement::Unknown
    }
}

/// The element kind for a tag as written: classification is
/// case-insensitive, by lower-cased name.
pub open spec fn element_of_tag(tag: Seq<char>) -> HtmlElement {
    element_of_name(lower_of(tag))
}

impl HtmlElement {
    /// Exact classification of an already lower-cased tag name.
    pub fn classify_name(name: &str) -> (r: HtmlElement)
        ensures
            r == element_of_name(name@),
    {
        let owned = String::from_str(name);
        if string_matches(&owned, "html") {
            HtmlElement::Html
        } else if string_matches(&owned, "header") {
            HtmlElement::Header
        } else if string_matches(&owned, "body") {
            HtmlElement::Body
        } else if string_matches(&owned, "div") {
            HtmlElement::Div
        } else if string_matches(&owned, "img") {
            HtmlElement::Img
        } else if string_matches(&owned, "h1") {
            HtmlElement::H1
        } else if string_matches(&owned, "h2") {
            HtmlElement::H2
        } else if string_matches(&owned, "h3") {
            HtmlElement::H3
        } else if string_matches(&owned, "p") {
            HtmlElement::Paragraph
        } else if string_matches(&owned, "content") {
            HtmlElement::Content
        } else {
            HtmlElement::Unknown
        }
    }

    /// Case-insensitive classification of a tag as written.
    pub fn classify(tag: &str) -> (r: HtmlElement)
        ensures
            r == element_of_tag(tag@),
    {
        let lower = lowercase(tag);
        HtmlElement::classify_name(lower.as_str())
    }
}

/// The first position at or after `i` that does not hold whitespace, or the
/// end of the text.
pub open spec fn skip_white(s: Seq<char>, i: int) -> int
    decreases s.len() - i,
{
    if i < 0 || i >= s.len() {
        i
    } else if is_white(s[i]) {
        skip_white(s, i + 1)
    } else {
        i
    }
}

/// The first position at or before `i` with no whitespace just before it:
/// walking back over trailing whitespace.
pub open spec fn back_white(s: Seq<char>, i: int) -> int
    decreases i,
{
    if i <= 0 {
        0
    } else if is_white(s[i - 1]) {
        back_white(s, i - 1)
    } else {
        i
    }
}

/// The position of the next `;` at or after `i`, or the end of the text.
pub open spec fn scan_semicolon(s: Seq<char>, i: int) -> int
    decreases s.len() - i,
{
    if i < 0 || i >= s.len() {
        if s.len() < i {
            i
        } else {
            s.len() as int
        }
    } else if s[i] == ';' {
        i
    } else {
        scan_semicolon(s, i + 1)
    }
}

/// Whether the property occurrence at `k` stands at the start of the text or
/// right after a `;`, with only whitespace between.
pub open spec fn preceded_ok(style: Seq<char>, k: int) -> bool {
    k == 0 || {
        let b = back_white(style, k);
        b > 0 && style[b - 1] == ';'
    }
}

/// Whether a full property-value match stands at position `k`: the property
/// name itself, properly preceded, then optional whitespace, a `:`, and at
/// least one character of value before the next `;`.
pub open spec fn match_at(style: Seq<char>, property: Seq<char>, k: int) -> bool {
    &&& style.subrange(k, k + property.len()) == property
    &&& preceded_ok(style, k)
    &&& {
        let f = skip_white(style, k + property.len());
        &&& f < style.len()
        &&& style[f] == ':'
        &&& scan_semicolon(style, f + 1) > f + 1
    }
}

/// The value of the match at `k`: the characters between the `:` and the
/// next `;` (or the end), with surrounding whitespace trimmed.
pub open spec fn value_at(style: Seq<char>, property: Seq<char>, k: int) -> Seq<char> {
    let f = skip_white(style, k + property.len());
    let vstart = f + 1;
    let vend = scan_semicolon(style, vstart);
    let left = skip_white(style, vstart);
    let right = back_white(style, vend);
    if left < right {
        style.subrange(left, right)
    } else {
        Seq::empty()
    }
}

/// The leftmost full match at or after position `k`, and its value.
pub open spec fn style_find(style: Seq<char>, property: Seq<char>, k: int) -> Option<Seq<char>>
    decreases style.len() - k + 1,
{
    if k < 0 || k + property.len() > style.len() {
        None
    } else if match_at(style, property, k) {
        Some(value_at(style, property, k))
    } else {
        style_find(style, property, k + 1)
    }
}

/// The model of the whole style scan: the leftmost match's value, if any.
pub open spec fn parse_style_spec(style: Seq<char>, property: Seq<char>) -> Option<Seq<char>> {
    style_find(style, property, 0)
}

/// The value of `property` in the inline style text `style`, as
/// `parse_style_spec` says; `None` exactly when no full match exists.
#[verifier::loop_isolation(false)]
pub fn parse_style(style: &str, property: &str) -> (r: Option<String>)
    ensures
        match r {
            Some(value) => parse_style_spec(style@, property@) == Some(value@),
            None => parse_style_spec(style@, property@) is None,
        },
{
    let s = str_to_chars(style);
    let p = str_to_chars(property);
    let n: usize = s.len();
    let plen: usize = p.len();
    if plen > n {
        return None;
    }
    let lim: usize = n - plen;
    let mut k: usize = 0;
    loop
        invariant
            k <= lim,
            style_find(s@, p@, 0) == style_find(s@, p@, k as int),
        decreases lim - k,
    {
        // Does the property name itself stand at `k`?
        let mut m: usize = 0;
        let mut eq: bool = true;
        while eq && m < plen
            invariant
                m <= plen,
                k + plen <= n,
                eq ==> s@.subrange(k as int, k as int + m as int) == p@.subrange(0, m as int),
                !eq ==> m < plen && s@[k as int + m as int] != p@[m as int],
            decreases plen - m + (if eq {
                1int
            } else {
                0int
            }),
        {
            if s[k + m] != p[m] {
                eq = false;
            } else {
                m = m + 1;
                proof {
                    assert(s@.subrange(k as int, k as int + m as int) =~= s@.subrange(
                        k as int,
                        k as int + m as int - 1,
                    ).push(s@[k as int + m - 1]));
                    assert(p@.subrange(0, m as int) =~= p@.subrange(0, m as int - 1).push(
                        p@[m as int - 1],
                    ));
                }
            }
        }
        let name_here: bool = eq;
        proof {
            if eq {
                assert(p@.subrange(0, plen as int) =~= p@);
                assert(s@.subrange(k as int, k as int + plen as int) == p@);
            } else {
                assert(s@.subrange(k as int, k as int + plen as int)[m as int] == s@[k as int
                    + m as int]);
                assert(s@.subrange(k as int, k as int + plen as int) != p@);
            }
        }
        if name_here {
            // Is it properly preceded?
            let mut b: usize = k;
            while b > 0 && char_is_whitespace(s[b - 1])
                invariant
                    b <= k,
                    back_white(s@, k as int) == back_white(s@, b as int),
                decreases b,
            {
                b = b - 1;
            }
            let pre_ok: bool = k == 0 || (b > 0 && s[b - 1] == ';');
            if pre_ok {
                // Skip whitespace, expect a colon.
                let mut f: usize = k + plen;
                while f < n && char_is_whitespace(s[f])
                    invariant
                        k + plen <= f <= n,
                        skip_white(s@, k as int + plen as int) == skip_white(s@, f as int),
                    decreases n - f,
                {
                    f = f + 1;
                }
                if f < n && s[f] == ':' {
                    // The value runs to the next semicolon.
                    let vstart: usize = f + 1;
                    let mut ve: usize = vstart;
                    while ve < n && s[ve] != ';'
                        invariant
                            vstart <= ve <= n,
                            scan_semicolon(s@, vstart as int) == scan_semicolon(s@, ve as int),
                        decreases n - ve,
                    {
                        ve = ve + 1;
                    }
                    if ve > vstart {
                        proof {
                            assert(match_at(s@, p@, k as int));
                        }
                        // Trim surrounding whitespace off the value.
                        let mut lt: usize = vstart;
                        while lt < n && char_is_whitespace(s[lt])
                            invariant
                                vstart <= lt <= n,
                                skip_white(s@, vstart as int) == skip_white(s@, lt as int),
                            decreases n - lt,
                        {
                            lt = lt + 1;
                        }
                        let mut rt: usize = ve;
                        while rt > 0 && char_is_whitespace(s[rt - 1])
                            invariant
                                rt <= ve,
                                back_white(s@, ve as int) == back_white(s@, rt as int),
                            decreases rt,
                        {
                            rt = rt - 1;
                        }
                        let mut out: Vec<char> = Vec::new();
                        let mut c: usize = lt;
                        while lt < rt && c < rt
                            invariant
                                lt <= c <= rt || (rt < lt && c == lt),
                                rt <= n,
                                lt < rt ==> out@ == s@.subrange(lt as int, c as int),
                                rt <= lt ==> out@ == Seq::<char>::empty(),
                            decreases n - c,
                        {
                            out.push(s[c]);
                            c = c + 1;
                            proof {
                                assert(out@ =~= s@.subrange(lt as int, c as int));
                            }
                        }
                        proof {
                            assert(out@ == value_at(s@, p@, k as int));
                            assert(style_find(s@, p@, k as int) == Some(out@));
                        }
                        let value = chars_to_string(&out);
                        return Some(value);
                    }
                }
            }
        }
        proof {
            assert(!match_at(s@, p@, k as int));
            assert(style_find(s@, p@, k as int) == style_find(s@, p@, k as int + 1));
        }
        if k == lim {
            return None;
        }
        k = k + 1;
    }
}

/// The value of one hexadecimal digit, or 16 for any other character.
pub open spec fn hex_digit_spec(c: char) -> int {
    if '0' <= c && c <= '9' {
        (c as u32) - ('0' as u32)
    } else if 'a' <= c && c <= 'f' {
        10 + (c as u32) - ('a' as u32)
    } else if 'A' <= c && c <= 'F' {
        10 + (c as u32) - ('A' as u32)
    } else {
        16
    }
}

/// Whether `c` is a hexadecimal digit.
pub open spec fn is_hex_digit(c: char) -> bool {
    hex_digit_spec(c) < 16
}

/// A colour text without its optional leading `#`.
pub open spec fn hex_body(hex: Seq<char>) -> Seq<char> {
    if hex.len() > 0 && hex[0] == '#' {
        hex.subrange(1, hex.len() as int)
    } else {
        hex
    }
}

/// One colour channel: the two hexadecimal digits at `i` and `i + 1`.
pub open spec fn channel_at(body: Seq<char>, i: int) -> int {
    16 * hex_digit_spec(body[i]) + hex_digit_spec(body[i + 1])
}

/// The model of hexadecimal colour conversion: a six-digit value, with or
/// without a leading `#`, yields its three channels; any other length or
/// non-hexadecimal content yields nothing.
pub open spec fn hex_color_spec(hex: Seq<char>) -> Option<(u8, u8, u8)> {
    let body = hex_body(hex);
    if body.len() == 6 && is_hex_digit(body[0]) && is_hex_digit(body[1]) && is_hex_digit(body[2])
        && is_hex_digit(body[3]) && is_hex_digit(body[4]) && is_hex_digit(body[5]) {
        Some((channel_at(body, 0) as u8, channel_at(body, 2) as u8, channel_at(body, 4) as u8))
    } else {
        None
    }
}

/// The value of one hexadecimal digit character, if it is one.
fn hex_digit(c: char) -> (r: Option<u8>)
    ensures
        r is Some <==> is_hex_digit(c),
        r matches Some(v) ==> v == hex_digit_spec(c),
{
    let u = c as u32;
    if u >= '0' as u32 && u <= '9' as u32 {
        Some((u - '0' as u32) as u8)
    } else if u >= 'a' as u32 && u <= 'f' as u32 {
        Some((10 + u - 'a' as u32) as u8)
    } else if u >= 'A' as u32 && u <= 'F' as u32 {
        Some((10 + u - 'A' as u32) as u8)
    } else {
        None
    }
}

/// The three channels of a six-digit hexadecimal colour, each in the range
/// 0 to 255, as `hex_color_spec` says; the front end divides them by 255 for
/// its unit-range colour and supplies its own alpha.
pub fn hex_color_channels(hex: &str) -> (r: Option<(u8, u8, u8)>)
    ensures
        r == hex_color_spec(hex@),
{
    let chars = str_to_chars(hex);
    let n: usize = chars.len();
    let start: usize = if n > 0 && chars[0] == '#' {
        1
    } else {
        0
    };
    proof {
        assert(hex_body(hex@) =~= chars@.subrange(start as int, n as int));
    }
    if n - start != 6 {
        return None;
    }
    let d0 = hex_digit(chars[start]);
    let d1 = hex_digit(chars[start + 1]);
    let d2 = hex_digit(chars[start + 2]);
    let d3 = hex_digit(chars[start + 3]);
    let d4 = hex_digit(chars[start + 4]);
    let d5 = hex_digit(chars[start + 5]);
    proof {
        let body = hex_body(hex@);
        assert(body[0] == chars@[start as int]);
        assert(body[1] == chars@[start as int + 1]);
        assert(body[2] == chars@[start as int + 2]);
        assert(body[3] == chars@[start as int + 3]);
        assert(body[4] == chars@[start as int + 4]);
        assert(body[5] == chars@[start as int + 5]);
    }
    match (d0, d1, d2, d3, d4, d5) {
        (Some(a), Some(b), Some(c), Some(d), Some(e), Some(f)) => Some(
            (16 * a + b, 16 * c + d, 16 * e + f),
        ),
        _ => None,
    }
}

} // verus!
