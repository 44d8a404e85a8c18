//! The lexer: a single left-to-right scan with one-token lookahead that
//! turns markup text into a flat token sequence, together with a structural
//! validator over token sequences and the self-closing tag table.
//!
//! The scan is modelled by `lex_spec`, a recursive function over the input
//! characters; `Lexer::lex` is proved to return exactly that sequence, or
//! nothing exactly when the model fails.  Balance checking is modelled by
//! `validate_spec`.

use vstd::prelude::*;
use vstd::string::StringExecFns;

use crate::chars::{is_name_char, lower_of};
use crate::chars::{chars_to_string, lowercase, name_char, str_to_chars, string_matches};

verus! {

/// One atomic output unit of the lexer.
///
/// Exactly one `EOF` terminates every token sequence the lexer produces.
/// `Attribute` tokens are only meaningful between a `TagBegin` and the next
/// `TagEnd`, `TagBegin` or `Content` token.
#[derive(Debug, PartialEq)]
pub enum Token {
    TagBegin(String),
    TagEnd(String),
    Content(String),
    Attribute((String, String)),
    EOF,
}

/// The mathematical model of a token: the same five shapes over character
/// sequences.
pub enum TokenView {
    TagBegin(Seq<char>),
    TagEnd(Seq<char>),
    Content(Seq<char>),
    Attribute(Seq<char>, Seq<char>),
    Eof,
}

impl View for Token {
    type V = TokenView;

    open spec fn view(&self) -> TokenView {
        match self {
            Token::TagBegin(name) => TokenView::TagBegin(name@),
            Token::TagEnd(name) => TokenView::TagEnd(name@),
            Token::Content(text) => TokenView::Content(text@),
            Token::Attribute(pair) => TokenView::Attribute(pair.0@, pair.1@),
            Token::EOF => TokenView::Eof,
        }
    }
}

/// The models of a sequence of tokens, element-wise.
pub open spec fn tokens_view(tokens: Seq<Token>) -> Seq<TokenView> {
    tokens.map_values(|t: Token| t@)
}

/// The end of the run of name characters that starts at `i`: the first
/// position at or after `i` holding a character that may not stand in a tag
/// or attribute name, or the end of the input.
pub open spec fn scan_name(input: Seq<char>, i: int) -> int
    decreases input.len() - i,
{
    if i < 0 || i >= input.len() {
        i
    } else if is_name_char(input[i]) {
        scan_name(input, i + 1)
    } else {
        i
    }
}

/// The end of the content run that starts at `i`: the position of the next
/// `<`, or the end of the input.
pub open spec fn scan_content(input: Seq<char>, i: int) -> int
    decreases input.len() - i,
{
    if i < 0 || i >= input.len() {
        i
    } else if input[i] == '<' {
        i
    } else {
        scan_content(input, i + 1)
    }
}

/// The quoted-value scan that starts at `i`, right after an `=`: characters
/// are copied until a second double quote is seen (the quotes themselves are
/// not copied); a line break before the closing quote, or the end of the
/// input, fails the scan.  On success the result is the copied value and the
/// position just past the closing quote.
pub open spec fn scan_value(input: Seq<char>, i: int, opened: bool) -> Option<(Seq<char>, int)>
    decreases input.len() - i,
{
    if i < 0 || i >= input.len() {
        None
    } else if input[i] == '"' {
        if opened {
            Some((Seq::empty(), i + 1))
        } else {
            scan_value(input, i + 1, true)
        }
    } else if input[i] == '\n' {
        None
    } else {
        match scan_value(input, i + 1, opened) {
            Some(p) => Some((seq![input[i]] + p.0, p.1)),
            None => None,
        }
    }
}

pub proof fn lemma_scan_name_bounds(input: Seq<char>, i: int)
    requires
        0 <= i <= input.len(),
    ensures
        i <= scan_name(input, i) <= input.len(),
    decreases input.len() - i,
{
    if i < input.len() && is_name_char(input[i]) {
        lemma_scan_name_bounds(input, i + 1);
    }
}

pub proof fn lemma_scan_content_bounds(input: Seq<char>, i: int)
    requires
        0 <= i <= input.len(),
    ensures
        i <= scan_content(input, i) <= input.len(),
    decreases input.len() - i,
{
    if i < input.len() && input[i] != '<' {
        lemma_scan_content_bounds(input, i + 1);
    }
}

pub proof fn lemma_scan_value_bounds(input: Seq<char>, i: int, opened: bool)
    requires
        0 <= i,
    ensures
        scan_value(input, i, opened) matches Some(p) ==> i < p.1 <= input.len(),
    decreases input.len() - i,
{
    if i < input.len() && input[i] != '\n' {
        lemma_scan_value_bounds(input, i + 1, true);
        lemma_scan_value_bounds(input, i + 1, opened);
    }
}

/// One more token in front of a scan's outcome; a failed scan stays failed.
pub open spec fn cons_token(t: TokenView, rest: Option<Seq<TokenView>>) -> Option<
    Seq<TokenView>,
> {
    match rest {
        Some(r) => Some(seq![t] + r),
        None => None,
    }
}

/// The model of the scan from position `i` in mode `in_tag`: the tokens
/// still to come, ending in `Eof`, or `None` when a quoted attribute value
/// is unterminated or broken by a line break.
///
/// On `<`, the next character is peeked: `/` marks a closing tag and `!` is
/// folded into an ordinary opening tag.  On `>` the inside-tag mode ends.  A
/// name character is read as an attribute inside a tag and as a content run
/// (up to the next `<`) outside one.  Any other character is consumed
/// without a token.
pub open spec fn lex_from(input: Seq<char>, i: int, in_tag: bool) -> Option<Seq<TokenView>>
    decreases input.len() - i,
{
    proof {
        if 0 <= i && i + 2 <= input.len() {
            lemma_scan_name_bounds(input, i + 2);
        }
        if 0 <= i && i + 1 <= input.len() {
            lemma_scan_name_bounds(input, i + 1);
            lemma_scan_content_bounds(input, i + 1);
        }
        if 0 <= i && i <= input.len() {
            lemma_scan_name_bounds(input, i);
            lemma_scan_value_bounds(input, scan_name(input, i) + 1, false);
        }
    }
    if i < 0 || i >= input.len() {
        Some(seq![TokenView::Eof])
    } else {
        let c = input[i];
        if c == '<' {
            if i + 1 >= input.len() {
                lex_from(input, i + 1, in_tag)
            } else if input[i + 1] == '/' {
                let j = scan_name(input, i + 2);
                cons_token(TokenView::TagEnd(input.subrange(i + 2, j)), lex_from(input, j, in_tag))
            } else if input[i + 1] == '!' {
                let j = scan_name(input, i + 2);
                cons_token(TokenView::TagBegin(input.subrange(i + 2, j)), lex_from(input, j, true))
            } else {
                let j = scan_name(input, i + 1);
                cons_token(TokenView::TagBegin(input.subrange(i + 1, j)), lex_from(input, j, true))
            }
        } else if c == '>' {
            lex_from(input, i + 1, false)
        } else if is_name_char(c) {
            if in_tag {
                let j = scan_name(input, i);
                if j < input.len() && input[j] == '=' {
                    match scan_value(input, j + 1, false) {
                        Some(p) => cons_token(
                            TokenView::Attribute(input.subrange(i, j), p.0),
                            lex_from(input, p.1, in_tag),
                        ),
                        None => None,
                    }
                } else {
                    cons_token(
                        TokenView::Attribute(input.subrange(i, j), Seq::empty()),
                        lex_from(input, j, in_tag),
                    )
                }
            } else {
                let j = scan_content(input, i);
                cons_token(TokenView::Content(input.subrange(i, j)), lex_from(input, j, in_tag))
            }
        } else {
            lex_from(input, i + 1, in_tag)
        }
    }
}

/// The model of a whole scan: the token sequence for `input`, or `None` when
/// lexing fails.
pub open spec fn lex_spec(input: Seq<char>) -> Option<Seq<TokenView>> {
    lex_from(input, 0, false)
}

/// A prefix of already-produced tokens in front of the outcome of the rest
/// of a scan; a failed scan stays failed.
pub open spec fn opt_prepend(prefix: Seq<TokenView>, rest: Option<Seq<TokenView>>) -> Option<
    Seq<TokenView>,
> {
    match rest {
        Some(r) => Some(prefix + r),
        None => None,
    }
}

/// Moving one token from the head of the remaining scan onto the produced
/// prefix leaves the combined outcome unchanged.
proof fn lemma_prepend_shift(tokens: Seq<Token>, t: Token, rest: Option<Seq<TokenView>>)
    ensures
        opt_prepend(tokens_view(tokens), cons_token(t@, rest)) == opt_prepend(
            tokens_view(tokens.push(t)),
            rest,
        ),
{
    assert(tokens_view(tokens.push(t)) =~= tokens_view(tokens) + seq![t@]);
    match rest {
        Some(r) => {
            assert(tokens_view(tokens) + (seq![t@] + r) =~= (tokens_view(tokens) + seq![t@]) + r);
        },
        None => {},
    }
}

/// Whether `name` is one of the seven fixed self-closing tag names.  The
/// comparison is exact: case folding happens before this test.
pub open spec fn self_closing_name(name: Seq<char>) -> bool {
    ||| name == "doctype"@
    ||| name == "br"@
    ||| name == "hr"@
    ||| name == "img"@
    ||| name == "input"@
    ||| name == "meta"@
    ||| name == "link"@
}

/// Whether `tag` names a self-closing element: membership of its lower-cased
/// form in the fixed set.
pub open spec fn self_closing_tag(tag: Seq<char>) -> bool {
    self_closing_name(lower_of(tag))
}

/// The stack run of the validator over `tokens` from position `i`: open,
/// non-self-closing tag names are pushed; a closing name pops the innermost
/// open name when they agree, is tolerated when no tag is open, and fails
/// the run otherwise.  The result is the final stack, or `None` on a
/// mismatched pop.
pub open spec fn run_stack(tokens: Seq<TokenView>, i: int, stack: Seq<Seq<char>>) -> Option<
    Seq<Seq<char>>,
>
    decreases tokens.len() - i,
{
    if i < 0 || i >= tokens.len() {
        Some(stack)
    } else {
        match tokens[i] {
            TokenView::TagBegin(tag) => {
                if self_closing_tag(tag) {
                    run_stack(tokens, i + 1, stack)
                } else {
                    run_stack(tokens, i + 1, stack.push(tag))
                }
            },
            TokenView::TagEnd(tag) => {
                if stack.len() == 0 {
                    run_stack(tokens, i + 1, stack)
                } else if stack.last() == tag {
                    run_stack(tokens, i + 1, stack.drop_last())
                } else {
                    None
                }
            },
            _ => run_stack(tokens, i + 1, stack),
        }
    }
}

/// The balance verdict over a token sequence: the stack run succeeds and
/// every opened tag was matched, so the final stack is empty.
pub open spec fn validate_spec(tokens: Seq<TokenView>) -> bool {
    match run_stack(tokens, 0, Seq::empty()) {
        Some(stack) => stack.len() == 0,
        None => false,
    }
}

/// The name scan runs to the end of a run of name characters, exactly.
proof fn lemma_scan_name_run(input: Seq<char>, i: int, j: int)
    requires
        0 <= i <= j <= input.len(),
        forall|m: int| i <= m < j ==> is_name_char(#[trigger] input[m]),
        j == input.len() || !is_name_char(input[j]),
    ensures
        scan_name(input, i) == j,
    decreases j - i,
{
    if i < j {
        lemma_scan_name_run(input, i + 1, j);
    }
}

/// A value scan that never meets a double quote fails: the input ends, or a
/// line break comes, before any closing quote.
proof fn lemma_scan_value_no_quote(input: Seq<char>, i: int, opened: bool)
    requires
        0 <= i,
        forall|m: int| i <= m < input.len() ==> input[m] != '"',
    ensures
        scan_value(input, i, opened) is None,
    decreases input.len() - i,
{
    if i < input.len() && input[i] != '\n' {
        lemma_scan_value_no_quote(input, i + 1, opened);
    }
}

/// A line break before the closing quote fails the value scan, whatever
/// follows the break.
proof fn lemma_scan_value_line_break(input: Seq<char>, i: int, q: int)
    requires
        0 <= i <= q < input.len(),
        input[q] == '\n',
        forall|m: int| i <= m < q ==> input[m] != '"',
    ensures
        scan_value(input, i, true) is None,
    decreases q - i,
{
    if i < q && input[i] != '\n' {
        lemma_scan_value_line_break(input, i + 1, q);
    }
}

/// The scan of `<tag attr=`…: whatever follows the `=`, the whole scan fails
/// whenever the quoted-value scan starting right after the `=` fails.
proof fn lemma_attr_value_gate(input: Seq<char>, t: Seq<char>, a: Seq<char>)
    requires
        t.len() > 0,
        forall|i: int| 0 <= i < t.len() ==> is_name_char(#[trigger] t[i]),
        a.len() > 0,
        forall|i: int| 0 <= i < a.len() ==> is_name_char(#[trigger] a[i]),
        input.len() >= 3 + t.len() + a.len(),
        input.subrange(0, 3 + t.len() as int + a.len() as int) == seq!['<'] + t + seq![' '] + a
            + seq!['='],
        scan_value(input, 3 + t.len() as int + a.len() as int, false) is None,
    ensures
        lex_spec(input) is None,
{
    let tl = t.len() as int;
    let al = a.len() as int;
    let pre = seq!['<'] + t + seq![' '] + a + seq!['='];
    assert(pre.len() == 3 + tl + al);
    assert forall|m: int| 0 <= m < 3 + tl + al implies input[m] == pre[m] by {
        assert(input.subrange(0, 3 + tl + al)[m] == input[m]);
    }
    assert(pre[0] == '<');
    assert forall|m: int| 1 <= m < 1 + tl implies input[m] == t[m - 1] by {
        assert(pre[m] == t[m - 1]);
    }
    assert(pre[1 + tl] == ' ');
    assert forall|m: int| 2 + tl <= m < 2 + tl + al implies input[m] == a[m - 2 - tl] by {
        assert(pre[m] == a[m - 2 - tl]);
    }
    assert(pre[2 + tl + al] == '=');
    assert(input[1] == t[0] && is_name_char(input[1]));
    lemma_scan_name_run(input, 1, 1 + tl);
    assert(lex_from(input, 0, false) == cons_token(
        TokenView::TagBegin(input.subrange(1, 1 + tl)),
        lex_from(input, 1 + tl, true),
    ));
    assert(lex_from(input, 1 + tl, true) == lex_from(input, 2 + tl, true));
    assert(input[2 + tl] == a[0] && is_name_char(input[2 + tl]));
    lemma_scan_name_run(input, 2 + tl, 2 + tl + al);
    assert(lex_from(input, 2 + tl, true) is None);
    assert(lex_spec(input) is None);
}

/// Law: a quoted attribute value left without any closing quote — in
/// particular one left unterminated at the end of the input — fails the
/// whole scan: `<tag attr="value` produces no token sequence at all.
pub proof fn lemma_unterminated_value_fails_lex(t: Seq<char>, a: Seq<char>, w: Seq<char>)
    requires
        t.len() > 0,
        forall|i: int| 0 <= i < t.len() ==> is_name_char(#[trigger] t[i]),
        a.len() > 0,
        forall|i: int| 0 <= i < a.len() ==> is_name_char(#[trigger] a[i]),
        forall|i: int| 0 <= i < w.len() ==> w[i] != '"',
    ensures
        lex_spec(seq!['<'] + t + seq![' '] + a + seq!['='] + seq!['"'] + w) is None,
{
    let input = seq!['<'] + t + seq![' '] + a + seq!['='] + seq!['"'] + w;
    let tl = t.len() as int;
    let al = a.len() as int;
    let pos = 3 + tl + al;
    let pre = seq!['<'] + t + seq![' '] + a + seq!['='];
    assert(input.subrange(0, pos) =~= pre);
    assert(input[pos] == '"');
    assert forall|m: int| pos + 1 <= m < input.len() implies input[m] != '"' by {
        assert(input[m] == w[m - pos - 1]);
    }
    lemma_scan_value_no_quote(input, pos + 1, true);
    assert(scan_value(input, pos, false) is None);
    lemma_attr_value_gate(input, t, a);
}

/// Law: a quoted attribute value broken by a line break before its closing
/// quote fails the whole scan, whatever follows the break: no partial token
/// sequence is produced for `<tag attr="valu␤…`.
pub proof fn lemma_line_break_in_value_fails_lex(
    t: Seq<char>,
    a: Seq<char>,
    w: Seq<char>,
    rest: Seq<char>,
)
    requires
        t.len() > 0,
        forall|i: int| 0 <= i < t.len() ==> is_name_char(#[trigger] t[i]),
        a.len() > 0,
        forall|i: int| 0 <= i < a.len() ==> is_name_char(#[trigger] a[i]),
        forall|i: int| 0 <= i < w.len() ==> w[i] != '"',
    ensures
        lex_spec(
            seq!['<'] + t + seq![' '] + a + seq!['='] + seq!['"'] + w + seq!['\n'] + rest,
        ) is None,
{
    let input = seq!['<'] + t + seq![' '] + a + seq!['='] + seq!['"'] + w + seq!['\n'] + rest;
    let tl = t.len() as int;
    let al = a.len() as int;
    let pos = 3 + tl + al;
    let pre = seq!['<'] + t + seq![' '] + a + seq!['='];
    assert(input.subrange(0, pos) =~= pre);
    assert(input[pos] == '"');
    let q = pos + 1 + w.len() as int;
    assert(input[q] == '\n');
    assert forall|m: int| pos + 1 <= m < q implies input[m] != '"' by {
        assert(input[m] == w[m - pos - 1]);
    }
    lemma_scan_value_line_break(input, pos + 1, q);
    assert(scan_value(input, pos, false) is None);
    lemma_attr_value_gate(input, t, a);
}

/// One properly balanced `<tag></tag>` pair with further pairs nested inside
/// it: the shape of input the balance law speaks of, with no attributes and
/// no content.
pub struct TagPair {
    pub tag: Seq<char>,
    pub inner: Seq<TagPair>,
}

/// The token sequence of one pair: its opening tag, then the nested pairs'
/// tokens, then its closing tag.
pub open spec fn pair_tokens(p: TagPair) -> Seq<TokenView>
    decreases p, 0int,
{
    seq![TokenView::TagBegin(p.tag)] + pairs_tokens(p.inner) + seq![TokenView::TagEnd(p.tag)]
}

/// The token sequence of a sequence of pairs, in order.
pub open spec fn pairs_tokens(ps: Seq<TagPair>) -> Seq<TokenView>
    decreases ps, 1int,
{
    if ps.len() == 0 {
        Seq::empty()
    } else {
        pair_tokens(ps[0]) + pairs_tokens(ps.drop_first())
    }
}

/// Whether no tag anywhere in the pair is self-closing.
pub open spec fn pair_plain(p: TagPair) -> bool
    decreases p, 0int,
{
    !self_closing_tag(p.tag) && pairs_plain(p.inner)
}

/// `pair_plain`, over a sequence of pairs.
pub open spec fn pairs_plain(ps: Seq<TagPair>) -> bool
    decreases ps, 1int,
{
    ps.len() == 0 || (pair_plain(ps[0]) && pairs_plain(ps.drop_first()))
}

/// The validator's stack run walks straight through the tokens of balanced,
/// non-self-closing pairs and comes out with the stack it entered with.
proof fn lemma_pair_run(tokens: Seq<TokenView>, i: int, stack: Seq<Seq<char>>, p: TagPair)
    requires
        pair_plain(p),
        0 <= i,
        i + pair_tokens(p).len() <= tokens.len(),
        tokens.subrange(i, i + pair_tokens(p).len()) == pair_tokens(p),
    ensures
        run_stack(tokens, i, stack) == run_stack(tokens, i + pair_tokens(p).len(), stack),
    decreases p, 0int,
{
    let pt = pair_tokens(p);
    let nt = pairs_tokens(p.inner);
    assert(pt.len() == nt.len() + 2);
    assert(tokens[i] == tokens.subrange(i, i + pt.len())[0]);
    assert(pt[0] == TokenView::TagBegin(p.tag));
    assert(tokens.subrange(i + 1, i + 1 + nt.len()) =~= nt) by {
        assert(forall|k: int|
            0 <= k < nt.len() ==> tokens.subrange(i + 1, i + 1 + nt.len())[k] == tokens.subrange(
                i,
                i + pt.len(),
            )[k + 1] && pt[k + 1] == #[trigger] nt[k]);
    }
    lemma_pairs_run(tokens, i + 1, stack.push(p.tag), p.inner);
    let j = i + 1 + nt.len();
    assert(tokens[j] == tokens.subrange(i, i + pt.len())[j - i]);
    assert(pt[j - i] == TokenView::TagEnd(p.tag));
    assert((stack.push(p.tag)).drop_last() =~= stack);
    assert(run_stack(tokens, j, stack.push(p.tag)) == run_stack(tokens, j + 1, stack));
}

/// `lemma_pair_run`, over a sequence of pairs.
proof fn lemma_pairs_run(tokens: Seq<TokenView>, i: int, stack: Seq<Seq<char>>, ps: Seq<TagPair>)
    requires
        pairs_plain(ps),
        0 <= i,
        i + pairs_tokens(ps).len() <= tokens.len(),
        tokens.subrange(i, i + pairs_tokens(ps).len()) == pairs_tokens(ps),
    ensures
        run_stack(tokens, i, stack) == run_stack(tokens, i + pairs_tokens(ps).len(), stack),
    decreases ps, 1int,
{
    if ps.len() > 0 {
        let ft = pair_tokens(ps[0]);
        let rt = pairs_tokens(ps.drop_first());
        assert(pairs_tokens(ps) == ft + rt);
        assert(tokens.subrange(i, i + ft.len()) =~= ft) by {
            assert(forall|k: int|
                0 <= k < ft.len() ==> tokens.subrange(i, i + ft.len())[k] == tokens.subrange(
                    i,
                    i + pairs_tokens(ps).len(),
                )[k] && (ft + rt)[k] == #[trigger] ft[k]);
        }
        lemma_pair_run(tokens, i, stack, ps[0]);
        let j = i + ft.len();
        assert(tokens.subrange(j, j + rt.len()) =~= rt) by {
            assert(forall|k: int|
                0 <= k < rt.len() ==> tokens.subrange(j, j + rt.len())[k] == tokens.subrange(
                    i,
                    i + pairs_tokens(ps).len(),
                )[k + ft.len()] && (ft + rt)[k + ft.len()] == #[trigger] rt[k]);
        }
        lemma_pairs_run(tokens, j, stack, ps.drop_first());
    }
}

/// Law: every token sequence consisting only of properly balanced
/// `<tag></tag>` pairs, none of whose tags is self-closing, validates — with
/// or without the end marker after it.  The stack run over such a sequence
/// returns the stack it entered with, so nothing is left open and nothing
/// mismatches.
pub proof fn lemma_balanced_pairs_validate(ps: Seq<TagPair>)
    requires
        pairs_plain(ps),
    ensures
        validate_spec(pairs_tokens(ps)),
        validate_spec(pairs_tokens(ps).push(TokenView::Eof)),
{
    let toks = pairs_tokens(ps);
    assert(toks.subrange(0, toks.len() as int) =~= toks);
    lemma_pairs_run(toks, 0, Seq::empty(), ps);
    let toks2 = toks.push(TokenView::Eof);
    assert(toks2.subrange(0, toks.len() as int) =~= toks);
    lemma_pairs_run(toks2, 0, Seq::empty(), ps);
    assert(run_stack(toks2, toks.len() as int, Seq::empty()) == run_stack(
        toks2,
        toks.len() as int + 1,
        Seq::empty(),
    ));
}

/// The lexer: wraps a fixed input as a random-accessible character sequence.
/// `position` counts scanner steps and is diagnostic only; no control
/// decision reads it.
pub struct Lexer {
    input: Vec<char>,
    pub position: usize,
}

impl Lexer {
    /// The characters the lexer was built over.
    pub closed spec fn input_chars(&self) -> Seq<char> {
        self.input@
    }

    /// The diagnostic step counter, for contracts.
    pub closed spec fn step_count(&self) -> usize {
        self.position
    }

    pub fn new(input: &str) -> (r: Lexer)
        ensures
            r.input_chars() == input@,
            r.input_chars().len() <= usize::MAX,
            r.step_count() == 0,
    {
        let chars = str_to_chars(input);
        proof {
            assert(chars.len() == chars@.len());
        }
        Lexer { input: chars, position: 0 }
    }

    /// One full scan of the input: the token sequence of `lex_spec`, ending
    /// in `Token::EOF`, or `None` exactly when a quoted attribute value is
    /// unterminated at the end of the input or broken by a line break.  No
    /// partial token sequence is returned on failure.
    #[verifier::loop_isolation(false)]
    pub fn lex(&mut self) -> (r: Option<Vec<Token>>)
        requires
            old(self).step_count() + old(self).input_chars().len() <= usize::MAX,
        ensures
            final(self).input_chars() == old(self).input_chars(),
            final(self).step_count() <= old(self).step_count() + old(self).input_chars().len(),
            match r {
                Some(tokens) => lex_spec(old(self).input_chars()) == Some(tokens_view(tokens@)),
                None => lex_spec(old(self).input_chars()) is None,
            },
    {
        let ghost input = self.input@;
        let ghost pos0 = self.position as int;
        let n: usize = self.input.len();
        let mut tokens: Vec<Token> = Vec::new();
        let mut i: usize = 0;
        let mut in_tag: bool = false;
        loop
            invariant
                i <= n,
                self.input@ == input,
                self.position <= pos0 + i,
                lex_spec(input) == opt_prepend(
                    tokens_view(tokens@),
                    lex_from(input, i as int, in_tag),
                ),
            decreases n - i,
        {
            if i == n {
                proof {
                    lemma_prepend_shift(tokens@, Token::EOF, Some(Seq::empty()));
                    assert(tokens_view(tokens@) + (seq![TokenView::Eof] + Seq::empty())
                        =~= tokens_view(tokens@) + seq![TokenView::Eof]);
                }
                tokens.push(Token::EOF);
                return Some(tokens);
            }
            let ghost i0 = i as int;
            let c = self.input[i];
            self.position = self.position + 1;
            if c == '<' {
                if i + 1 < n {
                    let next = self.input[i + 1];
                    let is_close_tag = next == '/';
                    let start: usize = if next == '/' || next == '!' {
                        i + 2
                    } else {
                        i + 1
                    };
                    let mut j: usize = start;
                    let mut word: Vec<char> = Vec::new();
                    while j < n && name_char(self.input[j])
                        invariant
                            start <= j <= n,
                            word@ == input.subrange(start as int, j as int),
                            scan_name(input, start as int) == scan_name(input, j as int),
                        decreases n - j,
                    {
                        word.push(self.input[j]);
                        j = j + 1;
                        proof {
                            assert(word@ =~= input.subrange(start as int, j as int));
                        }
                    }
                    proof {
                        assert(scan_name(input, start as int) == j as int);
                    }
                    let name = chars_to_string(&word);
                    if is_close_tag {
                        proof {
                            lemma_prepend_shift(
                                tokens@,
                                Token::TagEnd(name),
                                lex_from(input, j as int, in_tag),
                            );
                        }
                        tokens.push(Token::TagEnd(name));
                    } else {
                        proof {
                            lemma_prepend_shift(
                                tokens@,
                                Token::TagBegin(name),
                                lex_from(input, j as int, true),
                            );
                        }
                        tokens.push(Token::TagBegin(name));
                        in_tag = true;
                    }
                    i = j;
                } else {
                    i = i + 1;
                }
            } else if c == '>' {
                in_tag = false;
                i = i + 1;
            } else if name_char(c) {
                if in_tag {
                    let mut j: usize = i;
                    let mut word: Vec<char> = Vec::new();
                    while j < n && name_char(self.input[j])
                        invariant
                            i <= j <= n,
                            word@ == input.subrange(i as int, j as int),
                            scan_name(input, i as int) == scan_name(input, j as int),
                        decreases n - j,
                    {
                        word.push(self.input[j]);
                        j = j + 1;
                        proof {
                            assert(word@ =~= input.subrange(i as int, j as int));
                        }
                    }
                    proof {
                        assert(scan_name(input, i as int) == j as int);
                    }
                    let name = chars_to_string(&word);
                    if j < n && self.input[j] == '=' {
                        let mut k: usize = j + 1;
                        let mut opened: bool = false;
                        let mut done: bool = false;
                        let mut value: Vec<char> = Vec::new();
                        while !done
                            invariant
                                j + 1 <= k <= n,
                                !done ==> scan_value(input, j as int + 1, false) == (match scan_value(
                                    input,
                                    k as int,
                                    opened,
                                ) {
                                    Some(p) => Some((value@ + p.0, p.1)),
                                    None => None::<(Seq<char>, int)>,
                                }),
                                done ==> scan_value(input, j as int + 1, false) == Some(
                                    (value@, k as int),
                                ),
                            decreases n - k,
                        {
                            if k == n {
                                proof {
                                    assert(lex_from(input, i0, true) is None);
                                }
                                return None;
                            }
                            let sc = self.input[k];
                            if sc == '"' {
                                if opened {
                                    k = k + 1;
                                    done = true;
                                    proof {
                                        assert(value@ + Seq::<char>::empty() =~= value@);
                                    }
                                } else {
                                    opened = true;
                                    k = k + 1;
                                }
                            } else if sc == '\n' {
                                proof {
                                    assert(lex_from(input, i0, true) is None);
                                }
                                return None;
                            } else {
                                value.push(sc);
                                k = k + 1;
                                proof {
                                    assert(forall|p: (Seq<char>, int)|
                                        value@.drop_last() + (seq![sc] + p.0) =~= value@ + p.0);
                                }
                            }
                        }
                        let attr_value = chars_to_string(&value);
                        proof {
                            lemma_prepend_shift(
                                tokens@,
                                Token::Attribute((name, attr_value)),
                                lex_from(input, k as int, in_tag),
                            );
                        }
                        tokens.push(Token::Attribute((name, attr_value)));
                        i = k;
                    } else {
                        let empty_value = String::new();
                        proof {
                            lemma_prepend_shift(
                                tokens@,
                                Token::Attribute((name, empty_value)),
                                lex_from(input, j as int, in_tag),
                            );
                        }
                        tokens.push(Token::Attribute((name, empty_value)));
                        i = j;
                    }
                } else {
                    let mut j: usize = i;
                    let mut text: Vec<char> = Vec::new();
                    while j < n && self.input[j] != '<'
                        invariant
                            i <= j <= n,
                            text@ == input.subrange(i as int, j as int),
                            scan_content(input, i as int) == scan_content(input, j as int),
                        decreases n - j,
                    {
                        text.push(self.input[j]);
                        j = j + 1;
                        proof {
                            assert(text@ =~= input.subrange(i as int, j as int));
                        }
                    }
                    proof {
                        assert(scan_content(input, i as int) == j as int);
                    }
                    let content = chars_to_string(&text);
                    proof {
                        lemma_prepend_shift(
                            tokens@,
                            Token::Content(content),
                            lex_from(input, j as int, in_tag),
                        );
                    }
                    tokens.push(Token::Content(content));
                    i = j;
                }
            } else {
                i = i + 1;
            }
        }
    }

    /// The balance verdict of `validate_spec` over an already-produced token
    /// sequence: a pure check that neither mutates nor requires prior lexing
    /// by the same instance.
    #[verifier::loop_isolation(false)]
    pub fn validate(tokens: &Vec<Token>) -> (r: bool)
        ensures
            r == validate_spec(tokens_view(tokens@)),
    {
        let ghost tv = tokens_view(tokens@);
        let n: usize = tokens.len();
        let mut tags: Vec<String> = Vec::new();
        proof {
            assert(tags@.map_values(|s: String| s@) =~= Seq::<Seq<char>>::empty());
        }
        let mut i: usize = 0;
        while i < n
            invariant
                i <= n,
                n == tokens@.len(),
                run_stack(tv, 0, Seq::empty()) == run_stack(
                    tv,
                    i as int,
                    tags@.map_values(|s: String| s@),
                ),
            decreases n - i,
        {
            let ghost stack0 = tags@.map_values(|s: String| s@);
            proof {
                assert(tv[i as int] == tokens@[i as int]@);
            }
            match &tokens[i] {
                Token::TagBegin(tag) => {
                    if !Lexer::is_tag_self_closing(tag.as_str()) {
                        tags.push(tag.clone());
                        proof {
                            assert(tags@.map_values(|s: String| s@) =~= stack0.push(tag@));
                        }
                    }
                },
                Token::TagEnd(tag) => {
                    if tags.len() > 0 {
                        let last_tag = tags.pop().unwrap();
                        proof {
                            assert(stack0.last() == last_tag@);
                            assert(tags@.map_values(|s: String| s@) =~= stack0.drop_last());
                        }
                        if !string_matches(&last_tag, tag.as_str()) {
                            return false;
                        }
                    }
                },
                _ => {},
            }
            i = i + 1;
        }
        tags.len() == 0
    }

    /// Case-insensitive membership of `tag` in the fixed self-closing set:
    /// doctype, br, hr, img, input, meta and link.
    pub fn is_tag_self_closing(tag: &str) -> (r: bool)
        ensures
            r == self_closing_tag(tag@),
    {
        let lower = lowercase(tag);
        Lexer::is_name_self_closing(lower.as_str())
    }

    /// Exact membership of an already lower-cased name in the fixed
    /// self-closing set.
    pub fn is_name_self_closing(name: &str) -> (r: bool)
        ensures
            r == self_closing_name(name@),
    {
        let owned = String::from_str(name);
        string_matches(&owned, "doctype") || string_matches(&owned, "br") || string_matches(
            &owned,
            "hr",
        ) || string_matches(&owned, "img") || string_matches(&owned, "input") || string_matches(
            &owned,
            "meta",
        ) || string_matches(&owned, "link")
    }
}

} // verus!
