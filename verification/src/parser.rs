//! The parser: consumes a lexer's validated token sequence and builds an
//! ordered forest of element and text nodes by walking the flat sequence
//! with one shared cursor.
//!
//! Tree construction is modelled by `build_spec`, a machine over the token
//! sequence whose state is the cursor, the finished top-level forest and a
//! stack of elements still being built; `Parser::parse` is proved to return
//! exactly the machine's forest.

use vstd::prelude::*;

use crate::lexer::{lex_spec, self_closing_tag, tokens_view, validate_spec};
use crate::lexer::{Lexer, Token, TokenView};

verus! {

/// A node of the parsed forest: an element with its tag, its attributes in
/// encounter order (duplicates preserved) and its ordered children, or a
/// text leaf.
#[derive(Debug)]
pub enum Node {
    Element { tag: String, attributes: Vec<(String, String)>, children: Vec<Node> },
    Text(String),
}

/// The mathematical model of a node: the same two shapes over character
/// sequences.
#[verifier::ext_equal]
pub enum NodeView {
    Element { tag: Seq<char>, attributes: Seq<(Seq<char>, Seq<char>)>, children: Seq<NodeView> },
    Text(Seq<char>),
}

/// The models of a sequence of attribute pairs, element-wise.
pub open spec fn attrs_view(attributes: Seq<(String, String)>) -> Seq<(Seq<char>, Seq<char>)> {
    attributes.map_values(|p: (String, String)| (p.0@, p.1@))
}

/// The model of one node; trees are mapped recursively.
pub open spec fn node_view(n: Node) -> NodeView
    decreases n, 0int,
{
    match n {
        Node::Text(text) => NodeView::Text(text@),
        Node::Element { tag, attributes, children } => NodeView::Element {
            tag: tag@,
            attributes: attrs_view(attributes@),
            children: nodes_view(children@),
        },
    }
}

/// The models of a sequence of nodes, element-wise.
pub open spec fn nodes_view(nodes: Seq<Node>) -> Seq<NodeView>
    decreases nodes, 1int,
{
    Seq::new(
        nodes.len(),
        |k: int|
            if 0 <= k && k < nodes.len() {
                node_view(nodes[k])
            } else {
                NodeView::Text(Seq::empty())
            },
    )
}

impl View for Node {
    type V = NodeView;

    open spec fn view(&self) -> NodeView {
        node_view(*self)
    }
}

/// An element still being built: its tag and the attributes and children
/// gathered so far.
#[verifier::ext_equal]
pub struct Frame {
    pub tag: Seq<char>,
    pub attributes: Seq<(Seq<char>, Seq<char>)>,
    pub children: Seq<NodeView>,
}

/// A frame freshly opened for `tag`: no attributes, no children yet.
pub open spec fn new_frame(tag: Seq<char>) -> Frame {
    Frame { tag, attributes: Seq::empty(), children: Seq::empty() }
}

/// The element a finished frame stands for.
pub open spec fn completed(f: Frame) -> NodeView {
    NodeView::Element { tag: f.tag, attributes: f.attributes, children: f.children }
}

/// Where a finished element goes: into the children of the innermost open
/// frame, or into the top-level forest when no frame is open.
pub open spec fn deliver(forest: Seq<NodeView>, stack: Seq<Frame>, node: NodeView) -> (
    Seq<NodeView>,
    Seq<Frame>,
) {
    if stack.len() == 0 {
        (forest.push(node), stack)
    } else {
        let top = stack.last();
        (
            forest,
            stack.drop_last().push(
                Frame { tag: top.tag, attributes: top.attributes, children: top.children.push(node) },
            ),
        )
    }
}

/// The tree-building machine from cursor `i`, with the finished top-level
/// `forest` and the `stack` of elements still being built; the result is the
/// final top-level forest.
///
/// An opening tag pushes a fresh frame, unless the innermost open element is
/// self-closing, which is then finished first, leaving the token for its
/// enclosing caller.  A closing tag finishes the innermost element, and is
/// skipped when no element is open; its name is not re-checked, that being
/// the validator's task.  Attributes and content join the innermost open
/// element, and are skipped at the top level.  The end marker, or the end of
/// the sequence, finishes every element still open.
pub open spec fn build_from(
    tokens: Seq<TokenView>,
    i: int,
    forest: Seq<NodeView>,
    stack: Seq<Frame>,
) -> Seq<NodeView>
    decreases
            (if 0 <= i && i <= tokens.len() {
                tokens.len() - i
            } else {
                0
            }),
            stack.len(),
{
    if i < 0 || i >= tokens.len() {
        if stack.len() == 0 {
            forest
        } else {
            let d = deliver(forest, stack.drop_last(), completed(stack.last()));
            build_from(tokens, i, d.0, d.1)
        }
    } else {
        match tokens[i] {
            TokenView::TagBegin(tag) => {
                if stack.len() > 0 && self_closing_tag(stack.last().tag) {
                    let d = deliver(forest, stack.drop_last(), completed(stack.last()));
                    build_from(tokens, i, d.0, d.1)
                } else {
                    build_from(tokens, i + 1, forest, stack.push(new_frame(tag)))
                }
            },
            TokenView::TagEnd(_) => {
                if stack.len() == 0 {
                    build_from(tokens, i + 1, forest, stack)
                } else {
                    let d = deliver(forest, stack.drop_last(), completed(stack.last()));
                    build_from(tokens, i + 1, d.0, d.1)
                }
            },
            TokenView::Attribute(name, value) => {
                if stack.len() == 0 {
                    build_from(tokens, i + 1, forest, stack)
                } else {
                    let top = stack.last();
                    build_from(
                        tokens,
                        i + 1,
                        forest,
                        stack.drop_last().push(
                            Frame {
                                tag: top.tag,
                                attributes: top.attributes.push((name, value)),
                                children: top.children,
                            },
                        ),
                    )
                }
            },
            TokenView::Content(text) => {
                if stack.len() == 0 {
                    build_from(tokens, i + 1, forest, stack)
                } else {
                    let top = stack.last();
                    build_from(
                        tokens,
                        i + 1,
                        forest,
                        stack.drop_last().push(
                            Frame {
                                tag: top.tag,
                                attributes: top.attributes,
                                children: top.children.push(NodeView::Text(text)),
                            },
                        ),
                    )
                }
            },
            TokenView::Eof => {
                if stack.len() == 0 {
                    forest
                } else {
                    let d = deliver(forest, stack.drop_last(), completed(stack.last()));
                    build_from(tokens, i, d.0, d.1)
                }
            },
        }
    }
}

/// The model of a whole parse: the machine's forest over `tokens`, from the
/// start, with nothing built yet.
pub open spec fn build_spec(tokens: Seq<TokenView>) -> Seq<NodeView> {
    build_from(tokens, 0, Seq::empty(), Seq::empty())
}

/// The frame for `tag` with the attributes and children gathered so far.
pub open spec fn frame_of(tag: Seq<char>, attributes: Seq<(String, String)>, children: Seq<Node>) -> Frame {
    Frame { tag, attributes: attrs_view(attributes), children: nodes_view(children) }
}

/// Whatever finished forest and stack stand below, the machine cannot tell
/// the state "cursor `at`, innermost frame `f1`" from the state "cursor
/// `from`, innermost frame `f0`".
pub open spec fn same_outcome(tm: Seq<TokenView>, from: int, f0: Frame, at: int, f1: Frame) -> bool {
    forall|forest: Seq<NodeView>, stack: Seq<Frame>|
        #![trigger build_from(tm, at, forest, stack.push(f1))]
        build_from(tm, from, forest, stack.push(f0)) == build_from(tm, at, forest, stack.push(f1))
}

/// Whatever finished forest and stack stand below, running the machine from
/// "cursor `from`, innermost frame `f0`" equals delivering `node` below and
/// running on from cursor `to`.
pub open spec fn closes_to(tm: Seq<TokenView>, from: int, f0: Frame, to: int, node: NodeView) -> bool {
    forall|forest: Seq<NodeView>, stack: Seq<Frame>|
        #![trigger deliver(forest, stack, node)]
        build_from(tm, from, forest, stack.push(f0)) == build_from(
            tm,
            to,
            deliver(forest, stack, node).0,
            deliver(forest, stack, node).1,
        )
}

/// Whether every node of a sequence is a text leaf.
pub open spec fn text_only(nodes: Seq<NodeView>) -> bool {
    forall|i: int| 0 <= i < nodes.len() ==> nodes[i] is Text
}

/// Whether, throughout a tree, every element with a self-closing tag has
/// only text children: markup nested inside a self-closing tag never becomes
/// its child.
pub open spec fn self_closing_childless(n: NodeView) -> bool
    decreases n,
{
    match n {
        NodeView::Text(_) => true,
        NodeView::Element { tag, attributes, children } => {
            &&& (self_closing_tag(tag) ==> text_only(children))
            &&& forall|i: int|
                0 <= i < children.len() ==> self_closing_childless(#[trigger] children[i])
        },
    }
}

/// `self_closing_childless`, over every tree of a forest.
pub open spec fn forest_self_closing_childless(forest: Seq<NodeView>) -> bool {
    forall|i: int| 0 <= i < forest.len() ==> self_closing_childless(#[trigger] forest[i])
}

/// Whether one frame's gathered children could stand in a finished tree: the
/// trees gathered so far obey `self_closing_childless`, and a self-closing
/// frame has gathered only text.
pub open spec fn frame_childless_ok(f: Frame) -> bool {
    &&& forest_self_closing_childless(f.children)
    &&& (self_closing_tag(f.tag) ==> text_only(f.children))
}

/// The machine invariant behind the law: every frame's gathered children are
/// sound, and no frame below the innermost one is self-closing (nothing is
/// ever pushed onto a self-closing frame).
pub open spec fn stack_childless_ok(stack: Seq<Frame>) -> bool {
    &&& forall|i: int| 0 <= i < stack.len() ==> frame_childless_ok(#[trigger] stack[i])
    &&& forall|i: int| 0 <= i < stack.len() - 1 ==> !self_closing_tag(#[trigger] stack[i].tag)
}

proof fn lemma_build_from_childless(
    tokens: Seq<TokenView>,
    i: int,
    forest: Seq<NodeView>,
    stack: Seq<Frame>,
)
    requires
        forest_self_closing_childless(forest),
        stack_childless_ok(stack),
    ensures
        forest_self_closing_childless(build_from(tokens, i, forest, stack)),
    decreases
            (if 0 <= i && i <= tokens.len() {
                tokens.len() - i
            } else {
                0
            }),
            stack.len(),
{
    if i < 0 || i >= tokens.len() || tokens[i] is Eof {
        if stack.len() > 0 {
            let d = deliver(forest, stack.drop_last(), completed(stack.last()));
            lemma_deliver_childless(forest, stack, completed(stack.last()));
            lemma_build_from_childless(tokens, i, d.0, d.1);
        }
    } else {
        match tokens[i] {
            TokenView::TagBegin(tag) => {
                if stack.len() > 0 && self_closing_tag(stack.last().tag) {
                    let d = deliver(forest, stack.drop_last(), completed(stack.last()));
                    lemma_deliver_childless(forest, stack, completed(stack.last()));
                    lemma_build_from_childless(tokens, i, d.0, d.1);
                } else {
                    assert(stack_childless_ok(stack.push(new_frame(tag)))) by {
                        assert(forall|k: int|
                            0 <= k < stack.len() ==> stack.push(new_frame(tag))[k] == #[trigger] stack[k]);
                    }
                    lemma_build_from_childless(tokens, i + 1, forest, stack.push(new_frame(tag)));
                }
            },
            TokenView::TagEnd(_) => {
                if stack.len() == 0 {
                    lemma_build_from_childless(tokens, i + 1, forest, stack);
                } else {
                    let d = deliver(forest, stack.drop_last(), completed(stack.last()));
                    lemma_deliver_childless(forest, stack, completed(stack.last()));
                    lemma_build_from_childless(tokens, i + 1, d.0, d.1);
                }
            },
            TokenView::Attribute(name, value) => {
                if stack.len() == 0 {
                    lemma_build_from_childless(tokens, i + 1, forest, stack);
                } else {
                    let top = stack.last();
                    let up = Frame {
                        tag: top.tag,
                        attributes: top.attributes.push((name, value)),
                        children: top.children,
                    };
                    assert(stack_childless_ok(stack.drop_last().push(up))) by {
                        assert(forall|k: int|
                            0 <= k < stack.len() - 1 ==> stack.drop_last().push(up)[k]
                                == #[trigger] stack[k]);
                        assert(stack.drop_last().push(up)[stack.len() - 1] == up);
                    }
                    lemma_build_from_childless(tokens, i + 1, forest, stack.drop_last().push(up));
                }
            },
            TokenView::Content(text) => {
                if stack.len() == 0 {
                    lemma_build_from_childless(tokens, i + 1, forest, stack);
                } else {
                    let top = stack.last();
                    let up = Frame {
                        tag: top.tag,
                        attributes: top.attributes,
                        children: top.children.push(NodeView::Text(text)),
                    };
                    assert(stack_childless_ok(stack.drop_last().push(up))) by {
                        assert(forall|k: int|
                            0 <= k < stack.len() - 1 ==> stack.drop_last().push(up)[k]
                                == #[trigger] stack[k]);
                        assert(stack.drop_last().push(up)[stack.len() - 1] == up);
                        assert(forall|k: int|
                            0 <= k < top.children.len() ==> top.children.push(
                                NodeView::Text(text),
                            )[k] == #[trigger] top.children[k]);
                    }
                    lemma_build_from_childless(tokens, i + 1, forest, stack.drop_last().push(up));
                }
            },
            TokenView::Eof => {},
        }
    }
}

/// Delivering a sound element into a sound state keeps the state sound.
proof fn lemma_deliver_childless(forest: Seq<NodeView>, stack: Seq<Frame>, node: NodeView)
    requires
        forest_self_closing_childless(forest),
        stack_childless_ok(stack),
        stack.len() > 0,
        node == completed(stack.last()),
    ensures
        forest_self_closing_childless(deliver(forest, stack.drop_last(), node).0),
        stack_childless_ok(deliver(forest, stack.drop_last(), node).1),
        deliver(forest, stack.drop_last(), node).1.len() == stack.len() - 1,
    decreases stack.len(),
{
    let top = stack.last();
    assert(frame_childless_ok(top));
    assert(self_closing_childless(node));
    let rest = stack.drop_last();
    if rest.len() == 0 {
        let out = forest.push(node);
        assert(forall|k: int| 0 <= k < forest.len() ==> out[k] == #[trigger] forest[k]);
        assert(forest_self_closing_childless(out));
    } else {
        let below = rest.last();
        assert(below == stack[stack.len() - 2]);
        assert(!self_closing_tag(below.tag));
        let up = Frame {
            tag: below.tag,
            attributes: below.attributes,
            children: below.children.push(node),
        };
        assert(forall|k: int|
            0 <= k < below.children.len() ==> below.children.push(node)[k]
                == #[trigger] below.children[k]);
        assert(frame_childless_ok(up));
        let out = rest.drop_last().push(up);
        assert(forall|k: int|
            0 <= k < rest.len() - 1 ==> out[k] == #[trigger] rest[k] && rest[k] == stack[k]);
        assert(stack_childless_ok(out));
    }
}

/// Law: markup visually nested inside a self-closing tag never becomes its
/// child.  In the forest built for any token sequence, every element whose
/// tag is self-closing has only text children; the opening tag that follows
/// a self-closing element is left for the enclosing caller and so becomes a
/// sibling, never a child.
pub proof fn lemma_self_closing_never_has_element_children(tokens: Seq<TokenView>)
    ensures
        forest_self_closing_childless(build_spec(tokens)),
{
    lemma_build_from_childless(tokens, 0, Seq::empty(), Seq::empty());
}

/// Why construction of a `Parser` failed: the input could not be lexed, or
/// its token sequence is not balanced.
#[derive(Debug, PartialEq, Eq, Structural, Clone, Copy)]
pub enum ParseError {
    LexFailure,
    ValidationFailure,
}

/// The parser: owns the validated token sequence of one fixed input and is
/// consumed by one `parse` call.
pub struct Parser {
    tokens: Vec<Token>,
}

impl Parser {
    /// The models of the tokens this parser walks.
    pub closed spec fn token_models(&self) -> Seq<TokenView> {
        tokens_view(self.tokens@)
    }

    /// Construction from a fixed input text, which is lexed and validated
    /// internally: the input must lex and its tokens must balance.  Callers
    /// that cannot establish that up front use `try_new`, which turns both
    /// failures into errors.
    pub fn new(input: &str) -> (r: Parser)
        requires
            lex_spec(input@) matches Some(tokens) && validate_spec(tokens),
        ensures
            Some(r.token_models()) == lex_spec(input@),
    {
        let mut lexer = Lexer::new(input);
        match lexer.lex() {
            Some(tokens) => Parser { tokens },
            None => {
                proof {
                    assert(false);
                }
                Parser { tokens: Vec::new() }
            },
        }
    }

    /// Fallible construction: lexes the input, validates the token sequence,
    /// and reports which of the two steps failed instead of requiring the
    /// caller to rule the failures out.
    pub fn try_new(input: &str) -> (r: Result<Parser, ParseError>)
        ensures
            match r {
                Ok(p) => lex_spec(input@) matches Some(tokens) && validate_spec(tokens) && Some(
                    p.token_models(),
                ) == lex_spec(input@),
                Err(ParseError::LexFailure) => lex_spec(input@) is None,
                Err(ParseError::ValidationFailure) => lex_spec(input@) matches Some(tokens)
                    && !validate_spec(tokens),
            },
    {
        let mut lexer = Lexer::new(input);
        match lexer.lex() {
            None => Err(ParseError::LexFailure),
            Some(tokens) => {
                if Lexer::validate(&tokens) {
                    Ok(Parser::new(input))
                } else {
                    Err(ParseError::ValidationFailure)
                }
            },
        }
    }

    /// The ordered top-level forest of the token sequence: exactly the
    /// machine's forest, and always delivered.
    #[verifier::loop_isolation(false)]
    pub fn parse(&self) -> (r: Option<Vec<Node>>)
        ensures
            r matches Some(nodes) && nodes_view(nodes@) == build_spec(self.token_models()),
    {
        let ghost tm = self.token_models();
        let n: usize = self.tokens.len();
        let mut elements: Vec<Node> = Vec::new();
        let mut index: usize = 0;
        let mut done: bool = false;
        proof {
            assert(nodes_view(elements@) =~= Seq::<NodeView>::empty());
        }
        while !done
            invariant
                index <= n,
                !done ==> build_spec(tm) == build_from(
                    tm,
                    index as int,
                    nodes_view(elements@),
                    Seq::empty(),
                ),
                done ==> build_spec(tm) == nodes_view(elements@),
            decreases n - index + (if done {
                0int
            } else {
                1int
            }),
        {
            if index == n {
                done = true;
            } else {
                let ghost i1 = index as int;
                proof {
                    assert(tm[i1] == self.tokens@[i1]@);
                }
                match &self.tokens[index] {
                    Token::TagBegin(tag) => {
                        let ghost forest0 = nodes_view(elements@);
                        let node = self.parse_element(tag.clone(), &mut index);
                        proof {
                            let d = deliver(forest0, Seq::<Frame>::empty(), node@);
                            assert(d.0 =~= forest0.push(node@));
                            assert(nodes_view(elements@.push(node)) =~= forest0.push(node@));
                        }
                        elements.push(node);
                    },
                    Token::EOF => {
                        done = true;
                    },
                    _ => {
                        index = index + 1;
                    },
                }
            }
        }
        Some(elements)
    }

    /// One element's subtree: called with the cursor on the element's
    /// opening tag, consumes the subtree and leaves the cursor on the first
    /// token that does not belong to it.  The contract says, through
    /// `closes_to`, that from any machine state whose innermost frame was
    /// just opened for `tag`, running the machine equals delivering the
    /// returned element one level down with the cursor advanced.
    #[verifier::loop_isolation(false)]
    fn parse_element(&self, tag: String, index: &mut usize) -> (node: Node)
        requires
            *old(index) < self.tokens@.len(),
        ensures
            *old(index) < *final(index) <= self.tokens@.len(),
            node@ matches NodeView::Element { tag: node_tag, .. } && node_tag == tag@,
            closes_to(
                self.token_models(),
                *old(index) + 1,
                new_frame(tag@),
                *final(index) as int,
                node@,
            ),
        decreases self.tokens@.len() - *old(index),
    {
        let ghost tm = self.token_models();
        let ghost i0 = *index as int;
        let ghost ip1 = i0 + 1;
        let ghost nf = new_frame(tag@);
        let n: usize = self.tokens.len();
        let self_contained = Lexer::is_tag_self_closing(tag.as_str());
        let mut attributes: Vec<(String, String)> = Vec::new();
        let mut children: Vec<Node> = Vec::new();
        *index = *index + 1;
        let mut done: bool = false;
        proof {
            assert(frame_of(tag@, attributes@, children@) =~= nf);
        }
        while !done
            invariant
                i0 + 1 <= *index <= n,
                !done ==> same_outcome(
                    tm,
                    ip1,
                    nf,
                    *index as int,
                    frame_of(tag@, attributes@, children@),
                ),
                done ==> closes_to(
                    tm,
                    ip1,
                    nf,
                    *index as int,
                    completed(frame_of(tag@, attributes@, children@)),
                ),
            decreases n - *index + (if done {
                0int
            } else {
                1int
            }),
        {
            let ghost f_cur = frame_of(tag@, attributes@, children@);
            let ghost fin = completed(f_cur);
            let ghost i1 = *index as int;
            if *index == n {
                proof {
                    assert forall|forest: Seq<NodeView>, stack: Seq<Frame>|
                        #![trigger deliver(forest, stack, fin)]
                        build_from(tm, ip1, forest, stack.push(nf)) == build_from(
                            tm,
                            i1,
                            deliver(forest, stack, fin).0,
                            deliver(forest, stack, fin).1,
                        ) by {
                        assert(build_from(tm, ip1, forest, stack.push(nf)) == build_from(
                            tm,
                            i1,
                            forest,
                            stack.push(f_cur),
                        ));
                        assert((stack.push(f_cur)).drop_last() =~= stack);
                    }
                    assert(closes_to(tm, ip1, nf, i1, fin));
                }
                done = true;
            } else {
                proof {
                    assert(tm[i1] == self.tokens@[i1]@);
                }
                match &self.tokens[*index] {
                    Token::TagBegin(child_tag) => {
                        if self_contained {
                            proof {
                                assert forall|forest: Seq<NodeView>, stack: Seq<Frame>|
                                    #![trigger deliver(forest, stack, fin)]
                                    build_from(tm, ip1, forest, stack.push(nf)) == build_from(
                                        tm,
                                        i1,
                                        deliver(forest, stack, fin).0,
                                        deliver(forest, stack, fin).1,
                                    ) by {
                                    assert(build_from(tm, ip1, forest, stack.push(nf))
                                        == build_from(tm, i1, forest, stack.push(f_cur)));
                                    assert((stack.push(f_cur)).drop_last() =~= stack);
                                }
                                assert(closes_to(tm, ip1, nf, i1, fin));
                            }
                            done = true;
                        } else {
                            let ghost ct = child_tag@;
                            let ghost cf = new_frame(ct);
                            let child = self.parse_element(child_tag.clone(), index);
                            let ghost i2 = *index as int;
                            let ghost f_next = frame_of(tag@, attributes@, children@.push(child));
                            proof {
                                assert forall|forest: Seq<NodeView>, stack: Seq<Frame>|
                                    #![trigger build_from(tm, i2, forest, stack.push(f_next))]
                                    build_from(tm, ip1, forest, stack.push(nf)) == build_from(
                                        tm,
                                        i2,
                                        forest,
                                        stack.push(f_next),
                                    ) by {
                                    assert(build_from(tm, ip1, forest, stack.push(nf))
                                        == build_from(tm, i1, forest, stack.push(f_cur)));
                                    let deeper = stack.push(f_cur);
                                    assert(build_from(tm, i1, forest, deeper) == build_from(
                                        tm,
                                        i1 + 1,
                                        forest,
                                        deeper.push(cf),
                                    ));
                                    let d = deliver(forest, deeper, child@);
                                    assert(build_from(tm, i1 + 1, forest, deeper.push(cf))
                                        == build_from(tm, i2, d.0, d.1));
                                    assert(d.0 == forest);
                                    assert(deeper.drop_last() =~= stack);
                                    assert(nodes_view(children@.push(child)) =~= nodes_view(
                                        children@,
                                    ).push(child@));
                                    assert(d.1 =~= stack.push(f_next));
                                }
                                assert(same_outcome(tm, ip1, nf, i2, f_next));
                            }
                            children.push(child);
                        }
                    },
                    Token::TagEnd(_) => {
                        let ghost i2 = i1 + 1;
                        proof {
                            assert forall|forest: Seq<NodeView>, stack: Seq<Frame>|
                                #![trigger deliver(forest, stack, fin)]
                                build_from(tm, ip1, forest, stack.push(nf)) == build_from(
                                    tm,
                                    i2,
                                    deliver(forest, stack, fin).0,
                                    deliver(forest, stack, fin).1,
                                ) by {
                                assert(build_from(tm, ip1, forest, stack.push(nf)) == build_from(
                                    tm,
                                    i1,
                                    forest,
                                    stack.push(f_cur),
                                ));
                                assert((stack.push(f_cur)).drop_last() =~= stack);
                            }
                            assert(closes_to(tm, ip1, nf, i2, fin));
                        }
                        *index = *index + 1;
                        done = true;
                    },
                    Token::Attribute(pair) => {
                        let attr_name = pair.0.clone();
                        let attr_value = pair.1.clone();
                        let ghost i2 = i1 + 1;
                        let ghost f_next = frame_of(
                            tag@,
                            attributes@.push((attr_name, attr_value)),
                            children@,
                        );
                        proof {
                            assert forall|forest: Seq<NodeView>, stack: Seq<Frame>|
                                #![trigger build_from(tm, i2, forest, stack.push(f_next))]
                                build_from(tm, ip1, forest, stack.push(nf)) == build_from(
                                    tm,
                                    i2,
                                    forest,
                                    stack.push(f_next),
                                ) by {
                                assert(build_from(tm, ip1, forest, stack.push(nf)) == build_from(
                                    tm,
                                    i1,
                                    forest,
                                    stack.push(f_cur),
                                ));
                                assert((stack.push(f_cur)).drop_last() =~= stack);
                                assert(attrs_view(attributes@.push((attr_name, attr_value)))
                                    =~= attrs_view(attributes@).push((attr_name@, attr_value@)));
                                assert(stack.push(
                                    Frame {
                                        tag: f_cur.tag,
                                        attributes: f_cur.attributes.push((attr_name@, attr_value@)),
                                        children: f_cur.children,
                                    },
                                ) =~= stack.push(f_next));
                            }
                            assert(same_outcome(tm, ip1, nf, i2, f_next));
                        }
                        attributes.push((attr_name, attr_value));
                        *index = *index + 1;
                    },
                    Token::Content(text) => {
                        let leaf = Node::Text(text.clone());
                        let ghost i2 = i1 + 1;
                        let ghost f_next = frame_of(tag@, attributes@, children@.push(leaf));
                        proof {
                            assert forall|forest: Seq<NodeView>, stack: Seq<Frame>|
                                #![trigger build_from(tm, i2, forest, stack.push(f_next))]
                                build_from(tm, ip1, forest, stack.push(nf)) == build_from(
                                    tm,
                                    i2,
                                    forest,
                                    stack.push(f_next),
                                ) by {
                                assert(build_from(tm, ip1, forest, stack.push(nf)) == build_from(
                                    tm,
                                    i1,
                                    forest,
                                    stack.push(f_cur),
                                ));
                                assert((stack.push(f_cur)).drop_last() =~= stack);
                                assert(nodes_view(children@.push(leaf)) =~= nodes_view(
                                    children@,
                                ).push(leaf@));
                                assert(stack.push(
                                    Frame {
                                        tag: f_cur.tag,
                                        attributes: f_cur.attributes,
                                        children: f_cur.children.push(leaf@),
                                    },
                                ) =~= stack.push(f_next));
                            }
                            assert(same_outcome(tm, ip1, nf, i2, f_next));
                        }
                        children.push(leaf);
                        *index = *index + 1;
                    },
                    Token::EOF => {
                        proof {
                            assert forall|forest: Seq<NodeView>, stack: Seq<Frame>|
                                #![trigger deliver(forest, stack, fin)]
                                build_from(tm, ip1, forest, stack.push(nf)) == build_from(
                                    tm,
                                    i1,
                                    deliver(forest, stack, fin).0,
                                    deliver(forest, stack, fin).1,
                                ) by {
                                assert(build_from(tm, ip1, forest, stack.push(nf)) == build_from(
                                    tm,
                                    i1,
                                    forest,
                                    stack.push(f_cur),
                                ));
                                assert((stack.push(f_cur)).drop_last() =~= stack);
                            }
                            assert(closes_to(tm, ip1, nf, i1, fin));
                        }
                        done = true;
                    },
                }
            }
        }
        let node = Node::Element { tag, attributes, children };
        node
    }
}

} // verus!
