//! What holds of every tree that comes out of the parser.

use crate::document::document;
use crate::element::Node;
use crate::lex::{last_open_tag, lex_from, lookahead, open_tag_closed, tokens_of, LexState};
use crate::token::Lexeme;
use crate::tree::{
    attribute_run, attribute_run_ends, attributes_of, is_attribute, is_void, left, scan, tree_of,
};
use vstd::prelude::*;

verus! {

/// Whether neither `node` nor any node below it is a void element with
/// children.
pub open spec fn voids_are_empty(node: Node) -> bool
    decreases node,
{
    &&& is_void(node.kind) ==> node.children.len() == 0
    &&& forall|i: int| 0 <= i < node.children.len() ==> voids_are_empty(#[trigger] node.children[i])
}

/// Whether `voids_are_empty` holds of each of `nodes`.
pub open spec fn all_voids_are_empty(nodes: Seq<Node>) -> bool {
    forall|i: int| 0 <= i < nodes.len() ==> voids_are_empty(#[trigger] nodes[i])
}

/// Reading a level makes no void element a parent, if none was one before.
proof fn scan_keeps_voids_empty(tokens: Seq<Lexeme>, pos: int, done: Seq<Node>, open: Option<Node>)
    requires
        all_voids_are_empty(done),
        open matches Some(element) ==> !is_void(element.kind) && voids_are_empty(element),
    ensures
        all_voids_are_empty(scan(tokens, pos, done, open).0),
    decreases left(tokens, pos), (if open is Some { 1nat } else { 0nat }),
{
    if 0 <= pos < tokens.len() {
        match tokens[pos] {
            Lexeme::CloseTag(_) => {},
            Lexeme::AttributeKey(_) | Lexeme::AttributeValue(_) => {
                scan_keeps_voids_empty(tokens, pos + 1, done, open);
            },
            Lexeme::Text(text) => match open {
                Some(element) => {
                    if pos + 1 < tokens.len() {
                        assert(voids_are_empty(element.with_text(text)));
                        scan_keeps_voids_empty(tokens, pos + 1, done, Some(element.with_text(text)));
                    } else {
                        assert(voids_are_empty(Node::text_run(text)));
                    }
                },
                None => {
                    assert(voids_are_empty(Node::text_run(text)));
                    scan_keeps_voids_empty(tokens, pos + 1, done.push(Node::text_run(text)), None);
                },
            },
            Lexeme::OpenTag(name) | Lexeme::SelfCloseTag(name) => match open {
                Some(element) => {
                    scan_keeps_voids_empty(tokens, pos, Seq::empty(), None);
                    let (below, next) = scan(tokens, pos, Seq::empty(), None);
                    if next > pos {
                        let grown = element.with_children(below);
                        assert forall|i: int| 0 <= i < grown.children.len() implies voids_are_empty(
                            #[trigger] grown.children[i],
                        ) by {
                            if i >= element.children.len() {
                                assert(grown.children[i] == below[i - element.children.len()]);
                            } else {
                                assert(grown.children[i] == element.children[i]);
                            }
                        }
                        assert(voids_are_empty(grown));
                        scan_keeps_voids_empty(tokens, next, done, Some(grown));
                    }
                },
                None => {
                    let end = pos + 1 + attribute_run(tokens, pos + 1);
                    let element = Node::element(name).with_attributes(
                        attributes_of(tokens, pos + 1, end),
                    );
                    assert(voids_are_empty(element));
                    if tokens[pos] is OpenTag && !is_void(name) {
                        scan_keeps_voids_empty(tokens, end, done, Some(element));
                    } else {
                        scan_keeps_voids_empty(tokens, end, done.push(element), None);
                    }
                },
            },
        }
    }
}

/// Whatever the tokens are, no void element of their tree has children, at
/// any depth.
pub proof fn void_elements_have_no_children(tokens: Seq<Lexeme>)
    ensures
        all_voids_are_empty(tree_of(tokens)),
{
    scan_keeps_voids_empty(tokens, 0, Seq::empty(), None);
}

/// In the tree of any fragment, no void element has children.
pub proof fn fragments_keep_voids_empty(input: Seq<char>)
    ensures
        all_voids_are_empty(document(input)),
{
    void_elements_have_no_children(tokens_of(input));
}

/// Whether every attribute name among `tokens` is followed directly by a
/// value.
pub open spec fn names_have_values(tokens: Seq<Lexeme>) -> bool {
    forall|i: int|
        0 <= i < tokens.len() && #[trigger] tokens[i] is AttributeKey ==> i + 1 < tokens.len()
            && tokens[i + 1] is AttributeValue
}

/// Whether every attribute of `node`, and of every node below it, has a
/// value.
pub open spec fn attributes_have_values(node: Node) -> bool
    decreases node,
{
    &&& forall|name: Seq<char>| #[trigger]
        node.attributes.contains_key(name) ==> node.attributes[name] is Some
    &&& forall|i: int|
        0 <= i < node.children.len() ==> attributes_have_values(#[trigger] node.children[i])
}

/// Whether `attributes_have_values` holds of each of `nodes`.
pub open spec fn all_attributes_have_values(nodes: Seq<Node>) -> bool {
    forall|i: int| 0 <= i < nodes.len() ==> attributes_have_values(#[trigger] nodes[i])
}

/// The place that `last_open_tag` gives holds an `OpenTag`, if it gives one.
proof fn last_open_tag_is_open(out: Seq<Lexeme>)
    ensures
        -1 <= last_open_tag(out) < out.len(),
        last_open_tag(out) >= 0 ==> out[last_open_tag(out)] is OpenTag,
    decreases out.len(),
{
    if out.len() > 0 && !(out.last() is OpenTag) {
        last_open_tag_is_open(out.drop_last());
    }
}

/// Turning an `OpenTag` into a `SelfCloseTag` parts no name from its value.
proof fn closing_a_tag_keeps_values(out: Seq<Lexeme>)
    requires
        names_have_values(out),
    ensures
        names_have_values(open_tag_closed(out)),
{
    last_open_tag_is_open(out);
    let closed = open_tag_closed(out);
    assert forall|i: int| 0 <= i < closed.len() && #[trigger] closed[i] is AttributeKey implies i
        + 1 < closed.len() && closed[i + 1] is AttributeValue by {
        assert(out[i] is AttributeKey);
    }
}

/// A token that is no attribute name can follow paired names and values.
proof fn another_token_keeps_values(out: Seq<Lexeme>, token: Lexeme)
    requires
        names_have_values(out),
        !(token is AttributeKey),
    ensures
        names_have_values(out.push(token)),
{
    let more = out.push(token);
    assert forall|i: int| 0 <= i < more.len() && #[trigger] more[i] is AttributeKey implies i + 1
        < more.len() && more[i + 1] is AttributeValue by {
        assert(out[i] is AttributeKey);
    }
}

/// A name with its value can follow paired names and values.
proof fn a_pair_keeps_values(out: Seq<Lexeme>, name: Seq<char>, value: Seq<char>)
    requires
        names_have_values(out),
    ensures
        names_have_values(
            out.push(Lexeme::AttributeKey(name)).push(Lexeme::AttributeValue(value)),
        ),
{
    let more = out.push(Lexeme::AttributeKey(name)).push(Lexeme::AttributeValue(value));
    assert forall|i: int| 0 <= i < more.len() && #[trigger] more[i] is AttributeKey implies i + 1
        < more.len() && more[i + 1] is AttributeValue by {
        if i < out.len() {
            assert(out[i] is AttributeKey);
        }
    }
}

/// Cutting a lexeme short, or ending the input, parts no name from its value.
proof fn cut_keeps_values(state: LexState)
    requires
        names_have_values(state.out),
    ensures
        names_have_values(state.cut()),
        names_have_values(state.finish()),
{
    match state.current {
        Lexeme::Text(text) => {
            another_token_keeps_values(state.out, Lexeme::Text(text));
        },
        Lexeme::CloseTag(name) => {
            another_token_keeps_values(state.out, Lexeme::CloseTag(name));
        },
        Lexeme::AttributeKey(_) | Lexeme::AttributeValue(_) => {
            closing_a_tag_keeps_values(state.out);
        },
        _ => {},
    }
}

/// Taking a character parts no name from its value.
proof fn step_keeps_values(state: LexState, c: char, next: Option<char>)
    requires
        names_have_values(state.out),
    ensures
        names_have_values(state.step(c, next).0.out),
{
    cut_keeps_values(state);
    closing_a_tag_keeps_values(state.out);
    another_token_keeps_values(state.out, Lexeme::OpenTag(state.current.text()));
    another_token_keeps_values(state.out, Lexeme::CloseTag(state.current.text()));
    another_token_keeps_values(state.out, Lexeme::SelfCloseTag(state.current.text()));
    a_pair_keeps_values(state.out, state.key, state.current.text());
}

/// Reading the rest of the input parts no name from its value.
proof fn lex_keeps_values(input: Seq<char>, pos: int, state: LexState)
    requires
        names_have_values(state.out),
    ensures
        names_have_values(lex_from(input, pos, state)),
    decreases input.len() - pos,
{
    if pos >= input.len() {
        cut_keeps_values(state);
    } else {
        let (after, two) = state.step(input[pos], lookahead(input, pos));
        step_keeps_values(state, input[pos], lookahead(input, pos));
        lex_keeps_values(
            input,
            if two {
                pos + 2
            } else {
                pos + 1
            },
            after,
        );
    }
}

/// Among the tokens of any fragment, every attribute name is followed
/// directly by its value.
pub proof fn tokens_pair_names_with_values(input: Seq<char>)
    ensures
        names_have_values(tokens_of(input)),
{
    lex_keeps_values(input, 0, LexState::start());
}

/// Of the attributes read from paired tokens, only the one whose name was
/// read last can lack its value.
proof fn read_names_have_values(tokens: Seq<Lexeme>, from: int, to: int)
    requires
        names_have_values(tokens),
        0 <= from <= to <= tokens.len(),
    ensures
        forall|name: Seq<char>| #[trigger]
            attributes_of(tokens, from, to).contains_key(name) ==> attributes_of(
                tokens,
                from,
                to,
            )[name] is Some || (from < to && tokens[to - 1] == Lexeme::AttributeKey(name)),
    decreases to - from,
{
    if from < to {
        read_names_have_values(tokens, from, to - 1);
        let before = attributes_of(tokens, from, to - 1);
        let after = attributes_of(tokens, from, to);
        assert forall|name: Seq<char>| #[trigger] after.contains_key(name) implies after[name] is Some
            || tokens[to - 1] == Lexeme::AttributeKey(name) by {
            if from < to - 1 && tokens[to - 2] is AttributeKey {
                assert(tokens[to - 2 + 1] is AttributeValue);
            }
            if before.contains_key(name) {
                assert(before[name] is Some || (from < to - 1 && tokens[to - 2]
                    == Lexeme::AttributeKey(name)));
            }
        }
    }
}

/// Reading a level of paired tokens gives every attribute a value, if each
/// had one before.
proof fn scan_keeps_values(tokens: Seq<Lexeme>, pos: int, done: Seq<Node>, open: Option<Node>)
    requires
        names_have_values(tokens),
        all_attributes_have_values(done),
        open matches Some(element) ==> attributes_have_values(element),
    ensures
        all_attributes_have_values(scan(tokens, pos, done, open).0),
    decreases left(tokens, pos), (if open is Some { 1nat } else { 0nat }),
{
    if 0 <= pos < tokens.len() {
        match tokens[pos] {
            Lexeme::CloseTag(_) => {},
            Lexeme::AttributeKey(_) | Lexeme::AttributeValue(_) => {
                scan_keeps_values(tokens, pos + 1, done, open);
            },
            Lexeme::Text(text) => match open {
                Some(element) => {
                    if pos + 1 < tokens.len() {
                        assert(attributes_have_values(element.with_text(text)));
                        scan_keeps_values(tokens, pos + 1, done, Some(element.with_text(text)));
                    } else {
                        assert(attributes_have_values(Node::text_run(text)));
                    }
                },
                None => {
                    assert(attributes_have_values(Node::text_run(text)));
                    scan_keeps_values(tokens, pos + 1, done.push(Node::text_run(text)), None);
                },
            },
            Lexeme::OpenTag(name) | Lexeme::SelfCloseTag(name) => match open {
                Some(element) => {
                    scan_keeps_values(tokens, pos, Seq::empty(), None);
                    let (below, next) = scan(tokens, pos, Seq::empty(), None);
                    if next > pos {
                        let grown = element.with_children(below);
                        assert forall|i: int|
                            0 <= i < grown.children.len() implies attributes_have_values(
                            #[trigger] grown.children[i],
                        ) by {
                            if i >= element.children.len() {
                                assert(grown.children[i] == below[i - element.children.len()]);
                            } else {
                                assert(grown.children[i] == element.children[i]);
                            }
                        }
                        assert(attributes_have_values(grown));
                        scan_keeps_values(tokens, next, done, Some(grown));
                    }
                },
                None => {
                    attribute_run_ends(tokens, pos + 1);
                    let end = pos + 1 + attribute_run(tokens, pos + 1);
                    read_names_have_values(tokens, pos + 1, end);
                    let element = Node::element(name).with_attributes(
                        attributes_of(tokens, pos + 1, end),
                    );
                    assert forall|name: Seq<char>| #[trigger]
                        element.attributes.contains_key(name) implies element.attributes[name] is Some by {
                        if pos + 1 < end && tokens[end - 1] is AttributeKey {
                            assert(tokens[end - 1 + 1] is AttributeValue);
                            assert(is_attribute(tokens, end));
                        }
                    }
                    assert(attributes_have_values(element));
                    if tokens[pos] is OpenTag && !is_void(name) {
                        scan_keeps_values(tokens, end, done, Some(element));
                    } else {
                        scan_keeps_values(tokens, end, done.push(element), None);
                    }
                },
            },
        }
    }
}

/// Where every attribute name among the tokens is followed directly by a
/// value, every attribute in their tree has a value.
pub proof fn paired_names_give_values(tokens: Seq<Lexeme>)
    requires
        names_have_values(tokens),
    ensures
        all_attributes_have_values(tree_of(tokens)),
{
    scan_keeps_values(tokens, 0, Seq::empty(), None);
}

/// In the tree of any fragment, every attribute has a value: a name that is
/// written without one is left out.
pub proof fn fragments_give_attributes_values(input: Seq<char>)
    ensures
        all_attributes_have_values(document(input)),
{
    tokens_pair_names_with_values(input);
    paired_names_give_values(tokens_of(input));
}

/// Whether no tag among `tokens` bears the name `text`, which is the kind of
/// a text node.
pub open spec fn no_tag_is_named_text(tokens: Seq<Lexeme>) -> bool {
    forall|i: int|
        0 <= i < tokens.len() && (tokens[i] is OpenTag || tokens[i] is SelfCloseTag)
            ==> #[trigger] tokens[i].text() != "text"@
}

/// Whether every node of kind `text`, be it `node` or a node below it, has
/// neither children nor attributes.
pub open spec fn text_nodes_are_bare(node: Node) -> bool
    decreases node,
{
    &&& node.kind == "text"@ ==> node.children.len() == 0 && node.attributes
        == Map::<Seq<char>, Option<Seq<char>>>::empty()
    &&& forall|i: int|
        0 <= i < node.children.len() ==> text_nodes_are_bare(#[trigger] node.children[i])
}

/// Whether `text_nodes_are_bare` holds of each of `nodes`.
pub open spec fn all_text_nodes_are_bare(nodes: Seq<Node>) -> bool {
    forall|i: int| 0 <= i < nodes.len() ==> text_nodes_are_bare(#[trigger] nodes[i])
}

/// Reading a level gives no node of kind `text` children or attributes, if
/// no tag is named `text` and none had any before.
proof fn scan_keeps_text_nodes_bare(
    tokens: Seq<Lexeme>,
    pos: int,
    done: Seq<Node>,
    open: Option<Node>,
)
    requires
        no_tag_is_named_text(tokens),
        all_text_nodes_are_bare(done),
        open matches Some(element) ==> element.kind != "text"@ && text_nodes_are_bare(element),
    ensures
        all_text_nodes_are_bare(scan(tokens, pos, done, open).0),
    decreases left(tokens, pos), (if open is Some { 1nat } else { 0nat }),
{
    if 0 <= pos < tokens.len() {
        match tokens[pos] {
            Lexeme::CloseTag(_) => {},
            Lexeme::AttributeKey(_) | Lexeme::AttributeValue(_) => {
                scan_keeps_text_nodes_bare(tokens, pos + 1, done, open);
            },
            Lexeme::Text(text) => match open {
                Some(element) => {
                    if pos + 1 < tokens.len() {
                        assert(text_nodes_are_bare(element.with_text(text)));
                        scan_keeps_text_nodes_bare(
                            tokens,
                            pos + 1,
                            done,
                            Some(element.with_text(text)),
                        );
                    } else {
                        assert(text_nodes_are_bare(Node::text_run(text)));
                    }
                },
                None => {
                    assert(text_nodes_are_bare(Node::text_run(text)));
                    scan_keeps_text_nodes_bare(
                        tokens,
                        pos + 1,
                        done.push(Node::text_run(text)),
                        None,
                    );
                },
            },
            Lexeme::OpenTag(name) | Lexeme::SelfCloseTag(name) => match open {
                Some(element) => {
                    scan_keeps_text_nodes_bare(tokens, pos, Seq::empty(), None);
                    let (below, next) = scan(tokens, pos, Seq::empty(), None);
                    if next > pos {
                        let grown = element.with_children(below);
                        assert forall|i: int|
                            0 <= i < grown.children.len() implies text_nodes_are_bare(
                            #[trigger] grown.children[i],
                        ) by {
                            if i >= element.children.len() {
                                assert(grown.children[i] == below[i - element.children.len()]);
                            } else {
                                assert(grown.children[i] == element.children[i]);
                            }
                        }
                        assert(text_nodes_are_bare(grown));
                        scan_keeps_text_nodes_bare(tokens, next, done, Some(grown));
                    }
                },
                None => {
                    let end = pos + 1 + attribute_run(tokens, pos + 1);
                    let element = Node::element(name).with_attributes(
                        attributes_of(tokens, pos + 1, end),
                    );
                    assert(tokens[pos].text() == name);
                    assert(text_nodes_are_bare(element));
                    if tokens[pos] is OpenTag && !is_void(name) {
                        scan_keeps_text_nodes_bare(tokens, end, done, Some(element));
                    } else {
                        scan_keeps_text_nodes_bare(tokens, end, done.push(element), None);
                    }
                },
            },
        }
    }
}

/// Where no tag bears the name `text`, the nodes of kind `text` in the tree
/// are the runs of text, and none of them has children or attributes.
pub proof fn text_nodes_have_no_children(tokens: Seq<Lexeme>)
    requires
        no_tag_is_named_text(tokens),
    ensures
        all_text_nodes_are_bare(tree_of(tokens)),
{
    scan_keeps_text_nodes_bare(tokens, 0, Seq::empty(), None);
}

} // verus!
