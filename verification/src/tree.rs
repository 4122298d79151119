//! Building the tree of nodes from the tokens.
//!
//! The tokens are read level by level. A level is a run of siblings. It ends
//! with the first closing tag met on it, which it consumes whatever name it
//! bears, or with the last token.
//!
//! - A tag makes an element, with the attributes that follow it. An `OpenTag`
//!   whose name is not that of a void element leaves its element open: what
//!   follows on the level is the content of that element. A `SelfCloseTag`
//!   and the tag of a void element make an element that is never open.
//! - While an element is open, a run of text becomes the text of that
//!   element, in place of the text it had, and a tag starts a level of its
//!   own, one step further down, whose siblings become children of the open
//!   element.
//! - While no element is open, a run of text becomes a text node of the
//!   level. Text is never given to an element that is not open, nor to an
//!   earlier sibling.
//! - A run of text that is the very last token always becomes a text node of
//!   its level, after the element that is open there.
//!
//! A level that begins below an open element ends with the next closing tag
//! of its own, whichever element that tag was written for. So where the last
//! thing below an element is a tag that opens nothing, the closing tag of the
//! element ends the level of that tag, and the element itself stays open.
//!
//! The tree of a sequence of tokens is its topmost level: what follows the
//! closing tag that ends that level is not read.

use crate::attributes::Attributes;
use crate::element::{HtmlElement, Node};
use crate::token::{Lexeme, Tokens};
use vstd::prelude::*;

verus! {

/// The elements that never take content.
pub open spec fn is_void(name: Seq<char>) -> bool {
    ||| name == "area"@
    ||| name == "base"@
    ||| name == "br"@
    ||| name == "col"@
    ||| name == "embed"@
    ||| name == "hr"@
    ||| name == "img"@
    ||| name == "input"@
    ||| name == "link"@
    ||| name == "meta"@
    ||| name == "param"@
    ||| name == "source"@
    ||| name == "track"@
    ||| name == "wbr"@
}

/// Whether the token at `at` is an attribute name or an attribute value.
pub open spec fn is_attribute(tokens: Seq<Lexeme>, at: int) -> bool {
    0 <= at < tokens.len() && (tokens[at] is AttributeKey || tokens[at] is AttributeValue)
}

/// How many attribute tokens stand in a row from `from` on.
pub open spec fn attribute_run(tokens: Seq<Lexeme>, from: int) -> nat
    decreases tokens.len() - from,
{
    if is_attribute(tokens, from) {
        1 + attribute_run(tokens, from + 1)
    } else {
        0
    }
}

/// The attributes that the tokens from `from` up to `to` give, read in
/// order: a name stands without a value until a value follows it directly.
/// Of two entries for one name the later one stays.
pub open spec fn attributes_of(tokens: Seq<Lexeme>, from: int, to: int) -> Map<
    Seq<char>,
    Option<Seq<char>>,
>
    decreases to - from,
{
    if to <= from {
        Map::empty()
    } else {
        let before = attributes_of(tokens, from, to - 1);
        match tokens[to - 1] {
            Lexeme::AttributeKey(name) => before.insert(name, None),
            Lexeme::AttributeValue(value) => if from < to - 1 && tokens[to - 2] is AttributeKey {
                before.insert(tokens[to - 2].text(), Some(value))
            } else {
                before
            },
            _ => before,
        }
    }
}

/// How many tokens stand at `pos` and after it.
pub open spec fn left(tokens: Seq<Lexeme>, pos: int) -> nat {
    if pos < tokens.len() {
        (tokens.len() - pos) as nat
    } else {
        0
    }
}

/// The siblings of a level that ends: those that were done, then the element
/// that was still open.
pub open spec fn finished(done: Seq<Node>, open: Option<Node>) -> Seq<Node> {
    match open {
        Some(element) => done.push(element),
        None => done,
    }
}

/// Reads one level from position `pos` on, where `done` are the siblings
/// finished so far and `open` is the element of this level that takes
/// content, if there is one. Gives the siblings of the level and the
/// position after its last token.
pub open spec fn scan(tokens: Seq<Lexeme>, pos: int, done: Seq<Node>, open: Option<Node>) -> (
    Seq<Node>,
    int,
)
    decreases left(tokens, pos), (if open is Some { 1nat } else { 0nat }),
{
    if pos < 0 || pos >= tokens.len() {
        (finished(done, open), pos)
    } else {
        match tokens[pos] {
            Lexeme::CloseTag(_) => (finished(done, open), pos + 1),
            Lexeme::AttributeKey(_) | Lexeme::AttributeValue(_) => scan(tokens, pos + 1, done, open),
            Lexeme::Text(text) => match open {
                Some(element) => if pos + 1 < tokens.len() {
                    scan(tokens, pos + 1, done, Some(element.with_text(text)))
                } else {
                    (finished(done, open).push(Node::text_run(text)), pos + 1)
                },
                None => scan(tokens, pos + 1, done.push(Node::text_run(text)), None),
            },
            Lexeme::OpenTag(name) | Lexeme::SelfCloseTag(name) => match open {
                Some(element) => {
                    let (below, next) = scan(tokens, pos, Seq::empty(), None);
                    // A level takes at least the tag it starts with: see `scan_moves_on`.
                    if next > pos {
                        scan(tokens, next, done, Some(element.with_children(below)))
                    } else {
                        (finished(done, open), pos)
                    }
                },
                None => {
                    let end = pos + 1 + attribute_run(tokens, pos + 1);
                    let element = Node::element(name).with_attributes(
                        attributes_of(tokens, pos + 1, end),
                    );
                    if tokens[pos] is OpenTag && !is_void(name) {
                        scan(tokens, end, done, Some(element))
                    } else {
                        scan(tokens, end, done.push(element), None)
                    }
                },
            },
        }
    }
}

/// The tree that a sequence of tokens stands for: the siblings of its
/// topmost level.
pub open spec fn tree_of(tokens: Seq<Lexeme>) -> Seq<Node> {
    scan(tokens, 0, Seq::empty(), None).0
}

/// A run of attribute tokens ends inside the sequence.
pub proof fn attribute_run_ends(tokens: Seq<Lexeme>, from: int)
    requires
        0 <= from <= tokens.len(),
    ensures
        from + attribute_run(tokens, from) <= tokens.len(),
        !is_attribute(tokens, from + attribute_run(tokens, from)),
    decreases tokens.len() - from,
{
    if is_attribute(tokens, from) {
        attribute_run_ends(tokens, from + 1);
    }
}

/// A level ends after the position at which it is read, and inside the
/// sequence.
pub proof fn scan_moves_on(tokens: Seq<Lexeme>, pos: int, done: Seq<Node>, open: Option<Node>)
    requires
        0 <= pos <= tokens.len(),
    ensures
        pos <= scan(tokens, pos, done, open).1 <= tokens.len(),
        pos < tokens.len() ==> pos < scan(tokens, pos, done, open).1,
    decreases left(tokens, pos), (if open is Some { 1nat } else { 0nat }),
{
    if pos < tokens.len() {
        match tokens[pos] {
            Lexeme::CloseTag(_) => {},
            Lexeme::AttributeKey(_) | Lexeme::AttributeValue(_) => {
                scan_moves_on(tokens, pos + 1, done, open);
            },
            Lexeme::Text(text) => match open {
                Some(element) => {
                    if pos + 1 < tokens.len() {
                        scan_moves_on(tokens, pos + 1, done, Some(element.with_text(text)));
                    }
                },
                None => {
                    scan_moves_on(tokens, pos + 1, done.push(Node::text_run(text)), None);
                },
            },
            Lexeme::OpenTag(name) | Lexeme::SelfCloseTag(name) => match open {
                Some(element) => {
                    scan_moves_on(tokens, pos, Seq::empty(), None);
                    let (below, next) = scan(tokens, pos, Seq::empty(), None);
                    scan_moves_on(tokens, next, done, Some(element.with_children(below)));
                },
                None => {
                    attribute_run_ends(tokens, pos + 1);
                    let end = pos + 1 + attribute_run(tokens, pos + 1);
                    let element = Node::element(name).with_attributes(
                        attributes_of(tokens, pos + 1, end),
                    );
                    if tokens[pos] is OpenTag && !is_void(name) {
                        scan_moves_on(tokens, end, done, Some(element));
                    } else {
                        scan_moves_on(tokens, end, done.push(element), None);
                    }
                },
            },
        }
    }
}

/// Whether two strings hold the same characters; `len` is the length of `name`.
fn same(name: &str, len: usize, word: &str) -> (yes: bool)
    requires
        len == name@.len(),
    ensures
        yes == (name@ == word@),
{
    if word.unicode_len() != len {
        return false;
    }
    let mut i: usize = 0;
    while i < len
        invariant
            i <= len,
            len == name@.len(),
            len == word@.len(),
            forall|j: int| 0 <= j < i ==> name@[j] == word@[j],
        decreases len - i,
    {
        if name.get_char(i) != word.get_char(i) {
            return false;
        }
        i += 1;
    }
    assert(name@ =~= word@);
    true
}

/// Whether `name` is the name of a void element.
fn void(name: &String) -> (yes: bool)
    ensures
        yes == is_void(name@),
{
    let name = name.as_str();
    let len = name.unicode_len();
    same(name, len, "area")
        || same(name, len, "base")
        || same(name, len, "br")
        || same(name, len, "col")
        || same(name, len, "embed")
        || same(name, len, "hr")
        || same(name, len, "img")
        || same(name, len, "input")
        || same(name, len, "link")
        || same(name, len, "meta")
        || same(name, len, "param")
        || same(name, len, "source")
        || same(name, len, "track")
        || same(name, len, "wbr")
}

/// A text node holding `text`.
fn text_node(text: String) -> (node: HtmlElement)
    ensures
        node@ == Node::text_run(text@),
{
    let mut node = HtmlElement::new("text".to_owned());
    node.text_content = text;
    assert(node@.children =~= Seq::empty());
    node
}

/// Makes `text` the text of `element`.
fn set_text(element: &mut HtmlElement, text: String)
    ensures
        final(element)@ == old(element)@.with_text(text@),
{
    element.text_content = text;
    assert(element@.children =~= old(element)@.children);
}

/// Adds `below` after the children of `element`.
fn adopt(element: &mut HtmlElement, below: Vec<HtmlElement>)
    ensures
        final(element)@ == old(element)@.with_children(below.deep_view()),
{
    let mut below = below;
    let ghost added = below.deep_view();
    proof {
        element.children_view();
    }
    element.child_nodes.append(&mut below);
    proof {
        element.children_view();
        assert(element.child_nodes.deep_view() =~= old(element).child_nodes.deep_view() + added);
    }
}

/// Ends a level.
fn close(done: Vec<HtmlElement>, open: Option<HtmlElement>) -> (siblings: Vec<HtmlElement>)
    ensures
        siblings.deep_view() == finished(done.deep_view(), open.deep_view()),
{
    let mut siblings = done;
    if let Some(element) = open {
        siblings.push(element);
        assert(siblings.deep_view() =~= done.deep_view().push(element@));
    }
    siblings
}

/// Reads the attribute tokens that stand in a row from `from` on.
fn read_attributes(tokens: &Vec<Tokens>, from: usize) -> (read: (Attributes, usize))
    requires
        from <= tokens.len(),
    ensures
        read.1 == from + attribute_run(tokens.deep_view(), from as int),
        read.1 <= tokens.len(),
        read.0@ == attributes_of(tokens.deep_view(), from as int, read.1 as int),
{
    let ghost lexemes = tokens.deep_view();
    let mut attributes = Attributes::new();
    let mut at = from;
    while at < tokens.len()
        invariant
            lexemes == tokens.deep_view(),
            from <= at <= tokens.len(),
            at + attribute_run(lexemes, at as int) == from + attribute_run(lexemes, from as int),
            attributes@ == attributes_of(lexemes, from as int, at as int),
        decreases tokens.len() - at,
    {
        assert(lexemes[at as int] == tokens@[at as int]@);
        match &tokens[at] {
            Tokens::AttributeKey(name) => {
                attributes.insert(name.clone(), None);
            },
            Tokens::AttributeValue(value) => {
                if at > from {
                    assert(lexemes[at - 1] == tokens@[at - 1]@);
                    if let Tokens::AttributeKey(name) = &tokens[at - 1] {
                        attributes.insert(name.clone(), Some(value.clone()));
                    }
                }
            },
            _ => {
                return (attributes, at);
            },
        }
        at += 1;
    }
    (attributes, at)
}

/// Reads one level of the tree from the token at `start` on. Gives the
/// siblings of that level and the position after its last token: after the
/// closing tag that ended it, or after the last token.
pub fn scan_level(tokens: &Vec<Tokens>, start: usize) -> (level: (Vec<HtmlElement>, usize))
    ensures
        (level.0.deep_view(), level.1 as int) == scan(
            tokens.deep_view(),
            start as int,
            Seq::empty(),
            None,
        ),
        start < tokens.len() ==> start < level.1 <= tokens.len(),
    decreases left(tokens.deep_view(), start as int),
{
    if start >= tokens.len() {
        let nodes: Vec<HtmlElement> = Vec::new();
        assert(nodes.deep_view() =~= Seq::empty());
        return (nodes, start);
    }
    let ghost lexemes = tokens.deep_view();
    let ghost whole = scan(lexemes, start as int, Seq::empty(), None);
    proof {
        scan_moves_on(lexemes, start as int, Seq::empty(), None);
    }
    let mut done: Vec<HtmlElement> = Vec::new();
    let mut open: Option<HtmlElement> = None;
    let mut pos = start;
    assert(done.deep_view() =~= Seq::empty());
    while pos < tokens.len()
        invariant
            lexemes == tokens.deep_view(),
            start <= pos <= tokens.len(),
            open is Some ==> start < pos,
            whole == scan(lexemes, start as int, Seq::empty(), None),
            scan(lexemes, pos as int, done.deep_view(), open.deep_view()) == whole,
        decreases tokens.len() - pos,
    {
        assert(lexemes[pos as int] == tokens@[pos as int]@);
        match &tokens[pos] {
            Tokens::CloseTag(_) => {
                return (close(done, open), pos + 1);
            },
            Tokens::AttributeKey(_) | Tokens::AttributeValue(_) => {
                pos += 1;
            },
            Tokens::Text(text) => {
                match open {
                    Some(mut element) => {
                        if pos + 1 < tokens.len() {
                            set_text(&mut element, text.clone());
                            open = Some(element);
                        } else {
                            let ghost before = finished(done.deep_view(), Some(element@));
                            let mut siblings = close(done, Some(element));
                            siblings.push(text_node(text.clone()));
                            assert(siblings.deep_view() =~= before.push(Node::text_run(text@)));
                            return (siblings, pos + 1);
                        }
                    },
                    None => {
                        let ghost before = done.deep_view();
                        done.push(text_node(text.clone()));
                        assert(done.deep_view() =~= before.push(Node::text_run(text@)));
                        open = None;
                    },
                }
                pos += 1;
            },
            Tokens::OpenTag(name) | Tokens::SelfCloseTag(name) => {
                match open {
                    Some(mut element) => {
                        let (below, next) = scan_level(tokens, pos);
                        adopt(&mut element, below);
                        open = Some(element);
                        pos = next;
                    },
                    None => {
                        let (attributes, end) = read_attributes(tokens, pos + 1);
                        let mut element = HtmlElement::new(name.clone());
                        element.attributes = attributes;
                        assert(element@.children =~= Seq::empty());
                        let opens = match &tokens[pos] {
                            Tokens::OpenTag(_) => !void(name),
                            _ => false,
                        };
                        if opens {
                            open = Some(element);
                        } else {
                            let ghost before = done.deep_view();
                            done.push(element);
                            assert(done.deep_view() =~= before.push(element@));
                            open = None;
                        }
                        pos = end;
                    },
                }
            },
        }
    }
    (close(done, open), pos)
}

/// Builds the tree of nodes that the tokens stand for.
pub fn parser(tokens: Vec<Tokens>) -> (nodes: Vec<HtmlElement>)
    ensures
        nodes.deep_view() == tree_of(tokens.deep_view()),
{
    let (nodes, _) = scan_level(&tokens, 0);
    nodes
}

} // verus!
