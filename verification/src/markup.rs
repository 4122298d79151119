//! Trees written out as markup, and read back.
//!
//! An element can be written out plainly if it is not void, has no
//! attributes, and holds its text before the elements below it. Written out
//! so, with an opening tag, the text, the elements below and a closing tag,
//! it is read back as it was.

use crate::document::document;
use crate::element::Node;
use crate::lex::{is_space, lex_from, lookahead, tokens_of, LexState};
use crate::token::Lexeme;
use crate::tree::{attribute_run, attributes_of, is_void, scan, tree_of};
use vstd::prelude::*;

verus! {

/// `lexeme` after the characters of `more` have joined it.
pub open spec fn extended(lexeme: Lexeme, more: Seq<char>) -> Lexeme {
    match lexeme {
        Lexeme::Text(s) => Lexeme::Text(s + more),
        Lexeme::OpenTag(s) => Lexeme::OpenTag(s + more),
        Lexeme::CloseTag(s) => Lexeme::CloseTag(s + more),
        Lexeme::SelfCloseTag(s) => Lexeme::SelfCloseTag(s + more),
        Lexeme::AttributeKey(s) => Lexeme::AttributeKey(s + more),
        Lexeme::AttributeValue(s) => Lexeme::AttributeValue(s + more),
    }
}

/// Whether `c`, with `next` after it, does no more than join the text or
/// the tag name that is being read.
pub open spec fn joins(current: Lexeme, c: char, next: Option<char>) -> bool {
    c != '<' && match current {
        Lexeme::Text(_) => true,
        Lexeme::OpenTag(_) => c != '>' && !(c == '/' && next == Some('>')) && !is_space(c),
        Lexeme::CloseTag(_) => c != '>',
        _ => false,
    }
}

/// A run of characters that only join the lexeme being read is read as one
/// piece.
pub(crate) proof fn run_joins(input: Seq<char>, pos: int, n: nat, state: LexState)
    requires
        0 <= pos,
        pos + n <= input.len(),
        forall|i: int| pos <= i < pos + n ==> joins(state.current, input[i], lookahead(input, i)),
    ensures
        lex_from(input, pos, state) == lex_from(
            input,
            pos + n,
            LexState { current: extended(state.current, input.subrange(pos, pos + n)), ..state },
        ),
    decreases n,
{
    let run = input.subrange(pos, pos + n);
    if n == 0 {
        assert(state.current.text() + run =~= state.current.text());
    } else {
        let c = input[pos];
        assert(joins(state.current, c, lookahead(input, pos)));
        assert(state.step(c, lookahead(input, pos)) == (state.grow(c), false));
        assert forall|i: int| pos + 1 <= i < pos + n implies joins(
            state.grow(c).current,
            input[i],
            lookahead(input, i),
        ) by {
            assert(joins(state.current, input[i], lookahead(input, i)));
        }
        run_joins(input, pos + 1, (n - 1) as nat, state.grow(c));
        assert(state.current.text().push(c) + input.subrange(pos + 1, pos + n)
            =~= state.current.text() + run);
    }
}

/// Whether `name` can be written as the name of a tag: it holds no `<`, no
/// `>` and no white space, and neither begins nor ends with `/`.
pub open spec fn is_tag_name(name: Seq<char>) -> bool {
    &&& forall|i: int|
        0 <= i < name.len() ==> name[i] != '<' && name[i] != '>' && !is_space(#[trigger] name[i])
    &&& name.len() > 0 ==> name.first() != '/' && name.last() != '/'
}

/// Whether `piece` stands in `input` from `pos` on.
pub open spec fn stands_at<A>(input: Seq<A>, pos: int, piece: Seq<A>) -> bool {
    &&& 0 <= pos
    &&& pos + piece.len() <= input.len()
    &&& forall|i: int| 0 <= i < piece.len() ==> input[pos + i] == #[trigger] piece[i]
}

/// An opening tag met while text is being read ends the text and is read as
/// an `OpenTag`.
proof fn lex_open_tag(input: Seq<char>, pos: int, name: Seq<char>, state: LexState)
    requires
        state.current is Text,
        is_tag_name(name),
        stands_at(input, pos, seq!['<']),
        stands_at(input, pos + 1, name),
        stands_at(input, pos + 1 + name.len(), seq!['>']),
    ensures
        lex_from(input, pos, state) == lex_from(
            input,
            pos + 2 + name.len(),
            LexState {
                out: state.cut().push(Lexeme::OpenTag(name)),
                current: Lexeme::Text(Seq::empty()),
                key: state.key,
            },
        ),
{
    let k = name.len() as int;
    let none = Seq::<char>::empty();
    assert(input[pos] == seq!['<'][0]);
    assert(input[pos + 1 + k] == seq!['>'][0]);
    assert forall|i: int| 0 <= i < k implies input[pos + 1 + i] == name[i] by {}
    let in_name = LexState { out: state.cut(), current: Lexeme::OpenTag(none), key: state.key };
    assert(lookahead(input, pos) == Some(input[pos + 1]));
    assert(input[pos + 1] != '/') by {
        if k > 0 {
            assert(input[pos + 1 + 0] == name[0]);
        }
    }
    assert(state.step(input[pos], lookahead(input, pos)) == (in_name, false));
    assert(lex_from(input, pos, state) == lex_from(input, pos + 1, in_name));
    assert forall|i: int| pos + 1 <= i < pos + 1 + k implies joins(
        in_name.current,
        input[i],
        lookahead(input, i),
    ) by {
        assert(input[pos + 1 + (i - pos - 1)] == name[i - pos - 1]);
        if i - pos < k {
            assert(input[pos + 1 + (i - pos)] == name[i - pos]);
        }
    }
    run_joins(input, pos + 1, k as nat, in_name);
    assert(none + input.subrange(pos + 1, pos + 1 + k) =~= name);
    let named = LexState { current: Lexeme::OpenTag(name), ..in_name };
    let in_text = LexState {
        out: state.cut().push(Lexeme::OpenTag(name)),
        current: Lexeme::Text(none),
        key: state.key,
    };
    assert(named.step(input[pos + 1 + k], lookahead(input, pos + 1 + k)) == (in_text, false));
    assert(lex_from(input, pos + 1 + k, named) == lex_from(input, pos + 2 + k, in_text));
}

/// Text without a `<` joins the text that is being read.
proof fn lex_text(input: Seq<char>, pos: int, text: Seq<char>, state: LexState)
    requires
        state.current == Lexeme::Text(Seq::empty()),
        !text.contains('<'),
        stands_at(input, pos, text),
    ensures
        lex_from(input, pos, state) == lex_from(
            input,
            pos + text.len(),
            LexState { current: Lexeme::Text(text), ..state },
        ),
{
    assert forall|i: int| pos <= i < pos + text.len() implies joins(
        state.current,
        input[i],
        lookahead(input, i),
    ) by {
        assert(input[pos + (i - pos)] == text[i - pos]);
        assert(text.contains(text[i - pos]));
    }
    run_joins(input, pos, text.len(), state);
    assert(Seq::<char>::empty() + input.subrange(pos, pos + text.len()) =~= text);
}

/// A closing tag met while text is being read ends the text and is read as a
/// `CloseTag`.
proof fn lex_close_tag(input: Seq<char>, pos: int, name: Seq<char>, state: LexState)
    requires
        state.current is Text,
        is_tag_name(name),
        stands_at(input, pos, seq!['<', '/']),
        stands_at(input, pos + 2, name),
        stands_at(input, pos + 2 + name.len(), seq!['>']),
    ensures
        lex_from(input, pos, state) == lex_from(
            input,
            pos + 3 + name.len(),
            LexState {
                out: state.cut().push(Lexeme::CloseTag(name)),
                current: Lexeme::Text(Seq::empty()),
                key: state.key,
            },
        ),
{
    let k = name.len() as int;
    let none = Seq::<char>::empty();
    assert(input[pos + 0] == seq!['<', '/'][0]);
    assert(input[pos + 1] == seq!['<', '/'][1]);
    assert(input[pos + 2 + k] == seq!['>'][0]);
    let in_name = LexState { out: state.cut(), current: Lexeme::CloseTag(none), key: state.key };
    assert(lookahead(input, pos) == Some('/'));
    assert(state.step(input[pos], lookahead(input, pos)) == (in_name, true));
    assert(lex_from(input, pos, state) == lex_from(input, pos + 2, in_name));
    assert forall|i: int| pos + 2 <= i < pos + 2 + k implies joins(
        in_name.current,
        input[i],
        lookahead(input, i),
    ) by {
        assert(input[pos + 2 + (i - pos - 2)] == name[i - pos - 2]);
    }
    run_joins(input, pos + 2, k as nat, in_name);
    assert(none + input.subrange(pos + 2, pos + 2 + k) =~= name);
    let named = LexState { current: Lexeme::CloseTag(name), ..in_name };
    let in_text = LexState {
        out: state.cut().push(Lexeme::CloseTag(name)),
        current: Lexeme::Text(none),
        key: state.key,
    };
    assert(named.step(input[pos + 2 + k], lookahead(input, pos + 2 + k)) == (in_text, false));
    assert(lex_from(input, pos + 2 + k, named) == lex_from(input, pos + 3 + k, in_text));
}

/// Whether `node` can be written out plainly: it is an element that is not
/// void, its name can be written as a tag name, its text holds no `<`, it has
/// no attributes, and the same holds of the nodes below it.
pub open spec fn is_plain(node: Node) -> bool
    decreases node,
{
    &&& is_tag_name(node.kind)
    &&& !is_void(node.kind)
    &&& !node.text.contains('<')
    &&& node.attributes == Map::<Seq<char>, Option<Seq<char>>>::empty()
    &&& forall|i: int| 0 <= i < node.children.len() ==> is_plain(#[trigger] node.children[i])
}

/// `node` written out: its opening tag, its text, the nodes below it, its
/// closing tag.
pub open spec fn markup_of(node: Node) -> Seq<char>
    decreases node, 0nat,
{
    seq!['<'] + node.kind + seq!['>'] + node.text + markup_of_first(
        node.children,
        node.children.len(),
    ) + seq!['<', '/'] + node.kind + seq!['>']
}

/// The first `n` of `nodes` written out one after the other.
pub open spec fn markup_of_first(nodes: Seq<Node>, n: nat) -> Seq<char>
    decreases nodes, n,
{
    if n == 0 || n > nodes.len() {
        Seq::empty()
    } else {
        markup_of_first(nodes, (n - 1) as nat) + markup_of(nodes[n - 1])
    }
}

/// The tokens of `node` written out.
pub open spec fn tokens_for(node: Node) -> Seq<Lexeme>
    decreases node, 0nat,
{
    let text = if node.text.len() > 0 {
        seq![Lexeme::Text(node.text)]
    } else {
        Seq::empty()
    };
    seq![Lexeme::OpenTag(node.kind)] + text + tokens_for_first(
        node.children,
        node.children.len(),
    ) + seq![Lexeme::CloseTag(node.kind)]
}

/// The tokens of the first `n` of `nodes` written out one after the other.
pub open spec fn tokens_for_first(nodes: Seq<Node>, n: nat) -> Seq<Lexeme>
    decreases nodes, n,
{
    if n == 0 || n > nodes.len() {
        Seq::empty()
    } else {
        tokens_for_first(nodes, (n - 1) as nat) + tokens_for(nodes[n - 1])
    }
}

/// A piece of a piece that stands in the input stands there too.
proof fn part_stands<A>(input: Seq<A>, pos: int, whole: Seq<A>, from: int, part: Seq<A>)
    requires
        stands_at(input, pos, whole),
        stands_at(whole, from, part),
    ensures
        stands_at(input, pos + from, part),
{
    assert forall|i: int| 0 <= i < part.len() implies input[pos + from + i] == #[trigger] part[i] by {
        assert(whole[from + i] == part[i]);
        assert(input[pos + (from + i)] == whole[from + i]);
    }
}

/// The parts of an element written out, each at its place.
proof fn markup_parts(node: Node)
    ensures
        ({
            let whole = markup_of(node);
            let k = node.kind.len() as int;
            let t = node.text.len() as int;
            let b = markup_of_first(node.children, node.children.len()).len() as int;
            &&& whole.len() == 5 + 2 * k + t + b
            &&& stands_at(whole, 0, seq!['<'])
            &&& stands_at(whole, 1, node.kind)
            &&& stands_at(whole, 1 + k, seq!['>'])
            &&& stands_at(whole, 2 + k, node.text)
            &&& stands_at(
                whole,
                2 + k + t,
                markup_of_first(node.children, node.children.len()),
            )
            &&& stands_at(whole, 2 + k + t + b, seq!['<', '/'])
            &&& stands_at(whole, 4 + k + t + b, node.kind)
            &&& stands_at(whole, 4 + 2 * k + t + b, seq!['>'])
        }),
{
}

/// The first nodes written out stand at the beginning of a longer row of
/// them, and the next node stands after them.
proof fn markup_of_one_more(nodes: Seq<Node>, n: nat)
    requires
        0 < n <= nodes.len(),
    ensures
        markup_of_first(nodes, n).len() == markup_of_first(nodes, (n - 1) as nat).len()
            + markup_of(nodes[n - 1]).len(),
        stands_at(markup_of_first(nodes, n), 0, markup_of_first(nodes, (n - 1) as nat)),
        stands_at(
            markup_of_first(nodes, n),
            markup_of_first(nodes, (n - 1) as nat).len() as int,
            markup_of(nodes[n - 1]),
        ),
{
}

/// An element written out plainly is read as its tokens, wherever it stands
/// in the input, if it is met while text is being read.
proof fn lex_node(input: Seq<char>, pos: int, node: Node, state: LexState)
    requires
        is_plain(node),
        stands_at(input, pos, markup_of(node)),
        state.current is Text,
    ensures
        lex_from(input, pos, state) == lex_from(
            input,
            pos + markup_of(node).len(),
            LexState {
                out: state.cut() + tokens_for(node),
                current: Lexeme::Text(Seq::empty()),
                key: state.key,
            },
        ),
    decreases node, 0nat,
{
    let whole = markup_of(node);
    let below = markup_of_first(node.children, node.children.len());
    let k = node.kind.len() as int;
    let t = node.text.len() as int;
    let b = below.len() as int;
    let none = Seq::<char>::empty();
    markup_parts(node);

    // the opening tag
    part_stands(input, pos, whole, 0, seq!['<']);
    part_stands(input, pos, whole, 1, node.kind);
    part_stands(input, pos, whole, 1 + k, seq!['>']);
    lex_open_tag(input, pos, node.kind, state);
    let opened = LexState {
        out: state.cut().push(Lexeme::OpenTag(node.kind)),
        current: Lexeme::Text(none),
        key: state.key,
    };

    // the text
    part_stands(input, pos, whole, 2 + k, node.text);
    lex_text(input, pos + 2 + k, node.text, opened);
    let texted = LexState { current: Lexeme::Text(node.text), ..opened };

    // the nodes below
    part_stands(input, pos, whole, 2 + k + t, below);
    lex_first(input, pos + 2 + k + t, node.children, node.children.len(), texted);
    let inner = texted.cut() + tokens_for_first(node.children, node.children.len());
    let filled = if node.children.len() == 0 {
        texted
    } else {
        LexState { out: inner, current: Lexeme::Text(none), key: state.key }
    };
    assert(filled.cut() =~= inner);

    // the closing tag
    part_stands(input, pos, whole, 2 + k + t + b, seq!['<', '/']);
    part_stands(input, pos, whole, 4 + k + t + b, node.kind);
    part_stands(input, pos, whole, 4 + 2 * k + t + b, seq!['>']);
    lex_close_tag(input, pos + 2 + k + t + b, node.kind, filled);
    assert(inner.push(Lexeme::CloseTag(node.kind)) =~= state.cut() + tokens_for(node));
}

/// Elements written out plainly one after the other are read as their
/// tokens, one after the other.
proof fn lex_first(input: Seq<char>, pos: int, nodes: Seq<Node>, n: nat, state: LexState)
    requires
        n <= nodes.len(),
        forall|i: int| 0 <= i < n ==> is_plain(#[trigger] nodes[i]),
        stands_at(input, pos, markup_of_first(nodes, n)),
        state.current is Text,
    ensures
        lex_from(input, pos, state) == lex_from(
            input,
            pos + markup_of_first(nodes, n).len(),
            if n == 0 {
                state
            } else {
                LexState {
                    out: state.cut() + tokens_for_first(nodes, n),
                    current: Lexeme::Text(Seq::empty()),
                    key: state.key,
                }
            },
        ),
    decreases nodes, n,
{
    if n > 0 {
        let fewer = (n - 1) as nat;
        let before = markup_of_first(nodes, fewer);
        markup_of_one_more(nodes, n);
        part_stands(input, pos, markup_of_first(nodes, n), 0, before);
        part_stands(
            input,
            pos,
            markup_of_first(nodes, n),
            before.len() as int,
            markup_of(nodes[n - 1]),
        );
        lex_first(input, pos, nodes, fewer, state);
        let middle = if fewer == 0 {
            state
        } else {
            LexState {
                out: state.cut() + tokens_for_first(nodes, fewer),
                current: Lexeme::Text(Seq::empty()),
                key: state.key,
            }
        };
        lex_node(input, pos + before.len(), nodes[n - 1], middle);
        assert(middle.cut() + tokens_for(nodes[n - 1]) =~= state.cut() + tokens_for_first(nodes, n));
    }
}

/// The tokens of an element written out plainly: its opening tag, its text
/// if it has any, the tokens of the elements below it, its closing tag.
pub proof fn plain_markup_has_its_tokens(node: Node)
    requires
        is_plain(node),
    ensures
        tokens_of(markup_of(node)) == tokens_for(node),
{
    let input = markup_of(node);
    let start = LexState::start();
    lex_node(input, 0, node, start);
    let end = LexState { out: start.cut() + tokens_for(node), ..start };
    assert(end.finish() =~= tokens_for(node));
}

/// The parts of the tokens of an element, each at its place.
proof fn tokens_parts(node: Node)
    ensures
        ({
            let whole = tokens_for(node);
            let t: int = if node.text.len() > 0 {
                1
            } else {
                0
            };
            let b = tokens_for_first(node.children, node.children.len()).len() as int;
            &&& whole.len() == 2 + t + b
            &&& whole[0] == Lexeme::OpenTag(node.kind)
            &&& t == 1 ==> whole[1] == Lexeme::Text(node.text)
            &&& stands_at(whole, 1 + t, tokens_for_first(node.children, node.children.len()))
            &&& whole[1 + t + b] == Lexeme::CloseTag(node.kind)
        }),
{
}

/// The tokens of the first nodes stand at the beginning of those of a longer
/// row of them, and the tokens of the next node stand after them.
proof fn tokens_for_one_more(nodes: Seq<Node>, n: nat)
    requires
        0 < n <= nodes.len(),
    ensures
        tokens_for_first(nodes, n).len() == tokens_for_first(nodes, (n - 1) as nat).len()
            + tokens_for(nodes[n - 1]).len(),
        stands_at(tokens_for_first(nodes, n), 0, tokens_for_first(nodes, (n - 1) as nat)),
        stands_at(
            tokens_for_first(nodes, n),
            tokens_for_first(nodes, (n - 1) as nat).len() as int,
            tokens_for(nodes[n - 1]),
        ),
{
}

/// The tokens of elements begin with an opening tag, if there are any.
proof fn tokens_begin_with_a_tag(nodes: Seq<Node>, n: nat)
    requires
        0 < n <= nodes.len(),
    ensures
        tokens_for_first(nodes, n).len() > 0,
        tokens_for_first(nodes, n)[0] is OpenTag,
    decreases n,
{
    let before = tokens_for_first(nodes, (n - 1) as nat);
    let last = tokens_for(nodes[n - 1]);
    tokens_parts(nodes[n - 1]);
    if n > 1 {
        tokens_begin_with_a_tag(nodes, (n - 1) as nat);
        assert((before + last)[0] == before[0]);
    } else {
        assert(before.len() == 0);
        assert((before + last)[0] == last[0]);
    }
}

/// The tokens of an element written out plainly are read as one level,
/// which holds that element and ends with its closing tag.
proof fn scan_node(tokens: Seq<Lexeme>, pos: int, node: Node)
    requires
        is_plain(node),
        stands_at(tokens, pos, tokens_for(node)),
    ensures
        scan(tokens, pos, Seq::empty(), None) == (seq![node], pos + tokens_for(node).len()),
    decreases node, 0nat,
{
    let whole = tokens_for(node);
    let below = tokens_for_first(node.children, node.children.len());
    let t: int = if node.text.len() > 0 {
        1
    } else {
        0
    };
    let b = below.len() as int;
    let none = Seq::<Node>::empty();
    tokens_parts(node);
    assert(tokens[pos + 0] == whole[0]);
    assert(tokens[pos + (1 + t + b)] == whole[1 + t + b]);
    part_stands(tokens, pos, whole, 1 + t, below);

    // the opening tag, which no attribute follows
    assert(!(tokens[pos + 1] is AttributeKey) && !(tokens[pos + 1] is AttributeValue)) by {
        if t == 1 {
            assert(tokens[pos + 1] == whole[1]);
        } else if b > 0 {
            tokens_begin_with_a_tag(node.children, node.children.len());
            assert(tokens[pos + 1 + 0] == below[0]);
        }
    }
    assert(attribute_run(tokens, pos + 1) == 0);
    assert(attributes_of(tokens, pos + 1, pos + 1) =~= node.attributes);
    let opened = Node::element(node.kind);
    assert(opened.with_attributes(node.attributes) == opened);
    assert(scan(tokens, pos, none, None) == scan(tokens, pos + 1, none, Some(opened)));

    // the text
    let texted = opened.with_text(node.text);
    if t == 1 {
        assert(tokens[pos + 1] == whole[1]);
        assert(scan(tokens, pos + 1, none, Some(opened)) == scan(
            tokens,
            pos + 2,
            none,
            Some(texted),
        ));
    } else {
        assert(node.text =~= Seq::empty());
    }

    // the elements below
    scan_first(tokens, pos + 1 + t, node.children, node.children.len(), texted);
    let filled = texted.with_children(node.children.take(node.children.len() as int));
    assert(node.children.take(node.children.len() as int) =~= node.children);
    assert(filled.children =~= node.children);
    assert(filled == node);

    // the closing tag
    assert(scan(tokens, pos + 1 + t + b, none, Some(node)) == (
        none.push(node),
        pos + 2 + t + b,
    ));
    assert(none.push(node) =~= seq![node]);
}

/// The tokens of elements written out plainly one after the other are read
/// as children of the element that is open.
proof fn scan_first(tokens: Seq<Lexeme>, pos: int, nodes: Seq<Node>, n: nat, open: Node)
    requires
        n <= nodes.len(),
        forall|i: int| 0 <= i < n ==> is_plain(#[trigger] nodes[i]),
        stands_at(tokens, pos, tokens_for_first(nodes, n)),
    ensures
        scan(tokens, pos, Seq::empty(), Some(open)) == scan(
            tokens,
            pos + tokens_for_first(nodes, n).len(),
            Seq::empty(),
            Some(open.with_children(nodes.take(n as int))),
        ),
    decreases nodes, n,
{
    let none = Seq::<Node>::empty();
    if n == 0 {
        assert(open.children + nodes.take(0) =~= open.children);
    } else {
        let fewer = (n - 1) as nat;
        let before = tokens_for_first(nodes, fewer);
        let child = nodes[n - 1];
        tokens_for_one_more(nodes, n);
        part_stands(tokens, pos, tokens_for_first(nodes, n), 0, before);
        part_stands(tokens, pos, tokens_for_first(nodes, n), before.len() as int, tokens_for(child));
        scan_first(tokens, pos, nodes, fewer, open);
        let at = pos + before.len();
        let grown = open.with_children(nodes.take(fewer as int));
        scan_node(tokens, at, child);
        tokens_parts(child);
        assert(tokens[at + 0] == tokens_for(child)[0]);
        assert(scan(tokens, at, none, Some(grown)) == scan(
            tokens,
            at + tokens_for(child).len(),
            none,
            Some(grown.with_children(seq![child])),
        ));
        assert(open.children + nodes.take(fewer as int) + seq![child] =~= open.children
            + nodes.take(n as int));
    }
}

/// The tokens of an element that can be written out plainly stand for that
/// element.
pub proof fn plain_tokens_read_back(node: Node)
    requires
        is_plain(node),
    ensures
        tree_of(tokens_for(node)) == seq![node],
{
    scan_node(tokens_for(node), 0, node);
}

/// An element that is written out plainly is read back as it was.
pub proof fn plain_markup_reads_back(node: Node)
    requires
        is_plain(node),
    ensures
        document(markup_of(node)) == seq![node],
{
    plain_markup_has_its_tokens(node);
    plain_tokens_read_back(node);
}

} // verus!
