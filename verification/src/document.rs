//! From a fragment of markup to its tree of nodes.

use crate::element::{HtmlElement, Node};
use crate::lex::{lex_from, lexer, tokens_of, LexState};
use crate::markup::run_joins;
use crate::shape::{
    all_attributes_have_values, all_voids_are_empty, fragments_give_attributes_values,
    fragments_keep_voids_empty,
};
use crate::token::Lexeme;
use crate::tree::{parser, scan, tree_of};
use vstd::prelude::*;

verus! {

/// The tree that a fragment stands for: the tree of its tokens.
pub open spec fn document(input: Seq<char>) -> Seq<Node> {
    tree_of(tokens_of(input))
}

/// A fragment without a `<` that is not empty is one text node, which holds
/// the fragment as it is.
pub proof fn plain_text_is_one_text_node(input: Seq<char>)
    requires
        input.len() > 0,
        !input.contains('<'),
    ensures
        document(input) == seq![Node::text_run(input)],
{
    let start = LexState::start();
    assert forall|i: int| 0 <= i < input.len() implies input[i] != '<' by {
        assert(input.contains(input[i]));
    }
    run_joins(input, 0, input.len(), start);
    assert(Seq::<char>::empty() + input.subrange(0, input.len() as int) =~= input);
    let end = LexState { current: Lexeme::Text(input), ..start };
    let tokens = seq![Lexeme::Text(input)];
    assert(end.finish() =~= tokens);
    assert(tokens_of(input) == lex_from(input, input.len() as int, end));
    let done = Seq::<Node>::empty().push(Node::text_run(input));
    assert(scan(tokens, 0, Seq::empty(), None) == scan(tokens, 1, done, None));
    assert(scan(tokens, 1, done, None).0 == done);
    assert(done =~= seq![Node::text_run(input)]);
}

/// Parses a fragment of markup into its tree of nodes.
///
/// An empty fragment has no nodes. A fragment without a `<` is one text node.
/// In no tree does a void element have children, and in no tree does an
/// attribute stand without a value.
pub fn parse(html: String) -> (nodes: Vec<HtmlElement>)
    ensures
        nodes.deep_view() == document(html@),
        html@.len() == 0 ==> nodes@.len() == 0,
        html@.len() > 0 && !html@.contains('<') ==> nodes.deep_view() == seq![
            Node::text_run(html@),
        ],
        all_voids_are_empty(nodes.deep_view()),
        all_attributes_have_values(nodes.deep_view()),
{
    proof {
        fragments_keep_voids_empty(html@);
        fragments_give_attributes_values(html@);
        if html@.len() == 0 {
            assert(tokens_of(html@) =~= Seq::empty());
        } else if !html@.contains('<') {
            plain_text_is_one_text_node(html@);
        }
    }
    let tokens = lexer(html);
    let nodes = parser(tokens);
    assert(nodes.deep_view().len() == nodes@.len());
    nodes
}

} // verus!
