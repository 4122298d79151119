//! The nodes of a parsed fragment.

use crate::attributes::Attributes;
use vstd::prelude::*;

verus! {

/// A node as a mathematical value: what an `HtmlElement` stands for.
pub ghost struct Node {
    /// The tag name, or `"text"` for a run of text.
    pub kind: Seq<char>,
    /// The text held by the node itself.
    pub text: Seq<char>,
    /// The nodes below this one, in the order in which they were written.
    pub children: Seq<Node>,
    /// The attributes, by name; `None` for a name without a value.
    pub attributes: Map<Seq<char>, Option<Seq<char>>>,
}

impl Node {
    /// An element of the given kind, with nothing in it yet.
    pub open spec fn element(kind: Seq<char>) -> Node {
        Node { kind, text: Seq::empty(), children: Seq::empty(), attributes: Map::empty() }
    }

    /// A run of text standing on its own.
    pub open spec fn text_run(text: Seq<char>) -> Node {
        Node { kind: "text"@, text, children: Seq::empty(), attributes: Map::empty() }
    }

    /// This node with `text` as its own text.
    pub open spec fn with_text(self, text: Seq<char>) -> Node {
        Node { text, ..self }
    }

    /// This node with `more` added after its children.
    pub open spec fn with_children(self, more: Seq<Node>) -> Node {
        Node { children: self.children + more, ..self }
    }

    /// This node with the given attributes in place of its own.
    pub open spec fn with_attributes(self, attributes: Map<Seq<char>, Option<Seq<char>>>) -> Node {
        Node { attributes, ..self }
    }
}

/// One node of the tree: an element, or a run of text (kind `"text"`).
#[derive(PartialEq, Debug)]
pub struct HtmlElement {
    /// The tag name, or `"text"` for a run of text.
    pub node_type: String,
    /// The text held by the node itself.
    pub text_content: String,
    /// The nodes below this one, in the order in which they were written.
    pub child_nodes: Vec<HtmlElement>,
    /// The attributes of the element.
    pub attributes: Attributes,
}

/// What an element stands for: its own strings and attributes, and below it
/// what its child nodes stand for, in the same order.
pub open spec fn node_of(element: HtmlElement) -> Node
    decreases element,
{
    Node {
        kind: element.node_type@,
        text: element.text_content@,
        children: Seq::new(
            element.child_nodes@.len(),
            |i: int|
                if 0 <= i < element.child_nodes@.len() {
                    node_of(element.child_nodes@[i])
                } else {
                    arbitrary()
                },
        ),
        attributes: element.attributes@,
    }
}

impl DeepView for HtmlElement {
    type V = Node;

    open spec fn deep_view(&self) -> Node {
        node_of(*self)
    }
}

impl View for HtmlElement {
    type V = Node;

    open spec fn view(&self) -> Node {
        self.deep_view()
    }
}

impl HtmlElement {
    /// An element of kind `node_type` without text, children or attributes.
    pub fn new(node_type: String) -> (element: HtmlElement)
        ensures
            element@ == Node::element(node_type@),
    {
        let element = HtmlElement {
            node_type: node_type,
            child_nodes: Vec::new(),
            attributes: Attributes::new(),
            text_content: String::new(),
        };
        assert(element@.children =~= Seq::empty());
        element
    }

    /// The children of an element are the views of its child nodes, in order.
    pub proof fn children_view(&self)
        ensures
            self@.children == self.child_nodes.deep_view(),
    {
        let children = self.deep_view().children;
        let below = self.child_nodes.deep_view();
        assert forall|i: int| 0 <= i < children.len() implies children[i] == below[i] by {
            assert(below[i] == self.child_nodes@[i].deep_view());
        }
        assert(children =~= below);
    }
}

} // verus!
