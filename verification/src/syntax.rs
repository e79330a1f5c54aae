//! The syntax tree and its mathematical model.

use crate::chars::{alphanumeric, white_space};
use crate::grammar::balanced;
use vstd::prelude::*;

verus! {

/// An attribute of a tag: `name={ block }`.
#[derive(Debug, PartialEq, Eq)]
pub struct Attribute {
    /// The attribute's identifier.
    pub name: String,
    /// The raw text between the braces of the value, trimmed.
    pub block: String,
}

/// A node of the tree.
#[derive(Debug, PartialEq, Eq)]
pub enum Element {
    /// A tag with its attributes and what stands between its open and close tag.
    Element { name: String, attributes: Vec<Attribute>, children: Vec<Element> },
    /// A trimmed, non-empty run of text.
    Text(String),
    /// The raw text of an embedded `{ ... }` expression, trimmed.
    Block(String),
}

/// The model of an [`Attribute`]: both strings as sequences of characters.
pub struct AttributeView {
    pub name: Seq<char>,
    pub block: Seq<char>,
}

/// The model of an [`Element`].
pub enum Node {
    Element { name: Seq<char>, attributes: Seq<AttributeView>, children: Seq<Node> },
    Text(Seq<char>),
    Block(Seq<char>),
}

impl View for Attribute {
    type V = AttributeView;

    open spec fn view(&self) -> AttributeView {
        AttributeView { name: self.name@, block: self.block@ }
    }
}

/// The models of a list of attributes, in order.
pub open spec fn attribute_views(list: Seq<Attribute>) -> Seq<AttributeView> {
    Seq::new(list.len(), |i: int| list[i]@)
}

/// The models of a list of elements, in order.
pub open spec fn node_views(list: Seq<Element>) -> Seq<Node>
    decreases list,
{
    Seq::new(
        list.len(),
        |i: int|
            if 0 <= i < list.len() {
                list[i]@
            } else {
                Node::Text(Seq::empty())
            },
    )
}

impl View for Element {
    type V = Node;

    open spec fn view(&self) -> Node
        decreases self,
    {
        match self {
            Element::Element { name, attributes, children } => Node::Element {
                name: name@,
                attributes: attribute_views(attributes@),
                children: node_views(children@),
            },
            Element::Text(text) => Node::Text(text@),
            Element::Block(block) => Node::Block(block@),
        }
    }
}

/// A name as the parser reads one: letters and digits, at least one, and no
/// white space in front (the parser skips white space before every name).
pub open spec fn is_identifier(name: Seq<char>) -> bool {
    &&& name.len() > 0
    &&& !white_space(name[0])
    &&& forall|i: int| 0 <= i < name.len() ==> alphanumeric(#[trigger] name[i])
}

/// No white space at either end.
pub open spec fn is_trimmed(text: Seq<char>) -> bool {
    text.len() > 0 ==> !white_space(text.first()) && !white_space(text.last())
}

/// A run of text as the parser keeps one: not empty, trimmed, and free of
/// the two characters that begin something else.
pub open spec fn is_text(text: Seq<char>) -> bool {
    &&& text.len() > 0
    &&& is_trimmed(text)
    &&& forall|i: int| 0 <= i < text.len() ==> #[trigger] text[i] != '<' && text[i] != '{'
}

/// A raw value as the parser keeps one: trimmed, and its braces pair off.
pub open spec fn is_value(value: Seq<char>) -> bool {
    is_trimmed(value) && balanced(value)
}

/// No two text nodes stand side by side: text that is not interrupted is
/// one run.
pub open spec fn no_adjacent_text(nodes: Seq<Node>) -> bool {
    forall|i: int|
        0 <= i && i + 1 < nodes.len() ==> !((#[trigger] nodes[i]) is Text && nodes[i + 1] is Text)
}

impl AttributeView {
    /// The name is an identifier and the value is a raw value.
    pub open spec fn well_formed(self) -> bool {
        is_identifier(self.name) && is_value(self.block)
    }
}

impl Node {
    /// What holds of every node that the parser builds, and of no other
    /// (every such node is what some input parses to): names are
    /// identifiers; text is never empty, is trimmed and holds neither `<`
    /// nor `{`; raw values are trimmed and their braces pair off; no two
    /// text nodes are neighbours; and so on down the tree.
    pub open spec fn well_formed(self) -> bool
        decreases self,
    {
        match self {
            Node::Element { name, attributes, children } => {
                &&& is_identifier(name)
                &&& forall|i: int|
                    0 <= i < attributes.len() ==> (#[trigger] attributes[i]).well_formed()
                &&& forall|i: int|
                    0 <= i < children.len() ==> (#[trigger] children[i]).well_formed()
                &&& no_adjacent_text(children)
            },
            Node::Text(text) => is_text(text),
            Node::Block(value) => is_value(value),
        }
    }
}

} // verus!
