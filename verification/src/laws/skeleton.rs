//! The skeleton of a tree: what is left of it when only tags, names and
//! nesting count.

use crate::grammar::{parse, Failure};
use crate::laws::round_trip::lemma_round_trip;
use crate::laws::shape::lemma_parse_well_formed;
use crate::laws::spelling::{is_layout, padded, spell};
use crate::syntax::{AttributeView, Node};
use vstd::prelude::*;

verus! {

/// The attributes by their names alone, their values empty.
pub open spec fn bare(list: Seq<AttributeView>) -> Seq<AttributeView> {
    Seq::new(list.len(), |i: int| AttributeView { name: list[i].name, block: Seq::empty() })
}

/// The skeleton of a tree: its elements with their names, the names of
/// their attributes, and their nesting. Text, blocks and the values of
/// attributes are left out.
pub open spec fn skeleton(node: Node) -> Node
    decreases node, 0nat,
{
    match node {
        Node::Element { name, attributes, children } => Node::Element {
            name,
            attributes: bare(attributes),
            children: skeletons(children, 0),
        },
        other => other,
    }
}

/// The skeletons of the elements among `nodes`, from the `from`-th node on.
pub open spec fn skeletons(nodes: Seq<Node>, from: int) -> Seq<Node>
    decreases nodes, nodes.len() - from,
{
    if 0 <= from < nodes.len() {
        if nodes[from] is Element {
            seq![skeleton(nodes[from])] + skeletons(nodes, from + 1)
        } else {
            skeletons(nodes, from + 1)
        }
    } else {
        Seq::empty()
    }
}

/// The skeleton of a well-formed element is a well-formed element.
pub proof fn lemma_skeleton_well_formed(node: Node)
    requires
        node is Element,
        node.well_formed(),
    ensures
        skeleton(node) is Element,
        skeleton(node).well_formed(),
    decreases node, 0nat,
{
    let list = node->attributes;
    let children = node->children;
    assert forall|i: int| 0 <= i < bare(list).len() implies (#[trigger] bare(list)[i]).well_formed() by {
        assert(list[i].well_formed());
        let empty = Seq::<char>::empty();
        assert(empty + seq!['}'] =~= seq!['}']);
    }
    lemma_skeletons_well_formed(children, 0);
}

/// The skeletons of well-formed nodes are well-formed elements.
pub proof fn lemma_skeletons_well_formed(nodes: Seq<Node>, from: int)
    requires
        0 <= from <= nodes.len(),
        forall|i: int| 0 <= i < nodes.len() ==> (#[trigger] nodes[i]).well_formed(),
    ensures
        forall|i: int|
            0 <= i < skeletons(nodes, from).len() ==> (#[trigger] skeletons(nodes, from)[i])
                is Element && skeletons(nodes, from)[i].well_formed(),
    decreases nodes, nodes.len() - from,
{
    if from < nodes.len() {
        lemma_skeletons_well_formed(nodes, from + 1);
        let others = skeletons(nodes, from + 1);
        if nodes[from] is Element {
            assert(nodes[from].well_formed());
            lemma_skeleton_well_formed(nodes[from]);
            let all = skeletons(nodes, from);
            assert forall|i: int| 0 <= i < all.len() implies (#[trigger] all[i]) is Element
                && all[i].well_formed() by {
                if i > 0 {
                    assert(all[i] == others[i - 1]);
                }
            }
        }
    }
}

/// The skeleton of an element, spelled with white space wherever the
/// layout likes, parses, and what it parses to is the skeleton.
pub proof fn lemma_skeleton_round_trip(node: Node, pad: spec_fn(Seq<char>) -> Seq<char>)
    requires
        is_layout(pad),
        node is Element,
        node.well_formed(),
    ensures
        parse(padded(pad, spell(skeleton(node), pad, Seq::empty()))) == Ok::<Node, Failure>(
            skeleton(node),
        ),
{
    lemma_skeleton_well_formed(node);
    lemma_round_trip(skeleton(node), pad);
}

/// What an input parses to can be spelled by its skeleton and parsed
/// again, and that gives its skeleton: the same elements, names and
/// nesting.
pub proof fn lemma_reparse_skeleton(s: Seq<char>, pad: spec_fn(Seq<char>) -> Seq<char>)
    requires
        is_layout(pad),
        parse(s) is Ok,
    ensures
        parse(padded(pad, spell(skeleton(parse(s)->Ok_0), pad, Seq::empty()))) == Ok::<
            Node,
            Failure,
        >(skeleton(parse(s)->Ok_0)),
{
    lemma_parse_well_formed(s);
    lemma_skeleton_round_trip(parse(s)->Ok_0, pad);
}

} // verus!
