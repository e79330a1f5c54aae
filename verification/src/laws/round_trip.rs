//! Spelling and parsing are inverse to each other, and what follows from it.

use crate::grammar::{element, lemma_open_tag_shrinks, parse, text, ErrorKind, Failure};
use crate::laws::shape::lemma_parse_well_formed;
use crate::laws::spelling::{
    is_layout, lemma_children_begin, lemma_children_read, lemma_close_tag_ends_children,
    lemma_close_tag_reads, lemma_element_reads, lemma_open_tag_reads, lemma_padding_is_blank,
    lemma_spaces_reads_padded, lemma_spelling_begins, padded, spell, spell_children, spell_close,
    spell_open,
};
use crate::laws::tokens::{lemma_text_skips_blank, lemma_text_stops};
use crate::syntax::{is_identifier, Node};
use vstd::prelude::*;

verus! {

/// A well-formed element, spelled with white space wherever the layout
/// likes, parses, and what it parses to is the element. So every
/// well-formed element is the tree of some input, and the white space
/// between the tokens of tags and attributes, around values and around
/// text plays no part in what an input means.
pub proof fn lemma_round_trip(node: Node, pad: spec_fn(Seq<char>) -> Seq<char>)
    requires
        is_layout(pad),
        node is Element,
        node.well_formed(),
    ensures
        parse(padded(pad, spell(node, pad, Seq::empty()))) == Ok::<Node, Failure>(node),
{
    let spelled = spell(node, pad, Seq::empty());
    let s = padded(pad, spelled);
    lemma_element_reads(node, pad, Seq::empty());
    lemma_text_stops(Seq::empty());
    lemma_spelling_begins(node, pad, Seq::empty());
    lemma_padding_is_blank(pad, spelled);
    lemma_text_skips_blank(pad(spelled), spelled);
    lemma_text_stops(spelled);
    assert(text(s) == text(spelled));
    assert(element(s) == element(spelled));
}

/// Two layouts of one tree parse to the same tree.
pub proof fn lemma_layout_is_immaterial(
    node: Node,
    pad: spec_fn(Seq<char>) -> Seq<char>,
    other: spec_fn(Seq<char>) -> Seq<char>,
)
    requires
        is_layout(pad),
        is_layout(other),
        node is Element,
        node.well_formed(),
    ensures
        parse(padded(pad, spell(node, pad, Seq::empty()))) == parse(
            padded(other, spell(node, other, Seq::empty())),
        ),
{
    lemma_round_trip(node, pad);
    lemma_round_trip(node, other);
}

/// What an input parses to can be spelled and parsed again, and that gives
/// the same tree.
pub proof fn lemma_reparse(s: Seq<char>, pad: spec_fn(Seq<char>) -> Seq<char>)
    requires
        is_layout(pad),
        parse(s) is Ok,
    ensures
        parse(padded(pad, spell(parse(s)->Ok_0, pad, Seq::empty()))) == parse(s),
{
    lemma_parse_well_formed(s);
    lemma_round_trip(parse(s)->Ok_0, pad);
}

/// An element whose close tag names `other` in place of its own name.
pub open spec fn spell_mismatched(
    node: Node,
    other: Seq<char>,
    pad: spec_fn(Seq<char>) -> Seq<char>,
    rest: Seq<char>,
) -> Seq<char> {
    spell_open(
        node->name,
        node->attributes,
        pad,
        padded(pad, spell_children(node->children, 0, pad, spell_close(other, pad, rest))),
    )
}

/// An element whose close tag names another element is refused as a
/// mismatch, at the close tag, whatever stands inside it and however it is
/// laid out. It is not read as if the names agreed.
pub proof fn lemma_mismatch_is_refused(
    node: Node,
    other: Seq<char>,
    pad: spec_fn(Seq<char>) -> Seq<char>,
)
    requires
        is_layout(pad),
        node is Element,
        node.well_formed(),
        is_identifier(other),
        other != node->name,
    ensures
        parse(padded(pad, spell_mismatched(node, other, pad, Seq::empty()))) == Err::<
            Node,
            Failure,
        >(
            Failure {
                kind: ErrorKind::TagMismatch,
                remaining: spell_close(other, pad, Seq::empty()).len(),
            },
        ),
{
    let name = node->name;
    let list = node->attributes;
    let children = node->children;
    let rest = Seq::<char>::empty();
    let close = spell_close(other, pad, rest);
    let inner = spell_children(children, 0, pad, close);
    let body = padded(pad, inner);
    let spelled = spell_open(name, list, pad, body);

    assert(spelled[0] == '<');
    lemma_padding_is_blank(pad, spelled);
    lemma_text_skips_blank(pad(spelled), spelled);
    lemma_open_tag_reads(name, list, pad, body);
    lemma_open_tag_shrinks(spelled);

    lemma_close_tag_ends_children(other, pad, rest);
    lemma_children_begin(children, 0, pad, close);
    lemma_spaces_reads_padded(pad, inner);
    lemma_children_read(children, 0, pad, close);
    assert(children.skip(0) =~= children);
    lemma_close_tag_reads(other, pad, rest);
}

/// What stands behind the root is refused as trailing content, at the
/// place where it begins: a second root among other things.
pub proof fn lemma_second_root_is_refused(
    node: Node,
    pad: spec_fn(Seq<char>) -> Seq<char>,
    extra: Seq<char>,
)
    requires
        is_layout(pad),
        node is Element,
        node.well_formed(),
        extra.len() > 0,
        extra[0] == '<',
    ensures
        parse(padded(pad, spell(node, pad, extra))) == Err::<Node, Failure>(
            Failure { kind: ErrorKind::TrailingContent, remaining: extra.len() },
        ),
{
    let spelled = spell(node, pad, extra);
    lemma_element_reads(node, pad, extra);
    lemma_text_stops(extra);
    lemma_spelling_begins(node, pad, extra);
    lemma_padding_is_blank(pad, spelled);
    lemma_text_skips_blank(pad(spelled), spelled);
    lemma_text_stops(spelled);
}

} // verus!
