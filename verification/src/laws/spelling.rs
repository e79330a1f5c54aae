//! Spelling a tree as text, and the proof that the text parses back to the
//! tree, whatever white space it is laid out with.

use crate::chars::{alphanumeric, white_space};
use crate::grammar::{
    attribute, attributes, block, child, close_tag, element, elements, lemma_attribute_shrinks,
    lemma_child_shrinks, open_tag, spaces, text, text_nodes, Failure,
};
use crate::laws::braces::lemma_closing_brace_behind_value;
use crate::laws::shape::begins_plain;
use crate::laws::tokens::{
    begins_solid, ends_a_name, lemma_identifier_reads, lemma_identifier_refuses,
    lemma_spaces_of_solid, lemma_spaces_reads, lemma_tag_reads, lemma_text_reads, lemma_text_stops,
    lemma_trim_within_blank,
};
use crate::laws::whitespace::{
    is_blank, lemma_attributes_after_spaces, lemma_spaces_ignores_blank_prefix,
};
use crate::syntax::{is_identifier, is_value, no_adjacent_text, AttributeView, Node};
use vstd::prelude::*;

verus! {

/// White space that cannot be taken for part of a name.
pub open spec fn is_padding(w: Seq<char>) -> bool {
    forall|i: int| 0 <= i < w.len() ==> white_space(#[trigger] w[i]) && !alphanumeric(w[i])
}

/// White space of the ASCII range is padding: spaces, tabs and line breaks
/// will always do.
pub proof fn lemma_ascii_blank_is_padding(w: Seq<char>)
    requires
        is_blank(w),
        forall|i: int| 0 <= i < w.len() ==> #[trigger] w[i] <= '\u{7F}',
    ensures
        is_padding(w),
{
    assert forall|i: int| 0 <= i < w.len() implies white_space(#[trigger] w[i]) && !alphanumeric(
        w[i],
    ) by {
        assert(w[i] <= '\u{7F}');
    }
}

/// A layout says how much white space goes in front of what follows. It may
/// choose differently at every place.
pub open spec fn is_layout(pad: spec_fn(Seq<char>) -> Seq<char>) -> bool {
    forall|rest: Seq<char>| is_padding(#[trigger] pad(rest))
}

/// `rest` behind the white space that the layout puts in front of it.
pub open spec fn padded(pad: spec_fn(Seq<char>) -> Seq<char>, rest: Seq<char>) -> Seq<char> {
    pad(rest) + rest
}

/// A raw value between its braces, in front of `rest`.
pub open spec fn spell_value(
    value: Seq<char>,
    pad: spec_fn(Seq<char>) -> Seq<char>,
    rest: Seq<char>,
) -> Seq<char> {
    seq!['{'] + padded(pad, value + padded(pad, seq!['}'] + rest))
}

/// An attribute in front of `rest`.
pub open spec fn spell_attribute(
    attribute: AttributeView,
    pad: spec_fn(Seq<char>) -> Seq<char>,
    rest: Seq<char>,
) -> Seq<char> {
    seq![' '] + padded(
        pad,
        attribute.name + padded(
            pad,
            seq!['='] + padded(pad, spell_value(attribute.block, pad, rest)),
        ),
    )
}

/// The attributes of a list in front of `rest`.
pub open spec fn spell_attributes(
    list: Seq<AttributeView>,
    pad: spec_fn(Seq<char>) -> Seq<char>,
    rest: Seq<char>,
) -> Seq<char>
    decreases list.len(),
{
    if list.len() == 0 {
        rest
    } else {
        spell_attribute(list[0], pad, spell_attributes(list.drop_first(), pad, rest))
    }
}

/// An open tag in front of `rest`.
pub open spec fn spell_open(
    name: Seq<char>,
    list: Seq<AttributeView>,
    pad: spec_fn(Seq<char>) -> Seq<char>,
    rest: Seq<char>,
) -> Seq<char> {
    seq!['<'] + padded(pad, name + spell_attributes(list, pad, padded(pad, seq!['>'] + rest)))
}

/// A close tag in front of `rest`.
pub open spec fn spell_close(
    name: Seq<char>,
    pad: spec_fn(Seq<char>) -> Seq<char>,
    rest: Seq<char>,
) -> Seq<char> {
    seq!['<'] + padded(
        pad,
        seq!['/'] + padded(pad, name + padded(pad, seq!['>'] + padded(pad, rest))),
    )
}

/// `node` as text, in front of `rest`, with white space as the layout
/// chooses wherever the grammar skips it.
pub open spec fn spell(
    node: Node,
    pad: spec_fn(Seq<char>) -> Seq<char>,
    rest: Seq<char>,
) -> Seq<char>
    decreases node, 0nat,
{
    match node {
        Node::Element { name, attributes, children } => spell_open(
            name,
            attributes,
            pad,
            padded(pad, spell_children(children, 0, pad, spell_close(name, pad, rest))),
        ),
        Node::Text(run) => run + padded(pad, rest),
        Node::Block(value) => spell_value(value, pad, padded(pad, rest)),
    }
}

/// `nodes` from the `from`-th on as text, in front of `rest`.
pub open spec fn spell_children(
    nodes: Seq<Node>,
    from: int,
    pad: spec_fn(Seq<char>) -> Seq<char>,
    rest: Seq<char>,
) -> Seq<char>
    decreases nodes, nodes.len() - from,
{
    if 0 <= from < nodes.len() {
        spell(nodes[from], pad, spell_children(nodes, from + 1, pad, rest))
    } else {
        rest
    }
}

/// Padding is white space.
pub proof fn lemma_padding_is_blank(pad: spec_fn(Seq<char>) -> Seq<char>, rest: Seq<char>)
    requires
        is_layout(pad),
    ensures
        is_blank(pad(rest)),
{
    assert(is_padding(pad(rest)));
}

/// Skipping white space in front of something solid that is padded leaves
/// exactly that.
pub proof fn lemma_spaces_reads_padded(pad: spec_fn(Seq<char>) -> Seq<char>, rest: Seq<char>)
    requires
        is_layout(pad),
        begins_solid(rest),
    ensures
        spaces(padded(pad, rest)) == rest,
{
    lemma_padding_is_blank(pad, rest);
    lemma_spaces_reads(pad(rest), rest);
}

/// What ends a name still ends it when it is padded.
pub proof fn lemma_padded_ends_a_name(pad: spec_fn(Seq<char>) -> Seq<char>, rest: Seq<char>)
    requires
        is_layout(pad),
        ends_a_name(rest),
    ensures
        ends_a_name(padded(pad, rest)),
{
    assert(is_padding(pad(rest)));
    let joined = padded(pad, rest);
    if pad(rest).len() > 0 {
        assert(joined[0] == pad(rest)[0]);
    } else if rest.len() > 0 {
        assert(joined[0] == rest[0]);
    }
}

/// A value between white space and braces is read as a block with that
/// value, and the white space behind it is taken too.
pub proof fn lemma_block_reads(
    before: Seq<char>,
    value: Seq<char>,
    behind: Seq<char>,
    rest: Seq<char>,
)
    requires
        is_blank(before),
        is_blank(behind),
        is_value(value),
    ensures
        block(seq!['{'] + (before + (value + (behind + (seq!['}'] + rest))))) == Ok::<
            (Seq<char>, Seq<char>),
            Failure,
        >((spaces(rest), value)),
{
    let inside = before + (value + (behind + (seq!['}'] + rest)));
    let s = seq!['{'] + inside;
    assert(s[0] == '{');
    lemma_spaces_of_solid(s);
    lemma_tag_reads('{', inside);
    lemma_closing_brace_behind_value(before, value, behind, rest);
    let whole = before + value + behind;
    let n = whole.len() as int;
    assert(inside =~= whole + (seq!['}'] + rest));
    assert(inside.take(n) =~= whole);
    lemma_trim_within_blank(before, value, behind);
    assert(inside.skip(n + 1) =~= rest);
}

/// A spelled value is read as a block with that value, and the white space
/// behind it is taken too.
pub proof fn lemma_value_reads(
    value: Seq<char>,
    pad: spec_fn(Seq<char>) -> Seq<char>,
    rest: Seq<char>,
)
    requires
        is_layout(pad),
        is_value(value),
    ensures
        block(spell_value(value, pad, rest)) == Ok::<(Seq<char>, Seq<char>), Failure>(
            (spaces(rest), value),
        ),
{
    let closing = seq!['}'] + rest;
    let valued = value + padded(pad, closing);
    lemma_padding_is_blank(pad, valued);
    lemma_padding_is_blank(pad, closing);
    lemma_block_reads(pad(valued), value, pad(closing), rest);
}

/// A spelled attribute is read as that attribute, and the white space
/// behind it is taken too.
pub proof fn lemma_attribute_reads(
    spelled: AttributeView,
    pad: spec_fn(Seq<char>) -> Seq<char>,
    rest: Seq<char>,
)
    requires
        is_layout(pad),
        spelled.well_formed(),
    ensures
        attribute(spell_attribute(spelled, pad, rest)) == Ok::<(Seq<char>, AttributeView), Failure>(
            (spaces(rest), spelled),
        ),
{
    let name = spelled.name;
    let valued = spell_value(spelled.block, pad, rest);
    let equals = seq!['='] + padded(pad, valued);
    let named = name + padded(pad, equals);
    let s = seq![' '] + padded(pad, named);
    assert(s == spell_attribute(spelled, pad, rest));

    assert(named[0] == name[0]);
    lemma_spaces_reads_padded(pad, named);
    assert(is_blank(seq![' ']));
    lemma_spaces_ignores_blank_prefix(seq![' '], padded(pad, named));
    assert(spaces(s) == named);

    assert(equals[0] == '=');
    lemma_padded_ends_a_name(pad, equals);
    lemma_identifier_reads(name, padded(pad, equals));

    lemma_spaces_reads_padded(pad, equals);
    lemma_tag_reads('=', padded(pad, valued));

    assert(valued[0] == '{');
    lemma_padding_is_blank(pad, valued);
    lemma_spaces_ignores_blank_prefix(pad(valued), valued);
    lemma_value_reads(spelled.block, pad, rest);
    assert(block(padded(pad, valued)) == block(valued));
}

/// Spelled attributes are read as those attributes, up to what follows
/// them, where what follows is not itself an attribute.
pub proof fn lemma_attributes_read(
    list: Seq<AttributeView>,
    pad: spec_fn(Seq<char>) -> Seq<char>,
    rest: Seq<char>,
)
    requires
        is_layout(pad),
        forall|i: int| 0 <= i < list.len() ==> (#[trigger] list[i]).well_formed(),
        attribute(rest) is Err,
    ensures
        attributes(spell_attributes(list, pad, rest)).1 == list,
        spaces(attributes(spell_attributes(list, pad, rest)).0) == spaces(rest),
    decreases list.len(),
{
    if list.len() == 0 {
        assert(list =~= Seq::<AttributeView>::empty());
    } else {
        let others = list.drop_first();
        let behind = spell_attributes(others, pad, rest);
        assert forall|i: int| 0 <= i < others.len() implies (#[trigger] others[i]).well_formed() by {
            assert(others[i] == list[i + 1]);
        }
        lemma_attributes_read(others, pad, rest);
        assert(list[0].well_formed());
        lemma_attribute_reads(list[0], pad, behind);
        lemma_attributes_after_spaces(behind);
        let s = spell_attributes(list, pad, rest);
        lemma_attribute_shrinks(s);
        assert(attributes(s).1 == seq![list[0]] + attributes(spaces(behind)).1);
        assert(seq![list[0]] + others =~= list);
    }
}

/// Spelled attributes in front of something that ends a name end a name.
pub proof fn lemma_attributes_end_a_name(
    list: Seq<AttributeView>,
    pad: spec_fn(Seq<char>) -> Seq<char>,
    rest: Seq<char>,
)
    requires
        ends_a_name(rest),
    ensures
        ends_a_name(spell_attributes(list, pad, rest)),
{
    if list.len() > 0 {
        let s = spell_attributes(list, pad, rest);
        assert(s[0] == ' ');
    }
}

/// A spelled open tag is read as the tag of that name with those attributes.
pub proof fn lemma_open_tag_reads(
    name: Seq<char>,
    list: Seq<AttributeView>,
    pad: spec_fn(Seq<char>) -> Seq<char>,
    rest: Seq<char>,
)
    requires
        is_layout(pad),
        is_identifier(name),
        forall|i: int| 0 <= i < list.len() ==> (#[trigger] list[i]).well_formed(),
    ensures
        open_tag(spell_open(name, list, pad, rest)) == Ok::<
            (Seq<char>, Seq<char>, Seq<AttributeView>),
            Failure,
        >((rest, name, list)),
{
    let closing = seq!['>'] + rest;
    let behind = padded(pad, closing);
    let listed = spell_attributes(list, pad, behind);
    let named = name + listed;
    let s = seq!['<'] + padded(pad, named);
    assert(s == spell_open(name, list, pad, rest));

    assert(s[0] == '<');
    lemma_spaces_of_solid(s);
    lemma_tag_reads('<', padded(pad, named));

    assert(named[0] == name[0]);
    lemma_spaces_reads_padded(pad, named);

    assert(closing[0] == '>');
    lemma_padded_ends_a_name(pad, closing);
    lemma_attributes_end_a_name(list, pad, behind);
    lemma_identifier_reads(name, listed);

    lemma_spaces_reads_padded(pad, closing);
    lemma_identifier_refuses(closing);
    assert(attribute(behind) is Err);
    lemma_attributes_read(list, pad, behind);
    lemma_tag_reads('>', rest);
}

/// A spelled close tag is read as the close tag of that name, and the
/// white space behind it is taken too.
pub proof fn lemma_close_tag_reads(
    name: Seq<char>,
    pad: spec_fn(Seq<char>) -> Seq<char>,
    rest: Seq<char>,
)
    requires
        is_layout(pad),
        is_identifier(name),
        begins_solid(rest),
    ensures
        close_tag(spell_close(name, pad, rest)) == Ok::<(Seq<char>, Seq<char>), Failure>(
            (rest, name),
        ),
{
    let closing = seq!['>'] + padded(pad, rest);
    let named = name + padded(pad, closing);
    let slash = seq!['/'] + padded(pad, named);
    let s = seq!['<'] + padded(pad, slash);
    assert(s == spell_close(name, pad, rest));

    assert(s[0] == '<');
    lemma_spaces_of_solid(s);
    lemma_tag_reads('<', padded(pad, slash));

    assert(slash[0] == '/');
    lemma_spaces_reads_padded(pad, slash);
    lemma_tag_reads('/', padded(pad, named));

    assert(named[0] == name[0]);
    lemma_spaces_reads_padded(pad, named);
    assert(closing[0] == '>');
    lemma_padded_ends_a_name(pad, closing);
    lemma_identifier_reads(name, padded(pad, closing));

    lemma_spaces_reads_padded(pad, closing);
    lemma_tag_reads('>', padded(pad, rest));
    lemma_spaces_reads_padded(pad, rest);
}

/// A spelled close tag begins with `<` and is not read as an element, so
/// that a list of children ends in front of it.
pub proof fn lemma_close_tag_ends_children(
    name: Seq<char>,
    pad: spec_fn(Seq<char>) -> Seq<char>,
    rest: Seq<char>,
)
    requires
        is_layout(pad),
    ensures
        spell_close(name, pad, rest)[0] == '<',
        elements(spell_close(name, pad, rest)) == (
            spell_close(name, pad, rest),
            Seq::<Node>::empty(),
        ),
{
    let slash = seq!['/'] + padded(pad, name + padded(pad, seq!['>'] + padded(pad, rest)));
    let s = seq!['<'] + padded(pad, slash);
    assert(s == spell_close(name, pad, rest));
    assert(s[0] == '<');
    lemma_text_stops(s);
    lemma_spaces_of_solid(s);
    lemma_tag_reads('<', padded(pad, slash));
    assert(slash[0] == '/');
    lemma_spaces_reads_padded(pad, slash);
    lemma_identifier_refuses(slash);
    assert(open_tag(s) is Err);
    assert(element(s) is Err);
    assert(child(s) is None);
}

/// How a spelled node begins: an element with `<`, a block with `{`, text
/// with its first character.
pub proof fn lemma_spelling_begins(
    node: Node,
    pad: spec_fn(Seq<char>) -> Seq<char>,
    rest: Seq<char>,
)
    requires
        node.well_formed(),
    ensures
        spell(node, pad, rest).len() > 0,
        spell(node, pad, rest)[0] == match node {
            Node::Element { .. } => '<',
            Node::Text(run) => run[0],
            Node::Block(_) => '{',
        },
{
    match node {
        Node::Element { name, attributes, children } => {
            let body = padded(
                pad,
                spell_children(children, 0, pad, spell_close(name, pad, rest)),
            );
            assert(spell(node, pad, rest) == spell_open(name, attributes, pad, body));
        },
        Node::Text(run) => {
            assert(spell(node, pad, rest)[0] == run[0]);
        },
        Node::Block(value) => {
            assert(spell(node, pad, rest) == spell_value(value, pad, padded(pad, rest)));
        },
    }
}

/// How spelled children begin in front of something that begins with `<`:
/// with the first character of a text node where one is the first, with
/// `<` or `{` otherwise.
pub proof fn lemma_children_begin(
    nodes: Seq<Node>,
    from: int,
    pad: spec_fn(Seq<char>) -> Seq<char>,
    rest: Seq<char>,
)
    requires
        0 <= from <= nodes.len(),
        forall|i: int| 0 <= i < nodes.len() ==> (#[trigger] nodes[i]).well_formed(),
        rest.len() > 0,
        rest[0] == '<',
    ensures
        spell_children(nodes, from, pad, rest).len() > 0,
        begins_solid(spell_children(nodes, from, pad, rest)),
        from < nodes.len() && nodes[from] is Text ==> spell_children(nodes, from, pad, rest)[0]
            == nodes[from]->Text_0[0],
        !(from < nodes.len() && nodes[from] is Text) ==> spell_children(nodes, from, pad, rest)[0]
            == '<' || spell_children(nodes, from, pad, rest)[0] == '{',
{
    if from < nodes.len() {
        assert(nodes[from].well_formed());
        lemma_spelling_begins(nodes[from], pad, spell_children(nodes, from + 1, pad, rest));
    }
}

/// A spelled element is read as that element. What follows it is read as
/// the text behind the element, if it begins with text.
pub proof fn lemma_element_reads(
    node: Node,
    pad: spec_fn(Seq<char>) -> Seq<char>,
    rest: Seq<char>,
)
    requires
        is_layout(pad),
        node is Element,
        node.well_formed(),
        begins_solid(rest),
    ensures
        element(spell(node, pad, rest)) == Ok::<(Seq<char>, Seq<Node>), Failure>(
            (text(rest).0, seq![node] + text_nodes(text(rest).1)),
        ),
    decreases node, 0nat,
{
    let name = node->name;
    let list = node->attributes;
    let children = node->children;
    let close = spell_close(name, pad, rest);
    let inner = spell_children(children, 0, pad, close);
    let body = padded(pad, inner);
    let s = spell_open(name, list, pad, body);
    assert(s == spell(node, pad, rest));

    assert(s[0] == '<');
    lemma_text_stops(s);
    lemma_open_tag_reads(name, list, pad, body);

    lemma_close_tag_ends_children(name, pad, rest);
    lemma_children_begin(children, 0, pad, close);
    lemma_spaces_reads_padded(pad, inner);
    lemma_children_read(children, 0, pad, close);
    assert(children.skip(0) =~= children);

    lemma_close_tag_reads(name, pad, rest);
    assert(text_nodes(None) + seq![node] + text_nodes(text(rest).1) =~= seq![node] + text_nodes(
        text(rest).1,
    ));
}

/// A spelled text node in front of a delimiter is read as that text.
pub proof fn lemma_text_node_reads(
    node: Node,
    pad: spec_fn(Seq<char>) -> Seq<char>,
    rest: Seq<char>,
)
    requires
        is_layout(pad),
        node is Text,
        node.well_formed(),
        rest.len() > 0 ==> rest[0] == '<' || rest[0] == '{',
    ensures
        text(spell(node, pad, rest)) == (rest, Some(node->Text_0)),
        begins_plain(spell(node, pad, rest)),
{
    let run = node->Text_0;
    lemma_padding_is_blank(pad, rest);
    lemma_text_reads(run, pad(rest), rest);
    assert(spell(node, pad, rest) == run + (pad(rest) + rest));
    assert(spell(node, pad, rest)[0] == run[0]);
}

/// A spelled text node in front of a delimiter is read as one child.
pub proof fn lemma_text_child_reads(
    node: Node,
    pad: spec_fn(Seq<char>) -> Seq<char>,
    rest: Seq<char>,
)
    requires
        is_layout(pad),
        node is Text,
        node.well_formed(),
        rest.len() > 0 ==> rest[0] == '<' || rest[0] == '{',
    ensures
        child(spell(node, pad, rest)) == Some((rest, seq![node])),
{
    lemma_text_node_reads(node, pad, rest);
}

/// A spelled block in front of something solid is read as one child.
pub proof fn lemma_block_child_reads(
    node: Node,
    pad: spec_fn(Seq<char>) -> Seq<char>,
    rest: Seq<char>,
)
    requires
        is_layout(pad),
        node is Block,
        node.well_formed(),
        begins_solid(rest),
    ensures
        child(spell(node, pad, rest)) == Some((rest, seq![node])),
{
    let value = node->Block_0;
    let s = spell_value(value, pad, padded(pad, rest));
    assert(s == spell(node, pad, rest));
    assert(s[0] == '{');
    lemma_value_reads(value, pad, padded(pad, rest));
    lemma_spaces_reads_padded(pad, rest);
}

/// A spelled element in front of something solid is read as one child,
/// together with the text behind it where what follows begins with text.
pub proof fn lemma_element_child_reads(
    node: Node,
    pad: spec_fn(Seq<char>) -> Seq<char>,
    rest: Seq<char>,
)
    requires
        is_layout(pad),
        node is Element,
        node.well_formed(),
        begins_solid(rest),
        element(spell(node, pad, rest)) == Ok::<(Seq<char>, Seq<Node>), Failure>(
            (text(rest).0, seq![node] + text_nodes(text(rest).1)),
        ),
    ensures
        child(spell(node, pad, rest)) == Some(
            (text(rest).0, seq![node] + text_nodes(text(rest).1)),
        ),
{
    lemma_spelling_begins(node, pad, rest);
}

/// Spelled children are read as those children, up to what follows them,
/// where what follows begins with `<` and is no child.
pub proof fn lemma_children_read(
    nodes: Seq<Node>,
    from: int,
    pad: spec_fn(Seq<char>) -> Seq<char>,
    rest: Seq<char>,
)
    requires
        is_layout(pad),
        0 <= from <= nodes.len(),
        forall|i: int| 0 <= i < nodes.len() ==> (#[trigger] nodes[i]).well_formed(),
        no_adjacent_text(nodes),
        rest.len() > 0,
        rest[0] == '<',
        elements(rest) == (rest, Seq::<Node>::empty()),
    ensures
        elements(spell_children(nodes, from, pad, rest)) == (rest, nodes.skip(from)),
    decreases nodes, nodes.len() - from,
{
    if from == nodes.len() {
        assert(nodes.skip(from) =~= Seq::<Node>::empty());
    } else {
        let node = nodes[from];
        let behind = spell_children(nodes, from + 1, pad, rest);
        let s = spell(node, pad, behind);
        assert(s == spell_children(nodes, from, pad, rest));
        assert(node.well_formed());
        lemma_children_begin(nodes, from + 1, pad, rest);
        lemma_child_shrinks(s);
        if node is Element && from + 1 < nodes.len() && nodes[from + 1] is Text {
            let next = nodes[from + 1];
            let further = spell_children(nodes, from + 2, pad, rest);
            assert(behind == spell(next, pad, further));
            assert(from + 2 < nodes.len() ==> !(nodes[from + 1] is Text && nodes[from + 2] is Text));
            assert(next.well_formed());
            lemma_children_begin(nodes, from + 2, pad, rest);
            lemma_text_node_reads(next, pad, further);
            lemma_element_reads(node, pad, behind);
            lemma_element_child_reads(node, pad, behind);
            assert(seq![node] + text_nodes(Some(next->Text_0)) =~= seq![node, next]);
            lemma_children_read(nodes, from + 2, pad, rest);
            assert(seq![node, next] + nodes.skip(from + 2) =~= nodes.skip(from));
        } else {
            match node {
                Node::Text(_) => {
                    assert(from + 1 < nodes.len() ==> !(nodes[from] is Text && nodes[from + 1] is Text));
                    lemma_text_child_reads(node, pad, behind);
                },
                Node::Block(_) => {
                    lemma_block_child_reads(node, pad, behind);
                },
                Node::Element { .. } => {
                    lemma_text_stops(behind);
                    lemma_element_reads(node, pad, behind);
                    lemma_element_child_reads(node, pad, behind);
                    assert(seq![node] + text_nodes(None) =~= seq![node]);
                },
            }
            assert(child(s) == Some((behind, seq![node])));
            lemma_children_read(nodes, from + 1, pad, rest);
            assert(seq![node] + nodes.skip(from + 1) =~= nodes.skip(from));
        }
    }
}

} // verus!
