//! Every tree that the grammar yields is well formed.

use crate::chars::{white_space, CharClass};
use crate::grammar::{
    attribute, attributes, block, child, close_tag, closing_brace, element, elements, identifier,
    lemma_attribute_shrinks, lemma_child_shrinks, lemma_open_tag_shrinks, lemma_run_length,
    lemma_trailing_whitespace, open_tag, parse, run_length, spaces, tag, text, text_nodes, trim,
};
use crate::laws::braces::{lemma_balanced_within_blank, lemma_inside_is_balanced};
use crate::laws::whitespace::is_blank;
use crate::syntax::{is_identifier, is_text, is_trimmed, is_value, no_adjacent_text, Node};
use vstd::prelude::*;

verus! {

/// Trimming cuts a piece out of the text, behind the white space at its
/// start, and the piece is trimmed.
pub proof fn lemma_trim(s: Seq<char>)
    ensures
        run_length(s, CharClass::Whitespace) + trim(s).len() <= s.len(),
        trim(s) == s.subrange(
            run_length(s, CharClass::Whitespace) as int,
            (run_length(s, CharClass::Whitespace) + trim(s).len()) as int,
        ),
        is_trimmed(trim(s)),
        is_blank(s.take(run_length(s, CharClass::Whitespace) as int)),
        is_blank(s.skip((run_length(s, CharClass::Whitespace) + trim(s).len()) as int)),
        s == s.take(run_length(s, CharClass::Whitespace) as int) + trim(s) + s.skip(
            (run_length(s, CharClass::Whitespace) + trim(s).len()) as int,
        ),
{
    lemma_run_length(s, CharClass::Whitespace);
    let t = spaces(s);
    lemma_trailing_whitespace(t);
    let a = run_length(s, CharClass::Whitespace) as int;
    let n = trim(s).len() as int;
    assert(trim(s) =~= s.subrange(a, a + n));
    assert forall|i: int| 0 <= i < s.skip(a + n).len() implies white_space(
        #[trigger] s.skip(a + n)[i],
    ) by {
        assert(s.skip(a + n)[i] == t[n + i]);
    }
    assert(s =~= s.take(a) + trim(s) + s.skip(a + n));
}

/// A name that is read behind skipped white space is an identifier.
pub proof fn lemma_identifier_after_spaces(s: Seq<char>)
    ensures
        identifier(spaces(s)) matches Ok((_, name)) ==> is_identifier(name),
{
    lemma_run_length(s, CharClass::Whitespace);
    lemma_run_length(spaces(s), CharClass::Alphanumeric);
}

/// A run of text that is kept is text: not empty, trimmed, without `<` and `{`.
pub proof fn lemma_text_is_text(s: Seq<char>)
    ensures
        text(s).1 matches Some(run) ==> is_text(run),
{
    lemma_run_length(s, CharClass::Plain);
    let n = run_length(s, CharClass::Plain) as int;
    lemma_trim(s.take(n));
}

/// The value of a block is a raw value: trimmed, with braces that pair off.
pub proof fn lemma_block_is_value(s: Seq<char>)
    ensures
        block(s) matches Ok((_, value)) ==> is_value(value),
{
    if let Ok(inside) = tag(spaces(s), seq!['{']) {
        if let Some(n) = closing_brace(inside, 1) {
            let raw = inside.take(n);
            lemma_trim(raw);
            lemma_inside_is_balanced(inside);
            let a = run_length(raw, CharClass::Whitespace) as int;
            lemma_balanced_within_blank(raw.take(a), trim(raw), raw.skip(a + trim(raw).len()));
        }
    }
}

/// An attribute that is read is well formed.
pub proof fn lemma_attribute_well_formed(s: Seq<char>)
    ensures
        attribute(s) matches Ok((_, read)) ==> read.well_formed(),
{
    lemma_identifier_after_spaces(s);
    if let Ok((after_name, _)) = identifier(spaces(s)) {
        if let Ok(after_equals) = tag(spaces(after_name), seq!['=']) {
            lemma_block_is_value(after_equals);
        }
    }
}

/// The attributes of a list are well formed, each of them.
pub proof fn lemma_attributes_well_formed(s: Seq<char>)
    ensures
        forall|i: int|
            0 <= i < attributes(s).1.len() ==> (#[trigger] attributes(s).1[i]).well_formed(),
    decreases s.len(),
{
    if let Ok((rest, first)) = attribute(s) {
        lemma_attribute_shrinks(s);
        lemma_attribute_well_formed(s);
        lemma_attributes_well_formed(rest);
        let others = attributes(rest).1;
        assert forall|i: int| 0 <= i < attributes(s).1.len() implies (#[trigger] attributes(
            s,
        ).1[i]).well_formed() by {
            if i > 0 {
                assert(attributes(s).1[i] == others[i - 1]);
            }
        }
    }
}

/// An open tag that is read names an identifier and lists well-formed attributes.
pub proof fn lemma_open_tag_well_formed(s: Seq<char>)
    ensures
        open_tag(s) matches Ok((_, name, list)) ==> is_identifier(name) && forall|i: int|
            0 <= i < list.len() ==> (#[trigger] list[i]).well_formed(),
{
    if let Ok(after_bracket) = tag(spaces(s), seq!['<']) {
        lemma_identifier_after_spaces(after_bracket);
        if let Ok((after_name, _)) = identifier(spaces(after_bracket)) {
            lemma_attributes_well_formed(after_name);
        }
    }
}

/// `s` begins with a character of a run of text.
pub open spec fn begins_plain(s: Seq<char>) -> bool {
    s.len() > 0 && s[0] != '<' && s[0] != '{'
}

/// If two lists have no text nodes side by side, and none where they
/// meet, then neither has the two of them in a row.
pub proof fn lemma_no_adjacent_text_in_both(nodes: Seq<Node>, others: Seq<Node>)
    requires
        no_adjacent_text(nodes),
        no_adjacent_text(others),
        nodes.len() > 0 && others.len() > 0 ==> !(nodes.last() is Text && others[0] is Text),
    ensures
        no_adjacent_text(nodes + others),
{
    let all = nodes + others;
    assert forall|i: int| 0 <= i && i + 1 < all.len() implies !((#[trigger] all[i]) is Text
        && all[i + 1] is Text) by {
        if i + 1 < nodes.len() {
            assert(all[i] == nodes[i]);
            assert(all[i + 1] == nodes[i + 1]);
        } else if i >= nodes.len() {
            assert(all[i] == others[i - nodes.len()]);
            assert(all[i + 1] == others[i - nodes.len() + 1]);
        } else {
            assert(all[i] == nodes.last());
            assert(all[i + 1] == others[0]);
        }
    }
}

/// The children that are read are well formed, each of them; no two text
/// nodes among them are neighbours; and the first is a text node only
/// where the input begins with text.
pub proof fn lemma_elements_well_formed(s: Seq<char>)
    ensures
        forall|i: int|
            0 <= i < elements(s).1.len() ==> (#[trigger] elements(s).1[i]).well_formed(),
        no_adjacent_text(elements(s).1),
        elements(s).1.len() > 0 && elements(s).1[0] is Text ==> begins_plain(s),
    decreases s.len(), 2nat,
{
    if let Some((rest, nodes)) = child(s) {
        lemma_child_shrinks(s);
        let c = s[0];
        if c == '{' {
            lemma_block_is_value(s);
        } else if c == '<' {
            lemma_element_well_formed(s);
        } else {
            lemma_text_is_text(s);
            lemma_run_length(s, CharClass::Plain);
        }
        lemma_elements_well_formed(rest);
        let all = elements(s).1;
        let others = elements(rest).1;
        assert(all == nodes + others);
        assert forall|i: int| 0 <= i < all.len() implies (#[trigger] all[i]).well_formed() by {
            if i < nodes.len() {
                assert(all[i] == nodes[i]);
            } else {
                assert(all[i] == others[i - nodes.len()]);
            }
        }
        assert(nodes.len() > 0 && nodes.last() is Text ==> !begins_plain(rest));
        lemma_no_adjacent_text_in_both(nodes, others);
        if all.len() > 0 {
            if nodes.len() > 0 {
                assert(all[0] == nodes[0]);
            } else {
                assert(all[0] == others[0]);
            }
        }
    }
}

/// The nodes of an element that is read are well formed: the element and
/// the text nodes beside it. No two of them are text nodes side by side;
/// the first is a text node only where the input begins with text; and
/// where the last is a text node, what is left does not begin with text.
pub proof fn lemma_element_well_formed(s: Seq<char>)
    ensures
        element(s) matches Ok((rest, nodes)) ==> {
            &&& forall|i: int| 0 <= i < nodes.len() ==> (#[trigger] nodes[i]).well_formed()
            &&& no_adjacent_text(nodes)
            &&& nodes.len() > 0
            &&& nodes[0] is Text ==> begins_plain(s)
            &&& nodes.last() is Text ==> !begins_plain(rest)
        },
    decreases s.len(), 0nat,
{
    if let Ok((rest, nodes)) = element(s) {
        let (after_leading, leading) = text(s);
        let (after_open, name, list) = open_tag(after_leading)->Ok_0;
        lemma_run_length(s, CharClass::Plain);
        lemma_open_tag_shrinks(after_leading);
        lemma_run_length(after_open, CharClass::Whitespace);
        let (after_children, children) = elements(spaces(after_open));
        let (after_close, _) = close_tag(after_children)->Ok_0;
        let trailing = text(after_close).1;
        lemma_text_is_text(s);
        lemma_open_tag_well_formed(after_leading);
        lemma_elements_well_formed(spaces(after_open));
        lemma_text_is_text(after_close);
        lemma_run_length(after_close, CharClass::Plain);
        let root = Node::Element { name, attributes: list, children };
        assert(root.well_formed());
        assert(nodes == text_nodes(leading) + seq![root] + text_nodes(trailing));
        if leading is Some {
            assert(s.take(run_length(s, CharClass::Plain) as int).len() > 0) by {
                if run_length(s, CharClass::Plain) == 0 {
                    assert(s.take(0) =~= Seq::<char>::empty());
                    crate::laws::tokens::lemma_trim_of_blank(s.take(0));
                }
            }
        }
    }
}

/// The tree of an input that parses is an element, and well formed.
pub proof fn lemma_parse_well_formed(s: Seq<char>)
    ensures
        parse(s) matches Ok(root) ==> root is Element && root.well_formed(),
{
    if let Ok(root) = parse(s) {
        lemma_element_well_formed(s);
        let nodes = element(s)->Ok_0.1;
        assert(root == nodes[0]);
        let (after_leading, leading) = text(s);
        let (after_open, name, list) = open_tag(after_leading)->Ok_0;
        let (after_children, children) = elements(spaces(after_open));
        let (after_close, _) = close_tag(after_children)->Ok_0;
        let trailing = text(after_close).1;
        let middle = Node::Element { name, attributes: list, children };
        assert(nodes == text_nodes(leading) + seq![middle] + text_nodes(trailing));
        assert(nodes.len() == 1);
        assert(text_nodes(leading).len() == 0);
        assert(nodes[0] == middle);
    }
}

} // verus!
