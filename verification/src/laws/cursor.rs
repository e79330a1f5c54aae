//! The cursor only moves forward: what a construct leaves unread is the end
//! of what it was given.

use crate::chars::CharClass;
use crate::grammar::{
    attribute, attributes, block, child, close_tag, closing_brace, element, elements, identifier,
    lemma_attribute_shrinks, lemma_child_shrinks, lemma_closing_brace, lemma_open_tag_shrinks,
    lemma_run_length, open_tag, spaces, tag, text,
};
use vstd::prelude::*;

verus! {

/// `rest` is the end of `s`: what is left of `s` when some of its first
/// characters are taken away.
pub open spec fn is_rest_of(rest: Seq<char>, s: Seq<char>) -> bool {
    rest.len() <= s.len() && rest == s.skip(s.len() - rest.len())
}

/// Skipping leaves the end.
pub proof fn lemma_skip_is_rest(s: Seq<char>, n: int)
    requires
        0 <= n <= s.len(),
    ensures
        is_rest_of(s.skip(n), s),
{
}

/// The end of the end is the end.
pub proof fn lemma_rest_of_rest(a: Seq<char>, b: Seq<char>, c: Seq<char>)
    requires
        is_rest_of(a, b),
        is_rest_of(b, c),
    ensures
        is_rest_of(a, c),
{
    assert(c.skip(c.len() - b.len()).skip(b.len() - a.len()) =~= c.skip(c.len() - a.len()));
}

/// Skipping white space leaves the end of the input.
pub proof fn lemma_spaces_is_rest(s: Seq<char>)
    ensures
        is_rest_of(spaces(s), s),
{
    lemma_run_length(s, CharClass::Whitespace);
}

/// A literal that is read leaves the end of the input.
pub proof fn lemma_tag_is_rest(s: Seq<char>, literal: Seq<char>)
    ensures
        tag(s, literal) matches Ok(rest) ==> is_rest_of(rest, s),
{
}

/// A name that is read leaves the end of the input.
pub proof fn lemma_identifier_is_rest(s: Seq<char>)
    ensures
        identifier(s) matches Ok((rest, _)) ==> is_rest_of(rest, s),
{
    lemma_run_length(s, CharClass::Alphanumeric);
}

/// A run of text leaves the end of the input.
pub proof fn lemma_text_is_rest(s: Seq<char>)
    ensures
        is_rest_of(text(s).0, s),
{
    lemma_run_length(s, CharClass::Plain);
}

/// A block that is read leaves the end of the input.
pub proof fn lemma_block_is_rest(s: Seq<char>)
    ensures
        block(s) matches Ok((rest, _)) ==> is_rest_of(rest, s),
{
    if let Ok((rest, _)) = block(s) {
        let opened = spaces(s);
        let inside = tag(opened, seq!['{'])->Ok_0;
        let n = closing_brace(inside, 1)->Some_0;
        lemma_closing_brace(inside, 1);
        lemma_spaces_is_rest(s);
        lemma_rest_of_rest(inside, opened, s);
        lemma_skip_is_rest(inside, n + 1);
        lemma_rest_of_rest(inside.skip(n + 1), inside, s);
        lemma_spaces_is_rest(inside.skip(n + 1));
        lemma_rest_of_rest(rest, inside.skip(n + 1), s);
    }
}

/// An attribute that is read leaves the end of the input.
pub proof fn lemma_attribute_is_rest(s: Seq<char>)
    ensures
        attribute(s) matches Ok((rest, _)) ==> is_rest_of(rest, s),
{
    if let Ok((rest, _)) = attribute(s) {
        let after_name = identifier(spaces(s))->Ok_0.0;
        let after_equals = tag(spaces(after_name), seq!['='])->Ok_0;
        lemma_spaces_is_rest(s);
        lemma_identifier_is_rest(spaces(s));
        lemma_rest_of_rest(after_name, spaces(s), s);
        lemma_spaces_is_rest(after_name);
        lemma_rest_of_rest(spaces(after_name), after_name, s);
        lemma_rest_of_rest(after_equals, spaces(after_name), s);
        lemma_block_is_rest(after_equals);
        lemma_rest_of_rest(rest, after_equals, s);
    }
}

/// A list of attributes leaves the end of the input.
pub proof fn lemma_attributes_is_rest(s: Seq<char>)
    ensures
        is_rest_of(attributes(s).0, s),
    decreases s.len(),
{
    if let Ok((rest, _)) = attribute(s) {
        lemma_attribute_shrinks(s);
        lemma_attribute_is_rest(s);
        lemma_attributes_is_rest(rest);
        lemma_rest_of_rest(attributes(rest).0, rest, s);
    } else {
        lemma_skip_is_rest(s, 0);
        assert(s.skip(0) =~= s);
    }
}

/// An open tag that is read leaves the end of the input.
pub proof fn lemma_open_tag_is_rest(s: Seq<char>)
    ensures
        open_tag(s) matches Ok((rest, _, _)) ==> is_rest_of(rest, s),
{
    if let Ok((rest, _, _)) = open_tag(s) {
        let after_bracket = tag(spaces(s), seq!['<'])->Ok_0;
        let after_name = identifier(spaces(after_bracket))->Ok_0.0;
        let after_attributes = attributes(after_name).0;
        lemma_spaces_is_rest(s);
        lemma_rest_of_rest(after_bracket, spaces(s), s);
        lemma_spaces_is_rest(after_bracket);
        lemma_rest_of_rest(spaces(after_bracket), after_bracket, s);
        lemma_identifier_is_rest(spaces(after_bracket));
        lemma_rest_of_rest(after_name, spaces(after_bracket), s);
        lemma_attributes_is_rest(after_name);
        lemma_rest_of_rest(after_attributes, after_name, s);
        lemma_spaces_is_rest(after_attributes);
        lemma_rest_of_rest(spaces(after_attributes), after_attributes, s);
        lemma_rest_of_rest(rest, spaces(after_attributes), s);
    }
}

/// A close tag that is read leaves the end of the input.
pub proof fn lemma_close_tag_is_rest(s: Seq<char>)
    ensures
        close_tag(s) matches Ok((rest, _)) ==> is_rest_of(rest, s),
{
    if let Ok((rest, _)) = close_tag(s) {
        let after_bracket = tag(spaces(s), seq!['<'])->Ok_0;
        let after_slash = tag(spaces(after_bracket), seq!['/'])->Ok_0;
        let after_name = identifier(spaces(after_slash))->Ok_0.0;
        let after_close = tag(spaces(after_name), seq!['>'])->Ok_0;
        lemma_spaces_is_rest(s);
        lemma_rest_of_rest(after_bracket, spaces(s), s);
        lemma_spaces_is_rest(after_bracket);
        lemma_rest_of_rest(spaces(after_bracket), after_bracket, s);
        lemma_rest_of_rest(after_slash, spaces(after_bracket), s);
        lemma_spaces_is_rest(after_slash);
        lemma_rest_of_rest(spaces(after_slash), after_slash, s);
        lemma_identifier_is_rest(spaces(after_slash));
        lemma_rest_of_rest(after_name, spaces(after_slash), s);
        lemma_spaces_is_rest(after_name);
        lemma_rest_of_rest(spaces(after_name), after_name, s);
        lemma_rest_of_rest(after_close, spaces(after_name), s);
        lemma_spaces_is_rest(after_close);
        lemma_rest_of_rest(rest, after_close, s);
    }
}

/// A list of children leaves the end of the input.
pub proof fn lemma_elements_is_rest(s: Seq<char>)
    ensures
        is_rest_of(elements(s).0, s),
    decreases s.len(), 1nat,
{
    match child(s) {
        Some((rest, _)) => {
            lemma_child_shrinks(s);
            if s[0] == '{' {
                lemma_block_is_rest(s);
            } else if s[0] == '<' {
                lemma_element_is_rest(s);
            } else {
                lemma_text_is_rest(s);
            }
            lemma_elements_is_rest(rest);
            lemma_rest_of_rest(elements(rest).0, rest, s);
        },
        None => {
            assert(s.skip(0) =~= s);
        },
    }
}

/// An element that is read leaves the end of the input.
pub proof fn lemma_element_is_rest(s: Seq<char>)
    ensures
        element(s) matches Ok((rest, _)) ==> is_rest_of(rest, s),
    decreases s.len(), 0nat,
{
    if let Ok((rest, _)) = element(s) {
        let after_leading = text(s).0;
        let after_open = open_tag(after_leading)->Ok_0.0;
        let body = spaces(after_open);
        let after_children = elements(body).0;
        let after_close = close_tag(after_children)->Ok_0.0;
        lemma_run_length(s, CharClass::Plain);
        lemma_open_tag_shrinks(after_leading);
        lemma_run_length(after_open, CharClass::Whitespace);
        lemma_text_is_rest(s);
        lemma_open_tag_is_rest(after_leading);
        lemma_rest_of_rest(after_open, after_leading, s);
        lemma_spaces_is_rest(after_open);
        lemma_rest_of_rest(body, after_open, s);
        lemma_elements_is_rest(body);
        lemma_rest_of_rest(after_children, body, s);
        lemma_close_tag_is_rest(after_children);
        lemma_rest_of_rest(after_close, after_children, s);
        lemma_text_is_rest(after_close);
        lemma_rest_of_rest(rest, after_close, s);
    }
}

} // verus!
