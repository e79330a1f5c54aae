//! Nothing is read beyond the first character that is left: a construct
//! that leaves more than `k` characters is read the same from the input
//! without its last `k` characters.

use crate::chars::CharClass;
use crate::grammar::{
    attribute, attributes, block, child, close_tag, closing_brace, element, elements, identifier,
    lemma_attribute_shrinks, lemma_attributes_bound, lemma_child_shrinks, lemma_close_tag_shrinks,
    lemma_closing_brace, lemma_elements_bound, lemma_open_tag_shrinks, lemma_run_length,
    lemma_run_length_unique, open_tag, run_length, spaces, tag, text, Failure,
};
use crate::laws::braces::{lemma_closing_brace_extends, lemma_closing_brace_truncates};
use crate::laws::tokens::{lemma_identifier_refuses, lemma_spaces_of_solid, lemma_text_stops};
use crate::syntax::{AttributeView, Node};
use vstd::prelude::*;

verus! {

/// `s` without its last `k` characters.
pub open spec fn chop(s: Seq<char>, k: int) -> Seq<char> {
    s.take(s.len() - k)
}

/// A run that ends in front of the last `k` characters is the same run
/// without them.
pub proof fn lemma_run_length_local(s: Seq<char>, class: CharClass, k: int)
    requires
        0 <= k,
        run_length(s, class) + k < s.len(),
    ensures
        run_length(chop(s, k), class) == run_length(s, class),
{
    lemma_run_length(s, class);
    let n = run_length(s, class) as int;
    let cut = chop(s, k);
    assert forall|i: int| 0 <= i < n implies class.has(#[trigger] cut[i]) by {
        assert(cut[i] == s[i]);
    }
    assert(cut[n] == s[n]);
    lemma_run_length_unique(cut, class, n);
}

/// White space is skipped the same.
pub proof fn lemma_spaces_local(s: Seq<char>, k: int)
    requires
        0 <= k < spaces(s).len(),
    ensures
        spaces(chop(s, k)) == chop(spaces(s), k),
{
    lemma_run_length(s, CharClass::Whitespace);
    lemma_run_length_local(s, CharClass::Whitespace, k);
    let n = run_length(s, CharClass::Whitespace) as int;
    assert(chop(s, k).skip(n) =~= chop(s.skip(n), k));
}

/// A literal is read the same.
pub proof fn lemma_tag_local(s: Seq<char>, literal: Seq<char>, k: int)
    requires
        tag(s, literal) is Ok,
        0 <= k <= tag(s, literal)->Ok_0.len(),
    ensures
        tag(chop(s, k), literal) == Ok::<Seq<char>, Failure>(chop(tag(s, literal)->Ok_0, k)),
{
    let cut = chop(s, k);
    let n = literal.len() as int;
    assert(literal =~= cut.subrange(0, n)) by {
        assert(literal =~= s.subrange(0, n));
    }
    assert(cut.skip(n) =~= chop(s.skip(n), k));
}

/// A name is read the same.
pub proof fn lemma_identifier_local(s: Seq<char>, k: int)
    requires
        identifier(s) is Ok,
        0 <= k < identifier(s)->Ok_0.0.len(),
    ensures
        identifier(chop(s, k)) == Ok::<(Seq<char>, Seq<char>), Failure>(
            (chop(identifier(s)->Ok_0.0, k), identifier(s)->Ok_0.1),
        ),
{
    lemma_run_length(s, CharClass::Alphanumeric);
    lemma_run_length_local(s, CharClass::Alphanumeric, k);
    let n = run_length(s, CharClass::Alphanumeric) as int;
    assert(chop(s, k).skip(n) =~= chop(s.skip(n), k));
    assert(chop(s, k).take(n) =~= s.take(n));
}

/// A run of text is read the same.
pub proof fn lemma_text_local(s: Seq<char>, k: int)
    requires
        0 <= k < text(s).0.len(),
    ensures
        text(chop(s, k)) == (chop(text(s).0, k), text(s).1),
{
    lemma_run_length(s, CharClass::Plain);
    lemma_run_length_local(s, CharClass::Plain, k);
    let n = run_length(s, CharClass::Plain) as int;
    assert(chop(s, k).skip(n) =~= chop(s.skip(n), k));
    assert(chop(s, k).take(n) =~= s.take(n));
}

/// A closing brace is found the same.
pub proof fn lemma_closing_brace_local(s: Seq<char>, depth: nat, k: int)
    requires
        closing_brace(s, depth) is Some,
        0 <= k,
        closing_brace(s, depth)->Some_0 + k < s.len(),
    ensures
        closing_brace(chop(s, k), depth) == closing_brace(s, depth),
{
    lemma_closing_brace(s, depth);
    lemma_closing_brace_truncates(s, depth);
    let n = closing_brace(s, depth)->Some_0;
    let more = s.subrange(n + 1, s.len() - k);
    lemma_closing_brace_extends(s.take(n + 1), more, depth);
    assert(s.take(n + 1) + more =~= chop(s, k));
}

/// A block is read the same.
pub proof fn lemma_block_local(s: Seq<char>, k: int)
    requires
        block(s) is Ok,
        0 <= k < block(s)->Ok_0.0.len(),
    ensures
        block(chop(s, k)) == Ok::<(Seq<char>, Seq<char>), Failure>(
            (chop(block(s)->Ok_0.0, k), block(s)->Ok_0.1),
        ),
{
    let opened = spaces(s);
    let inside = tag(opened, seq!['{'])->Ok_0;
    let n = closing_brace(inside, 1)->Some_0;
    lemma_closing_brace(inside, 1);
    let behind = inside.skip(n + 1);
    lemma_run_length(behind, CharClass::Whitespace);
    lemma_spaces_local(s, k);
    lemma_tag_local(opened, seq!['{'], k);
    lemma_closing_brace_local(inside, 1, k);
    assert(chop(inside, k).take(n) =~= inside.take(n));
    assert(chop(inside, k).skip(n + 1) =~= chop(behind, k));
    lemma_spaces_local(behind, k);
}

/// An attribute is read the same.
pub proof fn lemma_attribute_local(s: Seq<char>, k: int)
    requires
        attribute(s) is Ok,
        0 <= k < attribute(s)->Ok_0.0.len(),
    ensures
        attribute(chop(s, k)) == Ok::<(Seq<char>, AttributeView), Failure>(
            (chop(attribute(s)->Ok_0.0, k), attribute(s)->Ok_0.1),
        ),
{
    let after_name = identifier(spaces(s))->Ok_0.0;
    let after_equals = tag(spaces(after_name), seq!['='])->Ok_0;
    crate::grammar::lemma_block_shrinks(after_equals);
    lemma_run_length(after_name, CharClass::Whitespace);
    lemma_run_length(spaces(s), CharClass::Alphanumeric);
    lemma_spaces_local(s, k);
    lemma_identifier_local(spaces(s), k);
    lemma_spaces_local(after_name, k);
    lemma_tag_local(spaces(after_name), seq!['='], k);
    lemma_block_local(after_equals, k);
}

/// A list of attributes is read the same where the `>` of the tag follows
/// it in front of the last `k` characters.
pub proof fn lemma_attributes_local(s: Seq<char>, k: int)
    requires
        0 <= k,
        tag(spaces(attributes(s).0), seq!['>']) is Ok,
        k <= tag(spaces(attributes(s).0), seq!['>'])->Ok_0.len(),
    ensures
        attributes(chop(s, k)) == (chop(attributes(s).0, k), attributes(s).1),
    decreases s.len(),
{
    let end = attributes(s).0;
    lemma_run_length(end, CharClass::Whitespace);
    match attribute(s) {
        Ok((rest, first)) => {
            lemma_attribute_shrinks(s);
            lemma_attributes_bound(rest);
            lemma_attribute_local(s, k);
            lemma_attributes_local(rest, k);
            lemma_attribute_shrinks(chop(s, k));
        },
        Err(_) => {
            lemma_spaces_local(s, k);
            let closing = spaces(s);
            assert(closing.subrange(0, 1)[0] == seq!['>'][0]);
            assert(chop(closing, k)[0] == '>');
            lemma_identifier_refuses(chop(closing, k));
        },
    }
}

/// An open tag is read the same.
pub proof fn lemma_open_tag_local(s: Seq<char>, k: int)
    requires
        open_tag(s) is Ok,
        0 <= k <= open_tag(s)->Ok_0.0.len(),
    ensures
        open_tag(chop(s, k)) == Ok::<(Seq<char>, Seq<char>, Seq<AttributeView>), Failure>(
            (chop(open_tag(s)->Ok_0.0, k), open_tag(s)->Ok_0.1, open_tag(s)->Ok_0.2),
        ),
{
    let after_bracket = tag(spaces(s), seq!['<'])->Ok_0;
    let after_name = identifier(spaces(after_bracket))->Ok_0.0;
    let after_attributes = attributes(after_name).0;
    lemma_attributes_bound(after_name);
    lemma_run_length(after_attributes, CharClass::Whitespace);
    lemma_run_length(spaces(after_bracket), CharClass::Alphanumeric);
    lemma_run_length(after_bracket, CharClass::Whitespace);
    lemma_spaces_local(s, k);
    lemma_tag_local(spaces(s), seq!['<'], k);
    lemma_spaces_local(after_bracket, k);
    lemma_identifier_local(spaces(after_bracket), k);
    lemma_attributes_local(after_name, k);
    lemma_spaces_local(after_attributes, k);
    lemma_tag_local(spaces(after_attributes), seq!['>'], k);
}

/// A close tag is read the same up to its `>`, where that stands in front
/// of the last `k` characters.
pub proof fn lemma_close_tag_local_to_bracket(s: Seq<char>, k: int)
    requires
        close_tag(s) is Ok,
        0 <= k <= closing_bracket(s).len(),
    ensures
        closing_bracket(chop(s, k)) == chop(closing_bracket(s), k),
        close_tag(chop(s, k)) == Ok::<(Seq<char>, Seq<char>), Failure>(
            (spaces(chop(closing_bracket(s), k)), close_tag(s)->Ok_0.1),
        ),
{
    let after_bracket = tag(spaces(s), seq!['<'])->Ok_0;
    let after_slash = tag(spaces(after_bracket), seq!['/'])->Ok_0;
    let after_name = identifier(spaces(after_slash))->Ok_0.0;
    lemma_run_length(after_name, CharClass::Whitespace);
    lemma_run_length(spaces(after_slash), CharClass::Alphanumeric);
    lemma_run_length(after_slash, CharClass::Whitespace);
    lemma_run_length(after_bracket, CharClass::Whitespace);
    lemma_spaces_local(s, k);
    lemma_tag_local(spaces(s), seq!['<'], k);
    lemma_spaces_local(after_bracket, k);
    lemma_tag_local(spaces(after_bracket), seq!['/'], k);
    lemma_spaces_local(after_slash, k);
    lemma_identifier_local(spaces(after_slash), k);
    lemma_spaces_local(after_name, k);
    lemma_tag_local(spaces(after_name), seq!['>'], k);
}

/// What stands behind the `>` of a close tag that is read from `s`.
pub open spec fn closing_bracket(s: Seq<char>) -> Seq<char> {
    tag(
        spaces(
            identifier(
                spaces(tag(spaces(tag(spaces(s), seq!['<'])->Ok_0), seq!['/'])->Ok_0),
            )->Ok_0.0,
        ),
        seq!['>'],
    )->Ok_0
}

/// A close tag is read the same.
pub proof fn lemma_close_tag_local(s: Seq<char>, k: int)
    requires
        close_tag(s) is Ok,
        0 <= k < close_tag(s)->Ok_0.0.len(),
    ensures
        close_tag(chop(s, k)) == Ok::<(Seq<char>, Seq<char>), Failure>(
            (chop(close_tag(s)->Ok_0.0, k), close_tag(s)->Ok_0.1),
        ),
{
    lemma_run_length(closing_bracket(s), CharClass::Whitespace);
    lemma_close_tag_local_to_bracket(s, k);
    lemma_spaces_local(closing_bracket(s), k);
}

/// A close tag begins in `s`, and its `<` and `/` stand in front of the
/// last `k` characters.
pub open spec fn closes_before(s: Seq<char>, k: int) -> bool {
    &&& tag(spaces(s), seq!['<']) is Ok
    &&& tag(spaces(tag(spaces(s), seq!['<'])->Ok_0), seq!['/']) is Ok
    &&& k <= tag(spaces(tag(spaces(s), seq!['<'])->Ok_0), seq!['/'])->Ok_0.len()
}

/// Where a close tag begins there is no child, with or without the last
/// `k` characters.
pub proof fn lemma_no_child_at_close_tag(s: Seq<char>, k: int)
    requires
        0 <= k,
        child(s) is None,
        closes_before(s, k),
    ensures
        child(chop(s, k)) is None,
{
    lemma_run_length(s, CharClass::Whitespace);
    let opened = spaces(s);
    assert(opened.subrange(0, 1)[0] == seq!['<'][0]);
    if crate::chars::white_space(s[0]) {
        lemma_run_length(s, CharClass::Plain);
    }
    lemma_spaces_of_solid(s);
    let after_bracket = tag(s, seq!['<'])->Ok_0;
    lemma_run_length(after_bracket, CharClass::Whitespace);
    let slash = spaces(after_bracket);
    assert(slash.subrange(0, 1)[0] == seq!['/'][0]);
    let cut = chop(s, k);
    assert(cut[0] == '<');
    lemma_text_stops(cut);
    lemma_spaces_of_solid(cut);
    lemma_tag_local(s, seq!['<'], k);
    lemma_spaces_local(after_bracket, k);
    assert(chop(slash, k)[0] == '/');
    lemma_identifier_refuses(chop(slash, k));
    assert(open_tag(cut) is Err);
    assert(element(cut) is Err);
}

/// A child is read the same.
pub proof fn lemma_child_local(s: Seq<char>, k: int)
    requires
        child(s) is Some,
        0 <= k < child(s)->Some_0.0.len(),
    ensures
        child(chop(s, k)) == Some((chop(child(s)->Some_0.0, k), child(s)->Some_0.1)),
    decreases s.len(), 1nat,
{
    lemma_child_shrinks(s);
    let cut = chop(s, k);
    assert(cut[0] == s[0]);
    if s[0] == '{' {
        lemma_block_local(s, k);
    } else if s[0] == '<' {
        lemma_element_local(s, k);
    } else {
        lemma_text_local(s, k);
    }
}

/// A list of children is read the same where the close tag follows it in
/// front of the last `k` characters.
pub proof fn lemma_elements_local(s: Seq<char>, k: int)
    requires
        0 <= k,
        closes_before(elements(s).0, k),
    ensures
        elements(chop(s, k)) == (chop(elements(s).0, k), elements(s).1),
    decreases s.len(), 2nat,
{
    let end = elements(s).0;
    lemma_run_length(end, CharClass::Whitespace);
    lemma_run_length(tag(spaces(end), seq!['<'])->Ok_0, CharClass::Whitespace);
    match child(s) {
        Some((rest, nodes)) => {
            lemma_child_shrinks(s);
            lemma_elements_bound(rest);
            lemma_child_local(s, k);
            lemma_elements_local(rest, k);
            lemma_child_shrinks(chop(s, k));
        },
        None => {
            lemma_no_child_at_close_tag(s, k);
        },
    }
}

/// An element is read the same.
pub proof fn lemma_element_local(s: Seq<char>, k: int)
    requires
        element(s) is Ok,
        0 <= k < element(s)->Ok_0.0.len(),
    ensures
        element(chop(s, k)) == Ok::<(Seq<char>, Seq<Node>), Failure>(
            (chop(element(s)->Ok_0.0, k), element(s)->Ok_0.1),
        ),
    decreases s.len(), 0nat,
{
    let after_leading = text(s).0;
    let (after_open, name, list) = open_tag(after_leading)->Ok_0;
    let body = spaces(after_open);
    let (after_children, children) = elements(body);
    let (after_close, closed) = close_tag(after_children)->Ok_0;
    lemma_run_length(s, CharClass::Plain);
    lemma_open_tag_shrinks(after_leading);
    lemma_run_length(after_open, CharClass::Whitespace);
    lemma_elements_bound(body);
    lemma_run_length(after_close, CharClass::Plain);
    lemma_close_tag_shrinks(after_children);
    lemma_close_tag_reaches(after_children);

    lemma_text_local(s, k);
    lemma_open_tag_local(after_leading, k);
    lemma_spaces_local(after_open, k);
    lemma_elements_local(body, k);
    lemma_close_tag_local(after_children, k);
    lemma_text_local(after_close, k);
    lemma_open_tag_shrinks(chop(after_leading, k));
}

/// What a close tag leaves is no longer than what stands behind its `>`,
/// and that no longer than what stands behind its `/`.
pub proof fn lemma_close_tag_reaches(s: Seq<char>)
    requires
        close_tag(s) is Ok,
    ensures
        close_tag(s)->Ok_0.0.len() <= closing_bracket(s).len(),
        closing_bracket(s).len() < tag(
            spaces(tag(spaces(s), seq!['<'])->Ok_0),
            seq!['/'],
        )->Ok_0.len(),
        closes_before(s, closing_bracket(s).len() as int),
{
    let after_bracket = tag(spaces(s), seq!['<'])->Ok_0;
    let after_slash = tag(spaces(after_bracket), seq!['/'])->Ok_0;
    let after_name = identifier(spaces(after_slash))->Ok_0.0;
    lemma_run_length(after_slash, CharClass::Whitespace);
    lemma_run_length(spaces(after_slash), CharClass::Alphanumeric);
    lemma_run_length(after_name, CharClass::Whitespace);
    lemma_run_length(closing_bracket(s), CharClass::Whitespace);
}

} // verus!
