//! White space in front of a construct is not read.

use crate::chars::{white_space, CharClass};
use crate::grammar::{
    attribute, attributes, block, close_tag, element, lemma_run_length, lemma_run_length_unique,
    open_tag, parse, run_length, spaces, text,
};
use vstd::prelude::*;

verus! {

/// White space and nothing else.
pub open spec fn is_blank(w: Seq<char>) -> bool {
    forall|i: int| 0 <= i < w.len() ==> white_space(#[trigger] w[i])
}

/// Skipping white space skips all of a blank prefix, and then goes on as it
/// would without the prefix.
pub proof fn lemma_spaces_ignores_blank_prefix(w: Seq<char>, s: Seq<char>)
    requires
        is_blank(w),
    ensures
        spaces(w + s) == spaces(s),
{
    let n = run_length(s, CharClass::Whitespace) as int;
    lemma_run_length(s, CharClass::Whitespace);
    let joined = w + s;
    assert forall|i: int| 0 <= i < w.len() + n implies CharClass::Whitespace.has(
        #[trigger] joined[i],
    ) by {
        if i < w.len() {
            assert(joined[i] == w[i]);
        } else {
            assert(joined[i] == s[i - w.len()]);
        }
    }
    if w.len() + n < joined.len() {
        assert(joined[w.len() + n] == s[n]);
    }
    lemma_run_length_unique(joined, CharClass::Whitespace, w.len() + n);
    assert(joined.skip(w.len() + n) =~= s.skip(n));
}

/// Skipping white space twice skips no more than skipping it once.
pub proof fn lemma_spaces_idempotent(s: Seq<char>)
    ensures
        spaces(spaces(s)) == spaces(s),
{
    lemma_run_length(s, CharClass::Whitespace);
    let t = spaces(s);
    if t.len() > 0 {
        assert(t[0] == s[run_length(s, CharClass::Whitespace) as int]);
    }
    assert(run_length(t, CharClass::Whitespace) == 0);
    assert(t.skip(0) =~= t);
}

/// A block is read the same behind a blank prefix, and fails the same.
pub proof fn lemma_block_ignores_blank_prefix(w: Seq<char>, s: Seq<char>)
    requires
        is_blank(w),
    ensures
        block(w + s) == block(s),
{
    lemma_spaces_ignores_blank_prefix(w, s);
}

/// An attribute is read the same behind a blank prefix, and fails the same.
pub proof fn lemma_attribute_ignores_blank_prefix(w: Seq<char>, s: Seq<char>)
    requires
        is_blank(w),
    ensures
        attribute(w + s) == attribute(s),
{
    lemma_spaces_ignores_blank_prefix(w, s);
}

/// An open tag is read the same behind a blank prefix, and fails the same.
pub proof fn lemma_open_tag_ignores_blank_prefix(w: Seq<char>, s: Seq<char>)
    requires
        is_blank(w),
    ensures
        open_tag(w + s) == open_tag(s),
{
    lemma_spaces_ignores_blank_prefix(w, s);
}

/// A close tag is read the same behind a blank prefix, and fails the same.
pub proof fn lemma_close_tag_ignores_blank_prefix(w: Seq<char>, s: Seq<char>)
    requires
        is_blank(w),
    ensures
        close_tag(w + s) == close_tag(s),
{
    lemma_spaces_ignores_blank_prefix(w, s);
}

/// A list of attributes reads the same attributes after skipped white
/// space, and leaves the same input up to white space.
pub proof fn lemma_attributes_after_spaces(s: Seq<char>)
    ensures
        attributes(spaces(s)).1 == attributes(s).1,
        spaces(attributes(spaces(s)).0) == spaces(attributes(s).0),
{
    lemma_spaces_idempotent(s);
    assert(attribute(spaces(s)) == attribute(s));
}

/// White space is plain text.
pub proof fn lemma_blank_is_plain(c: char)
    requires
        white_space(c),
    ensures
        CharClass::Plain.has(c),
{
}

/// A run of text is read the same behind a blank prefix.
pub proof fn lemma_text_ignores_blank_prefix(w: Seq<char>, s: Seq<char>)
    requires
        is_blank(w),
    ensures
        text(w + s) == text(s),
{
    let n = run_length(s, CharClass::Plain) as int;
    lemma_run_length(s, CharClass::Plain);
    let joined = w + s;
    assert forall|i: int| 0 <= i < w.len() + n implies CharClass::Plain.has(
        #[trigger] joined[i],
    ) by {
        if i < w.len() {
            assert(joined[i] == w[i]);
            lemma_blank_is_plain(w[i]);
        } else {
            assert(joined[i] == s[i - w.len()]);
        }
    }
    if w.len() + n < joined.len() {
        assert(joined[w.len() + n] == s[n]);
    }
    lemma_run_length_unique(joined, CharClass::Plain, w.len() + n);
    assert(joined.skip(w.len() + n) =~= s.skip(n));
    assert(joined.take(w.len() + n) =~= w + s.take(n));
    lemma_spaces_ignores_blank_prefix(w, s.take(n));
}

/// An element is read the same behind a blank prefix, and fails the same.
pub proof fn lemma_element_ignores_blank_prefix(w: Seq<char>, s: Seq<char>)
    requires
        is_blank(w),
    ensures
        element(w + s) == element(s),
{
    lemma_text_ignores_blank_prefix(w, s);
}

/// White space in front of the input changes nothing: not the tree, and
/// not the reason or the place of a failure, counted from the end.
pub proof fn lemma_parse_ignores_blank_prefix(w: Seq<char>, s: Seq<char>)
    requires
        is_blank(w),
    ensures
        parse(w + s) == parse(s),
{
    lemma_element_ignores_blank_prefix(w, s);
}

} // verus!
