//! Which failures reach the caller, and where they lie.

use crate::chars::CharClass;
use crate::grammar::{
    attributes, close_tag, element, elements, identifier, lemma_attributes_bound,
    lemma_elements_bound, lemma_open_tag_shrinks, lemma_run_length, open_tag, parse, spaces, tag,
    text, ErrorKind,
};
use vstd::prelude::*;

verus! {

/// An open tag fails for want of a token, somewhere in what it was given.
pub proof fn lemma_open_tag_failure(s: Seq<char>)
    ensures
        open_tag(s) matches Err(failure) ==> failure.kind == ErrorKind::MissingToken
            && failure.remaining <= s.len(),
{
    lemma_run_length(s, CharClass::Whitespace);
    if let Ok(after_bracket) = tag(spaces(s), seq!['<']) {
        lemma_run_length(after_bracket, CharClass::Whitespace);
        if let Ok((after_name, _)) = identifier(spaces(after_bracket)) {
            lemma_run_length(spaces(after_bracket), CharClass::Alphanumeric);
            lemma_attributes_bound(after_name);
            lemma_run_length(attributes(after_name).0, CharClass::Whitespace);
        }
    }
}

/// A close tag fails for want of a token, somewhere in what it was given.
pub proof fn lemma_close_tag_failure(s: Seq<char>)
    ensures
        close_tag(s) matches Err(failure) ==> failure.kind == ErrorKind::MissingToken
            && failure.remaining <= s.len(),
{
    lemma_run_length(s, CharClass::Whitespace);
    if let Ok(after_bracket) = tag(spaces(s), seq!['<']) {
        lemma_run_length(after_bracket, CharClass::Whitespace);
        if let Ok(after_slash) = tag(spaces(after_bracket), seq!['/']) {
            lemma_run_length(after_slash, CharClass::Whitespace);
            if let Ok((after_name, _)) = identifier(spaces(after_slash)) {
                lemma_run_length(spaces(after_slash), CharClass::Alphanumeric);
                lemma_run_length(after_name, CharClass::Whitespace);
            }
        }
    }
}

/// An element fails for want of a token or for a close tag of another
/// name, somewhere in what it was given. A block that is not closed, or an
/// attribute or a child that cannot be read, only ends the list it stands
/// in: the failure is that of the tag which is then looked for in its place.
pub proof fn lemma_element_failure(s: Seq<char>)
    ensures
        element(s) matches Err(failure) ==> (failure.kind == ErrorKind::MissingToken
            || failure.kind == ErrorKind::TagMismatch) && failure.remaining <= s.len(),
{
    let after_leading = text(s).0;
    lemma_run_length(s, CharClass::Plain);
    lemma_open_tag_failure(after_leading);
    if let Ok((after_open, _, _)) = open_tag(after_leading) {
        lemma_open_tag_shrinks(after_leading);
        lemma_run_length(after_open, CharClass::Whitespace);
        lemma_elements_bound(spaces(after_open));
        lemma_close_tag_failure(elements(spaces(after_open)).0);
    }
}

/// An input is refused for want of a token, for a close tag of another
/// name, or for what stands beside the root; never for an open block as
/// such. The place of the failure lies in the input.
pub proof fn lemma_parse_failure(s: Seq<char>)
    ensures
        parse(s) matches Err(failure) ==> failure.kind != ErrorKind::UnbalancedBlock
            && failure.remaining <= s.len(),
{
    lemma_element_failure(s);
    if let Ok((rest, _)) = element(s) {
        crate::grammar::lemma_element_shrinks(s);
    }
}

} // verus!
