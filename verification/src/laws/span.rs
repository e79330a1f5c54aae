//! What parses is one element from end to end.

use crate::chars::{white_space, CharClass};
use crate::grammar::{
    close_tag, element, elements, identifier, lemma_close_tag_shrinks, lemma_elements_bound,
    lemma_open_tag_shrinks, lemma_run_length, lemma_run_length_unique,
    lemma_trailing_whitespace, lemma_trailing_whitespace_unique, open_tag, parse, run_length,
    spaces, tag, text, text_nodes, trailing_whitespace, trim, Failure,
};
use crate::laws::cursor::{
    is_rest_of, lemma_elements_is_rest, lemma_identifier_is_rest, lemma_open_tag_is_rest,
    lemma_rest_of_rest, lemma_spaces_is_rest,
};
use crate::laws::lookahead::{
    chop, closing_bracket, lemma_close_tag_local_to_bracket, lemma_close_tag_reaches,
    lemma_elements_local, lemma_open_tag_local, lemma_spaces_local, lemma_text_local,
};
use crate::laws::shape::lemma_parse_well_formed;
use crate::laws::tokens::lemma_text_stops;
use crate::laws::whitespace::{is_blank, lemma_parse_ignores_blank_prefix};
use crate::syntax::Node;
use vstd::prelude::*;

verus! {

/// What trims to nothing is white space.
pub proof fn lemma_trims_to_nothing(s: Seq<char>)
    requires
        trim(s).len() == 0,
    ensures
        is_blank(s),
        spaces(s).len() == 0,
{
    lemma_run_length(s, CharClass::Whitespace);
    let t = spaces(s);
    lemma_trailing_whitespace(t);
    if t.len() > 0 {
        assert(trailing_whitespace(t) == t.len());
        assert(white_space(t[0]));
        assert(t[0] == s[run_length(s, CharClass::Whitespace) as int]);
    }
}

/// No text is read where a run of text is all white space.
pub proof fn lemma_no_text_is_blank(s: Seq<char>)
    requires
        text(s).1 is None,
    ensures
        is_blank(s.take(run_length(s, CharClass::Plain) as int)),
{
    lemma_trims_to_nothing(s.take(run_length(s, CharClass::Plain) as int));
}

/// Where in an input that parses the close tag of the root is looked for:
/// behind the open tag and the children.
pub open spec fn root_close(s: Seq<char>) -> Seq<char> {
    elements(spaces(open_tag(text(s).0)->Ok_0.0)).0
}

/// How an input that parses is read: no text, the open tag, the children,
/// the close tag, no text, and nothing is left.
pub proof fn lemma_root_is_read(s: Seq<char>)
    requires
        parse(s) is Ok,
    ensures
        parse(s)->Ok_0 is Element,
        element(s) == Ok::<(Seq<char>, Seq<Node>), Failure>((Seq::empty(), seq![parse(s)->Ok_0])),
        text(s).1 is None,
        open_tag(text(s).0) is Ok,
        close_tag(root_close(s)) is Ok,
        close_tag(root_close(s))->Ok_0.1 == open_tag(text(s).0)->Ok_0.1,
        text(close_tag(root_close(s))->Ok_0.0) == (Seq::<char>::empty(), None::<Seq<char>>),
{
    lemma_parse_well_formed(s);
    let (rest, nodes) = element(s)->Ok_0;
    assert(nodes =~= seq![parse(s)->Ok_0]);
    assert(rest =~= Seq::<char>::empty());
    let (after_leading, leading) = text(s);
    let (after_open, name, list) = open_tag(after_leading)->Ok_0;
    let (after_children, children) = elements(spaces(after_open));
    let (after_close, _) = close_tag(after_children)->Ok_0;
    let trailing = text(after_close).1;
    let root = Node::Element { name, attributes: list, children };
    assert(nodes == text_nodes(leading) + seq![root] + text_nodes(trailing));
}

/// Before the root of an input that parses stands white space and nothing
/// else, and the root begins with `<`.
pub proof fn lemma_root_begins(s: Seq<char>)
    requires
        parse(s) is Ok,
    ensures
        text(s) == (spaces(s), None::<Seq<char>>),
        spaces(s).len() > 0,
        spaces(s)[0] == '<',
{
    lemma_root_is_read(s);
    let after_leading = text(s).0;
    let n = run_length(s, CharClass::Plain) as int;
    lemma_run_length(s, CharClass::Plain);
    lemma_no_text_is_blank(s);
    let opened = spaces(after_leading);
    lemma_run_length(after_leading, CharClass::Whitespace);
    assert(opened.subrange(0, 1)[0] == seq!['<'][0]);
    assert(s[n] == after_leading[0]);
    assert forall|i: int| 0 <= i < n implies CharClass::Whitespace.has(#[trigger] s[i]) by {
        assert(s[i] == s.take(n)[i]);
    }
    lemma_run_length_unique(s, CharClass::Whitespace, n);
    assert(after_leading.skip(0) =~= after_leading);
}

/// Behind the `>` of the close tag of the root stands white space and
/// nothing else, to the end of the input.
pub proof fn lemma_root_ends(s: Seq<char>)
    requires
        parse(s) is Ok,
    ensures
        is_blank(closing_bracket(root_close(s))),
        closing_bracket(root_close(s)).len() + 5 <= spaces(s).len(),
        is_rest_of(seq!['>'] + closing_bracket(root_close(s)), spaces(s)),
{
    lemma_root_is_read(s);
    lemma_root_begins(s);
    let after_leading = text(s).0;
    let after_open = open_tag(after_leading)->Ok_0.0;
    let body = spaces(after_open);
    let after_children = root_close(s);
    let after_close = close_tag(after_children)->Ok_0.0;
    let behind = closing_bracket(after_children);

    // Nothing but white space is left behind the `>`.
    lemma_run_length(after_close, CharClass::Plain);
    lemma_no_text_is_blank(after_close);
    assert(after_close.take(after_close.len() as int) =~= after_close);
    lemma_run_length(behind, CharClass::Whitespace);
    if after_close.len() > 0 {
        assert(after_close[0] == behind[run_length(behind, CharClass::Whitespace) as int]);
    }
    assert(run_length(behind, CharClass::Whitespace) == behind.len());

    // The `>` and what is behind it are the end of the input.
    let after_bracket = tag(spaces(after_children), seq!['<'])->Ok_0;
    let after_slash = tag(spaces(after_bracket), seq!['/'])->Ok_0;
    let after_name = identifier(spaces(after_slash))->Ok_0.0;
    let closing = spaces(after_name);
    assert(closing.subrange(0, 1)[0] == seq!['>'][0]);
    assert(closing =~= seq!['>'] + behind);
    lemma_open_tag_is_rest(after_leading);
    lemma_open_tag_shrinks(after_leading);
    lemma_spaces_is_rest(after_open);
    lemma_rest_of_rest(body, after_open, after_leading);
    lemma_elements_is_rest(body);
    lemma_rest_of_rest(after_children, body, after_leading);
    lemma_closing_is_rest(after_children);
    lemma_rest_of_rest(closing, after_children, after_leading);
}

/// The `>` of a close tag that is read, and what is behind it, are the end
/// of what the close tag was read from, behind at least `</` and a name.
pub proof fn lemma_closing_is_rest(s: Seq<char>)
    requires
        close_tag(s) is Ok,
    ensures
        is_rest_of(seq!['>'] + closing_bracket(s), s),
        closing_bracket(s).len() + 4 <= s.len(),
{
    let after_bracket = tag(spaces(s), seq!['<'])->Ok_0;
    let after_slash = tag(spaces(after_bracket), seq!['/'])->Ok_0;
    let after_name = identifier(spaces(after_slash))->Ok_0.0;
    let closing = spaces(after_name);
    assert(closing.subrange(0, 1)[0] == seq!['>'][0]);
    assert(closing =~= seq!['>'] + closing_bracket(s));
    lemma_run_length(spaces(after_slash), CharClass::Alphanumeric);
    lemma_spaces_is_rest(s);
    lemma_rest_of_rest(after_bracket, spaces(s), s);
    lemma_spaces_is_rest(after_bracket);
    lemma_rest_of_rest(spaces(after_bracket), after_bracket, s);
    lemma_rest_of_rest(after_slash, spaces(after_bracket), s);
    lemma_spaces_is_rest(after_slash);
    lemma_rest_of_rest(spaces(after_slash), after_slash, s);
    lemma_identifier_is_rest(spaces(after_slash));
    lemma_rest_of_rest(after_name, spaces(after_slash), s);
    lemma_spaces_is_rest(after_name);
    lemma_rest_of_rest(closing, after_name, s);
}

/// The white space at the end of an input that parses is what stands
/// behind the `>` of the close tag of the root.
pub proof fn lemma_root_ends_trimmed_input(s: Seq<char>)
    requires
        parse(s) is Ok,
    ensures
        trailing_whitespace(spaces(s)) == closing_bracket(root_close(s)).len(),
        trim(s) == chop(spaces(s), closing_bracket(root_close(s)).len() as int),
        trim(s).len() >= 5,
        trim(s).first() == '<',
        trim(s).last() == '>',
{
    lemma_root_begins(s);
    lemma_root_ends(s);
    let t = spaces(s);
    let behind = closing_bracket(root_close(s));
    let closing = seq!['>'] + behind;
    let k = behind.len() as int;
    assert forall|i: int| t.len() - k <= i < t.len() implies white_space(#[trigger] t[i]) by {
        assert(t[i] == closing[i - (t.len() - closing.len())]);
        assert(closing[i - (t.len() - closing.len())] == behind[i - (t.len() - k)]);
    }
    assert(t[t.len() - k - 1] == closing[0]);
    lemma_trailing_whitespace_unique(t, k);
}

/// An input that parses is one element and white space around it: the
/// tree is an element; all of the input is read; before the open tag the
/// input holds white space only; and the input without the white space at
/// its ends begins with the `<` of the open tag and ends with the `>` of
/// the close tag.
pub proof fn lemma_root_spans_trimmed_input(s: Seq<char>)
    requires
        parse(s) is Ok,
    ensures
        parse(s)->Ok_0 is Element,
        element(s) == Ok::<(Seq<char>, Seq<Node>), Failure>((Seq::empty(), seq![parse(s)->Ok_0])),
        text(s) == (spaces(s), None::<Seq<char>>),
        open_tag(spaces(s)) is Ok,
        trim(s).len() >= 5,
        trim(s).first() == '<',
        trim(s).last() == '>',
{
    lemma_root_is_read(s);
    lemma_root_begins(s);
    lemma_root_ends_trimmed_input(s);
}

/// An input that parses, read without the white space behind its root,
/// gives the same tree.
pub proof fn lemma_parse_without_blank_end(s: Seq<char>)
    requires
        parse(s) is Ok,
    ensures
        parse(chop(s, closing_bracket(root_close(s)).len() as int)) == parse(s),
{
    lemma_root_is_read(s);
    lemma_root_begins(s);
    lemma_root_ends(s);
    let after_leading = text(s).0;
    let after_open = open_tag(after_leading)->Ok_0.0;
    let body = spaces(after_open);
    let after_children = root_close(s);
    let k = closing_bracket(after_children).len() as int;
    let cut = chop(s, k);
    lemma_run_length(s, CharClass::Plain);
    lemma_open_tag_shrinks(after_leading);
    lemma_run_length(after_open, CharClass::Whitespace);
    lemma_elements_bound(body);
    lemma_close_tag_shrinks(after_children);
    lemma_close_tag_reaches(after_children);
    lemma_closing_is_rest(after_children);

    lemma_text_local(s, k);
    lemma_open_tag_local(after_leading, k);
    lemma_spaces_local(after_open, k);
    lemma_elements_local(body, k);
    lemma_close_tag_local_to_bracket(after_children, k);
    let nothing = chop(closing_bracket(after_children), k);
    assert(nothing =~= Seq::<char>::empty());
    lemma_run_length_unique(nothing, CharClass::Whitespace, 0);
    assert(spaces(nothing) =~= Seq::<char>::empty());
    lemma_text_stops(Seq::empty());
    lemma_open_tag_shrinks(chop(after_leading, k));
    assert(element(cut) == element(s));
}

/// The root of an input that parses spans the trimmed input: the input
/// without the white space at its ends parses, and to the same tree.
pub proof fn lemma_trimmed_input_parses_alike(s: Seq<char>)
    requires
        parse(s) is Ok,
    ensures
        parse(trim(s)) == parse(s),
{
    lemma_root_ends(s);
    lemma_root_ends_trimmed_input(s);
    lemma_parse_without_blank_end(s);
    lemma_run_length(s, CharClass::Whitespace);
    let a = run_length(s, CharClass::Whitespace) as int;
    let k = closing_bracket(root_close(s)).len() as int;
    let front = s.take(a);
    let t = spaces(s);
    assert(trim(s) == t.take(t.len() - k));
    assert(t.len() == s.len() - a);
    assert forall|i: int| 0 <= i < s.len() - k implies chop(s, k)[i] == (front + trim(s))[i] by {
        if i >= a {
            assert(trim(s)[i - a] == t[i - a]);
        }
    }
    assert(chop(s, k) =~= front + trim(s));
    lemma_parse_ignores_blank_prefix(front, trim(s));
}

} // verus!
