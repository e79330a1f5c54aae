//! How the grammar reads an input that is put together from known parts.

use crate::chars::{alphanumeric, white_space, CharClass};
use crate::grammar::{
    identifier, lemma_run_length_unique, lemma_trailing_whitespace_unique, spaces, tag, text, trim,
    Failure,
};
use crate::laws::whitespace::{is_blank, lemma_spaces_ignores_blank_prefix};
use crate::syntax::{is_text, is_trimmed};
use vstd::prelude::*;

verus! {

/// `s` is empty or begins with a character that is not white space.
pub open spec fn begins_solid(s: Seq<char>) -> bool {
    s.len() > 0 ==> !white_space(s[0])
}

/// `s` is empty or begins with a character that no name can hold.
pub open spec fn ends_a_name(s: Seq<char>) -> bool {
    s.len() > 0 ==> !alphanumeric(s[0])
}

/// Skipping white space stops at once where there is none.
pub proof fn lemma_spaces_of_solid(s: Seq<char>)
    requires
        begins_solid(s),
    ensures
        spaces(s) == s,
{
    lemma_run_length_unique(s, CharClass::Whitespace, 0);
    assert(s.skip(0) =~= s);
}

/// Skipping white space in front of something solid leaves exactly that.
pub proof fn lemma_spaces_reads(w: Seq<char>, s: Seq<char>)
    requires
        is_blank(w),
        begins_solid(s),
    ensures
        spaces(w + s) == s,
{
    lemma_spaces_ignores_blank_prefix(w, s);
    lemma_spaces_of_solid(s);
}

/// A character that stands first is read as a literal.
pub proof fn lemma_tag_reads(c: char, s: Seq<char>)
    ensures
        tag(seq![c] + s, seq![c]) == Ok::<Seq<char>, Failure>(s),
{
    let joined = seq![c] + s;
    assert(seq![c] =~= joined.subrange(0, 1));
    assert(joined.skip(1) =~= s);
}

/// A name is read whole where something follows that ends it.
pub proof fn lemma_identifier_reads(name: Seq<char>, s: Seq<char>)
    requires
        name.len() > 0,
        forall|i: int| 0 <= i < name.len() ==> alphanumeric(#[trigger] name[i]),
        ends_a_name(s),
    ensures
        identifier(name + s) == Ok::<(Seq<char>, Seq<char>), Failure>((s, name)),
{
    let joined = name + s;
    assert forall|i: int| 0 <= i < name.len() implies CharClass::Alphanumeric.has(
        #[trigger] joined[i],
    ) by {
        assert(joined[i] == name[i]);
    }
    if name.len() < joined.len() {
        assert(joined[name.len() as int] == s[0]);
    }
    lemma_run_length_unique(joined, CharClass::Alphanumeric, name.len() as int);
    assert(joined.skip(name.len() as int) =~= s);
    assert(joined.take(name.len() as int) =~= name);
}

/// No name is read where none begins.
pub proof fn lemma_identifier_refuses(s: Seq<char>)
    requires
        ends_a_name(s),
    ensures
        identifier(s) is Err,
{
    lemma_run_length_unique(s, CharClass::Alphanumeric, 0);
}

/// Nothing is left of white space when it is trimmed.
pub proof fn lemma_trim_of_blank(w: Seq<char>)
    requires
        is_blank(w),
    ensures
        trim(w) == Seq::<char>::empty(),
{
    lemma_run_length_unique(w, CharClass::Whitespace, w.len() as int);
    let rest = spaces(w);
    assert(rest.len() == 0);
    lemma_trailing_whitespace_unique(rest, 0);
    assert(trim(w) =~= Seq::<char>::empty());
}

/// No text is read at a delimiter or at the end of the input, and nothing
/// is taken.
pub proof fn lemma_text_stops(s: Seq<char>)
    requires
        s.len() > 0 ==> s[0] == '<' || s[0] == '{',
    ensures
        text(s) == (s, None::<Seq<char>>),
{
    lemma_run_length_unique(s, CharClass::Plain, 0);
    assert(s.take(0) =~= Seq::<char>::empty());
    lemma_trim_of_blank(s.take(0));
    assert(s.skip(0) =~= s);
}

/// White space in front of a delimiter is read as no text.
pub proof fn lemma_text_skips_blank(w: Seq<char>, s: Seq<char>)
    requires
        is_blank(w),
        s.len() > 0 ==> s[0] == '<' || s[0] == '{',
    ensures
        text(w + s) == (s, None::<Seq<char>>),
{
    let joined = w + s;
    assert forall|i: int| 0 <= i < w.len() implies CharClass::Plain.has(#[trigger] joined[i]) by {
        assert(joined[i] == w[i]);
        assert(white_space(w[i]));
    }
    if w.len() < joined.len() {
        assert(joined[w.len() as int] == s[0]);
    }
    lemma_run_length_unique(joined, CharClass::Plain, w.len() as int);
    assert(joined.take(w.len() as int) =~= w);
    lemma_trim_of_blank(w);
    assert(joined.skip(w.len() as int) =~= s);
}

/// A trimmed value comes back when it is trimmed with white space around it.
pub proof fn lemma_trim_within_blank(before: Seq<char>, value: Seq<char>, behind: Seq<char>)
    requires
        is_blank(before),
        is_blank(behind),
        is_trimmed(value),
    ensures
        trim(before + value + behind) == value,
{
    let whole = before + value + behind;
    if value.len() == 0 {
        assert forall|i: int| 0 <= i < whole.len() implies white_space(#[trigger] whole[i]) by {
            if i < before.len() {
                assert(whole[i] == before[i]);
            } else {
                assert(whole[i] == behind[i - before.len()]);
            }
        }
        lemma_trim_of_blank(whole);
        assert(value =~= Seq::<char>::empty());
    } else {
        let tail = value + behind;
        assert(whole =~= before + tail);
        assert(tail[0] == value[0]);
        lemma_spaces_reads(before, tail);
        assert forall|i: int| tail.len() - behind.len() <= i < tail.len() implies white_space(
            #[trigger] tail[i],
        ) by {
            assert(tail[i] == behind[i - value.len()]);
        }
        assert(tail[tail.len() - behind.len() - 1] == value.last());
        lemma_trailing_whitespace_unique(tail, behind.len() as int);
        assert(tail.take(tail.len() - behind.len()) =~= value);
    }
}

/// A run of text is read up to the delimiter behind it, without the white
/// space in between.
pub proof fn lemma_text_reads(run: Seq<char>, w: Seq<char>, s: Seq<char>)
    requires
        is_text(run),
        is_blank(w),
        s.len() > 0 ==> s[0] == '<' || s[0] == '{',
    ensures
        text(run + (w + s)) == (s, Some(run)),
{
    let joined = run + (w + s);
    let n = run.len() + w.len();
    assert forall|i: int| 0 <= i < n implies CharClass::Plain.has(#[trigger] joined[i]) by {
        if i < run.len() {
            assert(joined[i] == run[i]);
        } else {
            assert(joined[i] == w[i - run.len()]);
            assert(white_space(w[i - run.len()]));
        }
    }
    if n < joined.len() {
        assert(joined[n as int] == s[0]);
    }
    lemma_run_length_unique(joined, CharClass::Plain, n as int);
    assert(joined.take(n as int) =~= Seq::<char>::empty() + run + w);
    assert(is_blank(Seq::<char>::empty()));
    lemma_trim_within_blank(Seq::empty(), run, w);
    assert(joined.skip(n as int) =~= s);
}

} // verus!
