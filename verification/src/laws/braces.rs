//! How the brace that closes a block is found.

use crate::chars::white_space;
use crate::grammar::{balanced, closing_brace, depth_behind, lemma_closing_brace};
use crate::laws::whitespace::is_blank;
use vstd::prelude::*;

verus! {

/// A brace that is found stays found when more input follows.
pub proof fn lemma_closing_brace_extends(s: Seq<char>, more: Seq<char>, depth: nat)
    requires
        closing_brace(s, depth) is Some,
    ensures
        closing_brace(s + more, depth) == closing_brace(s, depth),
    decreases s.len(),
{
    let joined = s + more;
    assert(joined[0] == s[0]);
    if !(s[0] == '}' && depth == 1) {
        lemma_closing_brace_extends(s.drop_first(), more, depth_behind(s[0], depth));
        assert(joined.drop_first() =~= s.drop_first() + more);
    }
}

/// A brace that is found is found in the input up to it.
pub proof fn lemma_closing_brace_truncates(s: Seq<char>, depth: nat)
    requires
        closing_brace(s, depth) is Some,
    ensures
        closing_brace(s.take(closing_brace(s, depth)->Some_0 + 1), depth) == closing_brace(
            s,
            depth,
        ),
    decreases s.len(),
{
    lemma_closing_brace(s, depth);
    let n = closing_brace(s, depth)->Some_0;
    let cut = s.take(n + 1);
    assert(cut[0] == s[0]);
    if !(s[0] == '}' && depth == 1) {
        let inner = depth_behind(s[0], depth);
        lemma_closing_brace_truncates(s.drop_first(), inner);
        assert(cut.drop_first() =~= s.drop_first().take(n));
    }
}

/// White space in front moves the brace and nothing else.
pub proof fn lemma_closing_brace_skips_blank(w: Seq<char>, s: Seq<char>, depth: nat)
    requires
        is_blank(w),
        depth >= 1,
    ensures
        closing_brace(w + s, depth) == match closing_brace(s, depth) {
            Some(n) => Some(n + w.len()),
            None => None,
        },
    decreases w.len(),
{
    if w.len() == 0 {
        assert(w + s =~= s);
    } else {
        let joined = w + s;
        assert(joined[0] == w[0]);
        assert(white_space(w[0]));
        let shorter = w.drop_first();
        assert forall|i: int| 0 <= i < shorter.len() implies white_space(
            #[trigger] shorter[i],
        ) by {
            assert(shorter[i] == w[i + 1]);
        }
        lemma_closing_brace_skips_blank(shorter, s, depth);
        assert(joined.drop_first() =~= shorter + s);
    }
}

/// White space in front of the closing brace moves the brace and nothing
/// else: a value is closed by the brace behind it whether or not white
/// space stands between them.
pub proof fn lemma_closing_brace_before_blank(value: Seq<char>, w: Seq<char>, depth: nat)
    requires
        is_blank(w),
    ensures
        closing_brace(value + (w + seq!['}']), depth) == Some((value.len() + w.len()) as int)
            <==> closing_brace(value + seq!['}'], depth) == Some(value.len() as int),
    decreases value.len(),
{
    let long = value + (w + seq!['}']);
    let short = value + seq!['}'];
    if value.len() == 0 {
        assert(long =~= w + seq!['}']);
        assert(short =~= seq!['}']);
        if depth >= 1 {
            lemma_closing_brace_skips_blank(w, seq!['}'], depth);
        }
        assert(seq!['}'].drop_first() =~= Seq::<char>::empty());
    } else {
        assert(long[0] == value[0]);
        assert(short[0] == value[0]);
        if depth >= 1 && !(value[0] == '}' && depth == 1) {
            let inner = depth_behind(value[0], depth);
            lemma_closing_brace_before_blank(value.drop_first(), w, inner);
            assert(long.drop_first() =~= value.drop_first() + (w + seq!['}']));
            assert(short.drop_first() =~= value.drop_first() + seq!['}']);
        }
    }
}

/// What stands between a `{` and the brace that closes it is balanced.
pub proof fn lemma_inside_is_balanced(inside: Seq<char>)
    requires
        closing_brace(inside, 1) is Some,
    ensures
        balanced(inside.take(closing_brace(inside, 1)->Some_0)),
{
    lemma_closing_brace(inside, 1);
    lemma_closing_brace_truncates(inside, 1);
    let n = closing_brace(inside, 1)->Some_0;
    assert(inside.take(n + 1) =~= inside.take(n) + seq!['}']);
}

/// White space around a value does not change whether it is balanced.
pub proof fn lemma_balanced_within_blank(before: Seq<char>, value: Seq<char>, behind: Seq<char>)
    requires
        is_blank(before),
        is_blank(behind),
    ensures
        balanced(before + value + behind) <==> balanced(value),
{
    let whole = before + value + behind;
    assert(whole + seq!['}'] =~= before + (value + (behind + seq!['}'])));
    lemma_closing_brace_skips_blank(before, value + (behind + seq!['}']), 1);
    lemma_closing_brace_before_blank(value, behind, 1);
}

/// A balanced value between white space, the brace behind it and whatever
/// follows: the block closes at that brace.
pub proof fn lemma_closing_brace_behind_value(
    before: Seq<char>,
    value: Seq<char>,
    behind: Seq<char>,
    rest: Seq<char>,
)
    requires
        is_blank(before),
        is_blank(behind),
        balanced(value),
    ensures
        closing_brace(before + (value + (behind + (seq!['}'] + rest))), 1) == Some(
            (before.len() + value.len() + behind.len()) as int,
        ),
{
    let whole = before + value + behind;
    lemma_balanced_within_blank(before, value, behind);
    lemma_closing_brace_extends(whole + seq!['}'], rest, 1);
    assert(whole + seq!['}'] + rest =~= before + (value + (behind + (seq!['}'] + rest))));
}

} // verus!
