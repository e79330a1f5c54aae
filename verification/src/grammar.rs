//! The grammar, as mathematical functions on the characters that are still
//! to be read.
//!
//! Each function takes the unread input and gives back what is left of it
//! after the construct, with the value that was read; none looks at anything
//! but its argument. The executable parser is proved to compute exactly
//! these functions.

use crate::chars::{white_space, CharClass};
use crate::syntax::{AttributeView, Node};
use vstd::prelude::*;

verus! {

/// Why the input is not in the language.
#[derive(Clone, Copy, Debug, PartialEq, Eq, Structural)]
pub enum ErrorKind {
    /// A literal, an identifier or a delimiter that the grammar requires
    /// is not at the cursor.
    MissingToken,
    /// A `{` is never closed.
    UnbalancedBlock,
    /// A close tag names another element than the open tag it answers.
    TagMismatch,
    /// Input is left after the root element, or text stands beside it.
    TrailingContent,
}

/// A failed attempt: the reason, and how many characters were still unread
/// at the place where it was met.
pub struct Failure {
    pub kind: ErrorKind,
    pub remaining: nat,
}

/// The length of the longest prefix of `s` whose characters are all in `class`.
pub open spec fn run_length(s: Seq<char>, class: CharClass) -> nat
    decreases s.len(),
{
    if s.len() > 0 && class.has(s[0]) {
        1 + run_length(s.drop_first(), class)
    } else {
        0
    }
}

/// The length of the longest suffix of `s` that is white space.
pub open spec fn trailing_whitespace(s: Seq<char>) -> nat
    decreases s.len(),
{
    if s.len() > 0 && white_space(s.last()) {
        1 + trailing_whitespace(s.drop_last())
    } else {
        0
    }
}

/// A run is a prefix, all of its characters are in the class, and the
/// character behind it, if there is one, is not.
pub proof fn lemma_run_length(s: Seq<char>, class: CharClass)
    ensures
        run_length(s, class) <= s.len(),
        forall|i: int| 0 <= i < run_length(s, class) ==> class.has(#[trigger] s[i]),
        run_length(s, class) < s.len() ==> !class.has(s[run_length(s, class) as int]),
    decreases s.len(),
{
    if s.len() > 0 && class.has(s[0]) {
        let rest = s.drop_first();
        lemma_run_length(rest, class);
        assert forall|i: int| 0 <= i < run_length(s, class) implies class.has(
            #[trigger] s[i],
        ) by {
            if i > 0 {
                assert(s[i] == rest[i - 1]);
            }
        }
        if run_length(s, class) < s.len() {
            assert(s[run_length(s, class) as int] == rest[run_length(rest, class) as int]);
        }
    }
}

/// The run is the only prefix of which [`lemma_run_length`] holds.
pub proof fn lemma_run_length_unique(s: Seq<char>, class: CharClass, n: int)
    requires
        0 <= n <= s.len(),
        forall|i: int| 0 <= i < n ==> class.has(#[trigger] s[i]),
        n < s.len() ==> !class.has(s[n]),
    ensures
        run_length(s, class) == n,
    decreases s.len(),
{
    if n > 0 {
        let rest = s.drop_first();
        assert forall|i: int| 0 <= i < n - 1 implies class.has(#[trigger] rest[i]) by {
            assert(rest[i] == s[i + 1]);
        }
        if n - 1 < rest.len() {
            assert(rest[n - 1] == s[n]);
        }
        lemma_run_length_unique(rest, class, n - 1);
    }
}

/// The white space at the end of `s` is a suffix, white space throughout,
/// and the character before it, if there is one, is not white space.
pub proof fn lemma_trailing_whitespace(s: Seq<char>)
    ensures
        trailing_whitespace(s) <= s.len(),
        forall|i: int|
            s.len() - trailing_whitespace(s) <= i < s.len() ==> white_space(#[trigger] s[i]),
        trailing_whitespace(s) < s.len() ==> !white_space(
            s[s.len() - trailing_whitespace(s) - 1],
        ),
    decreases s.len(),
{
    if s.len() > 0 && white_space(s.last()) {
        let front = s.drop_last();
        lemma_trailing_whitespace(front);
        assert forall|i: int| s.len() - trailing_whitespace(s) <= i < s.len() implies white_space(
            #[trigger] s[i],
        ) by {
            if i < s.len() - 1 {
                assert(s[i] == front[i]);
            }
        }
        if trailing_whitespace(s) < s.len() {
            assert(s[s.len() - trailing_whitespace(s) - 1] == front[front.len()
                - trailing_whitespace(front) - 1]);
        }
    }
}

/// It is the only suffix of which [`lemma_trailing_whitespace`] holds.
pub proof fn lemma_trailing_whitespace_unique(s: Seq<char>, n: int)
    requires
        0 <= n <= s.len(),
        forall|i: int| s.len() - n <= i < s.len() ==> white_space(#[trigger] s[i]),
        n < s.len() ==> !white_space(s[s.len() - n - 1]),
    ensures
        trailing_whitespace(s) == n,
    decreases s.len(),
{
    if n > 0 {
        let front = s.drop_last();
        assert(white_space(s[s.len() - 1]));
        assert forall|i: int| front.len() - (n - 1) <= i < front.len() implies white_space(
            #[trigger] front[i],
        ) by {
            assert(front[i] == s[i]);
        }
        if n - 1 < front.len() {
            assert(front[front.len() - (n - 1) - 1] == s[s.len() - n - 1]);
        }
        lemma_trailing_whitespace_unique(front, n - 1);
    }
}

/// `s` without the white space at its start.
pub open spec fn spaces(s: Seq<char>) -> Seq<char> {
    s.skip(run_length(s, CharClass::Whitespace) as int)
}

/// `s` without the white space at both ends.
pub open spec fn trim(s: Seq<char>) -> Seq<char> {
    let t = spaces(s);
    t.take(t.len() - trailing_whitespace(t))
}

/// The next character, if there is one.
pub open spec fn peek(s: Seq<char>) -> Option<char> {
    if s.len() > 0 {
        Some(s[0])
    } else {
        None
    }
}

/// Reads exactly `text`.
pub open spec fn tag(s: Seq<char>, text: Seq<char>) -> Result<Seq<char>, Failure> {
    if text.is_prefix_of(s) {
        Ok(s.skip(text.len() as int))
    } else {
        Err(Failure { kind: ErrorKind::MissingToken, remaining: s.len() })
    }
}

/// Reads one or more letters and digits.
pub open spec fn identifier(s: Seq<char>) -> Result<(Seq<char>, Seq<char>), Failure> {
    let n = run_length(s, CharClass::Alphanumeric) as int;
    if n == 0 {
        Err(Failure { kind: ErrorKind::MissingToken, remaining: s.len() })
    } else {
        Ok((s.skip(n), s.take(n)))
    }
}

/// Reads up to the next `<` or `{`; the text is what was read, trimmed, if
/// anything is left of it.
pub open spec fn text(s: Seq<char>) -> (Seq<char>, Option<Seq<char>>) {
    let n = run_length(s, CharClass::Plain) as int;
    let t = trim(s.take(n));
    (
        s.skip(n),
        if t.len() == 0 {
            None
        } else {
            Some(t)
        },
    )
}

/// How deep in braces one is behind the character `c`, having been `depth`
/// levels deep in front of it. Every `{` opens a level and every `}` closes
/// one, whatever stands around them.
pub open spec fn depth_behind(c: char, depth: nat) -> nat {
    if c == '{' {
        depth + 1
    } else if c == '}' {
        (depth - 1) as nat
    } else {
        depth
    }
}

/// Where in `s` the brace stands that closes a block in which `s` begins
/// `depth` levels deep; `None` if the input ends first.
pub open spec fn closing_brace(s: Seq<char>, depth: nat) -> Option<int>
    decreases s.len(),
{
    if s.len() == 0 || depth == 0 {
        None
    } else if s[0] == '}' && depth == 1 {
        Some(0)
    } else {
        match closing_brace(s.drop_first(), depth_behind(s[0], depth)) {
            Some(n) => Some(n + 1),
            None => None,
        }
    }
}

/// The braces of `value` pair off, so that a block which holds `value` is
/// closed by the brace behind it and by none before.
pub open spec fn balanced(value: Seq<char>) -> bool {
    closing_brace(value + seq!['}'], 1) == Some(value.len() as int)
}

/// Reads `{ ... }` after optional white space, and the white space behind it;
/// the value is what stands between the braces, trimmed.
pub open spec fn block(s: Seq<char>) -> Result<(Seq<char>, Seq<char>), Failure> {
    let opened = spaces(s);
    match tag(opened, seq!['{']) {
        Err(failure) => Err(failure),
        Ok(inside) => match closing_brace(inside, 1) {
            None => Err(Failure { kind: ErrorKind::UnbalancedBlock, remaining: opened.len() }),
            Some(n) => Ok((spaces(inside.skip(n + 1)), trim(inside.take(n)))),
        },
    }
}

/// The brace that [`closing_brace`] finds is a `}` of `s`.
pub proof fn lemma_closing_brace(s: Seq<char>, depth: nat)
    ensures
        closing_brace(s, depth) matches Some(n) ==> 0 <= n < s.len() && s[n] == '}',
    decreases s.len(),
{
    if s.len() > 0 && depth > 0 && !(s[0] == '}' && depth == 1) {
        lemma_closing_brace(s.drop_first(), depth_behind(s[0], depth));
    }
}

/// A block that was read took at least its two braces from the input.
pub proof fn lemma_block_shrinks(s: Seq<char>)
    ensures
        block(s) matches Ok((rest, _)) ==> rest.len() + 2 <= s.len(),
{
    lemma_run_length(s, CharClass::Whitespace);
    let opened = spaces(s);
    if let Ok(inside) = tag(opened, seq!['{']) {
        if let Some(n) = closing_brace(inside, 1) {
            lemma_closing_brace(inside, 1);
            lemma_run_length(inside.skip(n + 1), CharClass::Whitespace);
        }
    }
}

/// Reads `name = { ... }`.
pub open spec fn attribute(s: Seq<char>) -> Result<(Seq<char>, AttributeView), Failure> {
    match identifier(spaces(s)) {
        Err(failure) => Err(failure),
        Ok((after_name, name)) => match tag(spaces(after_name), seq!['=']) {
            Err(failure) => Err(failure),
            Ok(after_equals) => match block(after_equals) {
                Err(failure) => Err(failure),
                Ok((rest, value)) => Ok((rest, AttributeView { name, block: value })),
            },
        },
    }
}

/// An attribute that was read took at least a name, `=` and two braces from
/// the input.
pub proof fn lemma_attribute_shrinks(s: Seq<char>)
    ensures
        attribute(s) matches Ok((rest, _)) ==> rest.len() + 4 <= s.len(),
{
    lemma_run_length(s, CharClass::Whitespace);
    if let Ok((after_name, _)) = identifier(spaces(s)) {
        lemma_run_length(spaces(s), CharClass::Alphanumeric);
        lemma_run_length(after_name, CharClass::Whitespace);
        if let Ok(after_equals) = tag(spaces(after_name), seq!['=']) {
            lemma_block_shrinks(after_equals);
        }
    }
}

/// Reads attributes for as long as one can be read. What is left is the
/// input from before the attempt that failed.
pub open spec fn attributes(s: Seq<char>) -> (Seq<char>, Seq<AttributeView>)
    decreases s.len(),
{
    match attribute(s) {
        Ok((rest, first)) => {
            proof {
                lemma_attribute_shrinks(s);
            }
            let (end, others) = attributes(rest);
            (end, seq![first] + others)
        },
        Err(_) => (s, Seq::empty()),
    }
}

/// A list of attributes leaves no more than it was given.
pub proof fn lemma_attributes_bound(s: Seq<char>)
    ensures
        attributes(s).0.len() <= s.len(),
    decreases s.len(),
{
    if let Ok((rest, _)) = attribute(s) {
        lemma_attribute_shrinks(s);
        lemma_attributes_bound(rest);
    }
}

/// Reads `< name attributes >`.
pub open spec fn open_tag(s: Seq<char>) -> Result<
    (Seq<char>, Seq<char>, Seq<AttributeView>),
    Failure,
> {
    match tag(spaces(s), seq!['<']) {
        Err(failure) => Err(failure),
        Ok(after_bracket) => match identifier(spaces(after_bracket)) {
            Err(failure) => Err(failure),
            Ok((after_name, name)) => {
                let (after_attributes, list) = attributes(after_name);
                match tag(spaces(after_attributes), seq!['>']) {
                    Err(failure) => Err(failure),
                    Ok(rest) => Ok((rest, name, list)),
                }
            },
        },
    }
}

/// An open tag that was read took at least `<`, a name and `>` from the input.
pub proof fn lemma_open_tag_shrinks(s: Seq<char>)
    ensures
        open_tag(s) matches Ok((rest, _, _)) ==> rest.len() + 3 <= s.len(),
{
    lemma_run_length(s, CharClass::Whitespace);
    if let Ok(after_bracket) = tag(spaces(s), seq!['<']) {
        lemma_run_length(after_bracket, CharClass::Whitespace);
        if let Ok((after_name, _)) = identifier(spaces(after_bracket)) {
            lemma_run_length(spaces(after_bracket), CharClass::Alphanumeric);
            lemma_attributes_bound(after_name);
            lemma_run_length(attributes(after_name).0, CharClass::Whitespace);
        }
    }
}

/// Reads `< / name >` and the white space behind it.
pub open spec fn close_tag(s: Seq<char>) -> Result<(Seq<char>, Seq<char>), Failure> {
    match tag(spaces(s), seq!['<']) {
        Err(failure) => Err(failure),
        Ok(after_bracket) => match tag(spaces(after_bracket), seq!['/']) {
            Err(failure) => Err(failure),
            Ok(after_slash) => match identifier(spaces(after_slash)) {
                Err(failure) => Err(failure),
                Ok((after_name, name)) => match tag(spaces(after_name), seq!['>']) {
                    Err(failure) => Err(failure),
                    Ok(rest) => Ok((spaces(rest), name)),
                },
            },
        },
    }
}

/// A text node for a run of text, if there was one.
pub open spec fn text_nodes(run: Option<Seq<char>>) -> Seq<Node> {
    match run {
        Some(t) => seq![Node::Text(t)],
        None => Seq::empty(),
    }
}

/// Reads one child: a block at `{`, an element with the text around it at
/// `<`, a run of text anywhere else. There is none where the input ends, or
/// where the block or the element cannot be read.
pub open spec fn child(s: Seq<char>) -> Option<(Seq<char>, Seq<Node>)>
    decreases s.len(), 1nat,
{
    match peek(s) {
        None => None,
        Some(c) => if c == '{' {
            match block(s) {
                Ok((rest, value)) => Some((rest, seq![Node::Block(value)])),
                Err(_) => None,
            }
        } else if c == '<' {
            match element(s) {
                Ok((rest, nodes)) => Some((rest, nodes)),
                Err(_) => None,
            }
        } else {
            let (rest, run) = text(s);
            Some((rest, text_nodes(run)))
        },
    }
}

/// Reads children for as long as there is one. What is left is the input
/// from before the attempt that found none. A child always takes something
/// from the input; the definition asks for it so that it is seen to end,
/// and [`lemma_elements_unfold`] states it without.
pub open spec fn elements(s: Seq<char>) -> (Seq<char>, Seq<Node>)
    decreases s.len(), 2nat,
{
    match child(s) {
        Some((rest, nodes)) if rest.len() < s.len() => {
            let (end, others) = elements(rest);
            (end, nodes + others)
        },
        _ => (s, Seq::empty()),
    }
}

/// Reads one element: an optional run of text, an open tag, children, the
/// close tag of the same name, and an optional run of text. The value is the
/// element between the text nodes that stand for the two runs.
pub open spec fn element(s: Seq<char>) -> Result<(Seq<char>, Seq<Node>), Failure>
    decreases s.len(), 0nat,
{
    let (after_leading, leading) = text(s);
    match open_tag(after_leading) {
        Err(failure) => Err(failure),
        Ok((after_open, name, list)) => {
            proof {
                lemma_run_length(s, CharClass::Plain);
                lemma_open_tag_shrinks(after_leading);
                lemma_run_length(after_open, CharClass::Whitespace);
            }
            let (after_children, children) = elements(spaces(after_open));
            match close_tag(after_children) {
                Err(failure) => Err(failure),
                Ok((after_close, closed)) => if closed == name {
                    let (rest, trailing) = text(after_close);
                    Ok(
                        (
                            rest,
                            text_nodes(leading) + seq![
                                Node::Element { name, attributes: list, children },
                            ] + text_nodes(trailing),
                        ),
                    )
                } else {
                    Err(Failure { kind: ErrorKind::TagMismatch, remaining: after_children.len() })
                },
            }
        },
    }
}

/// A close tag that was read took at least `<`, `/`, a name and `>` from
/// the input.
pub proof fn lemma_close_tag_shrinks(s: Seq<char>)
    ensures
        close_tag(s) matches Ok((rest, _)) ==> rest.len() + 4 <= s.len(),
{
    lemma_run_length(s, CharClass::Whitespace);
    if let Ok(after_bracket) = tag(spaces(s), seq!['<']) {
        lemma_run_length(after_bracket, CharClass::Whitespace);
        if let Ok(after_slash) = tag(spaces(after_bracket), seq!['/']) {
            lemma_run_length(after_slash, CharClass::Whitespace);
            if let Ok((after_name, _)) = identifier(spaces(after_slash)) {
                lemma_run_length(spaces(after_slash), CharClass::Alphanumeric);
                lemma_run_length(after_name, CharClass::Whitespace);
                if let Ok(rest) = tag(spaces(after_name), seq!['>']) {
                    lemma_run_length(rest, CharClass::Whitespace);
                }
            }
        }
    }
}

/// A list of children leaves no more than it was given.
pub proof fn lemma_elements_bound(s: Seq<char>)
    ensures
        elements(s).0.len() <= s.len(),
    decreases s.len(),
{
    if let Some((rest, _)) = child(s) {
        if rest.len() < s.len() {
            lemma_elements_bound(rest);
        }
    }
}

/// An element that was read took at least its two tags from the input.
pub proof fn lemma_element_shrinks(s: Seq<char>)
    ensures
        element(s) matches Ok((rest, _)) ==> rest.len() + 7 <= s.len(),
{
    if let Ok(_) = element(s) {
        let after_leading = text(s).0;
        lemma_run_length(s, CharClass::Plain);
        lemma_open_tag_shrinks(after_leading);
        let after_open = open_tag(after_leading)->Ok_0.0;
        lemma_run_length(after_open, CharClass::Whitespace);
        lemma_elements_bound(spaces(after_open));
        let after_children = elements(spaces(after_open)).0;
        lemma_close_tag_shrinks(after_children);
        let after_close = close_tag(after_children)->Ok_0.0;
        lemma_run_length(after_close, CharClass::Plain);
    }
}

/// A child that was read took something from the input.
pub proof fn lemma_child_shrinks(s: Seq<char>)
    ensures
        child(s) matches Some((rest, _)) ==> rest.len() < s.len(),
{
    if s.len() > 0 {
        if s[0] == '{' {
            lemma_block_shrinks(s);
        } else if s[0] == '<' {
            lemma_element_shrinks(s);
        } else {
            lemma_run_length(s, CharClass::Plain);
        }
    }
}

/// Children are read one after the other until there is none: the test in
/// the definition of [`elements`] never decides anything.
pub proof fn lemma_elements_unfold(s: Seq<char>)
    ensures
        elements(s) == match child(s) {
            Some((rest, nodes)) => (elements(rest).0, nodes + elements(rest).1),
            None => (s, Seq::<Node>::empty()),
        },
{
    lemma_child_shrinks(s);
}

/// A list of children ends where there is no child.
pub proof fn lemma_elements_end(s: Seq<char>)
    ensures
        child(elements(s).0) is None,
    decreases s.len(),
{
    if let Some((rest, _)) = child(s) {
        lemma_child_shrinks(s);
        lemma_elements_end(rest);
    }
}

/// Reads the whole input as one element with nothing beside it.
pub open spec fn parse(s: Seq<char>) -> Result<Node, Failure> {
    match element(s) {
        Err(failure) => Err(failure),
        Ok((rest, nodes)) => if rest.len() == 0 && nodes.len() == 1 {
            Ok(nodes[0])
        } else {
            Err(Failure { kind: ErrorKind::TrailingContent, remaining: rest.len() })
        },
    }
}

} // verus!
