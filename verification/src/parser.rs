//! The parser: a cursor over the characters of the input, one method for
//! each construct of the grammar, and [`parse`], which reads a whole input.

use crate::chars::{to_chars, to_string, white_space, CharClass};
use crate::grammar;
use crate::grammar::{ErrorKind, Failure};
use crate::laws::failures::lemma_parse_failure;
use crate::laws::shape::lemma_parse_well_formed;
use crate::syntax::{attribute_views, node_views, Attribute, AttributeView, Element, Node};
use vstd::prelude::*;
use vstd::slice::slice_subrange;

verus! {

/// Why an input was refused, and where: `offset` counts the characters of
/// the input that stand before the place where the parser gave up.
#[derive(Clone, Copy, Debug, PartialEq, Eq)]
pub struct SyntaxError {
    pub kind: ErrorKind,
    pub offset: usize,
}

/// A cursor: the input, and how much of it has been read. Reading never
/// changes a cursor; it gives back another one, so that a caller who keeps
/// the first can try something else from the same place.
#[derive(Clone, Copy, Debug)]
pub struct Parsee<'s> {
    input: &'s [char],
    pos: usize,
}

impl<'s> View for Parsee<'s> {
    type V = Seq<char>;

    /// What is still to be read.
    closed spec fn view(&self) -> Seq<char> {
        self.input@.skip(self.pos as int)
    }
}

/// The characters of `chars` without the white space at both ends.
pub fn trim<'a>(chars: &'a [char]) -> (trimmed: &'a [char])
    ensures
        trimmed@ == grammar::trim(chars@),
{
    let start = Parsee::new(chars).scan(CharClass::Whitespace);
    proof {
        grammar::lemma_run_length(chars@, CharClass::Whitespace);
    }
    let ghost rest = chars@.skip(start as int);
    let mut end: usize = chars.len();
    while end > start && chars[end - 1].is_whitespace()
        invariant
            start <= end <= chars@.len(),
            rest == chars@.skip(start as int),
            forall|k: int| end - start <= k < rest.len() ==> white_space(#[trigger] rest[k]),
        decreases end,
    {
        end -= 1;
    }
    proof {
        grammar::lemma_trailing_whitespace_unique(rest, chars@.len() - end);
        assert(chars@.subrange(start as int, end as int) =~= rest.take(end - start));
    }
    slice_subrange(chars, start, end)
}

impl<'s> Parsee<'s> {
    #[verifier::type_invariant]
    spec fn in_bounds(self) -> bool {
        self.pos <= self.input@.len()
    }

    /// The whole input, read and unread.
    pub closed spec fn source(self) -> Seq<char> {
        self.input@
    }

    /// How many characters have been read.
    pub closed spec fn offset(self) -> nat {
        self.pos as nat
    }

    /// `later` is a cursor over the same input, at or behind this one.
    pub open spec fn reaches(self, later: Self) -> bool {
        later.source() == self.source() && self.offset() <= later.offset()
    }

    /// `error` reports the failure `expected` of an attempt made at this
    /// cursor: the same reason, at the same place.
    pub open spec fn fails_as<T>(self, error: SyntaxError, expected: Result<T, Failure>) -> bool {
        expected matches Err(failure) && error.kind == failure.kind && error.offset
            + failure.remaining == self.source().len()
    }

    /// A cursor at the start of `input`.
    pub fn new(input: &'s [char]) -> (cursor: Self)
        ensures
            cursor@ == input@,
            cursor.source() == input@,
            cursor.offset() == 0,
    {
        Parsee { input, pos: 0 }
    }

    /// How many characters have been read.
    pub fn position(&self) -> (n: usize)
        ensures
            n == self.offset(),
    {
        self.pos
    }

    /// How many characters are still to be read: all that stand in the
    /// source from the offset on.
    pub fn remaining(&self) -> (n: usize)
        ensures
            n == self@.len(),
            n + self.offset() == self.source().len(),
            self@ == self.source().skip(self.offset() as int),
    {
        proof {
            use_type_invariant(self);
        }
        self.input.len() - self.pos
    }

    /// The cursor behind the next `n` characters.
    fn advance(self, n: usize) -> (later: Self)
        requires
            n <= self@.len(),
        ensures
            later@ == self@.skip(n as int),
            later.source() == self.source(),
            later.offset() == self.offset() + n,
    {
        proof {
            use_type_invariant(self);
            assert(self.input@.skip(self.pos + n) =~= self.input@.skip(self.pos as int).skip(
                n as int,
            ));
        }
        let end = self.input.len();
        assert(self.pos + n <= end);
        Parsee { input: self.input, pos: self.pos + n }
    }

    /// The next `n` characters.
    fn upcoming(&self, n: usize) -> (chars: &'s [char])
        requires
            n <= self@.len(),
        ensures
            chars@ == self@.take(n as int),
    {
        proof {
            use_type_invariant(self);
            assert(self.input@.subrange(self.pos as int, self.pos + n) =~= self.input@.skip(
                self.pos as int,
            ).take(n as int));
        }
        let end = self.input.len();
        assert(self.pos + n <= end);
        slice_subrange(self.input, self.pos, self.pos + n)
    }

    /// How many of the next characters are in `class`, up to the first that is not.
    pub fn scan(&self, class: CharClass) -> (n: usize)
        ensures
            n == grammar::run_length(self@, class),
    {
        proof {
            use_type_invariant(self);
        }
        let mut i: usize = self.pos;
        while i < self.input.len() && class.contains(self.input[i])
            invariant
                self.pos <= i <= self.input@.len(),
                forall|k: int| self.pos <= k < i ==> class.has(#[trigger] self.input@[k]),
            decreases self.input@.len() - i,
        {
            i += 1;
        }
        proof {
            grammar::lemma_run_length_unique(self@, class, i - self.pos);
        }
        i - self.pos
    }

    /// The next character, or `None` at the end of the input.
    pub fn peek(&self) -> (next: Option<char>)
        ensures
            next == grammar::peek(self@),
    {
        proof {
            use_type_invariant(self);
        }
        if self.pos < self.input.len() {
            Some(self.input[self.pos])
        } else {
            None
        }
    }

    /// Skips white space.
    pub fn spaces(self) -> (later: Self)
        ensures
            later@ == grammar::spaces(self@),
            self.reaches(later),
    {
        let n = self.scan(CharClass::Whitespace);
        proof {
            grammar::lemma_run_length(self@, CharClass::Whitespace);
        }
        self.advance(n)
    }

    /// Reads exactly `text`, or fails without reading anything.
    pub fn tag(self, text: &str) -> (r: Result<Self, SyntaxError>)
        ensures
            match r {
                Ok(later) => grammar::tag(self@, text@) == Ok::<Seq<char>, Failure>(later@)
                    && self.reaches(later),
                Err(error) => self.fails_as(error, grammar::tag(self@, text@)),
            },
    {
        proof {
            use_type_invariant(self);
        }
        let n = text.unicode_len();
        let left = self.input.len() - self.pos;
        if n > left {
            return Err(SyntaxError { kind: ErrorKind::MissingToken, offset: self.pos });
        }
        let mut i: usize = 0;
        while i < n
            invariant
                i <= n <= left,
                n == text@.len(),
                left == self@.len(),
                self.pos + left == self.input@.len(),
                self.input@.len() <= usize::MAX,
                forall|k: int| 0 <= k < i ==> text@[k] == self@[k],
            decreases n - i,
        {
            if text.get_char(i) != self.input[self.pos + i] {
                return Err(SyntaxError { kind: ErrorKind::MissingToken, offset: self.pos });
            }
            i += 1;
        }
        proof {
            assert(text@ =~= self@.subrange(0, text@.len() as int));
        }
        Ok(self.advance(n))
    }

    /// Reads an identifier: one or more letters and digits.
    pub fn identifier(self) -> (r: Result<(Self, &'s [char]), SyntaxError>)
        ensures
            match r {
                Ok((later, name)) => grammar::identifier(self@) == Ok::<
                    (Seq<char>, Seq<char>),
                    Failure,
                >((later@, name@)) && self.reaches(later),
                Err(error) => self.fails_as(error, grammar::identifier(self@)),
            },
    {
        let n = self.scan(CharClass::Alphanumeric);
        proof {
            use_type_invariant(self);
            grammar::lemma_run_length(self@, CharClass::Alphanumeric);
        }
        if n == 0 {
            Err(SyntaxError { kind: ErrorKind::MissingToken, offset: self.pos })
        } else {
            Ok((self.advance(n), self.upcoming(n)))
        }
    }

    /// Reads up to the next `<` or `{`, or to the end of the input. The text
    /// is what was read without the white space around it, or `None` if that
    /// leaves nothing.
    pub fn text(self) -> (r: (Self, Option<&'s [char]>))
        ensures
            r.0@ == grammar::text(self@).0,
            self.reaches(r.0),
            match r.1 {
                Some(run) => grammar::text(self@).1 == Some(run@),
                None => grammar::text(self@).1 is None,
            },
    {
        let n = self.scan(CharClass::Plain);
        proof {
            grammar::lemma_run_length(self@, CharClass::Plain);
        }
        let run = trim(self.upcoming(n));
        let run = if run.len() == 0 {
            None
        } else {
            Some(run)
        };
        (self.advance(n), run)
    }

    /// Reads `{ ... }` after optional white space, and the white space
    /// behind it. The value is what stands between the opening brace and the
    /// brace that closes it, trimmed; braces in between are counted, whatever
    /// they stand in.
    pub fn block(self) -> (r: Result<(Self, &'s [char]), SyntaxError>)
        ensures
            match r {
                Ok((later, value)) => grammar::block(self@) == Ok::<
                    (Seq<char>, Seq<char>),
                    Failure,
                >((later@, value@)) && self.reaches(later) && self.offset() < later.offset(),
                Err(error) => self.fails_as(error, grammar::block(self@)),
            },
    {
        let opened = self.spaces();
        let inside = match opened.tag("{") {
            Ok(inside) => inside,
            Err(error) => {
                proof {
                    reveal_strlit("{");
                    assert("{"@ =~= seq!['{']);
                }
                return Err(error);
            },
        };
        proof {
            reveal_strlit("{");
            assert("{"@ =~= seq!['{']);
            use_type_invariant(inside);
        }
        let end = inside.input.len();
        let mut i: usize = inside.pos;
        let mut depth: usize = 1;
        while i < end && !(depth == 1 && inside.input[i] == '}')
            invariant
                end == inside.input@.len(),
                1 <= inside.pos <= i <= end,
                1 <= depth <= i - inside.pos + 1,
                grammar::closing_brace(inside@, 1) == shifted(
                    grammar::closing_brace(inside.input@.skip(i as int), depth as nat),
                    i - inside.pos,
                ),
            decreases end - i,
        {
            let c = inside.input[i];
            proof {
                assert(inside.input@.skip(i as int).drop_first() =~= inside.input@.skip(i + 1));
            }
            if c == '{' {
                depth += 1;
            } else if c == '}' {
                depth -= 1;
            }
            i += 1;
        }
        if i >= end {
            return Err(SyntaxError { kind: ErrorKind::UnbalancedBlock, offset: opened.pos });
        }
        let n = i - inside.pos;
        let value = trim(inside.upcoming(n));
        let later = inside.advance(n + 1).spaces();
        Ok((later, value))
    }

    /// Reads `name = { ... }`, with white space wherever it likes.
    pub fn attribute(self) -> (r: Result<(Self, Attribute), SyntaxError>)
        ensures
            match r {
                Ok((later, attribute)) => grammar::attribute(self@) == Ok::<
                    (Seq<char>, AttributeView),
                    Failure,
                >((later@, attribute@)) && self.reaches(later) && self.offset() < later.offset(),
                Err(error) => self.fails_as(error, grammar::attribute(self@)),
            },
    {
        proof {
            reveal_strlit("=");
            assert("="@ =~= seq!['=']);
        }
        let (after_name, name) = match self.spaces().identifier() {
            Ok(read) => read,
            Err(error) => {
                return Err(error);
            },
        };
        let after_equals = match after_name.spaces().tag("=") {
            Ok(later) => later,
            Err(error) => {
                return Err(error);
            },
        };
        let (later, value) = match after_equals.block() {
            Ok(read) => read,
            Err(error) => {
                return Err(error);
            },
        };
        Ok((later, Attribute { name: to_string(name), block: to_string(value) }))
    }

    /// Reads attributes until one cannot be read, and stops before it.
    /// This never fails: the list may be empty.
    pub fn attributes(self) -> (r: (Self, Vec<Attribute>))
        ensures
            grammar::attributes(self@) == (r.0@, attribute_views(r.1@)),
            self.reaches(r.0),
    {
        let mut list: Vec<Attribute> = Vec::new();
        let mut cursor = self;
        let mut done = false;
        while !done
            invariant
                self.reaches(cursor),
                grammar::attributes(self@) == (
                    grammar::attributes(cursor@).0,
                    attribute_views(list@) + grammar::attributes(cursor@).1,
                ),
                done ==> grammar::attributes(cursor@) == (cursor@, Seq::<AttributeView>::empty()),
            decreases cursor@.len() + if done { 0int } else { 1int },
        {
            match cursor.attribute() {
                Ok((later, attribute)) => {
                    proof {
                        grammar::lemma_attribute_shrinks(cursor@);
                        let rest = grammar::attributes(later@).1;
                        assert(attribute_views(list@.push(attribute)) + rest =~= attribute_views(
                            list@,
                        ) + (seq![attribute@] + rest));
                    }
                    list.push(attribute);
                    cursor = later;
                },
                Err(_) => {
                    done = true;
                },
            }
        }
        proof {
            assert(attribute_views(list@) + Seq::<AttributeView>::empty() =~= attribute_views(
                list@,
            ));
        }
        (cursor, list)
    }

    /// Reads `< name attributes >`.
    pub fn open_tag(self) -> (r: Result<(Self, &'s [char], Vec<Attribute>), SyntaxError>)
        ensures
            match r {
                Ok((later, name, list)) => grammar::open_tag(self@) == Ok::<
                    (Seq<char>, Seq<char>, Seq<AttributeView>),
                    Failure,
                >((later@, name@, attribute_views(list@))) && self.reaches(later),
                Err(error) => self.fails_as(error, grammar::open_tag(self@)),
            },
    {
        proof {
            reveal_strlit("<");
            reveal_strlit(">");
            assert("<"@ =~= seq!['<']);
            assert(">"@ =~= seq!['>']);
        }
        let after_bracket = match self.spaces().tag("<") {
            Ok(later) => later,
            Err(error) => {
                return Err(error);
            },
        };
        let (after_name, name) = match after_bracket.spaces().identifier() {
            Ok(read) => read,
            Err(error) => {
                return Err(error);
            },
        };
        let (after_attributes, list) = after_name.attributes();
        match after_attributes.spaces().tag(">") {
            Ok(later) => Ok((later, name, list)),
            Err(error) => Err(error),
        }
    }

    /// Reads `< / name >` and the white space behind it.
    pub fn close_tag(self) -> (r: Result<(Self, &'s [char]), SyntaxError>)
        ensures
            match r {
                Ok((later, name)) => grammar::close_tag(self@) == Ok::<
                    (Seq<char>, Seq<char>),
                    Failure,
                >((later@, name@)) && self.reaches(later),
                Err(error) => self.fails_as(error, grammar::close_tag(self@)),
            },
    {
        proof {
            reveal_strlit("<");
            reveal_strlit("/");
            reveal_strlit(">");
            assert("<"@ =~= seq!['<']);
            assert("/"@ =~= seq!['/']);
            assert(">"@ =~= seq!['>']);
        }
        let after_bracket = match self.spaces().tag("<") {
            Ok(later) => later,
            Err(error) => {
                return Err(error);
            },
        };
        let after_slash = match after_bracket.spaces().tag("/") {
            Ok(later) => later,
            Err(error) => {
                return Err(error);
            },
        };
        let (after_name, name) = match after_slash.spaces().identifier() {
            Ok(read) => read,
            Err(error) => {
                return Err(error);
            },
        };
        match after_name.spaces().tag(">") {
            Ok(later) => Ok((later.spaces(), name)),
            Err(error) => Err(error),
        }
    }

    /// Reads children until the input ends or a child cannot be read, and
    /// stops before it: a block at `{`, an element with the text around it
    /// at `<`, a run of text anywhere else. This never fails: where nothing
    /// can be read the list is empty.
    pub fn elements(self) -> (r: (Self, Vec<Element>))
        ensures
            grammar::elements(self@) == (r.0@, node_views(r.1@)),
            self.reaches(r.0),
        decreases self@.len(), 2nat,
    {
        let mut children: Vec<Element> = Vec::new();
        let mut cursor = self;
        let mut done = false;
        while !done
            invariant
                self.reaches(cursor),
                cursor@.len() <= self@.len(),
                grammar::elements(self@) == (
                    grammar::elements(cursor@).0,
                    node_views(children@) + grammar::elements(cursor@).1,
                ),
                done ==> grammar::elements(cursor@) == (cursor@, Seq::<Node>::empty()),
            decreases cursor@.len() + if done { 0int } else { 1int },
        {
            let ghost before = children@;
            let ghost rest = grammar::elements(cursor@).1;
            let ghost found = grammar::child(cursor@);
            proof {
                grammar::lemma_child_shrinks(cursor@);
            }
            match cursor.peek() {
                None => {
                    done = true;
                },
                Some(c) => {
                    if c == '{' {
                        match cursor.block() {
                            Ok((later, value)) => {
                                proof {
                                    grammar::lemma_block_shrinks(cursor@);
                                }
                                children.push(Element::Block(to_string(value)));
                                cursor = later;
                            },
                            Err(_) => {
                                done = true;
                            },
                        }
                    } else if c == '<' {
                        match cursor.element() {
                            Ok((later, mut nodes)) => {
                                proof {
                                    use_type_invariant(cursor);
                                    use_type_invariant(later);
                                    assert(node_views(before + nodes@) =~= node_views(before)
                                        + node_views(nodes@));
                                }
                                children.append(&mut nodes);
                                cursor = later;
                            },
                            Err(_) => {
                                done = true;
                            },
                        }
                    } else {
                        let (later, run) = cursor.text();
                        proof {
                            grammar::lemma_run_length(cursor@, CharClass::Plain);
                        }
                        if let Some(run) = run {
                            children.push(Element::Text(to_string(run)));
                        }
                        cursor = later;
                    }
                },
            }
            proof {
                if !done {
                    let step = grammar::elements(cursor@).1;
                    let added = children@.skip(before.len() as int);
                    assert(children@ =~= before + added);
                    assert(node_views(children@) =~= node_views(before) + node_views(added));
                    assert(found == Some((cursor@, node_views(added))));
                    assert(rest == node_views(added) + step);
                    assert(node_views(children@) + step =~= node_views(before) + rest);
                }
            }
        }
        proof {
            assert(node_views(children@) + Seq::<Node>::empty() =~= node_views(children@));
        }
        (cursor, children)
    }

    /// Reads one element: an optional run of text, an open tag, children,
    /// the close tag, and an optional run of text. The close tag must name
    /// the element that the open tag named. The result holds the element
    /// between the text nodes for the two runs, where there are any.
    pub fn element(self) -> (r: Result<(Self, Vec<Element>), SyntaxError>)
        ensures
            match r {
                Ok((later, nodes)) => grammar::element(self@) == Ok::<
                    (Seq<char>, Seq<Node>),
                    Failure,
                >((later@, node_views(nodes@))) && self.reaches(later) && self.offset()
                    < later.offset(),
                Err(error) => self.fails_as(error, grammar::element(self@)),
            },
        decreases self@.len(), 0nat,
    {
        let mut nodes: Vec<Element> = Vec::new();
        let (after_leading, leading) = self.text();
        if let Some(run) = leading {
            nodes.push(Element::Text(to_string(run)));
        }
        let ghost leading_nodes = nodes@;
        assert(node_views(leading_nodes) =~= grammar::text_nodes(grammar::text(self@).1));
        let (after_open, name, attributes) = match after_leading.open_tag() {
            Ok(read) => read,
            Err(error) => {
                return Err(error);
            },
        };
        let body = after_open.spaces();
        proof {
            grammar::lemma_run_length(self@, CharClass::Plain);
            grammar::lemma_open_tag_shrinks(after_leading@);
            grammar::lemma_run_length(after_open@, CharClass::Whitespace);
            use_type_invariant(self);
            use_type_invariant(body);
        }
        let (after_children, children) = body.elements();
        let (after_close, closed) = match after_children.close_tag() {
            Ok(read) => read,
            Err(error) => {
                return Err(error);
            },
        };
        if !same_chars(name, closed) {
            proof {
                use_type_invariant(after_children);
            }
            return Err(SyntaxError { kind: ErrorKind::TagMismatch, offset: after_children.pos });
        }
        let root = Element::Element { name: to_string(name), attributes, children };
        let ghost root_view = root@;
        nodes.push(root);
        let (rest, trailing) = after_close.text();
        if let Some(run) = trailing {
            nodes.push(Element::Text(to_string(run)));
        }
        proof {
            let trailing_nodes = nodes@.skip(leading_nodes.len() as int + 1);
            assert(nodes@ =~= leading_nodes + seq![root] + trailing_nodes);
            assert(node_views(trailing_nodes) =~= grammar::text_nodes(
                grammar::text(after_close@).1,
            ));
            assert(node_views(nodes@) =~= node_views(leading_nodes) + seq![root_view] + node_views(
                trailing_nodes,
            ));
        }
        Ok((rest, nodes))
    }

    /// Reads one element with the text around it.
    pub fn parse(self) -> (r: Result<(Self, Vec<Element>), SyntaxError>)
        ensures
            match r {
                Ok((later, nodes)) => grammar::element(self@) == Ok::<
                    (Seq<char>, Seq<Node>),
                    Failure,
                >((later@, node_views(nodes@))) && self.reaches(later),
                Err(error) => self.fails_as(error, grammar::element(self@)),
            },
    {
        self.element()
    }
}

/// A position found in a suffix, counted from `by` characters further left.
pub open spec fn shifted(found: Option<int>, by: int) -> Option<int> {
    match found {
        Some(n) => Some(n + by),
        None => None,
    }
}

/// Whether two slices hold the same characters.
pub fn same_chars(a: &[char], b: &[char]) -> (same: bool)
    ensures
        same == (a@ == b@),
{
    if a.len() != b.len() {
        return false;
    }
    let mut i: usize = 0;
    while i < a.len()
        invariant
            i <= a@.len(),
            a@.len() == b@.len(),
            forall|k: int| 0 <= k < i ==> a@[k] == b@[k],
        decreases a@.len() - i,
    {
        if a[i] != b[i] {
            return false;
        }
        i += 1;
    }
    proof {
        assert(a@ =~= b@);
    }
    true
}

/// Parses `input` as one element with nothing before or behind it but
/// white space. The tree is the one that the grammar gives, an element,
/// and well formed. An error says why the input was refused and at which
/// character: for want of a token, for a close tag of another name, or for
/// what stands beside the root. A block that is never closed is not
/// reported as such: it ends the list it stands in, and the token that is
/// then looked for in its place is missing.
pub fn parse(input: &str) -> (r: Result<Element, SyntaxError>)
    ensures
        match r {
            Ok(root) => grammar::parse(input@) == Ok::<Node, Failure>(root@) && root@ is Element
                && root@.well_formed(),
            Err(error) => error.offset <= input@.len() && grammar::parse(input@) == Err::<
                Node,
                Failure,
            >(Failure { kind: error.kind, remaining: (input@.len() - error.offset) as nat })
                && error.kind != ErrorKind::UnbalancedBlock,
        },
{
    proof {
        lemma_parse_well_formed(input@);
        lemma_parse_failure(input@);
    }
    let chars = to_chars(input);
    let cursor = Parsee::new(chars.as_slice());
    let (rest, mut nodes) = match cursor.parse() {
        Ok(read) => read,
        Err(error) => {
            return Err(error);
        },
    };
    let left = rest.remaining();
    if left != 0 || nodes.len() != 1 {
        return Err(SyntaxError { kind: ErrorKind::TrailingContent, offset: rest.pos });
    }
    Ok(nodes.remove(0))
}

} // verus!
