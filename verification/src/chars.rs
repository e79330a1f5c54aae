//! Characters: the classes the grammar is built on, and the conversions
//! between strings and sequences of characters.

use vstd::prelude::*;

verus! {

/// Whether a character above the ASCII range is alphabetic or numeric in the
/// Unicode character database. The tables run to thousands of ranges, so the
/// class is named rather than written out.
pub uninterp spec fn unicode_alphanumeric(c: char) -> bool;

/// The characters with the Unicode property `White_Space`.
pub open spec fn white_space(c: char) -> bool {
    ||| '\u{9}' <= c <= '\u{D}'
    ||| c == '\u{20}'
    ||| c == '\u{85}'
    ||| c == '\u{A0}'
    ||| c == '\u{1680}'
    ||| '\u{2000}' <= c <= '\u{200A}'
    ||| c == '\u{2028}'
    ||| c == '\u{2029}'
    ||| c == '\u{202F}'
    ||| c == '\u{205F}'
    ||| c == '\u{3000}'
}

/// The ASCII letters and digits.
pub open spec fn ascii_alphanumeric(c: char) -> bool {
    ||| '0' <= c <= '9'
    ||| 'A' <= c <= 'Z'
    ||| 'a' <= c <= 'z'
}

/// The letters and digits: in the ASCII range `0-9`, `A-Z` and `a-z`, above it
/// what the Unicode character database says.
pub open spec fn alphanumeric(c: char) -> bool {
    ascii_alphanumeric(c) || (c > '\u{7F}' && unicode_alphanumeric(c))
}

/// `char::is_whitespace` tests the Unicode property `White_Space`. Its
/// documentation names the property and the file of the Unicode character
/// database that lists it; the contract writes the list out, the
/// twenty-five code points of [`white_space`]. Nothing here proves it.
pub assume_specification[ char::is_whitespace ](c: char) -> (r: bool)
    ensures
        r == white_space(c),
;

/// `char::is_alphanumeric` holds of a character that is alphabetic or
/// numeric by the Unicode character database. The contract says which
/// these are in the ASCII range, the letters and the digits, and of the
/// rest only that the answer depends on the character alone. Nothing here
/// proves it.
pub assume_specification[ char::is_alphanumeric ](c: char) -> (r: bool)
    ensures
        r == (ascii_alphanumeric(c) || (c > '\u{7F}' && unicode_alphanumeric(c))),
;

/// `String::push` appends one character to the end of the string, as its
/// documentation says. Nothing here proves it.
pub assume_specification[ String::push ](s: &mut String, c: char)
    ensures
        final(s)@ == old(s)@.push(c),
;

/// The sets of characters by which the cursor scans.
#[derive(Clone, Copy, Debug, PartialEq, Eq, Structural)]
pub enum CharClass {
    /// Unicode white space.
    Whitespace,
    /// Letters and digits.
    Alphanumeric,
    /// Everything but `<` and `{`, the two characters that end a run of text.
    Plain,
}

impl CharClass {
    /// Whether `c` is in the class.
    pub open spec fn has(self, c: char) -> bool {
        match self {
            CharClass::Whitespace => white_space(c),
            CharClass::Alphanumeric => alphanumeric(c),
            CharClass::Plain => c != '<' && c != '{',
        }
    }

    /// Whether `c` is in the class, computed.
    pub fn contains(&self, c: char) -> (r: bool)
        ensures
            r == self.has(c),
    {
        match self {
            CharClass::Whitespace => c.is_whitespace(),
            CharClass::Alphanumeric => c.is_alphanumeric(),
            CharClass::Plain => c != '<' && c != '{',
        }
    }
}

/// The characters of a string, in order.
pub fn to_chars(s: &str) -> (v: Vec<char>)
    ensures
        v@ == s@,
{
    let mut v: Vec<char> = Vec::new();
    for c in iter: s.chars()
        invariant
            v@ == iter.seq().take(iter.index()),
    {
        v.push(c);
    }
    v
}

/// A string made of the given characters, in order.
pub fn to_string(chars: &[char]) -> (s: String)
    ensures
        s@ == chars@,
{
    let mut s = String::new();
    let mut i: usize = 0;
    while i < chars.len()
        invariant
            i <= chars.len(),
            s@ == chars@.take(i as int),
        decreases chars.len() - i,
    {
        s.push(chars[i]);
        i += 1;
        proof {
            assert(chars@.take(i as int) == chars@.take(i - 1).push(chars@[i - 1]));
        }
    }
    proof {
        assert(chars@.take(i as int) == chars@);
    }
    s
}

} // verus!
