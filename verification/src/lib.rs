//! A recursive-descent parser for a small markup language with embedded
//! expression blocks, together with machine-checked statements of what it
//! accepts and what it returns.
//!
//! An input is one element: `<name attr={ value }> ... </name>`. Between
//! its tags stand text, nested elements and `{ ... }` blocks, whose raw
//! text is kept as it is. [`parser::parse`] turns an input into a tree
//! ([`syntax::Element`]) or says why and where it is refused.
//!
//! - [`syntax`] holds the tree and its mathematical model;
//! - [`grammar`] defines the language, as functions on sequences of
//!   characters;
//! - [`parser`] is the executable parser, proved to compute those functions;
//! - [`laws`] proves what follows from the definition: that every tree is
//!   well formed, that spelling a tree and parsing it gives the tree back
//!   whatever the white space, that a tree spans its trimmed input, and
//!   which failures are reported;
//! - [`chars`] holds the character classes and what is taken on trust from
//!   the standard library;
//! - [`widget`] tells the nodes of widget trees apart, and [`style`] names
//!   the style sheet of a build.

pub mod chars;
pub mod grammar;
pub mod laws;
pub mod parser;
pub mod style;
pub mod syntax;
pub mod widget;
