use hypertext::chars::{to_chars, to_string, CharClass};
use hypertext::grammar::ErrorKind;
use hypertext::parser::{same_chars, trim, Parsee, SyntaxError};
use hypertext::syntax::{Attribute, Element};

fn missing(offset: usize) -> SyntaxError {
    SyntaxError { kind: ErrorKind::MissingToken, offset }
}

#[test]
fn peek_gives_the_next_character() {
    let input = to_chars("ab");
    let cursor = Parsee::new(&input);
    assert_eq!(cursor.peek(), Some('a'));
    assert_eq!(cursor.position(), 0);
    assert_eq!(cursor.remaining(), 2);
    let empty = to_chars("");
    assert_eq!(Parsee::new(&empty).peek(), None);
}

#[test]
fn scan_counts_a_run() {
    let input = to_chars("abc1 def");
    let cursor = Parsee::new(&input);
    assert_eq!(cursor.scan(CharClass::Alphanumeric), 4);
    assert_eq!(cursor.scan(CharClass::Whitespace), 0);
    assert_eq!(cursor.scan(CharClass::Plain), 8);
}

#[test]
fn spaces_skips_unicode_white_space() {
    let input = to_chars(" \t\r\n\u{A0}\u{2003}x ");
    let cursor = Parsee::new(&input).spaces();
    assert_eq!(cursor.position(), 6);
    assert_eq!(cursor.peek(), Some('x'));
    assert_eq!(cursor.spaces().position(), 6);
    let blank = to_chars("   ");
    assert_eq!(Parsee::new(&blank).spaces().remaining(), 0);
}

#[test]
fn tag_reads_the_exact_text() {
    let input = to_chars("</div>");
    let cursor = Parsee::new(&input);
    assert_eq!(cursor.tag("<").unwrap().position(), 1);
    assert_eq!(cursor.tag("</").unwrap().position(), 2);
    assert_eq!(cursor.tag("").unwrap().position(), 0);
    assert_eq!(cursor.tag("/").unwrap_err(), missing(0));
    assert_eq!(cursor.tag("</divs").unwrap_err(), missing(0));
    assert_eq!(cursor.tag("</div> ").unwrap_err(), missing(0));
    assert_eq!(cursor.tag(" <").unwrap_err(), missing(0));
    let upper = to_chars("DIV");
    assert_eq!(Parsee::new(&upper).tag("div").unwrap_err(), missing(0));
}

#[test]
fn identifier_reads_letters_and_digits() {
    let input = to_chars("attr1=x");
    let (rest, name) = Parsee::new(&input).identifier().unwrap();
    assert_eq!(to_string(name), "attr1");
    assert_eq!(rest.position(), 5);
    let digits = to_chars("42abc-");
    let (rest, name) = Parsee::new(&digits).identifier().unwrap();
    assert_eq!(to_string(name), "42abc");
    assert_eq!(rest.peek(), Some('-'));
    let none = to_chars("_a");
    assert_eq!(Parsee::new(&none).identifier().unwrap_err(), missing(0));
    let space = to_chars(" a");
    assert_eq!(Parsee::new(&space).identifier().unwrap_err(), missing(0));
    let empty = to_chars("");
    assert_eq!(Parsee::new(&empty).identifier().unwrap_err(), missing(0));
}

#[test]
fn text_reads_up_to_a_delimiter_and_trims() {
    let input = to_chars("  Hello, world!  <b>");
    let (rest, run) = Parsee::new(&input).text();
    assert_eq!(to_string(run.unwrap()), "Hello, world!");
    assert_eq!(rest.position(), 17);
    assert_eq!(rest.peek(), Some('<'));

    let input = to_chars("a b{c}");
    let (rest, run) = Parsee::new(&input).text();
    assert_eq!(to_string(run.unwrap()), "a b");
    assert_eq!(rest.peek(), Some('{'));

    let input = to_chars("   \n ");
    let (rest, run) = Parsee::new(&input).text();
    assert!(run.is_none());
    assert_eq!(rest.remaining(), 0);

    let input = to_chars("<a>");
    let (rest, run) = Parsee::new(&input).text();
    assert!(run.is_none());
    assert_eq!(rest.position(), 0);
}

#[test]
fn trim_cuts_white_space_at_both_ends() {
    assert_eq!(to_string(trim(&to_chars("  a b \n"))), "a b");
    assert_eq!(to_string(trim(&to_chars("a"))), "a");
    assert_eq!(to_string(trim(&to_chars(" \t "))), "");
    assert_eq!(to_string(trim(&to_chars(""))), "");
    assert_eq!(to_string(trim(&to_chars("\u{3000}x\u{A0}"))), "x");
}

#[test]
fn block_reads_to_the_matching_brace() {
    let input = to_chars("  { a { b } c }  rest");
    let (rest, value) = Parsee::new(&input).block().unwrap();
    assert_eq!(to_string(value), "a { b } c");
    assert_eq!(rest.position(), 17);
    assert_eq!(rest.peek(), Some('r'));

    let input = to_chars("{}x");
    let (rest, value) = Parsee::new(&input).block().unwrap();
    assert_eq!(to_string(value), "");
    assert_eq!(rest.position(), 2);

    let input = to_chars("{\"}\"}");
    let (rest, value) = Parsee::new(&input).block().unwrap();
    assert_eq!(to_string(value), "\"");
    assert_eq!(rest.position(), 3);
}

#[test]
fn block_wants_an_opening_brace() {
    let input = to_chars("  x{}");
    assert_eq!(Parsee::new(&input).block().unwrap_err(), missing(2));
    let input = to_chars("");
    assert_eq!(Parsee::new(&input).block().unwrap_err(), missing(0));
}

#[test]
fn an_open_block_is_unbalanced() {
    let unbalanced = |offset| SyntaxError { kind: ErrorKind::UnbalancedBlock, offset };
    let input = to_chars("{");
    assert_eq!(Parsee::new(&input).block().unwrap_err(), unbalanced(0));
    let input = to_chars("  { a { b } c ");
    assert_eq!(Parsee::new(&input).block().unwrap_err(), unbalanced(2));
    let input = to_chars("{{}");
    assert_eq!(Parsee::new(&input).block().unwrap_err(), unbalanced(0));
}

#[test]
fn attribute_reads_a_name_and_a_value() {
    let input = to_chars("  click = { Message::Increment } >");
    let (rest, attribute) = Parsee::new(&input).attribute().unwrap();
    assert_eq!(
        attribute,
        Attribute { name: "click".to_string(), block: "Message::Increment".to_string() }
    );
    assert_eq!(rest.peek(), Some('>'));

    let input = to_chars("click{}");
    assert_eq!(Parsee::new(&input).attribute().unwrap_err(), missing(5));
    let input = to_chars("=x");
    assert_eq!(Parsee::new(&input).attribute().unwrap_err(), missing(0));
    let input = to_chars("a = x");
    assert_eq!(Parsee::new(&input).attribute().unwrap_err(), missing(4));
    let input = to_chars("a={");
    assert_eq!(
        Parsee::new(&input).attribute().unwrap_err(),
        SyntaxError { kind: ErrorKind::UnbalancedBlock, offset: 2 }
    );
}

#[test]
fn attributes_stop_before_what_is_no_attribute() {
    let input = to_chars(" a={1} b={2}  c >");
    let (rest, list) = Parsee::new(&input).attributes();
    assert_eq!(
        list,
        vec![
            Attribute { name: "a".to_string(), block: "1".to_string() },
            Attribute { name: "b".to_string(), block: "2".to_string() },
        ]
    );
    assert_eq!(rest.position(), 14);

    let input = to_chars("  >");
    let (rest, list) = Parsee::new(&input).attributes();
    assert!(list.is_empty());
    assert_eq!(rest.position(), 0);
}

#[test]
fn open_tag_reads_name_and_attributes() {
    let input = to_chars(" < div a={1} >x");
    let (rest, name, list) = Parsee::new(&input).open_tag().unwrap();
    assert_eq!(to_string(name), "div");
    assert_eq!(list, vec![Attribute { name: "a".to_string(), block: "1".to_string() }]);
    assert_eq!(rest.peek(), Some('x'));

    let input = to_chars("</div>");
    assert_eq!(Parsee::new(&input).open_tag().unwrap_err(), missing(1));
    let input = to_chars("div>");
    assert_eq!(Parsee::new(&input).open_tag().unwrap_err(), missing(0));
    let input = to_chars("<div");
    assert_eq!(Parsee::new(&input).open_tag().unwrap_err(), missing(4));
}

#[test]
fn close_tag_reads_the_name_and_the_space_behind() {
    let input = to_chars(" < / div >  x");
    let (rest, name) = Parsee::new(&input).close_tag().unwrap();
    assert_eq!(to_string(name), "div");
    assert_eq!(rest.peek(), Some('x'));

    let input = to_chars("<div>");
    assert_eq!(Parsee::new(&input).close_tag().unwrap_err(), missing(1));
    let input = to_chars("</>");
    assert_eq!(Parsee::new(&input).close_tag().unwrap_err(), missing(2));
    let input = to_chars("</div");
    assert_eq!(Parsee::new(&input).close_tag().unwrap_err(), missing(5));
}

#[test]
fn elements_reads_children_in_order() {
    let input = to_chars("a {b} <c></c> d </p>");
    let (rest, children) = Parsee::new(&input).elements();
    assert_eq!(
        children,
        vec![
            Element::Text("a".to_string()),
            Element::Block("b".to_string()),
            Element::Element { name: "c".to_string(), attributes: vec![], children: vec![] },
            Element::Text("d".to_string()),
        ]
    );
    assert_eq!(rest.position(), 16);
}

#[test]
fn elements_stops_without_failing() {
    let input = to_chars("");
    let (rest, children) = Parsee::new(&input).elements();
    assert!(children.is_empty());
    assert_eq!(rest.position(), 0);

    let input = to_chars("{open");
    let (rest, children) = Parsee::new(&input).elements();
    assert!(children.is_empty());
    assert_eq!(rest.position(), 0);

    let input = to_chars("x<a></b>");
    let (rest, children) = Parsee::new(&input).elements();
    assert_eq!(children, vec![Element::Text("x".to_string())]);
    assert_eq!(rest.position(), 1);

    let input = to_chars("   <");
    let (rest, children) = Parsee::new(&input).elements();
    assert!(children.is_empty());
    assert_eq!(rest.position(), 3);
}

#[test]
fn element_gives_the_text_around_it() {
    let input = to_chars(" before <a>in</a> after <b>");
    let (rest, nodes) = Parsee::new(&input).element().unwrap();
    assert_eq!(
        nodes,
        vec![
            Element::Text("before".to_string()),
            Element::Element {
                name: "a".to_string(),
                attributes: vec![],
                children: vec![Element::Text("in".to_string())],
            },
            Element::Text("after".to_string()),
        ]
    );
    assert_eq!(rest.peek(), Some('<'));
    assert_eq!(rest.position(), 24);
}

#[test]
fn element_refuses_a_close_tag_of_another_name() {
    let input = to_chars("<a>x</b>");
    assert_eq!(
        Parsee::new(&input).element().unwrap_err(),
        SyntaxError { kind: ErrorKind::TagMismatch, offset: 4 }
    );
    assert_eq!(
        Parsee::new(&input).parse().unwrap_err(),
        SyntaxError { kind: ErrorKind::TagMismatch, offset: 4 }
    );
}

#[test]
fn a_failed_attempt_leaves_the_cursor_usable() {
    let input = to_chars("<a></a>");
    let cursor = Parsee::new(&input);
    assert!(cursor.close_tag().is_err());
    assert!(cursor.block().is_err());
    let (rest, name, _) = cursor.open_tag().unwrap();
    assert_eq!(to_string(name), "a");
    assert_eq!(rest.position(), 3);
    assert_eq!(cursor.position(), 0);
}

#[test]
fn same_chars_compares_contents() {
    assert!(same_chars(&['a', 'b'], &['a', 'b']));
    assert!(!same_chars(&['a', 'b'], &['a', 'c']));
    assert!(!same_chars(&['a', 'b'], &['a']));
    assert!(same_chars(&[], &[]));
}
