use hypertext::grammar::ErrorKind;
use hypertext::parser::{parse, SyntaxError};
use hypertext::syntax::{Attribute, Element};

fn tag(name: &str, attributes: Vec<Attribute>, children: Vec<Element>) -> Element {
    Element::Element { name: name.to_string(), attributes, children }
}

fn attr(name: &str, block: &str) -> Attribute {
    Attribute { name: name.to_string(), block: block.to_string() }
}

fn text(run: &str) -> Element {
    Element::Text(run.to_string())
}

fn block(value: &str) -> Element {
    Element::Block(value.to_string())
}

fn refused(kind: ErrorKind, offset: usize) -> Result<Element, SyntaxError> {
    Err(SyntaxError { kind, offset })
}

#[test]
fn basic_parse() {
    assert!(parse("--").is_err());
    assert!(parse("<div></div>").is_ok());
    assert!(parse("<div>Hello, world!</div>").is_ok());
    assert!(parse("<div>Hello, world! <div></div> </div>").is_ok());

    assert!(
        parse(
            "<div></div>
                 <div></div>"
        ).is_err()
    );
}

#[test]
fn nested() {
    assert!(
        parse(
            "<div> text
                   <div>Hello!</div>
                   <div>Test</div>
                 </div>"
        ).is_ok()
    );
}

#[test]
fn text_around_child() {
    assert!(parse("<div> text <div>Hello!</div> more text </div>").is_ok());
    assert!(
        parse("<div> text <div>Hello!</div> more text <div>Test!</div> more </div>").is_ok()
    );
}

#[test]
fn attributes() {
    assert!(parse(r#"<div attr1={"test"} attr2={|| 42}></div>"#).is_ok());
    assert!(parse(r#"<div attr1={{ 42 }}></div>"#).is_ok());
}

#[test]
fn buttons() {
    assert!(
        parse(
            "<div>
                   <button click={Message::Increment}>+</button>
                   <div>{model}</div>
                   <button click={Message::Decrement}>-</button>
                 </div>"
        ).is_ok()
    );

    assert!(parse("< div > < / div >").is_ok());
    assert!(parse("< div > < button click = { Message :: Increment } > + < / button > < div > { model } < / div > < button click = { Message :: Decrement } > - < / button > < / div >").is_ok());
}

#[test]
fn embedded_block() {
    assert!(parse("<div>{model}</div>").is_ok());
    assert!(parse("<div>{model} HEY {test}</div>").is_ok());
}

#[test]
fn empty_element() {
    assert_eq!(parse("<div></div>"), Ok(tag("div", vec![], vec![])));
}

#[test]
fn element_with_text() {
    assert_eq!(
        parse("<div>Hello, world!</div>"),
        Ok(tag("div", vec![], vec![text("Hello, world!")]))
    );
}

#[test]
fn two_roots_are_trailing_content() {
    assert_eq!(parse("<div></div><div></div>"), refused(ErrorKind::TrailingContent, 11));
    assert_eq!(
        parse("<div></div>\n                 <div></div>"),
        refused(ErrorKind::TrailingContent, 29)
    );
}

#[test]
fn text_beside_the_root_is_trailing_content() {
    assert_eq!(parse("<div></div> after"), refused(ErrorKind::TrailingContent, 17));
    assert_eq!(parse("before <div></div>"), refused(ErrorKind::TrailingContent, 18));
    assert_eq!(parse("<a></a>{x}"), refused(ErrorKind::TrailingContent, 7));
}

#[test]
fn attribute_values_are_raw_text() {
    assert_eq!(
        parse(r#"<div attr1={"test"} attr2={|| 42}></div>"#),
        Ok(tag("div", vec![attr("attr1", "\"test\""), attr("attr2", "|| 42")], vec![]))
    );
}

#[test]
fn attribute_values_keep_inner_braces() {
    assert_eq!(
        parse("<div attr1={{ 42 }}></div>"),
        Ok(tag("div", vec![attr("attr1", "{ 42 }")], vec![]))
    );
    assert_eq!(
        parse("<a f={ if x { y } else { z } } g={}></a>"),
        Ok(tag("a", vec![attr("f", "if x { y } else { z }"), attr("g", "")], vec![]))
    );
}

#[test]
fn block_child() {
    assert_eq!(parse("<div>{model}</div>"), Ok(tag("div", vec![], vec![block("model")])));
    assert_eq!(parse("<div>{}</div>"), Ok(tag("div", vec![], vec![block("")])));
    assert_eq!(parse("<div>{ { a } { b } }</div>"), Ok(tag("div", vec![], vec![block("{ a } { b }")])));
}

#[test]
fn blocks_and_text_in_order() {
    assert_eq!(
        parse("<div>{model} HEY {test}</div>"),
        Ok(tag("div", vec![], vec![block("model"), text("HEY"), block("test")]))
    );
}

#[test]
fn text_around_a_nested_element() {
    assert_eq!(
        parse("<div> text <div>Hello!</div> more text </div>"),
        Ok(tag(
            "div",
            vec![],
            vec![text("text"), tag("div", vec![], vec![text("Hello!")]), text("more text")]
        ))
    );
}

#[test]
fn text_between_nested_elements() {
    assert_eq!(
        parse("<div> text <div>Hello!</div> more text <div>Test!</div> more </div>"),
        Ok(tag(
            "div",
            vec![],
            vec![
                text("text"),
                tag("div", vec![], vec![text("Hello!")]),
                text("more text"),
                tag("div", vec![], vec![text("Test!")]),
                text("more"),
            ]
        ))
    );
}

#[test]
fn white_space_between_tokens_is_ignored() {
    assert_eq!(parse("< div > < / div >"), parse("<div></div>"));
    assert_eq!(parse("<\tdiv\n>\u{A0}<\u{2003}/\u{3000}div\r\n>  "), parse("<div></div>"));
    assert_eq!(
        parse("< div > < button click = { Message :: Increment } > + < / button > < div > { model } < / div > < button click = { Message :: Decrement } > - < / button > < / div >"),
        Ok(tag(
            "div",
            vec![],
            vec![
                tag("button", vec![attr("click", "Message :: Increment")], vec![text("+")]),
                tag("div", vec![], vec![block("model")]),
                tag("button", vec![attr("click", "Message :: Decrement")], vec![text("-")]),
            ]
        ))
    );
    assert_eq!(
        parse("<div>\n  <button click={Message::Increment}>+</button>\n  <div>{model}</div>\n</div>"),
        parse("<div><button click={Message::Increment}>+</button><div>{model}</div></div>")
    );
}

#[test]
fn white_space_around_the_root_is_ignored() {
    assert_eq!(parse("  \n<div></div>\n  "), Ok(tag("div", vec![], vec![])));
}

#[test]
fn mismatched_tags_are_refused() {
    assert_eq!(parse("<div></span>"), refused(ErrorKind::TagMismatch, 5));
    assert_eq!(parse("<div>text</divs>"), refused(ErrorKind::TagMismatch, 9));
    assert_eq!(parse("<Div></div>"), refused(ErrorKind::TagMismatch, 5));
}

#[test]
fn a_mismatch_inside_ends_the_children() {
    assert_eq!(parse("<div><a></b></div>"), refused(ErrorKind::MissingToken, 6));
}

#[test]
fn missing_tokens() {
    assert_eq!(parse(""), refused(ErrorKind::MissingToken, 0));
    assert_eq!(parse("--"), refused(ErrorKind::MissingToken, 2));
    assert_eq!(parse("<"), refused(ErrorKind::MissingToken, 1));
    assert_eq!(parse("<>"), refused(ErrorKind::MissingToken, 1));
    assert_eq!(parse("<div"), refused(ErrorKind::MissingToken, 4));
    assert_eq!(parse("<div>"), refused(ErrorKind::MissingToken, 5));
    assert_eq!(parse("<div><"), refused(ErrorKind::MissingToken, 6));
    assert_eq!(parse("<div></"), refused(ErrorKind::MissingToken, 7));
    assert_eq!(parse("<div></div"), refused(ErrorKind::MissingToken, 10));
    assert_eq!(parse("<div />"), refused(ErrorKind::MissingToken, 5));
    assert_eq!(parse("{x}"), refused(ErrorKind::MissingToken, 0));
}

#[test]
fn a_broken_attribute_ends_the_list() {
    assert_eq!(parse("<div a></div>"), refused(ErrorKind::MissingToken, 5));
    assert_eq!(parse("<div a=></div>"), refused(ErrorKind::MissingToken, 5));
    assert_eq!(parse("<div a={x} b></div>"), refused(ErrorKind::MissingToken, 11));
    assert_eq!(parse("<div a={></div>"), refused(ErrorKind::MissingToken, 5));
}

#[test]
fn an_open_block_ends_the_children() {
    assert_eq!(parse("<div>{model</div>"), refused(ErrorKind::MissingToken, 5));
    assert_eq!(parse("<div>a{ { } </div>"), refused(ErrorKind::MissingToken, 6));
}

#[test]
fn names_are_letters_and_digits() {
    assert_eq!(parse("<h1></h1>"), Ok(tag("h1", vec![], vec![])));
    assert_eq!(parse("<1></1>"), Ok(tag("1", vec![], vec![])));
    assert_eq!(parse("<été></été>"), Ok(tag("été", vec![], vec![])));
    assert_eq!(parse("<a_b></a_b>"), refused(ErrorKind::MissingToken, 2));
    assert_eq!(parse("<a-b></a-b>"), refused(ErrorKind::MissingToken, 2));
}

#[test]
fn offsets_count_characters() {
    assert_eq!(parse("<é>ü</è>"), refused(ErrorKind::TagMismatch, 4));
}

#[test]
fn text_stops_at_delimiters_only() {
    assert_eq!(
        parse("<p>a > b } c = d / e</p>"),
        Ok(tag("p", vec![], vec![text("a > b } c = d / e")]))
    );
}
