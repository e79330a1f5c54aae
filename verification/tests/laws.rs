use hypertext::grammar::ErrorKind;
use hypertext::parser::{parse, SyntaxError};
use hypertext::syntax::{Attribute, Element};

fn tag(name: &str, attributes: Vec<Attribute>, children: Vec<Element>) -> Element {
    Element::Element { name: name.to_string(), attributes, children }
}

fn attr(name: &str, block: &str) -> Attribute {
    Attribute { name: name.to_string(), block: block.to_string() }
}

fn skeleton(node: &Element) -> Element {
    match node {
        Element::Element { name, attributes, children } => Element::Element {
            name: name.clone(),
            attributes: attributes.iter().map(|a| attr(&a.name, "")).collect(),
            children: children
                .iter()
                .filter(|child| matches!(child, Element::Element { .. }))
                .map(skeleton)
                .collect(),
        },
        Element::Text(text) => Element::Text(text.clone()),
        Element::Block(block) => Element::Block(block.clone()),
    }
}

fn spell_close(name: &str, pad: &str, out: &mut String) {
    out.push('<');
    out.push_str(pad);
    out.push('/');
    out.push_str(pad);
    out.push_str(name);
    out.push_str(pad);
    out.push('>');
    out.push_str(pad);
}

fn spell_value(value: &str, pad: &str, out: &mut String) {
    out.push('{');
    out.push_str(pad);
    out.push_str(value);
    out.push_str(pad);
    out.push('}');
}

fn spell(node: &Element, pad: &str, close_as: Option<&str>, out: &mut String) {
    match node {
        Element::Element { name, attributes, children } => {
            out.push('<');
            out.push_str(pad);
            out.push_str(name);
            for attribute in attributes {
                out.push(' ');
                out.push_str(pad);
                out.push_str(&attribute.name);
                out.push_str(pad);
                out.push('=');
                out.push_str(pad);
                spell_value(&attribute.block, pad, out);
            }
            out.push_str(pad);
            out.push('>');
            out.push_str(pad);
            for child in children {
                spell(child, pad, None, out);
            }
            spell_close(close_as.unwrap_or(name), pad, out);
        }
        Element::Text(run) => {
            out.push_str(run);
            out.push_str(pad);
        }
        Element::Block(value) => {
            spell_value(value, pad, out);
            out.push_str(pad);
        }
    }
}

fn spelled(node: &Element, pad: &str) -> String {
    let mut out = String::from(pad);
    spell(node, pad, None, &mut out);
    out
}

fn sample() -> Element {
    parse(
        "<div id={1} class={ \"a b\" } on={ |e| { go(e) } }>
           intro {model}
           <button click={Message::Increment}>+</button> between
           <p><b>bold</b> and <i>more</i>{ { nested } }{}</p>
           outro
         </div>",
    )
    .unwrap()
}

const PADS: [&str; 5] = ["", " ", "\n\t ", "\u{A0}\u{2003}", " \r\n \u{3000}"];

#[test]
fn a_tree_parses_back_to_itself() {
    let tree = sample();
    assert_eq!(
        spelled(&tree, ""),
        "<div id={1} class={\"a b\"} on={|e| { go(e) }}>intro{model}<button click={Message::Increment}>+</button>between<p><b>bold</b>and<i>more</i>{{ nested }}{}</p>outro</div>"
    );
    for pad in PADS {
        assert_eq!(parse(&spelled(&tree, pad)), Ok(sample()), "pad {:?}", pad);
    }
    let small = tag("a", vec![attr("b", "")], vec![Element::Block("".to_string())]);
    for pad in PADS {
        assert_eq!(parse(&spelled(&small, pad)).as_ref(), Ok(&small), "pad {:?}", pad);
    }
}

#[test]
fn the_skeleton_parses_back_to_itself() {
    let tree = sample();
    let bare = skeleton(&tree);
    assert_eq!(
        bare,
        tag(
            "div",
            vec![attr("id", ""), attr("class", ""), attr("on", "")],
            vec![
                tag("button", vec![attr("click", "")], vec![]),
                tag("p", vec![], vec![tag("b", vec![], vec![]), tag("i", vec![], vec![])]),
            ]
        )
    );
    assert_eq!(
        spelled(&bare, ""),
        "<div id={} class={} on={}><button click={}></button><p><b></b><i></i></p></div>"
    );
    assert_eq!(skeleton(&bare), bare);
    for pad in PADS {
        assert_eq!(parse(&spelled(&bare, pad)), Ok(skeleton(&tree)), "pad {:?}", pad);
    }
}

#[test]
fn layouts_of_one_tree_parse_alike() {
    let tree = sample();
    for pad in PADS {
        for other in PADS {
            assert_eq!(parse(&spelled(&tree, pad)), parse(&spelled(&tree, other)));
        }
    }
}

#[test]
fn a_close_tag_of_another_name_is_a_mismatch() {
    let tree = sample();
    for pad in PADS {
        let mut input = String::from(pad);
        spell(&tree, pad, Some("span"), &mut input);
        let mut close = String::new();
        spell_close("span", pad, &mut close);
        let offset = input.chars().count() - close.chars().count();
        assert_eq!(
            parse(&input),
            Err(SyntaxError { kind: ErrorKind::TagMismatch, offset }),
            "pad {:?}",
            pad
        );
    }
}

#[test]
fn a_second_root_is_trailing_content() {
    let tree = sample();
    for pad in PADS {
        let first = spelled(&tree, pad);
        let mut input = first.clone();
        spell(&tree, pad, None, &mut input);
        assert_eq!(
            parse(&input),
            Err(SyntaxError { kind: ErrorKind::TrailingContent, offset: first.chars().count() }),
            "pad {:?}",
            pad
        );
    }
}

#[test]
fn white_space_in_front_changes_nothing() {
    let inputs = ["<a>x</a>", "<a></b>", "<a", "x<a></a>", "<a></a><b></b>", ""];
    for input in inputs {
        for pad in PADS {
            let padded = format!("{}{}", pad, input);
            let shift = pad.chars().count();
            let expected = match parse(input) {
                Ok(tree) => Ok(tree),
                Err(error) => Err(SyntaxError { kind: error.kind, offset: error.offset + shift }),
            };
            assert_eq!(parse(&padded), expected, "input {:?} pad {:?}", input, pad);
        }
    }
}

fn balanced(value: &str) -> bool {
    let mut depth = 1;
    for c in value.chars() {
        match c {
            '{' => depth += 1,
            '}' => depth -= 1,
            _ => {}
        }
        if depth == 0 {
            return false;
        }
    }
    depth == 1
}

fn well_formed(node: &Element) -> bool {
    let identifier = |name: &str| !name.is_empty() && name.chars().all(|c| c.is_alphanumeric());
    let value = |text: &str| text.trim() == text && balanced(text);
    match node {
        Element::Element { name, attributes, children } => {
            identifier(name)
                && attributes.iter().all(|a| identifier(&a.name) && value(&a.block))
                && children.iter().all(well_formed)
                && children.windows(2).all(|pair| {
                    !(matches!(pair[0], Element::Text(_)) && matches!(pair[1], Element::Text(_)))
                })
        }
        Element::Text(text) => {
            !text.is_empty() && text.trim() == text && !text.contains(['<', '{'])
        }
        Element::Block(block) => value(block),
    }
}

#[test]
fn what_parses_is_a_well_formed_element() {
    let inputs = [
        "<div></div>",
        "  <div> a {  b  } <c x={ y }> d </c> e </div>  ",
        "<a>{}</a>",
        "<a> } > / = </a>",
        "<a b={ {{}} {} }>x{ } y <c></c> z <d></d><e></e> {{}}</a>",
    ];
    for input in inputs {
        let tree = parse(input).unwrap();
        assert!(matches!(tree, Element::Element { .. }));
        assert!(well_formed(&tree), "{:?}", tree);
    }
}

#[test]
fn what_parses_is_one_element_from_end_to_end() {
    let inputs = ["<div></div>", " \n<a>x</a>\t ", "<a b={c}>{d}</a>\u{3000}"];
    for input in inputs {
        assert!(parse(input).is_ok());
        let trimmed = input.trim();
        assert!(trimmed.starts_with('<'));
        assert!(trimmed.ends_with('>'));
        assert_eq!(parse(trimmed), parse(input));
    }
}

#[test]
fn no_input_is_refused_for_an_open_block() {
    let inputs = ["<a>{</a>", "<a b={></a>", "{", "<a>{{}</a>", "<a b={{}></a>"];
    for input in inputs {
        let error = parse(input).unwrap_err();
        assert_eq!(error.kind, ErrorKind::MissingToken);
        assert!(error.offset <= input.chars().count());
    }
}
