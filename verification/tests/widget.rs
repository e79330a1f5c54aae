use hypertext::style::style_path;
use hypertext::widget::{comparator, same_attributes, Attribute, Difference, Kind, Node};

fn node(kind: Kind, attributes: Vec<Attribute>, children: Vec<Node>) -> Node {
    Node { value: (kind, attributes), children }
}

fn label(text: &str) -> Attribute {
    Attribute::Text(text.to_string())
}

#[test]
fn equal_nodes_do_not_differ() {
    let t = node(Kind::Stack, vec![], vec![]);
    let u = node(Kind::Stack, vec![], vec![]);
    assert_eq!(comparator(&t, &u), None);
    let t = node(Kind::Label, vec![label("!")], vec![]);
    let u = node(Kind::Label, vec![label("!")], vec![]);
    assert_eq!(comparator(&t, &u), None);
}

#[test]
fn kinds_are_compared_first() {
    let t = node(Kind::Stack, vec![], vec![]);
    let u = node(Kind::Button, vec![], vec![]);
    assert_eq!(comparator(&t, &u), Some(Difference::Kind));
    let t = node(Kind::Label, vec![label("a")], vec![]);
    let u = node(Kind::Button, vec![label("b")], vec![]);
    assert_eq!(comparator(&t, &u), Some(Difference::Kind));
}

#[test]
fn attributes_are_compared_second() {
    let t = node(Kind::Label, vec![label("")], vec![]);
    let u = node(Kind::Label, vec![label("!")], vec![]);
    assert_eq!(comparator(&t, &u), Some(Difference::Value));
    let t = node(Kind::Label, vec![label("a")], vec![]);
    let u = node(Kind::Label, vec![label("a"), label("b")], vec![]);
    assert_eq!(comparator(&t, &u), Some(Difference::Value));
    let t = node(Kind::Label, vec![label("a"), label("b")], vec![]);
    let u = node(Kind::Label, vec![label("b"), label("a")], vec![]);
    assert_eq!(comparator(&t, &u), Some(Difference::Value));
}

#[test]
fn children_play_no_part() {
    let t = node(Kind::Stack, vec![], vec![node(Kind::Button, vec![], vec![])]);
    let u = node(Kind::Stack, vec![], vec![node(Kind::Label, vec![label("!")], vec![])]);
    assert_eq!(comparator(&t, &u), None);
}

#[test]
fn attribute_lists_are_compared_in_order() {
    assert!(same_attributes(&vec![], &vec![]));
    assert!(same_attributes(&vec![label("a"), label("b")], &vec![label("a"), label("b")]));
    assert!(!same_attributes(&vec![label("a")], &vec![]));
    assert!(!same_attributes(&vec![label("a"), label("b")], &vec![label("a"), label("c")]));
    assert!(label("a") == label("a"));
    assert!(label("a") != label("b"));
}

#[test]
fn the_style_sheet_lies_in_the_output_directory() {
    assert_eq!(style_path("target/out"), "target/out/style.css");
    assert_eq!(style_path(""), "/style.css");
}
