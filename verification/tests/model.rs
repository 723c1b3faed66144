use aideon_tools::model::{ArrayValue, Node, NumberValue, PropertyValue, ScalarValue};

fn text(value: &str) -> PropertyValue {
    PropertyValue::Scalar(ScalarValue::String(value.to_string()))
}

#[test]
fn new_node_is_empty_and_in_the_default_graph() {
    let node = Node::new("ex:1");
    assert_eq!(node.id(), "ex:1");
    assert_eq!(node.graph(), &None);
    assert!(node.types().is_empty());
    assert!(node.properties().is_empty());
    let named = Node::with_graph("ex:1", Some("ex:g".to_string()));
    assert_eq!(named.graph(), &Some("ex:g".to_string()));
    assert_ne!(node, named);
}

#[test]
fn set_graph_moves_the_node() {
    let mut node = Node::new("ex:1");
    node.set_graph(Some("ex:g".to_string()));
    assert_eq!(node, Node::with_graph("ex:1", Some("ex:g".to_string())));
    node.set_graph(None);
    assert_eq!(node, Node::new("ex:1"));
}

#[test]
fn types_are_kept_sorted_and_once() {
    let mut node = Node::new("ex:1");
    node.add_type("ex:b".to_string());
    node.add_type("ex:a".to_string());
    node.add_type("ex:b".to_string());
    node.add_type("ex:c".to_string());
    assert_eq!(node.types(), &vec!["ex:a".to_string(), "ex:b".to_string(), "ex:c".to_string()]);
}

#[test]
fn insert_property_replaces_and_sorts() {
    let mut node = Node::new("ex:1");
    node.insert_property("ex:z".to_string(), text("last"));
    node.insert_property("ex:a".to_string(), text("first"));
    node.insert_property("ex:z".to_string(), text("newer"));
    let keys: Vec<&str> = node.properties().iter().map(|entry| entry.0.as_str()).collect();
    assert_eq!(keys, vec!["ex:a", "ex:z"]);
    assert_eq!(node.get("ex:z"), Some(&text("newer")));
    assert_eq!(node.get("ex:a"), Some(&text("first")));
    assert_eq!(node.get("ex:m"), None);
}

#[test]
fn insertion_order_does_not_matter_for_equality() {
    let mut first = Node::new("ex:1");
    first.add_type("ex:A".to_string());
    first.add_type("ex:B".to_string());
    first.insert_property("ex:p".to_string(), text("x"));
    first.insert_property(
        "ex:q".to_string(),
        PropertyValue::Array(ArrayValue::ObjectRefs(vec!["ex:2".to_string()])),
    );
    let mut second = Node::new("ex:1");
    second.insert_property(
        "ex:q".to_string(),
        PropertyValue::Array(ArrayValue::ObjectRefs(vec!["ex:2".to_string()])),
    );
    second.add_type("ex:B".to_string());
    second.insert_property("ex:p".to_string(), text("x"));
    second.add_type("ex:A".to_string());
    assert_eq!(first, second);
    assert_eq!(first.clone(), second);
}

#[test]
fn numbers_keep_both_renderings() {
    let thirty = NumberValue::parse("30").expect("number");
    assert_eq!(thirty.decimal(), "30");
    assert_eq!(thirty.json_text(), Some("30.0".to_string()));
    assert_eq!(NumberValue::parse("3e1"), Some(thirty.clone()));
    assert_eq!(NumberValue::parse("30.0"), Some(thirty));
    let half = NumberValue::parse("-0.5").expect("number");
    assert_eq!(half.decimal(), "-0.5");
    assert_eq!(half.json_text(), Some("-0.5".to_string()));
    let large = NumberValue::parse("1e21").expect("number");
    assert_eq!(large.decimal(), "1000000000000000000000");
    assert_eq!(large.json_text(), Some("1e+21".to_string()));
}

#[test]
fn numbers_that_are_not_finite_have_no_json_text() {
    let nan = NumberValue::parse("NaN").expect("number");
    assert_eq!(nan.decimal(), "NaN");
    assert_eq!(nan.json_text(), None);
    assert!(nan.json().is_none());
    let inf = NumberValue::parse("inf").expect("number");
    assert_eq!(inf.decimal(), "inf");
    assert_eq!(inf.json_text(), None);
}

#[test]
fn text_that_is_no_number_does_not_parse() {
    assert_eq!(NumberValue::parse("abc"), None);
    assert_eq!(NumberValue::parse(""), None);
    assert_eq!(NumberValue::parse("1,5"), None);
}
