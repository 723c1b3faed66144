use aideon_tools::json::JsonValue;
use aideon_tools::jsonld::{nodes_to_jsonld, parse_jsonld_document};
use aideon_tools::jsonld_roundtrip::{returns_node, returns_nodes, returns_scalar, returns_value};
use aideon_tools::model::{ArrayValue, Node, NumberValue, PropertyValue, ScalarValue};
use aideon_tools::rdf::{read_rdf, write_rdf};
use aideon_tools::rdf_roundtrip::keeps_nodes;

fn text(value: &str) -> ScalarValue {
    ScalarValue::String(value.to_string())
}

fn number(value: &str) -> ScalarValue {
    ScalarValue::Number(NumberValue::parse(value).unwrap())
}

fn references(targets: &[&str]) -> PropertyValue {
    PropertyValue::Array(ArrayValue::ObjectRefs(
        targets.iter().map(|target| target.to_string()).collect(),
    ))
}

fn with(predicate: &str, value: PropertyValue) -> Node {
    let mut node = Node::new("ex:n");
    node.insert_property(predicate.to_string(), value);
    node
}

#[test]
fn nodes_that_a_document_keeps_come_back_from_it() {
    let mut first = Node::new("ex:a");
    first.add_type("ex:T".to_string());
    first.add_type("ex:U".to_string());
    first.insert_property("ex:name".to_string(), PropertyValue::Scalar(text("Alice")));
    first.insert_property("ex:none".to_string(), PropertyValue::Scalar(ScalarValue::Null));
    first.insert_property("ex:flag".to_string(), PropertyValue::Scalar(ScalarValue::Boolean(true)));
    first.insert_property("ex:size".to_string(), PropertyValue::Scalar(number("-12.5")));
    first.insert_property("ex:owner".to_string(), PropertyValue::ObjectRef("not an iri".to_string()));
    first.insert_property("ex:peers".to_string(), references(&["ex:z", "ex:a"]));
    first.insert_property("ex:one".to_string(), references(&["ex:z"]));
    first.insert_property("0".to_string(), PropertyValue::Array(ArrayValue::Scalars(vec![])));
    first.insert_property(
        "ex:list".to_string(),
        PropertyValue::Array(ArrayValue::Scalars(vec![text(""), ScalarValue::Null, number("3")])),
    );
    let mut second = Node::new("ex:b");
    second.add_type("ex:T".to_string());
    let third = Node::new("ex:c");
    let mut fourth = Node::with_graph("ex:a", Some("ex:g".to_string()));
    fourth.insert_property("ex:name".to_string(), PropertyValue::Scalar(text("another Alice")));
    let fifth = Node::with_graph("ex:b", Some("ex:g".to_string()));
    let mut sixth = Node::with_graph("ex:a", Some("ex:h".to_string()));
    sixth.add_type("ex:T".to_string());
    let nodes = vec![first, second, third, fourth, fifth, sixth];
    assert!(returns_nodes(&nodes));
    let document = nodes_to_jsonld(&nodes, None).unwrap();
    assert_eq!(parse_jsonld_document(&document).unwrap(), nodes);
    let again = JsonValue::parse(&document.to_text().unwrap()).unwrap();
    assert_eq!(parse_jsonld_document(&again).unwrap(), nodes);
}

#[test]
fn what_a_document_does_not_keep_is_told() {
    assert!(returns_scalar(&text("plain")));
    assert!(!returns_scalar(&text("ex:looks-like-an-iri")));
    assert!(returns_scalar(&number("0.1")));
    assert!(!returns_scalar(&number("NaN")));
    assert!(returns_scalar(&ScalarValue::Null));

    assert!(returns_value(&references(&["anything"])));
    assert!(!returns_value(&references(&[])));
    assert!(!returns_value(&PropertyValue::Array(ArrayValue::Scalars(vec![
        text("a"),
        text("ex:b"),
    ]))));

    assert!(returns_node(&Node::new("ex:bare")));
    assert!(!returns_node(&Node::new("")));
    assert!(!returns_node(&with("@graph", PropertyValue::Scalar(text("x")))));
    assert!(!returns_node(&with("@context", PropertyValue::Scalar(text("x")))));
    assert!(returns_node(&with("@value", PropertyValue::Scalar(text("x")))));

    let first = Node::new("ex:a");
    let second = Node::new("ex:b");
    assert!(returns_nodes(&[first.clone(), second.clone()]));
    assert!(!returns_nodes(&[second.clone(), first.clone()]));
    assert!(returns_nodes(&[
        Node::with_graph("ex:b", Some("ex:g".to_string())),
        Node::with_graph("ex:a", Some("ex:h".to_string())),
    ]));
    assert!(!returns_nodes(&[Node::with_graph("ex:a", Some("ex:g".to_string())), first.clone()]));

    let lost = with("ex:p", PropertyValue::Scalar(text("ex:b")));
    let document = nodes_to_jsonld(&[lost], None).unwrap();
    assert_eq!(
        parse_jsonld_document(&document).unwrap(),
        vec![with("ex:p", PropertyValue::ObjectRef("ex:b".to_string()))]
    );
}

#[test]
fn a_document_survives_rdf_where_both_codecs_keep_its_nodes() {
    let source = JsonValue::parse(
        r#"{"@graph":[{"@id":"ex:1","@type":"ex:Person","ex:name":"Alice","ex:age":30,"ex:knows":[{"@id":"ex:2"},{"@id":"ex:3"}]},{"@id":"ex:2","@type":"ex:Person","ex:name":"Bob"}]}"#,
    )
    .unwrap();
    let nodes = parse_jsonld_document(&source).unwrap();
    assert!(returns_nodes(&nodes));
    assert!(keeps_nodes(&nodes));
    let read = read_rdf(&write_rdf(&nodes).unwrap()).unwrap();
    let document = nodes_to_jsonld(&read, None).unwrap();
    assert_eq!(parse_jsonld_document(&document).unwrap(), nodes);
}
