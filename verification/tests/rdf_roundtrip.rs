use aideon_tools::model::{ArrayValue, Node, NumberValue, PropertyValue, ScalarValue};
use aideon_tools::rdf::{read_rdf, write_rdf};
use aideon_tools::rdf_roundtrip::{keeps_node, keeps_nodes, keeps_scalar, keeps_value};

fn text(value: &str) -> ScalarValue {
    ScalarValue::String(value.to_string())
}

fn number(value: &str) -> ScalarValue {
    ScalarValue::Number(NumberValue::parse(value).unwrap())
}

fn references(targets: &[&str]) -> PropertyValue {
    PropertyValue::Array(ArrayValue::ObjectRefs(
        targets.iter().map(|target| target.to_string()).collect(),
    ))
}

fn with(predicate: &str, value: PropertyValue) -> Node {
    let mut node = Node::new("ex:n");
    node.insert_property(predicate.to_string(), value);
    node
}

#[test]
fn nodes_that_rdf_keeps_come_back_from_their_quads() {
    let mut first = Node::new("_:b0");
    first.add_type("ex:T".to_string());
    first.add_type("ex:U".to_string());
    first.insert_property("ex:name".to_string(), PropertyValue::Scalar(text("")));
    first.insert_property("ex:flag".to_string(), PropertyValue::Scalar(ScalarValue::Boolean(false)));
    first.insert_property("ex:size".to_string(), PropertyValue::Scalar(number("-12.5")));
    first.insert_property("ex:owner".to_string(), PropertyValue::ObjectRef("_:b1".to_string()));
    first.insert_property("ex:peers".to_string(), references(&["ex:z", "ex:a", "ex:z"]));
    first.insert_property(
        "ex:list".to_string(),
        PropertyValue::Array(ArrayValue::Scalars(vec![
            text("true"),
            ScalarValue::Boolean(true),
            number("1e3"),
        ])),
    );
    let mut second = Node::new("ex:a");
    second.insert_property("ex:name".to_string(), PropertyValue::Scalar(text("a\"b")));
    let mut third = Node::with_graph("ex:a", Some("ex:g".to_string()));
    third.add_type("ex:T".to_string());
    let nodes = vec![first, second, third];
    assert!(keeps_nodes(&nodes));
    let quads = write_rdf(&nodes).unwrap();
    assert_eq!(quads.len(), 14);
    assert_eq!(read_rdf(&quads).unwrap(), nodes);
}

#[test]
fn what_rdf_does_not_keep_is_told() {
    assert!(keeps_scalar(&text("x")));
    assert!(keeps_scalar(&ScalarValue::Boolean(true)));
    assert!(keeps_scalar(&number("0.1")));
    assert!(!keeps_scalar(&ScalarValue::Null));

    assert!(keeps_value(&PropertyValue::ObjectRef("ex:a".to_string())));
    assert!(!keeps_value(&PropertyValue::ObjectRef("no iri".to_string())));
    assert!(keeps_value(&references(&["ex:a", "_:b"])));
    assert!(!keeps_value(&references(&["ex:a"])));
    assert!(!keeps_value(&references(&[])));
    assert!(!keeps_value(&references(&["ex:a", "_:no label"])));
    assert!(!keeps_value(&PropertyValue::Array(ArrayValue::Scalars(vec![text("only")]))));
    assert!(!keeps_value(&PropertyValue::Array(ArrayValue::Scalars(vec![
        text("a"),
        ScalarValue::Null,
    ]))));

    assert!(!keeps_node(&Node::new("ex:bare")));
    assert!(!keeps_node(&with("no predicate", PropertyValue::Scalar(text("x")))));
    assert!(!keeps_node(&with(
        "http://www.w3.org/1999/02/22-rdf-syntax-ns#type",
        PropertyValue::ObjectRef("ex:T".to_string())
    )));
    assert!(keeps_node(&with("ex:p", PropertyValue::Scalar(text("x")))));

    let first = with("ex:p", PropertyValue::Scalar(text("x")));
    let mut second = Node::new("ex:m");
    second.add_type("ex:T".to_string());
    assert!(keeps_nodes(&[second.clone(), first.clone()]));
    assert!(!keeps_nodes(&[first.clone(), second.clone()]));
    assert!(!keeps_nodes(&[first.clone(), first.clone()]));

    let single = with("ex:p", references(&["ex:a"]));
    let restored = read_rdf(&write_rdf(&[single]).unwrap()).unwrap();
    assert_eq!(restored, vec![with("ex:p", PropertyValue::ObjectRef("ex:a".to_string()))]);
}
