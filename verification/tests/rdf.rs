use aideon_tools::error::ToolError;
use aideon_tools::model::{ArrayValue, Node, NumberValue, PropertyValue, ScalarValue};
use aideon_tools::rdf::{
    detect_format, id_to_subject, literal_to_scalar, merge_property, read_rdf, subject_to_id,
    write_rdf, Literal, Quad, RdfFormat, Resource, Term,
};

const TYPE: &str = "http://www.w3.org/1999/02/22-rdf-syntax-ns#type";
const XSD: &str = "http://www.w3.org/2001/XMLSchema#";

fn named(iri: &str) -> Resource {
    Resource::Named(iri.to_string())
}

fn literal(value: &str, datatype: &str) -> Term {
    Term::Literal(Literal {
        value: value.to_string(),
        language: None,
        datatype: format!("{XSD}{datatype}"),
    })
}

fn quad(subject: &str, predicate: &str, object: Term) -> Quad {
    Quad { subject: named(subject), predicate: predicate.to_string(), object, graph: None }
}

fn text(value: &str) -> ScalarValue {
    ScalarValue::String(value.to_string())
}

fn number(value: &str) -> ScalarValue {
    ScalarValue::Number(NumberValue::parse(value).unwrap())
}

#[test]
fn extensions_select_the_format() {
    assert_eq!(detect_format("ttl"), Some(RdfFormat::Turtle));
    assert_eq!(detect_format("turtle"), Some(RdfFormat::Turtle));
    assert_eq!(detect_format("TTL"), Some(RdfFormat::Turtle));
    assert_eq!(detect_format("nt"), Some(RdfFormat::NTriples));
    assert_eq!(detect_format("nq"), Some(RdfFormat::NQuads));
    assert_eq!(detect_format("TriG"), Some(RdfFormat::TriG));
    assert_eq!(detect_format("jsonld"), Some(RdfFormat::JsonLd));
    assert_eq!(detect_format("rdf"), None);
    assert_eq!(detect_format(""), None);
    assert_eq!(detect_format("ttl "), None);
}

#[test]
fn blank_nodes_are_told_apart_by_their_prefix() {
    assert_eq!(subject_to_id(&named("http://example.com/b0")), "http://example.com/b0");
    assert_eq!(subject_to_id(&Resource::Blank("b0".to_string())), "_:b0");
    assert_eq!(id_to_subject("_:b0").unwrap(), Resource::Blank("b0".to_string()));
    assert_eq!(id_to_subject("http://example.com/b0").unwrap(), named("http://example.com/b0"));
    assert!(matches!(id_to_subject("_:"), Err(ToolError::Rdf(_))));
    assert!(matches!(id_to_subject("_:a b"), Err(ToolError::Rdf(_))));
    assert!(matches!(id_to_subject("not an iri"), Err(ToolError::InvalidIri(_))));
    assert!(matches!(id_to_subject(""), Err(ToolError::InvalidIri(_))));
}

#[test]
fn literals_are_typed_by_their_datatype() {
    let scalar = |term: Term| match term {
        Term::Literal(literal) => literal_to_scalar(&literal),
        _ => panic!("literal"),
    };
    assert_eq!(scalar(literal("true", "boolean")).unwrap(), ScalarValue::Boolean(true));
    assert_eq!(scalar(literal("1", "boolean")).unwrap(), ScalarValue::Boolean(true));
    assert_eq!(scalar(literal("false", "boolean")).unwrap(), ScalarValue::Boolean(false));
    assert_eq!(scalar(literal("yes", "boolean")).unwrap(), ScalarValue::Boolean(false));
    assert_eq!(scalar(literal("42", "integer")).unwrap(), number("42"));
    assert_eq!(scalar(literal("4.20", "decimal")).unwrap(), number("4.2"));
    assert_eq!(scalar(literal("1e2", "double")).unwrap(), number("100"));
    assert_eq!(scalar(literal("42", "string")).unwrap(), text("42"));
    assert_eq!(scalar(literal("2024-01-01", "date")).unwrap(), text("2024-01-01"));
    assert!(matches!(scalar(literal("forty", "integer")), Err(ToolError::Rdf(_))));
    let tagged = Term::Literal(Literal {
        value: "chat".to_string(),
        language: Some("fr".to_string()),
        datatype: "http://www.w3.org/1999/02/22-rdf-syntax-ns#langString".to_string(),
    });
    assert_eq!(scalar(tagged).unwrap(), text("chat@fr"));
}

#[test]
fn repeated_predicates_are_promoted_to_arrays() {
    let quads = vec![
        quad("ex:1", "ex:p", literal("a", "string")),
        quad("ex:1", "ex:p", literal("b", "string")),
        quad("ex:1", "ex:p", literal("c", "string")),
        quad("ex:1", "ex:q", Term::Resource(named("ex:2"))),
        quad("ex:1", "ex:q", Term::Resource(Resource::Blank("b".to_string()))),
        quad("ex:1", "ex:r", literal("only", "string")),
        quad("ex:1", "ex:s", Term::Resource(named("ex:3"))),
    ];
    let nodes = read_rdf(&quads).unwrap();
    assert_eq!(nodes.len(), 1);
    let node = &nodes[0];
    assert_eq!(
        node.get("ex:p"),
        Some(&PropertyValue::Array(ArrayValue::Scalars(vec![text("a"), text("b"), text("c")])))
    );
    assert_eq!(
        node.get("ex:q"),
        Some(&PropertyValue::Array(ArrayValue::ObjectRefs(vec![
            "ex:2".to_string(),
            "_:b".to_string(),
        ])))
    );
    assert_eq!(node.get("ex:r"), Some(&PropertyValue::Scalar(text("only"))));
    assert_eq!(node.get("ex:s"), Some(&PropertyValue::ObjectRef("ex:3".to_string())));
}

#[test]
fn value_of_the_other_kind_overwrites() {
    let quads = vec![
        quad("ex:1", "ex:p", literal("a", "string")),
        quad("ex:1", "ex:p", literal("b", "string")),
        quad("ex:1", "ex:p", Term::Resource(named("ex:2"))),
        quad("ex:1", "ex:q", Term::Resource(named("ex:2"))),
        quad("ex:1", "ex:q", literal("text", "string")),
    ];
    let nodes = read_rdf(&quads).unwrap();
    assert_eq!(nodes[0].get("ex:p"), Some(&PropertyValue::ObjectRef("ex:2".to_string())));
    assert_eq!(nodes[0].get("ex:q"), Some(&PropertyValue::Scalar(text("text"))));
}

#[test]
fn merge_property_appends_and_joins_arrays() {
    let mut node = Node::new("ex:1");
    let scalars = |items: &[&str]| {
        PropertyValue::Array(ArrayValue::Scalars(items.iter().map(|item| text(item)).collect()))
    };
    merge_property(&mut node, "ex:p".to_string(), scalars(&["a"]));
    merge_property(&mut node, "ex:p".to_string(), scalars(&["b", "c"]));
    merge_property(&mut node, "ex:p".to_string(), PropertyValue::Scalar(text("d")));
    assert_eq!(node.get("ex:p"), Some(&scalars(&["a", "b", "c", "d"])));
    merge_property(
        &mut node,
        "ex:p".to_string(),
        PropertyValue::Array(ArrayValue::ObjectRefs(vec!["ex:2".to_string()])),
    );
    assert_eq!(
        node.get("ex:p"),
        Some(&PropertyValue::Array(ArrayValue::ObjectRefs(vec!["ex:2".to_string()])))
    );
    merge_property(&mut node, "ex:p".to_string(), PropertyValue::ObjectRef("ex:3".to_string()));
    assert_eq!(
        node.get("ex:p"),
        Some(&PropertyValue::Array(ArrayValue::ObjectRefs(vec![
            "ex:2".to_string(),
            "ex:3".to_string(),
        ])))
    );
}

#[test]
fn types_come_from_named_objects_only() {
    let quads = vec![
        quad("ex:1", TYPE, Term::Resource(named("ex:B"))),
        quad("ex:1", TYPE, Term::Resource(named("ex:A"))),
        quad("ex:1", TYPE, Term::Resource(Resource::Blank("b".to_string()))),
        quad("ex:1", TYPE, literal("ex:C", "string")),
        quad("ex:2", TYPE, literal("ex:C", "string")),
    ];
    let nodes = read_rdf(&quads).unwrap();
    assert_eq!(nodes.len(), 2);
    assert_eq!(nodes[0].types(), &vec!["ex:A".to_string(), "ex:B".to_string()]);
    assert!(nodes[0].properties().is_empty());
    assert!(nodes[1].types().is_empty());
}

#[test]
fn graphs_keep_nodes_with_one_identifier_apart() {
    let mut in_graph = quad("ex:1", "ex:p", literal("named", "string"));
    in_graph.graph = Some(named("ex:g"));
    let mut in_blank = quad("ex:1", "ex:p", literal("blank", "string"));
    in_blank.graph = Some(Resource::Blank("g".to_string()));
    let quads = vec![in_graph, quad("ex:1", "ex:p", literal("default", "string")), in_blank];
    let nodes = read_rdf(&quads).unwrap();
    let keys: Vec<(Option<&str>, &str)> = nodes
        .iter()
        .map(|node| (node.graph().as_deref(), node.id().as_str()))
        .collect();
    assert_eq!(keys, vec![(None, "ex:1"), (Some("_:g"), "ex:1"), (Some("ex:g"), "ex:1")]);
    assert_eq!(write_rdf(&nodes).unwrap().len(), 3);
}

#[test]
fn invalid_number_aborts_the_reading() {
    let quads = vec![
        quad("ex:1", "ex:p", literal("1", "integer")),
        quad("ex:1", "ex:q", literal("one", "double")),
    ];
    assert!(matches!(read_rdf(&quads), Err(ToolError::Rdf(_))));
}

#[test]
fn nodes_are_written_types_first() {
    let mut node = Node::with_graph("ex:1", Some("_:g".to_string()));
    node.add_type("ex:T".to_string());
    node.insert_property("ex:n".to_string(), PropertyValue::Scalar(number("30")));
    node.insert_property("ex:b".to_string(), PropertyValue::Scalar(ScalarValue::Boolean(false)));
    node.insert_property("ex:t".to_string(), PropertyValue::Scalar(text("hi")));
    node.insert_property("ex:o".to_string(), PropertyValue::ObjectRef("_:x".to_string()));
    let quads = write_rdf(&[node]).unwrap();
    let graph = Some(Resource::Blank("g".to_string()));
    let expect = |predicate: &str, object: Term| Quad {
        subject: named("ex:1"),
        predicate: predicate.to_string(),
        object,
        graph: graph.clone(),
    };
    assert_eq!(
        quads,
        vec![
            expect(TYPE, Term::Resource(named("ex:T"))),
            expect("ex:b", literal("false", "boolean")),
            expect("ex:n", literal("30", "double")),
            expect("ex:o", Term::Resource(Resource::Blank("x".to_string()))),
            expect("ex:t", literal("hi", "string")),
        ]
    );
}

#[test]
fn null_values_are_not_written() {
    let mut node = Node::new("ex:1");
    node.insert_property("ex:gone".to_string(), PropertyValue::Scalar(ScalarValue::Null));
    node.insert_property(
        "ex:some".to_string(),
        PropertyValue::Array(ArrayValue::Scalars(vec![ScalarValue::Null, text("kept")])),
    );
    let quads = write_rdf(&[node]).unwrap();
    assert_eq!(quads, vec![quad("ex:1", "ex:some", literal("kept", "string"))]);
    let restored = read_rdf(&quads).unwrap();
    assert_eq!(restored.len(), 1);
    assert_eq!(restored[0].get("ex:gone"), None);
    assert_eq!(restored[0].get("ex:some"), Some(&PropertyValue::Scalar(text("kept"))));

    let mut only_null = Node::new("ex:2");
    only_null.insert_property("ex:gone".to_string(), PropertyValue::Scalar(ScalarValue::Null));
    assert_eq!(write_rdf(&[only_null]).unwrap(), Vec::<Quad>::new());
}

#[test]
fn identifiers_are_checked_when_writing() {
    let mut bad_type = Node::new("ex:1");
    bad_type.add_type("not an iri".to_string());
    assert!(matches!(write_rdf(&[bad_type]), Err(ToolError::Rdf(_))));

    let mut bad_predicate = Node::new("ex:1");
    bad_predicate.insert_property("name".to_string(), PropertyValue::Scalar(text("x")));
    assert!(matches!(write_rdf(&[bad_predicate]), Err(ToolError::Rdf(_))));

    assert!(matches!(write_rdf(&[Node::new("no iri")]), Err(ToolError::InvalidIri(_))));
    assert!(matches!(
        write_rdf(&[Node::with_graph("ex:1", Some("no iri".to_string()))]),
        Err(ToolError::InvalidIri(_))
    ));

    let mut bad_target = Node::new("ex:1");
    bad_target.insert_property(
        "ex:p".to_string(),
        PropertyValue::Array(ArrayValue::ObjectRefs(vec!["ex:2".to_string(), "_:".to_string()])),
    );
    assert!(matches!(write_rdf(&[bad_target]), Err(ToolError::Rdf(_))));
}

#[test]
fn rdf_failures_carry_what_was_wrong() {
    let bad_number = Literal {
        value: "twelve".to_string(),
        language: None,
        datatype: format!("{XSD}double"),
    };
    assert_eq!(
        literal_to_scalar(&bad_number),
        Err(ToolError::Rdf("invalid float literal: twelve".to_string()))
    );
    assert_eq!(
        id_to_subject("_:not a label"),
        Err(ToolError::Rdf("invalid blank node identifier: not a label".to_string()))
    );
    assert_eq!(id_to_subject("not an iri"), Err(ToolError::InvalidIri("not an iri".to_string())));
}

#[test]
fn the_writer_names_what_it_cannot_write() {
    let mut typed = Node::new("ex:a");
    typed.add_type("no type".to_string());
    assert_eq!(write_rdf(&[typed]), Err(ToolError::Rdf("invalid IRI: no type".to_string())));

    let mut keyed = Node::new("ex:a");
    keyed.insert_property("no predicate".to_string(), PropertyValue::Scalar(text("x")));
    assert_eq!(
        write_rdf(&[Node::new("ex:0"), keyed]),
        Err(ToolError::Rdf("invalid IRI: no predicate".to_string()))
    );

    let mut pointing = Node::new("ex:a");
    pointing.insert_property(
        "ex:p".to_string(),
        PropertyValue::Array(ArrayValue::ObjectRefs(vec![
            "ex:b".to_string(),
            "_:no label".to_string(),
            "no iri".to_string(),
        ])),
    );
    assert_eq!(
        write_rdf(&[pointing]),
        Err(ToolError::Rdf("invalid blank node identifier: no label".to_string()))
    );

    let placed = Node::with_graph("ex:a", Some("no graph".to_string()));
    assert_eq!(write_rdf(&[placed]), Err(ToolError::InvalidIri("no graph".to_string())));

    let malformed = Quad {
        subject: named("ex:s"),
        predicate: "ex:p".to_string(),
        object: literal("1.2.3", "decimal"),
        graph: None,
    };
    assert_eq!(
        read_rdf(&vec![quad("ex:s", "ex:p", literal("1", "integer")), malformed]),
        Err(ToolError::Rdf("invalid float literal: 1.2.3".to_string()))
    );
}
