use aideon_tools::error::ToolError;
use aideon_tools::json::JsonValue;
use aideon_tools::jsonld::{
    expand_compact_iri, expand_context_reference, expand_term, nodes_to_jsonld,
    parse_context_value, parse_jsonld_document, parse_property_value, ActiveContext,
};
use aideon_tools::model::{ArrayValue, Node, NumberValue, PropertyValue, ScalarValue};

fn json(text: &str) -> JsonValue {
    JsonValue::parse(text).expect("JSON parsed")
}

fn nodes_of(text: &str) -> Vec<Node> {
    parse_jsonld_document(&json(text)).expect("JSON-LD parsed")
}

fn context_of(text: &str) -> ActiveContext {
    parse_context_value(&json(text), None).expect("context parsed")
}

fn text(value: &str) -> PropertyValue {
    PropertyValue::Scalar(ScalarValue::String(value.to_string()))
}

fn reference(value: &str) -> PropertyValue {
    PropertyValue::ObjectRef(value.to_string())
}

#[test]
fn terms_expand_through_the_context() {
    let context = context_of(
        r#"{"@vocab": "https://schema.org/", "ex": "http://example.com/", "label": "http://www.w3.org/2000/01/rdf-schema#label"}"#,
    );
    let context = Some(&context);
    assert_eq!(expand_term(context, "@type"), "@type");
    assert_eq!(expand_term(context, "https://a.example/x"), "https://a.example/x");
    assert_eq!(expand_term(context, "label"), "http://www.w3.org/2000/01/rdf-schema#label");
    assert_eq!(expand_term(context, "name"), "https://schema.org/name");
    assert_eq!(expand_term(None, "name"), "name");
    assert_eq!(expand_term(None, "@id"), "@id");
}

#[test]
fn compact_forms_expand_by_their_prefix() {
    let context = context_of(r#"{"foaf": "http://xmlns.com/foaf/0.1/"}"#);
    assert_eq!(
        expand_compact_iri(&context, "foaf:name"),
        Some("http://xmlns.com/foaf/0.1/name".to_string())
    );
    assert_eq!(expand_compact_iri(&context, "dc:title"), None);
    assert_eq!(expand_compact_iri(&context, "plain"), None);
    assert_eq!(
        expand_compact_iri(&context, "foaf:a:b"),
        Some("http://xmlns.com/foaf/0.1/a:b".to_string())
    );
}

#[test]
fn context_references_prefer_iri_then_prefix_then_vocab() {
    let with_vocab = context_of(r#"{"@vocab": "https://schema.org/"}"#);
    assert_eq!(expand_context_reference(&with_vocab, "knows"), "https://schema.org/knows");
    assert_eq!(
        expand_context_reference(&with_vocab, "http://example.com/p"),
        "http://example.com/p"
    );
    let without = context_of("{}");
    assert_eq!(expand_context_reference(&without, "knows"), "knows");
}

#[test]
fn null_context_resets_to_the_empty_context() {
    let context = context_of("null");
    assert_eq!(context.vocab, None);
    assert!(context.term_map.is_empty());
    assert!(context.id_properties.is_empty());
}

#[test]
fn context_arrays_derive_entry_by_entry() {
    let context = context_of(
        r#"[{"@vocab": "http://a.example/", "t": "http://a.example/t"}, {"@vocab": null, "u": "t:x"}]"#,
    );
    assert_eq!(context.vocab, None);
    assert_eq!(expand_term(Some(&context), "t"), "http://a.example/t");
    assert_eq!(expand_term(Some(&context), "u"), "t:x");
    assert_eq!(expand_term(Some(&context), "other"), "other");
}

#[test]
fn term_definitions_can_be_removed() {
    let context = context_of(
        r#"[{"knows": {"@id": "http://xmlns.com/foaf/0.1/knows", "@type": "@id"}}, {"knows": null}]"#,
    );
    assert!(context.term_map.is_empty());
    assert!(context.id_properties.is_empty());
}

#[test]
fn id_coercion_is_recorded_by_expanded_identifier() {
    let context = context_of(
        r#"{"@vocab": "https://schema.org/", "knows": {"@type": "@id"}, "name": {"@id": "https://schema.org/name"}}"#,
    );
    assert_eq!(context.id_properties, vec!["https://schema.org/knows".to_string()]);
    assert_eq!(expand_term(Some(&context), "knows"), "https://schema.org/knows");
}

#[test]
fn remote_and_malformed_contexts_are_rejected() {
    assert!(matches!(
        parse_context_value(&json(r#""https://schema.org/""#), None),
        Err(ToolError::JsonLd(_))
    ));
    assert!(matches!(parse_context_value(&json("5"), None), Err(ToolError::JsonLd(_))));
    assert!(matches!(
        parse_context_value(&json(r#"{"@vocab": 5}"#), None),
        Err(ToolError::JsonLd(_))
    ));
    assert!(matches!(
        parse_context_value(&json(r#"{"term": 5}"#), None),
        Err(ToolError::JsonLd(_))
    ));
    assert!(matches!(
        parse_context_value(&json(r#"{"term": {"@id": 5}}"#), None),
        Err(ToolError::JsonLd(_))
    ));
}

#[test]
fn bare_strings_that_look_like_iris_become_references() {
    let nodes = nodes_of(
        r#"{"@id": "ex:1", "ex:home": "https://example.com/", "ex:mail": "mailto:a@example.com", "ex:time": "12:30", "ex:name": "Alice Smith", "ex:note": "see: below", "ex:plain": "word"}"#,
    );
    let node = &nodes[0];
    assert_eq!(node.get("ex:home"), Some(&reference("https://example.com/")));
    assert_eq!(node.get("ex:mail"), Some(&reference("mailto:a@example.com")));
    assert_eq!(node.get("ex:name"), Some(&text("Alice Smith")));
    assert_eq!(node.get("ex:note"), Some(&text("see: below")));
    assert_eq!(node.get("ex:plain"), Some(&text("word")));
    assert_eq!(node.get("ex:time"), Some(&text("12:30")));
}

#[test]
fn coerced_properties_hold_expanded_references() {
    let nodes = nodes_of(
        r#"{"@context": {"@vocab": "https://schema.org/", "ex": "http://example.com/", "knows": {"@type": "@id"}},
            "@id": "http://example.com/1", "knows": "bob", "mentor": "ex:2",
            "name": "bob is not expanded here"}"#,
    );
    let node = &nodes[0];
    assert_eq!(node.get("https://schema.org/knows"), Some(&reference("https://schema.org/bob")));
    assert_eq!(node.get("https://schema.org/name"), Some(&text("bob is not expanded here")));
    assert_eq!(node.get("https://schema.org/mentor"), Some(&reference("ex:2")));
}

#[test]
fn values_of_every_kind_are_read() {
    let value = |source: &str| parse_property_value(&json(source), None, false).expect("value");
    assert_eq!(value("null"), PropertyValue::Scalar(ScalarValue::Null));
    assert_eq!(value("true"), PropertyValue::Scalar(ScalarValue::Boolean(true)));
    assert_eq!(
        value("30"),
        PropertyValue::Scalar(ScalarValue::Number(NumberValue::parse("30").unwrap()))
    );
    assert_eq!(value(r#"{"@id": "ex:2"}"#), reference("ex:2"));
    assert_eq!(value(r#"{"@value": "x"}"#), text("x"));
    assert_eq!(value(r#"{"@value": 1, "@id": 5}"#).clone(), value("1"));
    assert_eq!(value(r#"{"b": 1, "a": [true]}"#), text(r#"{"a":[true],"b":1}"#));
    assert_eq!(
        value(r#"{"@set": ["a", "b"]}"#),
        PropertyValue::Array(ArrayValue::Scalars(vec![
            ScalarValue::String("a".to_string()),
            ScalarValue::String("b".to_string()),
        ]))
    );
    assert_eq!(value(r#"{"@list": {"@id": "ex:3"}}"#), reference("ex:3"));
    assert_eq!(value("[]"), PropertyValue::Array(ArrayValue::Scalars(vec![])));
}

#[test]
fn arrays_keep_the_order_of_their_members() {
    let value = |source: &str| parse_property_value(&json(source), None, false).expect("value");
    assert_eq!(
        value(r#"[{"@id": "ex:b"}, "ex:a", [{"@id": "ex:c"}], {"@list": ["ex:0"]}]"#),
        PropertyValue::Array(ArrayValue::ObjectRefs(vec![
            "ex:b".to_string(),
            "ex:a".to_string(),
            "ex:c".to_string(),
            "ex:0".to_string(),
        ]))
    );
    assert_eq!(
        value(r#"["z", 2, null, {"@value": false}, ["a"], {"k": 1}]"#),
        PropertyValue::Array(ArrayValue::Scalars(vec![
            ScalarValue::String("z".to_string()),
            ScalarValue::Number(NumberValue::parse("2").unwrap()),
            ScalarValue::Null,
            ScalarValue::Boolean(false),
            ScalarValue::String("a".to_string()),
            ScalarValue::String(r#"{"k":1}"#.to_string()),
        ]))
    );
}

#[test]
fn mixed_array_is_a_jsonld_error() {
    let mixed = json(r#"["literal", {"@id": "ex:2"}]"#);
    assert!(matches!(parse_property_value(&mixed, None, false), Err(ToolError::JsonLd(_))));
    let document =
        json(r#"{"@id": "ex:1", "ex:knows": [{"@id": "ex:2"}, "some text", {"@id": "ex:3"}]}"#);
    match parse_jsonld_document(&document) {
        Err(ToolError::JsonLd(message)) => {
            assert!(message.contains("ex:knows"));
            assert!(message.contains("mixed"));
        }
        other => panic!("expected a JSON-LD error, found {:?}", other),
    }
    let nested = json(r#"[[1], ["ex:2"]]"#);
    assert!(matches!(parse_property_value(&nested, None, false), Err(ToolError::JsonLd(_))));
}

#[test]
fn reference_without_text_id_in_array_is_an_error() {
    let value = json(r#"[{"@id": 5}]"#);
    assert!(matches!(parse_property_value(&value, None, false), Err(ToolError::JsonLd(_))));
    let single = json(r#"{"@id": 5}"#);
    assert_eq!(
        parse_property_value(&single, None, false).unwrap(),
        text(r#"{"@id":5}"#)
    );
}

#[test]
fn anonymous_objects_with_equal_content_share_an_identifier() {
    let nodes = nodes_of(
        r#"[{"ex:name": "Alice", "ex:age": 30},
            {"@context": {"@vocab": "http://unused.example/"}, "ex:age": 30, "ex:name": "Alice"},
            {"ex:name": "Bob", "ex:age": 30}]"#,
    );
    assert_eq!(nodes.len(), 2);
    assert!(nodes.iter().all(|node| node.id().starts_with("urn:uuid:")));
    assert_eq!(nodes[0].id().len(), "urn:uuid:".len() + 36);
    assert_ne!(nodes[0].id(), nodes[1].id());
    let alice = nodes
        .iter()
        .find(|node| node.get("ex:name") == Some(&text("Alice")))
        .expect("Alice");
    assert_eq!(alice.id(), "urn:uuid:8d160ea9-f222-528f-8868-55d7911de00f");
}

#[test]
fn empty_identifier_counts_as_none() {
    let nodes = nodes_of(r#"[{"@id": "", "ex:p": "v"}, {"@id": "", "ex:p": "v"}]"#);
    assert_eq!(nodes.len(), 1);
    assert!(nodes[0].id().starts_with("urn:uuid:"));
}

#[test]
fn types_are_expanded_and_collected() {
    let nodes = nodes_of(
        r#"{"@context": {"@vocab": "https://schema.org/"}, "@graph": [
            {"@id": "ex:1", "@type": ["Person", 5, "https://schema.org/Agent"]},
            {"@id": "ex:1", "@type": "Thing"}]}"#,
    );
    assert_eq!(nodes.len(), 1);
    assert_eq!(
        nodes[0].types(),
        &vec![
            "https://schema.org/Agent".to_string(),
            "https://schema.org/Person".to_string(),
            "https://schema.org/Thing".to_string(),
        ]
    );
    let bad = json(r#"{"@id": "ex:1", "@type": 5}"#);
    assert!(matches!(parse_jsonld_document(&bad), Err(ToolError::JsonLd(_))));
}

#[test]
fn later_statements_replace_earlier_values() {
    let nodes = nodes_of(
        r#"[{"@id": "ex:1", "ex:p": "first", "ex:q": "kept"}, {"@id": "ex:1", "ex:p": "second"}]"#,
    );
    assert_eq!(nodes.len(), 1);
    assert_eq!(nodes[0].get("ex:p"), Some(&text("second")));
    assert_eq!(nodes[0].get("ex:q"), Some(&text("kept")));
}

#[test]
fn nested_contexts_do_not_leak_to_siblings() {
    let nodes = nodes_of(
        r#"{"@context": {"@vocab": "http://outer.example/"}, "@graph": [
            {"@context": {"@vocab": "http://inner.example/"}, "@id": "ex:1", "name": "a"},
            {"@id": "ex:2", "name": "b"}]}"#,
    );
    assert_eq!(nodes[0].get("http://inner.example/name"), Some(&text("a")));
    assert_eq!(nodes[1].get("http://outer.example/name"), Some(&text("b")));
}

#[test]
fn named_graphs_scope_their_nodes() {
    let nodes = nodes_of(
        r#"{"@graph": [
            {"@id": "ex:1", "ex:p": "default"},
            {"@id": "ex:g", "ex:label": "a graph with properties", "@graph": [
                {"@id": "ex:1", "ex:p": "named"}]},
            {"@graph": {"@id": "ex:3"}}]}"#,
    );
    let keys: Vec<(Option<&str>, &str)> = nodes
        .iter()
        .map(|node| (node.graph().as_deref(), node.id().as_str()))
        .collect();
    assert_eq!(
        keys,
        vec![(None, "ex:1"), (None, "ex:3"), (None, "ex:g"), (Some("ex:g"), "ex:1")]
    );
    assert_eq!(nodes[0].get("ex:p"), Some(&text("default")));
    assert_eq!(nodes[3].get("ex:p"), Some(&text("named")));
    assert_eq!(nodes[2].get("ex:label"), Some(&text("a graph with properties")));
}

#[test]
fn documents_that_are_no_graph_are_rejected() {
    assert!(matches!(parse_jsonld_document(&json("5")), Err(ToolError::JsonLd(_))));
    assert!(matches!(parse_jsonld_document(&json("[5]")), Err(ToolError::JsonLd(_))));
    assert!(matches!(
        parse_jsonld_document(&json(r#"{"@graph": "x"}"#)),
        Err(ToolError::JsonLd(_))
    ));
    assert_eq!(parse_jsonld_document(&json("[]")).unwrap(), Vec::<Node>::new());
    assert_eq!(
        parse_jsonld_document(&json(r#"{"@id": "ex:g", "@graph": null}"#)).unwrap(),
        Vec::<Node>::new()
    );
}

#[test]
fn expanded_document_groups_nodes_by_graph() {
    let mut alice = Node::new("ex:1");
    alice.add_type("ex:Person".to_string());
    alice.insert_property("ex:name".to_string(), text("Alice"));
    alice.insert_property("ex:knows".to_string(), reference("ex:2"));
    alice.insert_property(
        "ex:tags".to_string(),
        PropertyValue::Array(ArrayValue::Scalars(vec![
            ScalarValue::String("a".to_string()),
            ScalarValue::Null,
        ])),
    );
    let mut bob = Node::with_graph("ex:2", Some("ex:g".to_string()));
    bob.add_type("ex:Person".to_string());
    bob.add_type("ex:Agent".to_string());
    bob.insert_property(
        "ex:friends".to_string(),
        PropertyValue::Array(ArrayValue::ObjectRefs(vec!["ex:1".to_string()])),
    );
    let document = nodes_to_jsonld(&[alice.clone(), bob.clone()], None).expect("document");
    assert_eq!(
        document.to_text().unwrap(),
        concat_all(&[
            r#"{"@graph":[{"@id":"ex:1","@type":"ex:Person","ex:knows":{"@id":"ex:2"},"#,
            r#""ex:name":"Alice","ex:tags":["a",null]},"#,
            r#"{"@graph":[{"@id":"ex:2","@type":["ex:Agent","ex:Person"],"#,
            r#""ex:friends":[{"@id":"ex:1"}]}],"@id":"ex:g"}]}"#,
        ])
    );
    assert_eq!(parse_jsonld_document(&document).unwrap(), vec![alice, bob]);
}

fn concat_all(parts: &[&str]) -> String {
    parts.iter().map(|part| part.to_string()).collect()
}

#[test]
fn compaction_shortens_terms_against_the_context() {
    let mut alice = Node::new("https://example.com/people/1");
    alice.add_type("https://schema.org/Person".to_string());
    alice.insert_property("https://schema.org/name".to_string(), text("Alice"));
    let context = json(r#"{"@vocab": "https://schema.org/"}"#);
    let document = nodes_to_jsonld(&[alice], Some(&context)).expect("document");
    assert_eq!(document.get("@context"), Some(&context));
    assert_eq!(document.get("name"), Some(&JsonValue::String("Alice".to_string())));
    assert_eq!(document.get("@type"), Some(&JsonValue::String("Person".to_string())));
}

#[test]
fn context_failures_name_the_term() {
    match parse_context_value(&json(r#"{"name": 3}"#), None) {
        Err(ToolError::JsonLd(message)) => assert_eq!(
            message,
            "invalid term definition for 'name': expected string, object, or null"
        ),
        _ => panic!("expected a JSON-LD failure"),
    }
    match parse_context_value(&json(r#"{"name": {"@id": 3}}"#), None) {
        Err(ToolError::JsonLd(message)) => assert_eq!(
            message,
            "invalid @id definition for term 'name': expected string or null"
        ),
        _ => panic!("expected a JSON-LD failure"),
    }
}
