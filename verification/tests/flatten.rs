use aideon_tools::flatten::{build_workbook, sanitize_sheet_name, SheetNameRegistry};
use aideon_tools::model::{ArrayValue, Node, NumberValue, PropertyValue, ScalarValue};

fn text(value: &str) -> PropertyValue {
    PropertyValue::Scalar(ScalarValue::String(value.to_string()))
}

fn strings(values: &[&str]) -> Vec<String> {
    values.iter().map(|value| value.to_string()).collect()
}

#[test]
fn sanitize_replaces_forbidden_characters() {
    assert_eq!(sanitize_sheet_name("https://schema.org/Person"), "https___schema.org_Person");
    assert_eq!(sanitize_sheet_name("a:b\\c/d?e*f[g]h'i\"j"), "a_b_c_d_e_f_g_h_i_j");
    assert_eq!(sanitize_sheet_name("tab\there"), "tab_here");
}

#[test]
fn sanitize_trims_defaults_and_caps() {
    assert_eq!(sanitize_sheet_name("  padded  "), "padded");
    assert_eq!(sanitize_sheet_name(""), "Sheet");
    assert_eq!(sanitize_sheet_name("   "), "Sheet");
    let long = "abcdefghijklmnopqrstuvwxyz0123456789";
    assert_eq!(sanitize_sheet_name(long), "abcdefghijklmnopqrstuvwxyz01234");
    assert_eq!(sanitize_sheet_name(long).chars().count(), 31);
}

#[test]
fn registry_resolves_collisions_with_counters() {
    let mut registry = SheetNameRegistry::new();
    registry.claim("Entities".to_string());
    registry.claim("Metadata".to_string());
    assert_eq!(registry.assign("ex:Person"), "ex_Person");
    assert_eq!(registry.assign("ex/Person"), "ex_Person_1");
    assert_eq!(registry.assign("ex?Person"), "ex_Person_2");
    assert_eq!(registry.assign("Entities"), "Entities_1");
    let long = "abcdefghijklmnopqrstuvwxyz0123456789";
    assert_eq!(registry.assign(long), "abcdefghijklmnopqrstuvwxyz01234");
    assert_eq!(registry.assign(long), "abcdefghijklmnopqrstuvwxyz012_1");
}

#[test]
fn workbook_lists_entities_metadata_and_sorted_tables() {
    let mut alice = Node::new("ex:1");
    alice.add_type("ex:Person".to_string());
    alice.insert_property("ex:name".to_string(), text("Alice"));
    alice.insert_property(
        "ex:knows".to_string(),
        PropertyValue::Array(ArrayValue::ObjectRefs(strings(&["ex:2"]))),
    );
    let mut bob = Node::new("ex:2");
    bob.add_type("ex:Person".to_string());
    bob.insert_property("ex:name".to_string(), text("Bob"));

    let workbook = build_workbook(&[alice, bob]).expect("workbook built");
    let names: Vec<&str> = workbook.tables.iter().map(|t| t.sheet_name.as_str()).collect();
    assert_eq!(names, vec!["Entities", "Metadata", "ex_Person", "ex_Person__ex_knows"]);

    let entities = &workbook.tables[0];
    assert_eq!(entities.columns, strings(&["id", "type"]));
    assert_eq!(
        entities.rows,
        vec![strings(&["ex:1", "ex:Person"]), strings(&["ex:2", "ex:Person"])]
    );

    let metadata = &workbook.tables[1];
    assert_eq!(metadata.columns, strings(&["kind", "sheet", "type", "predicate"]));
    assert_eq!(
        metadata.rows,
        vec![
            strings(&["type", "ex_Person", "ex:Person", ""]),
            strings(&["child", "ex_Person__ex_knows", "ex:Person", "ex:knows"]),
        ]
    );

    let people = &workbook.tables[2];
    assert_eq!(people.columns, strings(&["id", "ex:name"]));
    assert_eq!(
        people.rows,
        vec![strings(&["ex:1", "\"Alice\""]), strings(&["ex:2", "\"Bob\""])]
    );

    let knows = &workbook.tables[3];
    assert_eq!(knows.columns, strings(&["ParentId", "ex:knowsId"]));
    assert_eq!(knows.rows, vec![strings(&["ex:1", "ex:2"])]);
}

#[test]
fn untyped_node_is_listed_under_the_marker() {
    let mut thing = Node::new("ex:thing");
    thing.insert_property(
        "ex:size".to_string(),
        PropertyValue::Scalar(ScalarValue::Number(NumberValue::parse("30").unwrap())),
    );
    thing.insert_property("ex:flag".to_string(), PropertyValue::Scalar(ScalarValue::Boolean(true)));
    thing.insert_property("ex:none".to_string(), PropertyValue::Scalar(ScalarValue::Null));
    thing.insert_property("ex:owner".to_string(), PropertyValue::ObjectRef("ex:1".to_string()));
    let workbook = build_workbook(&[thing]).expect("workbook built");
    assert_eq!(workbook.tables[0].rows, vec![strings(&["ex:thing", "__untyped__"])]);
    let table = &workbook.tables[2];
    assert_eq!(table.sheet_name, "__untyped__");
    assert_eq!(table.columns, strings(&["id", "ex:flag", "ex:none", "ex:ownerId", "ex:size"]));
    assert_eq!(table.rows, vec![strings(&["ex:thing", "true", "null", "ex:1", "30.0"])]);
}

#[test]
fn every_literal_has_a_cell() {
    let mut node = Node::new("ex:n");
    node.insert_property(
        "ex:nan".to_string(),
        PropertyValue::Scalar(ScalarValue::Number(NumberValue::parse("NaN").unwrap())),
    );
    node.insert_property(
        "ex:huge".to_string(),
        PropertyValue::Scalar(ScalarValue::Number(NumberValue::parse("1e400").unwrap())),
    );
    node.insert_property(
        "ex:text".to_string(),
        PropertyValue::Scalar(ScalarValue::String("\u{0}\u{1f}\"\\\u{10ffff}".to_string())),
    );
    node.insert_property("ex:list".to_string(), PropertyValue::Array(ArrayValue::Scalars(vec![])));
    assert!(build_workbook(&[node]).is_ok());
}
