use aideon_tools::error::ToolError;
use aideon_tools::excel_read::{
    parse_metadata, parse_property_entry, read_nodes, read_required_sheet, string_at,
};
use aideon_tools::flatten::{build_workbook, table_extent, SheetTable, WorkbookData};
use aideon_tools::json::JsonValue;
use aideon_tools::jsonld::parse_jsonld_document;
use aideon_tools::model::{ArrayValue, Node, NumberValue, PropertyValue, ScalarValue};
use aideon_tools::roundtrip::{comes_back, same_value};

fn strings(values: &[&str]) -> Vec<String> {
    values.iter().map(|value| value.to_string()).collect()
}

fn table(name: &str, columns: &[&str], rows: &[&[&str]]) -> SheetTable {
    SheetTable {
        sheet_name: name.to_string(),
        columns: strings(columns),
        rows: rows.iter().map(|row| strings(row)).collect(),
    }
}

fn text(value: &str) -> PropertyValue {
    PropertyValue::Scalar(ScalarValue::String(value.to_string()))
}

fn person_workbook() -> WorkbookData {
    WorkbookData {
        tables: vec![
            table("Entities", &["id", "type"], &[&["ex:1", "ex:Person"], &["ex:2", "ex:Person"]]),
            table(
                "Metadata",
                &["kind", "sheet", "type", "predicate"],
                &[
                    &["type", "ex_Person", "ex:Person", ""],
                    &["child", "ex_Person__ex_knows", "ex:Person", "ex:knows"],
                ],
            ),
            table(
                "ex_Person",
                &["id", "ex:name"],
                &[&["ex:1", "\"Alice\""], &["ex:2", "\"Bob\""]],
            ),
            table("ex_Person__ex_knows", &["ParentId", "ex:knowsId"], &[&["ex:1", "ex:2"]]),
        ],
    }
}

#[test]
fn flatten_end_to_end_example() {
    let document = JsonValue::parse(
        r#"{"@graph":[{"@id":"ex:1","@type":"ex:Person","ex:name":"Alice","ex:knows":[{"@id":"ex:2"}]},{"@id":"ex:2","@type":"ex:Person","ex:name":"Bob"}]}"#,
    )
    .unwrap();
    let nodes = parse_jsonld_document(&document).unwrap();
    let workbook = build_workbook(&nodes).unwrap();
    assert_eq!(workbook, person_workbook());
    assert_eq!(read_nodes(&workbook).unwrap(), nodes);
}

#[test]
fn cells_beyond_the_row_are_empty() {
    let row = strings(&["a", "b"]);
    assert_eq!(string_at(&row, 0), "a");
    assert_eq!(string_at(&row, 1), "b");
    assert_eq!(string_at(&row, 2), "");
}

#[test]
fn missing_sheets_are_invalid_workbooks() {
    let mut workbook = person_workbook();
    assert!(read_required_sheet(&workbook, "Entities").is_ok());
    assert!(matches!(
        read_required_sheet(&workbook, "entities"),
        Err(ToolError::InvalidWorkbook(_))
    ));
    workbook.tables.remove(3);
    match read_nodes(&workbook) {
        Err(ToolError::InvalidWorkbook(message)) => {
            assert_eq!(message, "missing sheet 'ex_Person__ex_knows'")
        }
        other => panic!("expected an invalid workbook, found {:?}", other),
    }
    workbook.tables.remove(0);
    assert!(matches!(read_nodes(&workbook), Err(ToolError::InvalidWorkbook(_))));
    assert!(matches!(
        read_nodes(&WorkbookData { tables: vec![] }),
        Err(ToolError::InvalidWorkbook(_))
    ));
}

#[test]
fn metadata_kinds_are_checked() {
    let good = table(
        "Metadata",
        &["kind", "sheet", "type", "predicate"],
        &[
            &["type", "A", "ex:A", ""],
            &["", "ignored", "x", "y"],
            &["child", "A__p", "ex:A", "ex:p"],
            &["type", "A", "ex:B"],
        ],
    );
    let roles = parse_metadata(&good).unwrap();
    assert_eq!(roles.type_sheets, vec![("A".to_string(), "ex:B".to_string())]);
    assert_eq!(roles.child_sheets, vec![("A__p".to_string(), "ex:p".to_string())]);
    let bad = table("Metadata", &["kind"], &[&["type", "A", "ex:A"], &["table", "B", "ex:B"]]);
    match parse_metadata(&bad) {
        Err(ToolError::InvalidWorkbook(message)) => {
            assert_eq!(message, "unknown metadata kind 'table'")
        }
        other => panic!("expected an invalid workbook, found {:?}", other.map(|_| ())),
    }
}

#[test]
fn cells_are_decoded_by_their_header() {
    assert_eq!(
        parse_property_entry("ex:knowsId", "ex:2").unwrap(),
        ("ex:knows".to_string(), PropertyValue::ObjectRef("ex:2".to_string()))
    );
    assert_eq!(
        parse_property_entry("ex:name", "\"Alice\"").unwrap(),
        ("ex:name".to_string(), text("Alice"))
    );
    assert_eq!(
        parse_property_entry("ex:age", "30.0").unwrap(),
        (
            "ex:age".to_string(),
            PropertyValue::Scalar(ScalarValue::Number(NumberValue::parse("30").unwrap()))
        )
    );
    assert_eq!(
        parse_property_entry("ex:tags", "[\"a\", 1, null, true, [2], {\"k\": 1}]").unwrap(),
        (
            "ex:tags".to_string(),
            PropertyValue::Array(ArrayValue::Scalars(vec![
                ScalarValue::String("a".to_string()),
                ScalarValue::Number(NumberValue::parse("1").unwrap()),
                ScalarValue::Null,
                ScalarValue::Boolean(true),
                ScalarValue::String("[2]".to_string()),
                ScalarValue::String("{\"k\":1}".to_string()),
            ]))
        )
    );
    assert_eq!(
        parse_property_entry("ex:obj", "{\"b\": 1}").unwrap(),
        ("ex:obj".to_string(), text("{\"b\":1}"))
    );
    assert!(matches!(parse_property_entry("ex:name", "Alice"), Err(ToolError::Json(_))));
}

#[test]
fn rows_and_cells_without_content_are_skipped() {
    let workbook = WorkbookData {
        tables: vec![
            table(
                "Entities",
                &["id", "type"],
                &[&["", "ex:T"], &["ex:2", ""], &["ex:1", "__untyped__"], &["ex:1"]],
            ),
            table("Metadata", &["kind", "sheet", "type", "predicate"], &[&["type", "T", "ex:T"]]),
            table(
                "T",
                &["id", "ex:a", "", "ex:c"],
                &[
                    &["ex:1", "  ", "\"no header\"", "\"c\"", "\"beyond the headers\""],
                    &["", "\"no id\""],
                    &["ex:3", "1"],
                ],
            ),
        ],
    };
    let nodes = read_nodes(&workbook).unwrap();
    let mut first = Node::new("ex:1");
    first.add_type("ex:T".to_string());
    first.insert_property("ex:c".to_string(), text("c"));
    let second = Node::new("ex:2");
    assert_eq!(nodes, vec![first, second]);
}

#[test]
fn type_and_child_rows_add_no_node() {
    let workbook = WorkbookData {
        tables: vec![
            table("Entities", &["id", "type"], &[&["a", "T"]]),
            table(
                "Metadata",
                &["kind", "sheet", "type", "predicate"],
                &[&["type", "T", "T", ""], &["child", "C", "T", "p"]],
            ),
            table("T", &["id", "q"], &[&["a", "1"], &["ghost", "2"]]),
            table("C", &["ParentId", "pId"], &[&["ghost", "a"], &["a", "ghost"]]),
        ],
    };
    let mut only = Node::new("a");
    only.add_type("T".to_string());
    only.insert_property(
        "q".to_string(),
        PropertyValue::Scalar(ScalarValue::Number(NumberValue::parse("1").unwrap())),
    );
    only.insert_property(
        "p".to_string(),
        PropertyValue::Array(ArrayValue::ObjectRefs(strings(&["ghost"]))),
    );
    assert_eq!(read_nodes(&workbook).unwrap(), vec![only]);
}

#[test]
fn references_come_back_in_their_order() {
    let mut node = Node::new("n1");
    node.add_type("T".to_string());
    node.insert_property(
        "p".to_string(),
        PropertyValue::Array(ArrayValue::ObjectRefs(strings(&["y", "x", "y"]))),
    );
    let mut other = Node::new("n0");
    other.add_type("T".to_string());
    other.insert_property(
        "p".to_string(),
        PropertyValue::Array(ArrayValue::ObjectRefs(strings(&["z", "a"]))),
    );
    let nodes = vec![other, node];
    assert!(comes_back(&nodes));
    let workbook = build_workbook(&nodes).unwrap();
    let child = workbook.tables.iter().find(|table| table.columns[0] == "ParentId").unwrap();
    assert_eq!(
        child.rows,
        vec![
            strings(&["n0", "z"]),
            strings(&["n0", "a"]),
            strings(&["n1", "y"]),
            strings(&["n1", "x"]),
            strings(&["n1", "y"]),
        ]
    );
    assert_eq!(read_nodes(&workbook).unwrap(), nodes);
}

#[test]
fn type_sheet_without_header_is_ignored() {
    let workbook = WorkbookData {
        tables: vec![
            table("Entities", &["id", "type"], &[&["ex:1", "ex:T"]]),
            table("Metadata", &["kind", "sheet", "type", "predicate"], &[&["type", "T", "ex:U"]]),
            table("T", &[], &[&["ex:9", "\"x\""]]),
        ],
    };
    let mut only = Node::new("ex:1");
    only.add_type("ex:T".to_string());
    assert_eq!(read_nodes(&workbook).unwrap(), vec![only]);
}

#[test]
fn child_rows_append_targets_in_row_order() {
    let workbook = WorkbookData {
        tables: vec![
            table("Entities", &["id", "type"], &[&["ex:1", "ex:T"]]),
            table(
                "Metadata",
                &["kind", "sheet", "type", "predicate"],
                &[&["child", "C", "ex:T", "ex:p"]],
            ),
            table(
                "C",
                &["ParentId", "ex:pId"],
                &[&["ex:1", "ex:b"], &["ex:1", ""], &["", "ex:z"], &["ex:1", "ex:a"], &["ex:9", "ex:1"]],
            ),
        ],
    };
    let nodes = read_nodes(&workbook).unwrap();
    let mut first = Node::new("ex:1");
    first.add_type("ex:T".to_string());
    first.insert_property(
        "ex:p".to_string(),
        PropertyValue::Array(ArrayValue::ObjectRefs(strings(&["ex:b", "ex:a"]))),
    );
    assert_eq!(nodes, vec![first]);
}

#[test]
fn child_sheet_against_other_value_is_invalid() {
    let workbook = WorkbookData {
        tables: vec![
            table("Entities", &["id", "type"], &[&["ex:1", "ex:T"]]),
            table(
                "Metadata",
                &["kind", "sheet", "type", "predicate"],
                &[&["type", "T", "ex:T", ""], &["child", "C", "ex:T", "ex:p"]],
            ),
            table("T", &["id", "ex:p"], &[&["ex:1", "\"a literal\""]]),
            table("C", &["ParentId", "ex:pId"], &[&["ex:1", "ex:2"]]),
        ],
    };
    match read_nodes(&workbook) {
        Err(ToolError::InvalidWorkbook(message)) => {
            assert_eq!(message, "predicate 'ex:p' is not an object reference array")
        }
        other => panic!("expected an invalid workbook, found {:?}", other),
    }
}

#[test]
fn flatten_then_unflatten_gives_the_nodes_back() {
    let mut first = Node::new("ex:a");
    first.add_type("ex:T".to_string());
    first.add_type("ex:U".to_string());
    first.insert_property("ex:text".to_string(), text("with \"quotes\" and \\ and \n"));
    first.insert_property("ex:empty".to_string(), text(""));
    first.insert_property("ex:flag".to_string(), PropertyValue::Scalar(ScalarValue::Boolean(true)));
    first.insert_property("ex:none".to_string(), PropertyValue::Scalar(ScalarValue::Null));
    first.insert_property(
        "ex:size".to_string(),
        PropertyValue::Scalar(ScalarValue::Number(NumberValue::parse("-12.5").unwrap())),
    );
    first.insert_property("ex:owner".to_string(), PropertyValue::ObjectRef("ex:b".to_string()));
    first.insert_property(
        "ex:list".to_string(),
        PropertyValue::Array(ArrayValue::Scalars(vec![
            ScalarValue::String("x".to_string()),
            ScalarValue::Null,
            ScalarValue::Boolean(false),
            ScalarValue::Number(NumberValue::parse("3").unwrap()),
        ])),
    );
    first.insert_property(
        "ex:none_yet".to_string(),
        PropertyValue::Array(ArrayValue::Scalars(vec![])),
    );
    first.insert_property(
        "ex:peers".to_string(),
        PropertyValue::Array(ArrayValue::ObjectRefs(strings(&["ex:b", "ex:c", "ex:c"]))),
    );
    let mut second = Node::new("ex:b");
    second.insert_property("ex:text".to_string(), text("untyped"));
    let mut third = Node::new("ex:c");
    third.add_type("ex:T".to_string());
    let nodes = vec![first, second, third];
    let workbook = build_workbook(&nodes).unwrap();
    assert_eq!(read_nodes(&workbook).unwrap(), nodes);
}

#[test]
fn what_flatten_cannot_carry_is_lost() {
    let mut node = Node::with_graph("ex:a", Some("ex:g".to_string()));
    node.add_type("ex:T".to_string());
    node.insert_property("ex:userId".to_string(), text("u1"));
    node.insert_property(
        "ex:none".to_string(),
        PropertyValue::Array(ArrayValue::ObjectRefs(vec![])),
    );
    node.insert_property(
        "ex:order".to_string(),
        PropertyValue::Array(ArrayValue::ObjectRefs(strings(&["ex:z", "ex:y"]))),
    );
    node.insert_property(
        "ex:nan".to_string(),
        PropertyValue::Scalar(ScalarValue::Number(NumberValue::parse("NaN").unwrap())),
    );
    let restored = read_nodes(&build_workbook(&[node]).unwrap()).unwrap();
    let mut expected = Node::new("ex:a");
    expected.add_type("ex:T".to_string());
    expected.insert_property("ex:user".to_string(), PropertyValue::ObjectRef("\"u1\"".to_string()));
    expected.insert_property(
        "ex:order".to_string(),
        PropertyValue::Array(ArrayValue::ObjectRefs(strings(&["ex:z", "ex:y"]))),
    );
    expected.insert_property("ex:nan".to_string(), PropertyValue::Scalar(ScalarValue::Null));
    assert_eq!(restored, vec![expected]);
}

#[test]
fn tables_count_types_and_memberships() {
    let mut first = Node::new("ex:1");
    first.add_type("ex:A".to_string());
    first.add_type("ex:B".to_string());
    let mut second = Node::new("ex:2");
    second.add_type("ex:B".to_string());
    let third = Node::new("ex:0");
    let workbook = build_workbook(&[first, second, third]).unwrap();
    assert_eq!(
        workbook.tables[0].rows,
        vec![
            strings(&["ex:0", "__untyped__"]),
            strings(&["ex:1", "ex:A"]),
            strings(&["ex:1", "ex:B"]),
            strings(&["ex:2", "ex:B"]),
        ]
    );
    let kinds: Vec<&str> = workbook.tables[1].rows.iter().map(|row| row[0].as_str()).collect();
    assert_eq!(kinds, vec!["type", "type", "type"]);
    assert_eq!(workbook.tables.len(), 5);
}

#[test]
fn colliding_sheet_names_are_told_apart() {
    let mut first = Node::new("ex:1");
    first.add_type("ex:Type".to_string());
    first.add_type("ex/Type".to_string());
    first.add_type("Metadata".to_string());
    first.add_type("a type with a name of more than thirty-one characters".to_string());
    first.add_type("a type with a name of more than thirty-one characters!".to_string());
    let workbook = build_workbook(&[first.clone()]).unwrap();
    let mut names: Vec<&str> = workbook.tables.iter().map(|t| t.sheet_name.as_str()).collect();
    assert_eq!(
        names,
        vec![
            "Entities",
            "Metadata",
            "Metadata_1",
            "a type with a name of more th_1",
            "a type with a name of more than",
            "ex_Type",
            "ex_Type_1",
        ]
    );
    assert!(names.iter().all(|name| name.chars().count() <= 31));
    names.dedup();
    assert_eq!(names.len(), 7);
    assert_eq!(read_nodes(&workbook).unwrap(), vec![first]);
}

#[test]
fn table_extent_covers_header_and_rows() {
    assert_eq!(table_extent(&table("T", &["id", "a", "b"], &[&["1"], &["2"]])), (2, 2));
    assert_eq!(table_extent(&table("T", &["id"], &[])), (0, 0));
    assert_eq!(table_extent(&table("T", &[], &[])), (0, 0));
}

#[test]
fn nodes_that_come_back_are_told_from_those_that_do_not() {
    let mut first = Node::new("ex:a");
    first.add_type("ex:T".to_string());
    first.insert_property("ex:text".to_string(), text("hello"));
    first.insert_property("ex:owner".to_string(), PropertyValue::ObjectRef("ex:b".to_string()));
    first.insert_property(
        "ex:size".to_string(),
        PropertyValue::Scalar(ScalarValue::Number(NumberValue::parse("0.1").unwrap())),
    );
    first.insert_property(
        "ex:peers".to_string(),
        PropertyValue::Array(ArrayValue::ObjectRefs(strings(&["ex:b", "ex:b", "ex:c"]))),
    );
    let second = Node::new("ex:b");
    let good = vec![first.clone(), second.clone()];
    assert!(comes_back(&good));
    assert_eq!(read_nodes(&build_workbook(&good).unwrap()).unwrap(), good);

    assert!(!comes_back(&[second.clone(), first.clone()]));
    assert!(!comes_back(&[first.clone(), first.clone()]));
    assert!(!comes_back(&[Node::with_graph("ex:a", Some("ex:g".to_string()))]));
    assert!(!comes_back(&[Node::new("")]));

    let with = |predicate: &str, value: PropertyValue| {
        let mut node = Node::new("ex:n");
        node.insert_property(predicate.to_string(), value);
        vec![node]
    };
    assert!(comes_back(&with("ex:p", text(""))));
    assert!(!comes_back(&with("ex:userId", text("u1"))));
    assert!(!comes_back(&with("", text("x"))));
    assert!(comes_back(&with("", PropertyValue::ObjectRef("ex:x".to_string()))));
    assert!(!comes_back(&with("ex:p", PropertyValue::ObjectRef("  ".to_string()))));
    assert!(!comes_back(&with(
        "ex:p",
        PropertyValue::Scalar(ScalarValue::Number(NumberValue::parse("NaN").unwrap()))
    )));
    assert!(!comes_back(&with("ex:p", PropertyValue::Array(ArrayValue::ObjectRefs(vec![])))));
    assert!(comes_back(&with(
        "ex:p",
        PropertyValue::Array(ArrayValue::ObjectRefs(strings(&["ex:z", "ex:y"])))
    )));
    assert!(!comes_back(&with(
        "ex:p",
        PropertyValue::Array(ArrayValue::ObjectRefs(strings(&["ex:y", ""])))
    )));
    let mut marked = Node::new("ex:n");
    marked.add_type("__untyped__".to_string());
    assert!(!comes_back(&[marked]));
}

#[test]
fn values_are_compared_by_what_they_hold() {
    let number = |source: &str| {
        PropertyValue::Scalar(ScalarValue::Number(NumberValue::parse(source).unwrap()))
    };
    assert!(same_value(&number("30"), &number("3e1")));
    assert!(!same_value(&number("30"), &number("31")));
    assert!(!same_value(&number("30"), &text("30")));
    assert!(same_value(&text("a"), &text("a")));
    assert!(!same_value(&text("a"), &PropertyValue::ObjectRef("a".to_string())));
    let list = |items: &[&str]| PropertyValue::Array(ArrayValue::ObjectRefs(strings(items)));
    assert!(same_value(&list(&["a", "b"]), &list(&["a", "b"])));
    assert!(!same_value(&list(&["a", "b"]), &list(&["a"])));
    assert!(!same_value(&list(&["a", "b"]), &list(&["a", "c"])));
    assert!(!same_value(&list(&[]), &PropertyValue::Array(ArrayValue::Scalars(vec![]))));
}

#[test]
fn a_type_table_gives_only_a_first_type() {
    let workbook = WorkbookData {
        tables: vec![
            table(
                "Entities",
                &["id", "type"],
                &[&["a", "T"], &["b", "__untyped__"], &["c", ""]],
            ),
            table(
                "Metadata",
                &["kind", "sheet", "type", "predicate"],
                &[&["type", "U", "U", ""], &["type", "V", "V", ""]],
            ),
            table("U", &["id", "q"], &[&["a", "1"], &["b", "2"]]),
            table("V", &["id", "r"], &[&["b", "3"], &["c", "4"]]),
        ],
    };
    let value = |source: &str| {
        PropertyValue::Scalar(ScalarValue::Number(NumberValue::parse(source).unwrap()))
    };
    let mut a = Node::new("a");
    a.add_type("T".to_string());
    a.insert_property("q".to_string(), value("1"));
    let mut b = Node::new("b");
    b.add_type("U".to_string());
    b.insert_property("q".to_string(), value("2"));
    b.insert_property("r".to_string(), value("3"));
    let mut c = Node::new("c");
    c.add_type("V".to_string());
    c.insert_property("r".to_string(), value("4"));
    assert_eq!(read_nodes(&workbook).unwrap(), vec![a, b, c]);
}
