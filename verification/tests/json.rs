use aideon_tools::error::ToolError;
use aideon_tools::json::{copy_json, insert_member, is_well_formed, scalar_of_json, JsonValue};
use aideon_tools::model::{NumberValue, ScalarValue};

#[test]
fn parse_reads_values_with_sorted_members() {
    let value = JsonValue::parse(r#"{"b": [1, "x", null, true], "a": {"z": 1.5, "y": -2}}"#)
        .expect("JSON parsed");
    let members = match &value {
        JsonValue::Object(members) => members,
        _ => panic!("object"),
    };
    let keys: Vec<&str> = members.iter().map(|member| member.0.as_str()).collect();
    assert_eq!(keys, vec!["a", "b"]);
    assert!(is_well_formed(&value));
    assert_eq!(value.to_text().unwrap(), r#"{"a":{"y":-2,"z":1.5},"b":[1,"x",null,true]}"#);
    assert_eq!(value.get("c"), None);
    assert_eq!(value.get("b").and_then(|b| b.get("x")), None);
}

#[test]
fn parse_rejects_what_is_not_json() {
    assert!(matches!(JsonValue::parse("{"), Err(ToolError::Json(_))));
    assert!(matches!(JsonValue::parse(""), Err(ToolError::Json(_))));
    assert!(matches!(JsonValue::parse("[1,]"), Err(ToolError::Json(_))));
}

#[test]
fn text_escapes_strings() {
    let value = JsonValue::String("a\"b\\c\n".to_string());
    assert_eq!(value.to_text().unwrap(), r#""a\"b\\c\n""#);
    assert_eq!(JsonValue::parse(r#""a\"b\\c\n""#).unwrap(), value);
    assert_eq!(value.as_text(), Some(&"a\"b\\c\n".to_string()));
    assert_eq!(JsonValue::Null.as_text(), None);
}

#[test]
fn pretty_text_is_indented() {
    let value = JsonValue::parse(r#"{"a":[1]}"#).unwrap();
    assert_eq!(value.to_pretty_text().unwrap(), "{\n  \"a\": [\n    1\n  ]\n}");
}

#[test]
fn unsorted_members_are_not_well_formed() {
    let unsorted = JsonValue::Object(vec![
        ("b".to_string(), JsonValue::Null),
        ("a".to_string(), JsonValue::Null),
    ]);
    assert!(!is_well_formed(&unsorted));
    let twice = JsonValue::Object(vec![
        ("a".to_string(), JsonValue::Null),
        ("a".to_string(), JsonValue::Bool(true)),
    ]);
    assert!(!is_well_formed(&twice));
    let nested = JsonValue::Array(vec![JsonValue::Null, unsorted]);
    assert!(!is_well_formed(&nested));
    assert!(is_well_formed(&JsonValue::Array(vec![JsonValue::Null])));
}

#[test]
fn insert_member_keeps_members_sorted() {
    let mut members: Vec<(String, JsonValue)> = Vec::new();
    insert_member(&mut members, "b".to_string(), JsonValue::Bool(true));
    insert_member(&mut members, "a".to_string(), JsonValue::Null);
    insert_member(&mut members, "c".to_string(), JsonValue::Null);
    insert_member(&mut members, "b".to_string(), JsonValue::Bool(false));
    let value = JsonValue::Object(members);
    assert!(is_well_formed(&value));
    assert_eq!(value.to_text().unwrap(), r#"{"a":null,"b":false,"c":null}"#);
    assert_eq!(copy_json(&value), value);
}

#[test]
fn scalars_to_json_and_back() {
    assert_eq!(ScalarValue::Null.to_json(), JsonValue::Null);
    assert_eq!(ScalarValue::Boolean(true).to_json(), JsonValue::Bool(true));
    assert_eq!(
        ScalarValue::String("x".to_string()).to_json(),
        JsonValue::String("x".to_string())
    );
    let number = ScalarValue::Number(NumberValue::parse("2.5").unwrap());
    assert_eq!(number.to_json().to_text().unwrap(), "2.5");
    let nan = ScalarValue::Number(NumberValue::parse("NaN").unwrap());
    assert_eq!(nan.to_json(), JsonValue::Null);

    let read = JsonValue::parse("[7, 2.5, \"t\", false, null, {\"k\": [1]}]").unwrap();
    let items = match &read {
        JsonValue::Array(items) => items,
        _ => panic!("array"),
    };
    let seven = scalar_of_json(&items[0]).ok().expect("scalar");
    assert_eq!(seven, ScalarValue::Number(NumberValue::parse("7").unwrap()));
    assert_eq!(seven.to_json().to_text().unwrap(), "7.0");
    assert_eq!(scalar_of_json(&items[1]).ok(), Some(number));
    assert_eq!(scalar_of_json(&items[2]).ok(), Some(ScalarValue::String("t".to_string())));
    assert_eq!(scalar_of_json(&items[3]).ok(), Some(ScalarValue::Boolean(false)));
    assert_eq!(scalar_of_json(&items[4]).ok(), Some(ScalarValue::Null));
    assert_eq!(
        scalar_of_json(&items[5]).ok(),
        Some(ScalarValue::String("{\"k\":[1]}".to_string()))
    );
}
