use aideon_tools::error::ToolError;
use aideon_tools::flatten::WorkbookData;
use aideon_tools::rdf::{Literal, Quad, RdfFormat, Resource, Term};
use aideon_tools::sync::{
    excel_to_jsonld, excel_to_rdf, jsonld_to_excel, jsonld_to_rdf, plan_sync, rdf_to_excel,
    rdf_to_jsonld, read_jsonld, required_rdf_format, resolve_rdf_format, Conversion, DataFormat,
};

const SOURCE: &str = r#"{"@graph":[{"@id":"ex:1","@type":"ex:Person","ex:name":"Alice","ex:knows":[{"@id":"ex:2"}]},{"@id":"ex:2","@type":"ex:Person","ex:name":"Bob"}]}"#;

fn name_quad(subject: &str, name: &str) -> Quad {
    Quad {
        subject: Resource::Named(subject.to_string()),
        predicate: "ex:name".to_string(),
        object: Term::Literal(Literal {
            value: name.to_string(),
            language: None,
            datatype: "http://www.w3.org/2001/XMLSchema#string".to_string(),
        }),
        graph: None,
    }
}

#[test]
fn every_pair_of_different_formats_has_a_conversion() {
    assert_eq!(plan_sync(DataFormat::JsonLd, DataFormat::Excel), Ok(Conversion::JsonLdToExcel));
    assert_eq!(plan_sync(DataFormat::Excel, DataFormat::JsonLd), Ok(Conversion::ExcelToJsonLd));
    assert_eq!(plan_sync(DataFormat::JsonLd, DataFormat::Rdf), Ok(Conversion::JsonLdToRdf));
    assert_eq!(plan_sync(DataFormat::Excel, DataFormat::Rdf), Ok(Conversion::ExcelToRdf));
    assert_eq!(plan_sync(DataFormat::Rdf, DataFormat::Excel), Ok(Conversion::RdfToExcel));
    assert_eq!(plan_sync(DataFormat::Rdf, DataFormat::JsonLd), Ok(Conversion::RdfToJsonLd));
}

#[test]
fn identity_conversions_are_unsupported() {
    assert_eq!(
        plan_sync(DataFormat::Excel, DataFormat::Excel),
        Err(ToolError::UnsupportedConversion { from: "xlsx".to_string(), to: "xlsx".to_string() })
    );
    let error = plan_sync(DataFormat::JsonLd, DataFormat::JsonLd).unwrap_err();
    assert_eq!(error.message(), "unsupported conversion from \"jsonld\" to \"jsonld\"");
    assert!(plan_sync(DataFormat::Rdf, DataFormat::Rdf).is_err());
}

#[test]
fn rdf_format_is_explicit_or_guessed_or_turtle() {
    assert_eq!(resolve_rdf_format(Some(RdfFormat::NQuads), Some("ttl")), RdfFormat::NQuads);
    assert_eq!(resolve_rdf_format(None, Some("trig")), RdfFormat::TriG);
    assert_eq!(resolve_rdf_format(None, Some("xlsx")), RdfFormat::Turtle);
    assert_eq!(resolve_rdf_format(None, None), RdfFormat::Turtle);
    assert_eq!(required_rdf_format(Some(RdfFormat::NQuads), None), Ok(RdfFormat::NQuads));
    assert_eq!(required_rdf_format(None, Some("nt")), Ok(RdfFormat::NTriples));
    assert!(matches!(required_rdf_format(None, Some("xlsx")), Err(ToolError::Rdf(_))));
    assert!(matches!(required_rdf_format(None, None), Err(ToolError::Rdf(_))));
}

#[test]
fn error_messages_name_what_failed() {
    assert_eq!(ToolError::Io("gone".to_string()).message(), "I/O error: gone");
    assert_eq!(ToolError::Json("bad".to_string()).message(), "JSON error: bad");
    assert_eq!(ToolError::ExcelWrite("w".to_string()).message(), "Excel write error: w");
    assert_eq!(ToolError::ExcelRead("r".to_string()).message(), "Excel read error: r");
    assert_eq!(
        ToolError::InvalidWorkbook("missing sheet 'X'".to_string()).message(),
        "invalid workbook structure: missing sheet 'X'"
    );
    assert_eq!(
        ToolError::JsonLd("mixed".to_string()).message(),
        "JSON-LD normalization error: mixed"
    );
    assert_eq!(ToolError::Rdf("x".to_string()).message(), "RDF error: x");
    assert_eq!(ToolError::InvalidIri("y".to_string()).message(), "invalid IRI: y");
    assert_eq!(
        ToolError::InvalidBlankNode("z".to_string()).message(),
        "invalid blank node identifier: z"
    );
    assert_eq!(
        ToolError::MissingMetadata("S".to_string()).message(),
        "missing metadata entry for sheet S"
    );
    assert_eq!(
        ToolError::InvalidLiteral { column: "c".to_string(), value: "v".to_string() }.message(),
        "invalid literal value 'v' in column c"
    );
    assert_eq!(
        ToolError::MissingInput("in.ttl".to_string()).message(),
        "input file not found: in.ttl"
    );
    assert_eq!(
        ToolError::Logging("l".to_string()).message(),
        "failed to initialise logging: l"
    );
}

#[test]
fn jsonld_source_converts_to_workbook_and_quads() {
    let workbook = jsonld_to_excel(SOURCE).unwrap();
    let names: Vec<&str> = workbook.tables.iter().map(|t| t.sheet_name.as_str()).collect();
    assert_eq!(names, vec!["Entities", "Metadata", "ex_Person", "ex_Person__ex_knows"]);
    let quads = jsonld_to_rdf(SOURCE).unwrap();
    assert_eq!(quads.len(), 5);
    assert_eq!(excel_to_rdf(&workbook).unwrap(), quads);
    let from_rdf = rdf_to_excel(&quads).unwrap();
    assert_eq!(from_rdf.tables.len(), 3);
    assert_eq!(
        from_rdf.tables[2].columns,
        vec!["id".to_string(), "ex:knowsId".to_string(), "ex:name".to_string()]
    );
    assert_eq!(excel_to_rdf(&from_rdf).unwrap(), quads);
    assert_eq!(read_jsonld(SOURCE).unwrap().len(), 2);
}

#[test]
fn source_that_is_no_json_is_a_json_failure() {
    assert!(matches!(jsonld_to_excel("{"), Err(ToolError::Json(_))));
    assert!(matches!(jsonld_to_rdf("not json"), Err(ToolError::Json(_))));
    assert!(matches!(jsonld_to_excel("5"), Err(ToolError::JsonLd(_))));
}

#[test]
fn conversions_to_jsonld_write_the_expanded_document() {
    let quads = vec![name_quad("ex:1", "Alice")];
    let text = rdf_to_jsonld(&quads, None).unwrap();
    assert_eq!(
        text,
        "{\n  \"@graph\": [\n    {\n      \"@id\": \"ex:1\",\n      \"ex:name\": \"Alice\"\n    }\n  ]\n}"
    );
    let workbook = rdf_to_excel(&quads).unwrap();
    assert_eq!(excel_to_jsonld(&workbook, None).unwrap(), text);
    assert_eq!(read_jsonld(&text).unwrap().len(), 1);
}

#[test]
fn failures_of_the_first_step_are_passed_on() {
    assert!(matches!(
        excel_to_rdf(&WorkbookData { tables: vec![] }),
        Err(ToolError::InvalidWorkbook(_))
    ));
    assert!(matches!(
        excel_to_jsonld(&WorkbookData { tables: vec![] }, None),
        Err(ToolError::InvalidWorkbook(_))
    ));
    let mut bad = name_quad("ex:1", "one");
    bad.object = Term::Literal(Literal {
        value: "one".to_string(),
        language: None,
        datatype: "http://www.w3.org/2001/XMLSchema#integer".to_string(),
    });
    assert!(matches!(rdf_to_excel(&vec![bad.clone()]), Err(ToolError::Rdf(_))));
    assert!(matches!(rdf_to_jsonld(&vec![bad], None), Err(ToolError::Rdf(_))));
    let workbook = jsonld_to_excel(r#"{"@id": "no iri", "ex:p": "v"}"#).unwrap();
    assert!(matches!(excel_to_rdf(&workbook), Err(ToolError::InvalidIri(_))));
}

#[test]
fn a_format_that_cannot_be_guessed_names_the_extension() {
    assert_eq!(
        required_rdf_format(None, Some("xlsx")),
        Err(ToolError::Rdf("unable to infer RDF format from extension: xlsx".to_string()))
    );
    assert_eq!(
        required_rdf_format(None, None),
        Err(ToolError::Rdf("unable to infer RDF format from extension: ".to_string()))
    );
}
