use aideon_tools::excel_read::read_nodes;
use aideon_tools::flatten::{build_workbook, SheetTable, WorkbookData};
use aideon_tools::json::JsonValue;
use aideon_tools::jsonld::parse_jsonld_document;
use aideon_tools::model::Node;
use aideon_tools::rdf::{read_rdf, write_rdf, Literal, Quad, RdfFormat, Resource, Term};
use aideon_tools::sync;
use calamine::Reader;
use std::io::Cursor;

fn document(text: &str) -> JsonValue {
    JsonValue::parse(text).expect("JSON parsed")
}

fn resource_out(resource: &Resource) -> oxigraph::model::NamedOrBlankNode {
    match resource {
        Resource::Named(iri) => oxigraph::model::NamedNode::new(iri.as_str()).unwrap().into(),
        Resource::Blank(label) => oxigraph::model::BlankNode::new(label.as_str()).unwrap().into(),
    }
}

fn quad_out(quad: &Quad) -> oxigraph::model::Quad {
    let object: oxigraph::model::Term = match &quad.object {
        Term::Resource(resource) => resource_out(resource).into(),
        Term::Literal(literal) => match &literal.language {
            Some(language) => oxigraph::model::Literal::new_language_tagged_literal(
                literal.value.as_str(),
                language.as_str(),
            )
            .unwrap()
            .into(),
            None => oxigraph::model::Literal::new_typed_literal(
                literal.value.as_str(),
                oxigraph::model::NamedNode::new(literal.datatype.as_str()).unwrap(),
            )
            .into(),
        },
    };
    let graph = match &quad.graph {
        Some(resource) => oxigraph::model::GraphName::from(resource_out(resource)),
        None => oxigraph::model::GraphName::DefaultGraph,
    };
    oxigraph::model::Quad::new(
        resource_out(&quad.subject),
        oxigraph::model::NamedNode::new(quad.predicate.as_str()).unwrap(),
        object,
        graph,
    )
}

fn resource_in(resource: &oxigraph::model::NamedOrBlankNode) -> Resource {
    match resource {
        oxigraph::model::NamedOrBlankNode::NamedNode(node) => {
            Resource::Named(node.as_str().to_string())
        }
        oxigraph::model::NamedOrBlankNode::BlankNode(node) => {
            Resource::Blank(node.as_str().to_string())
        }
    }
}

fn quad_in(quad: &oxigraph::model::Quad) -> Quad {
    let object = match &quad.object {
        oxigraph::model::Term::NamedNode(node) => {
            Term::Resource(Resource::Named(node.as_str().to_string()))
        }
        oxigraph::model::Term::BlankNode(node) => {
            Term::Resource(Resource::Blank(node.as_str().to_string()))
        }
        oxigraph::model::Term::Literal(literal) => Term::Literal(Literal {
            value: literal.value().to_string(),
            language: literal.language().map(|language| language.to_string()),
            datatype: literal.datatype().as_str().to_string(),
        }),
    };
    let graph = match &quad.graph_name {
        oxigraph::model::GraphName::DefaultGraph => None,
        oxigraph::model::GraphName::NamedNode(node) => {
            Some(Resource::Named(node.as_str().to_string()))
        }
        oxigraph::model::GraphName::BlankNode(node) => {
            Some(Resource::Blank(node.as_str().to_string()))
        }
    };
    Quad {
        subject: resource_in(&quad.subject),
        predicate: quad.predicate.as_str().to_string(),
        object,
        graph,
    }
}

fn format_out(format: RdfFormat) -> oxigraph::io::RdfFormat {
    match format {
        RdfFormat::Turtle => oxigraph::io::RdfFormat::Turtle,
        RdfFormat::NTriples => oxigraph::io::RdfFormat::NTriples,
        RdfFormat::NQuads => oxigraph::io::RdfFormat::NQuads,
        RdfFormat::TriG => oxigraph::io::RdfFormat::TriG,
        RdfFormat::JsonLd => oxigraph::io::RdfFormat::JsonLd {
            profile: oxigraph::io::JsonLdProfileSet::empty(),
        },
    }
}

fn rdf_text(quads: &[Quad], format: RdfFormat) -> Vec<u8> {
    let mut serializer =
        oxigraph::io::RdfSerializer::from_format(format_out(format)).for_writer(Vec::new());
    for quad in quads {
        serializer.serialize_quad(&quad_out(quad)).expect("quad written");
    }
    serializer.finish().expect("RDF written")
}

fn rdf_quads(text: &[u8], format: RdfFormat) -> Vec<Quad> {
    oxigraph::io::RdfParser::from_format(format_out(format))
        .for_reader(text)
        .map(|quad| quad_in(&quad.expect("quad read")))
        .collect()
}

fn through_rdf(nodes: &[Node], format: RdfFormat) -> Vec<Node> {
    let quads = write_rdf(nodes).expect("RDF written");
    let text = rdf_text(&quads, format);
    read_rdf(&rdf_quads(&text, format)).expect("RDF read")
}

fn xlsx_bytes(workbook: &WorkbookData) -> Vec<u8> {
    let mut writer = rust_xlsxwriter::Workbook::new();
    for table in &workbook.tables {
        let worksheet = writer.add_worksheet();
        worksheet.set_name(&table.sheet_name).expect("sheet named");
        for (column, header) in table.columns.iter().enumerate() {
            worksheet.write_string(0, column as u16, header).expect("header written");
        }
        for (row, cells) in table.rows.iter().enumerate() {
            for (column, cell) in cells.iter().enumerate() {
                worksheet
                    .write_string((row + 1) as u32, column as u16, cell)
                    .expect("cell written");
            }
        }
    }
    writer.save_to_buffer().expect("Excel written")
}

fn xlsx_workbook(bytes: Vec<u8>) -> WorkbookData {
    let mut reader: calamine::Xlsx<_> =
        calamine::Xlsx::new(Cursor::new(bytes)).expect("Excel opened");
    let mut tables = Vec::new();
    for name in reader.sheet_names() {
        let range = reader.worksheet_range(&name).expect("sheet read");
        let mut rows: Vec<Vec<String>> = range
            .rows()
            .map(|row| row.iter().map(|cell| cell.to_string()).collect())
            .collect();
        let columns = if rows.is_empty() { Vec::new() } else { rows.remove(0) };
        tables.push(SheetTable { sheet_name: name, columns, rows });
    }
    WorkbookData { tables }
}

fn through_excel(nodes: &[Node]) -> Vec<Node> {
    let workbook = build_workbook(nodes).expect("workbook built");
    read_nodes(&xlsx_workbook(xlsx_bytes(&workbook))).expect("Excel read")
}

#[test]
fn jsonld_excel_roundtrip_preserves_nodes() {
    let json_source = document(
        r#"{
        "@graph": [
            {
                "@id": "https://example.com/people/1",
                "@type": ["https://schema.org/Person", "https://schema.org/Agent"],
                "https://schema.org/name": "Alice",
                "https://schema.org/age": 30,
                "https://schema.org/knows": [{"@id": "https://example.com/people/2"}],
                "https://schema.org/skills": ["rust", "excel"]
            },
            {
                "@id": "https://example.com/people/2",
                "@type": "https://schema.org/Person",
                "https://schema.org/name": "Bob"
            }
        ]
    }"#,
    );

    let nodes = parse_jsonld_document(&json_source).expect("JSON-LD parsed");
    let restored_nodes = through_excel(&nodes);

    assert_eq!(nodes, restored_nodes);
}

#[test]
fn rdf_roundtrip_matches_nodes() {
    let json_source = document(
        r#"{
        "@graph": [
            {
                "@id": "https://example.com/people/1",
                "@type": "https://schema.org/Person",
                "https://schema.org/name": "Alice",
                "https://schema.org/knows": {"@id": "https://example.com/people/2"}
            },
            {
                "@id": "https://example.com/people/2",
                "@type": "https://schema.org/Person",
                "https://schema.org/name": "Bob"
            }
        ]
    }"#,
    );

    let nodes = parse_jsonld_document(&json_source).expect("JSON-LD parsed");
    let restored_nodes = through_rdf(&nodes, RdfFormat::Turtle);

    assert_eq!(nodes, restored_nodes);
}

#[test]
fn excel_to_jsonld_includes_context() {
    let json_source = document(
        r#"{
        "@graph": [
            {
                "@id": "https://example.com/things/1",
                "@type": "https://schema.org/Thing",
                "https://schema.org/name": "Widget",
                "https://schema.org/category": ["tools", "widgets"],
                "https://schema.org/producer": {"@id": "https://example.com/orgs/1"}
            },
            {
                "@id": "https://example.com/orgs/1",
                "@type": "https://schema.org/Organization",
                "https://schema.org/name": "Acme"
            }
        ]
    }"#,
    );

    let nodes = parse_jsonld_document(&json_source).expect("JSON-LD parsed");
    let workbook = build_workbook(&nodes).expect("workbook built");
    let workbook = xlsx_workbook(xlsx_bytes(&workbook));

    let context = document(
        r#"{
        "@vocab": "https://schema.org/",
        "name": "https://schema.org/name",
        "category": "https://schema.org/category"
    }"#,
    );

    let written = sync::excel_to_jsonld(&workbook, Some(&context))
        .expect("Excel to JSON-LD conversion");
    let parsed = document(&written);

    assert_eq!(parsed.get("@context"), Some(&context));

    let graph = match parsed.get("@graph") {
        Some(JsonValue::Array(entries)) => entries,
        _ => panic!("graph array"),
    };
    let wanted = JsonValue::String("https://example.com/things/1".to_string());
    let thing = graph
        .iter()
        .find(|entry| entry.get("@id") == Some(&wanted))
        .expect("thing node present");
    assert_eq!(thing.get("name"), Some(&JsonValue::String("Widget".to_string())));
}

#[test]
fn jsonld_rdf_jsonld_roundtrip_preserves_nodes() {
    let source = r#"{
        "@context": {
            "@vocab": "https://schema.org/",
            "knows": {
                "@id": "https://schema.org/knows",
                "@type": "@id"
            }
        },
        "@graph": [
            {
                "@id": "https://example.com/people/1",
                "@type": "https://schema.org/Person",
                "https://schema.org/name": "Alice",
                "https://schema.org/knows": [
                    {"@id": "https://example.com/people/2"},
                    {"@id": "https://example.com/people/3"}
                ]
            },
            {
                "@id": "https://example.com/people/2",
                "@type": "https://schema.org/Person",
                "https://schema.org/name": "Bob"
            },
            {
                "@id": "https://example.com/people/3",
                "@type": "https://schema.org/Person",
                "https://schema.org/name": "Carol"
            }
        ]
    }"#;
    let json_source = document(source);
    let context = match json_source.get("@context") {
        Some(context) => context,
        None => panic!("context available"),
    };

    let quads = sync::jsonld_to_rdf(source).expect("JSON-LD to RDF");
    let graph = rdf_quads(&rdf_text(&quads, RdfFormat::Turtle), RdfFormat::Turtle);

    let roundtrip = sync::rdf_to_jsonld(&graph, Some(context)).expect("RDF to JSON-LD");

    let source_nodes = parse_jsonld_document(&json_source).expect("source nodes parsed");

    let verification = sync::jsonld_to_rdf(&roundtrip).expect("roundtrip JSON-LD to RDF");
    let verification =
        rdf_quads(&rdf_text(&verification, RdfFormat::Turtle), RdfFormat::Turtle);
    let restored_nodes = read_rdf(&verification).expect("roundtrip nodes parsed");

    assert_eq!(source_nodes, restored_nodes);
}

#[test]
fn rdf_named_graph_roundtrip_matches_nodes() {
    let json_source = document(
        r#"{
        "@graph": [
            {
                "@id": "https://example.com/resources/1",
                "http://schema.org/name": "Default"
            },
            {
                "@id": "https://example.com/graphs/named",
                "@graph": [
                    {
                        "@id": "https://example.com/resources/2",
                        "http://schema.org/name": "Named"
                    }
                ]
            }
        ]
    }"#,
    );

    let nodes = parse_jsonld_document(&json_source).expect("JSON-LD parsed");
    let restored_nodes = through_rdf(&nodes, RdfFormat::TriG);

    assert_eq!(nodes, restored_nodes);
}

#[test]
fn excel_drops_the_graph_of_a_node() {
    let json_source = document(
        r#"{
        "@graph": [
            {
                "@id": "https://example.com/resources/1",
                "http://schema.org/name": "Default"
            },
            {
                "@id": "https://example.com/graphs/named",
                "@graph": [
                    {
                        "@id": "https://example.com/resources/2",
                        "http://schema.org/name": "Named"
                    }
                ]
            }
        ]
    }"#,
    );

    let nodes = parse_jsonld_document(&json_source).expect("JSON-LD parsed");
    assert!(nodes
        .iter()
        .any(|node| node.graph().as_deref() == Some("https://example.com/graphs/named")));
    let restored_nodes = through_excel(&nodes);
    assert_eq!(restored_nodes.len(), 2);
    assert!(restored_nodes.iter().all(|node| node.graph().is_none()));
    let ids: Vec<&str> = restored_nodes.iter().map(|node| node.id().as_str()).collect();
    assert_eq!(ids, vec!["https://example.com/resources/1", "https://example.com/resources/2"]);
}
