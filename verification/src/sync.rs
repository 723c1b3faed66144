//! Conversions from one representation to another, by way of the graph
//! model.

use vstd::prelude::*;
use crate::error::{ErrorKind, ToolError};
use crate::excel_read::{read_nodes, unflattened, workbook_fault};
use crate::flatten::{build_workbook, flatten_defined, flattened, SheetView, WorkbookData};
use crate::json::{json_of_text, json_wf, JsonValue, JsonView, pretty_text_of_json};
use crate::jsonld::{document_json, document_nodes, nodes_to_jsonld, parse_jsonld_document};
use crate::jsonld_roundtrip::nodes_kept;
use crate::rdf_roundtrip::nodes_survive;
use crate::model::{Node, nodes_view, NodeView};
use crate::fold::fault_at;
use crate::rdf::{
    detect_format, format_of, nodes_of_quads, Quad, quad_fault, quad_stepper, quads_of_nodes,
    quads_view, QuadView, RdfFormat, read_rdf, write_fault, write_rdf,
};
use crate::text::{copy, join};

verus! {

/// The workbook for nodes, or the JSON failure where a literal has no JSON
/// text.
pub open spec fn workbook_of(nodes: Seq<NodeView>) -> Result<Seq<SheetView>, ErrorKind> {
    if flatten_defined(nodes) {
        Ok(flattened(nodes))
    } else {
        Err(ErrorKind::Json)
    }
}

/// The workbook for the nodes that quads describe.
pub open spec fn workbook_of_quads(quads: Seq<QuadView>) -> Result<Seq<SheetView>, ErrorKind> {
    match nodes_of_quads(quads) {
        Ok(nodes) => workbook_of(nodes),
        Err(kind) => Err(kind),
    }
}

/// The quads for the nodes that a workbook holds.
pub open spec fn quads_of_workbook(tables: Seq<SheetView>) -> Result<Seq<QuadView>, ErrorKind> {
    match unflattened(tables) {
        Ok(nodes) => quads_of_nodes(nodes),
        Err(kind) => Err(kind),
    }
}

/// Turns an RDF graph, given as quads, into a workbook; it fails only as
/// reading the quads fails.
pub fn rdf_to_excel(quads: &Vec<Quad>) -> (r: Result<WorkbookData, ToolError>)
    ensures
        match r {
            Ok(workbook) => workbook_of_quads(quads_view(quads@)) == Ok::<
                Seq<SheetView>,
                ErrorKind,
            >(workbook@),
            Err(e) => workbook_of_quads(quads_view(quads@)) == Err::<Seq<SheetView>, ErrorKind>(
                e.kind(),
            ),
        },
        nodes_of_quads(quads_view(quads@)) is Ok ==> r is Ok,
        r matches Err(e) ==> e.detail() == quad_fault(
            quads_view(quads@)[fault_at(
                Seq::<NodeView>::empty(),
                quads_view(quads@),
                quad_stepper(),
            )].object,
        ),
{
    let nodes = match read_rdf(quads) {
        Ok(nodes) => nodes,
        Err(e) => {
            return Err(e);
        },
    };
    build_workbook(nodes.as_slice())
}

/// Turns a workbook into an RDF graph, given as quads. The failure says
/// what is wrong with the workbook, where it is invalid, and else with the
/// first node that cannot be written.
pub fn excel_to_rdf(workbook: &WorkbookData) -> (r: Result<Vec<Quad>, ToolError>)
    ensures
        match r {
            Ok(quads) => quads_of_workbook(workbook@) == Ok::<Seq<QuadView>, ErrorKind>(
                quads_view(quads@),
            ),
            Err(e) => quads_of_workbook(workbook@) == Err::<Seq<QuadView>, ErrorKind>(e.kind())
                && (match unflattened(workbook@) {
                Ok(nodes) => e.detail() == write_fault(nodes),
                Err(_) => e is InvalidWorkbook ==> e.detail() == workbook_fault(workbook@),
            }),
        },
{
    let nodes = match read_nodes(workbook) {
        Ok(nodes) => nodes,
        Err(e) => {
            return Err(e);
        },
    };
    write_rdf(nodes.as_slice())
}

/// The nodes that the JSON-LD document with the given text describes: a
/// text that is not JSON is a JSON failure, a document that cannot be read
/// a JSON-LD failure.
pub open spec fn nodes_of_source(source: Seq<char>) -> Result<Seq<NodeView>, ErrorKind> {
    match json_of_text(source) {
        Some(document) => match document_nodes(document) {
            Ok(nodes) => Ok(nodes),
            Err(_) => Err(ErrorKind::JsonLd),
        },
        None => Err(ErrorKind::Json),
    }
}

/// Reads the nodes of the JSON-LD document with the given text.
pub fn read_jsonld(source: &str) -> (r: Result<Vec<Node>, ToolError>)
    ensures
        match r {
            Ok(nodes) => nodes_of_source(source@) == Ok::<Seq<NodeView>, ErrorKind>(
                nodes_view(nodes@),
            ),
            Err(e) => nodes_of_source(source@) == Err::<Seq<NodeView>, ErrorKind>(e.kind()),
        },
{
    let document = match JsonValue::parse(source) {
        Ok(document) => document,
        Err(e) => {
            return Err(e);
        },
    };
    parse_jsonld_document(&document)
}

/// The workbook for the JSON-LD document with the given text.
pub open spec fn workbook_of_source(source: Seq<char>) -> Result<Seq<SheetView>, ErrorKind> {
    match nodes_of_source(source) {
        Ok(nodes) => workbook_of(nodes),
        Err(kind) => Err(kind),
    }
}

/// Turns the text of a JSON-LD document into a workbook; it fails only as
/// reading the document fails.
pub fn jsonld_to_excel(source: &str) -> (r: Result<WorkbookData, ToolError>)
    ensures
        match r {
            Ok(workbook) => workbook_of_source(source@) == Ok::<Seq<SheetView>, ErrorKind>(
                workbook@,
            ),
            Err(e) => workbook_of_source(source@) == Err::<Seq<SheetView>, ErrorKind>(e.kind()),
        },
        nodes_of_source(source@) is Ok ==> r is Ok,
{
    let nodes = match read_jsonld(source) {
        Ok(nodes) => nodes,
        Err(e) => {
            return Err(e);
        },
    };
    build_workbook(nodes.as_slice())
}

/// The quads for the JSON-LD document with the given text.
pub open spec fn quads_of_source(source: Seq<char>) -> Result<Seq<QuadView>, ErrorKind> {
    match nodes_of_source(source) {
        Ok(nodes) => quads_of_nodes(nodes),
        Err(kind) => Err(kind),
    }
}

/// Turns the text of a JSON-LD document into an RDF graph, given as quads.
pub fn jsonld_to_rdf(source: &str) -> (r: Result<Vec<Quad>, ToolError>)
    ensures
        match r {
            Ok(quads) => quads_of_source(source@) == Ok::<Seq<QuadView>, ErrorKind>(
                quads_view(quads@),
            ),
            Err(e) => quads_of_source(source@) == Err::<Seq<QuadView>, ErrorKind>(e.kind()) && (
            nodes_of_source(source@) matches Ok(nodes) ==> e.detail() == write_fault(nodes)),
        },
{
    let nodes = match read_jsonld(source) {
        Ok(nodes) => nodes,
        Err(e) => {
            return Err(e);
        },
    };
    write_rdf(nodes.as_slice())
}

/// Writes nodes as the indented text of a JSON-LD document: in expanded
/// form where no context is given, else compacted against the context.
///
/// Without a context the call succeeds, and the text is that of the
/// expanded document. With a context it fails only where the compaction
/// fails.
pub fn excel_to_jsonld_internal(nodes: &[Node], context: Option<&JsonValue>) -> (r: Result<
    String,
    ToolError,
>)
    requires
        context matches Some(given) ==> json_wf(given@),
    ensures
        context is None ==> (r matches Ok(text) && pretty_text_of_json(
            document_json(nodes_view(nodes@)),
        ) == Some(text@)),
        r matches Err(e) ==> e is JsonLd,
{
    let document = match nodes_to_jsonld(nodes, context) {
        Ok(document) => document,
        Err(e) => {
            return Err(e);
        },
    };
    document.to_pretty_text()
}

/// Turns a workbook into the indented text of a JSON-LD document.
///
/// Fails as reading the workbook fails; without a context, it succeeds
/// otherwise, with the text of the expanded document for the nodes read.
/// With a context it fails, besides, only where the compaction fails.
pub fn excel_to_jsonld(workbook: &WorkbookData, context: Option<&JsonValue>) -> (r: Result<
    String,
    ToolError,
>)
    requires
        context matches Some(given) ==> json_wf(given@),
    ensures
        unflattened(workbook@) matches Err(kind) ==> (r matches Err(e) && e.kind() == kind),
        (context is None && unflattened(workbook@) is Ok) ==> (r matches Ok(text)
            && pretty_text_of_json(document_json(unflattened(workbook@)->Ok_0)) == Some(text@)),
        (unflattened(workbook@) is Ok && r is Err) ==> r->Err_0 is JsonLd,
{
    let nodes = match read_nodes(workbook) {
        Ok(nodes) => nodes,
        Err(e) => {
            return Err(e);
        },
    };
    excel_to_jsonld_internal(nodes.as_slice(), context)
}

/// Turns an RDF graph, given as quads, into the indented text of a JSON-LD
/// document.
///
/// Fails as reading the quads fails; without a context, it succeeds
/// otherwise, with the text of the expanded document for the nodes read.
/// With a context it fails, besides, only where the compaction fails.
pub fn rdf_to_jsonld(quads: &Vec<Quad>, context: Option<&JsonValue>) -> (r: Result<
    String,
    ToolError,
>)
    requires
        context matches Some(given) ==> json_wf(given@),
    ensures
        nodes_of_quads(quads_view(quads@)) matches Err(kind) ==> (r matches Err(e) && e.kind()
            == kind),
        (context is None && nodes_of_quads(quads_view(quads@)) is Ok) ==> (r matches Ok(text)
            && pretty_text_of_json(document_json(nodes_of_quads(quads_view(quads@))->Ok_0))
            == Some(text@)),
        (nodes_of_quads(quads_view(quads@)) is Ok && r is Err) ==> r->Err_0 is JsonLd,
{
    let nodes = match read_rdf(quads) {
        Ok(nodes) => nodes,
        Err(e) => {
            return Err(e);
        },
    };
    excel_to_jsonld_internal(nodes.as_slice(), context)
}

/// The representations that a data set can be converted between.
#[derive(Debug, Clone, Copy, PartialEq, Eq)]
pub enum DataFormat {
    JsonLd,
    Excel,
    Rdf,
}

/// The conversions there are.
#[derive(Debug, Clone, Copy, PartialEq, Eq)]
pub enum Conversion {
    JsonLdToExcel,
    ExcelToJsonLd,
    JsonLdToRdf,
    ExcelToRdf,
    RdfToExcel,
    RdfToJsonLd,
}

/// The name of a representation.
pub open spec fn format_name(format: DataFormat) -> Seq<char> {
    match format {
        DataFormat::JsonLd => "jsonld"@,
        DataFormat::Excel => "xlsx"@,
        DataFormat::Rdf => "rdf"@,
    }
}

impl DataFormat {
    /// The name of the representation.
    pub fn name(&self) -> (r: String)
        ensures
            r@ == format_name(*self),
    {
        match self {
            DataFormat::JsonLd => copy("jsonld"),
            DataFormat::Excel => copy("xlsx"),
            DataFormat::Rdf => copy("rdf"),
        }
    }
}

/// The conversion that leads from one representation to another; none
/// leads from a representation to itself.
pub open spec fn conversion_of(from: DataFormat, to: DataFormat) -> Option<Conversion> {
    match (from, to) {
        (DataFormat::JsonLd, DataFormat::Excel) => Some(Conversion::JsonLdToExcel),
        (DataFormat::Excel, DataFormat::JsonLd) => Some(Conversion::ExcelToJsonLd),
        (DataFormat::JsonLd, DataFormat::Rdf) => Some(Conversion::JsonLdToRdf),
        (DataFormat::Excel, DataFormat::Rdf) => Some(Conversion::ExcelToRdf),
        (DataFormat::Rdf, DataFormat::Excel) => Some(Conversion::RdfToExcel),
        (DataFormat::Rdf, DataFormat::JsonLd) => Some(Conversion::RdfToJsonLd),
        _ => None,
    }
}

/// The conversion that leads from `from` to `to`; where there is none, the
/// failure names both.
pub fn plan_sync(from: DataFormat, to: DataFormat) -> (r: Result<Conversion, ToolError>)
    ensures
        match r {
            Ok(conversion) => conversion_of(from, to) == Some(conversion),
            Err(e) => conversion_of(from, to) is None && (e matches ToolError::UnsupportedConversion {
                from: source,
                to: target,
            } && source@ == format_name(from) && target@ == format_name(to)),
        },
{
    match (from, to) {
        (DataFormat::JsonLd, DataFormat::Excel) => Ok(Conversion::JsonLdToExcel),
        (DataFormat::Excel, DataFormat::JsonLd) => Ok(Conversion::ExcelToJsonLd),
        (DataFormat::JsonLd, DataFormat::Rdf) => Ok(Conversion::JsonLdToRdf),
        (DataFormat::Excel, DataFormat::Rdf) => Ok(Conversion::ExcelToRdf),
        (DataFormat::Rdf, DataFormat::Excel) => Ok(Conversion::RdfToExcel),
        (DataFormat::Rdf, DataFormat::JsonLd) => Ok(Conversion::RdfToJsonLd),
        _ => Err(ToolError::UnsupportedConversion { from: from.name(), to: to.name() }),
    }
}

/// The format that the extension of a file name stands for, if it has one
/// that stands for a format.
pub open spec fn guessed_format(extension: Option<Seq<char>>) -> Option<RdfFormat> {
    match extension {
        Some(extension) => format_of(extension),
        None => None,
    }
}

/// The format in which RDF is written: the one asked for, else the one
/// that the extension of the file name stands for, else Turtle.
pub fn resolve_rdf_format(explicit: Option<RdfFormat>, extension: Option<&str>) -> (r: RdfFormat)
    ensures
        r == (match explicit {
            Some(format) => format,
            None => match guessed_format(
                match extension {
                    Some(extension) => Some(extension@),
                    None => None,
                },
            ) {
                Some(format) => format,
                None => RdfFormat::Turtle,
            },
        }),
{
    match explicit {
        Some(format) => format,
        None => {
            let guessed = match extension {
                Some(extension) => detect_format(extension),
                None => None,
            };
            match guessed {
                Some(format) => format,
                None => RdfFormat::Turtle,
            }
        },
    }
}

/// The format in which RDF is read: the one asked for, else the one that
/// the extension of the file name stands for; where there is neither, an
/// RDF failure.
pub fn required_rdf_format(explicit: Option<RdfFormat>, extension: Option<&str>) -> (r: Result<
    RdfFormat,
    ToolError,
>)
    ensures
        match explicit {
            Some(format) => r == Ok::<RdfFormat, ToolError>(format),
            None => match guessed_format(
                match extension {
                    Some(extension) => Some(extension@),
                    None => None,
                },
            ) {
                Some(format) => r == Ok::<RdfFormat, ToolError>(format),
                None => r matches Err(e) && e is Rdf && e.detail()
                    == "unable to infer RDF format from extension: "@ + (match extension {
                    Some(extension) => extension@,
                    None => Seq::<char>::empty(),
                }),
            },
        },
{
    match explicit {
        Some(format) => Ok(format),
        None => {
            let guessed = match extension {
                Some(extension) => detect_format(extension),
                None => None,
            };
            match guessed {
                Some(format) => Ok(format),
                None => {
                    let named = match extension {
                        Some(extension) => copy(extension),
                        None => String::new(),
                    };
                    Err(
                        ToolError::Rdf(
                            join(
                                "unable to infer RDF format from extension: ",
                                named.as_str(),
                            ),
                        ),
                    )
                },
            }
        },
    }
}

/// Converting a JSON-LD document into RDF, and the RDF into a JSON-LD
/// document in expanded form, gives a document that describes the nodes
/// of the first, where both codecs give those nodes back: what RDF loses,
/// a null and the list around a lone member, is not among them.
pub proof fn jsonld_rdf_jsonld_keeps_nodes(document: JsonView)
    requires
        document_nodes(document) matches Ok(nodes) && nodes_survive(nodes) && nodes_kept(nodes),
    ensures
        quads_of_nodes(document_nodes(document)->Ok_0) matches Ok(quads) && nodes_of_quads(quads)
            matches Ok(read) && document_nodes(document_json(read)) == document_nodes(document),
{
    let nodes = document_nodes(document)->Ok_0;
    crate::rdf_roundtrip::write_then_read(nodes);
    crate::jsonld_roundtrip::write_then_read(nodes);
}

} // verus!
