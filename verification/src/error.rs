//! The failures that a conversion can end in.

use vstd::prelude::*;
use crate::text::join;

verus! {

/// Why a conversion failed. Each variant carries the text that describes
/// the failure at hand.
#[derive(Debug, Clone, PartialEq, Eq)]
pub enum ToolError {
    /// Reading or writing a file failed.
    Io(String),
    /// JSON text could not be read or written.
    Json(String),
    /// The spreadsheet writer failed.
    ExcelWrite(String),
    /// The spreadsheet reader failed.
    ExcelRead(String),
    /// A workbook does not follow the layout that the table codec writes.
    InvalidWorkbook(String),
    /// A JSON-LD document could not be brought into the graph model.
    JsonLd(String),
    /// RDF could not be read or written.
    Rdf(String),
    /// An identifier is no IRI.
    InvalidIri(String),
    /// An identifier is no blank node label.
    InvalidBlankNode(String),
    /// No conversion leads from the one format to the other.
    UnsupportedConversion { from: String, to: String },
    /// A sheet has no entry in the metadata table.
    MissingMetadata(String),
    /// A cell does not hold a value of the kind that its column asks for.
    InvalidLiteral { column: String, value: String },
    /// The input file does not exist.
    MissingInput(String),
    /// Logging could not be set up.
    Logging(String),
}

/// The kinds of failure, without their texts.
pub enum ErrorKind {
    Io,
    Json,
    ExcelWrite,
    ExcelRead,
    InvalidWorkbook,
    JsonLd,
    Rdf,
    InvalidIri,
    InvalidBlankNode,
    UnsupportedConversion,
    MissingMetadata,
    InvalidLiteral,
    MissingInput,
    Logging,
}

impl ToolError {
    /// The kind of the failure.
    pub open spec fn kind(&self) -> ErrorKind {
        match self {
            ToolError::Io(_) => ErrorKind::Io,
            ToolError::Json(_) => ErrorKind::Json,
            ToolError::ExcelWrite(_) => ErrorKind::ExcelWrite,
            ToolError::ExcelRead(_) => ErrorKind::ExcelRead,
            ToolError::InvalidWorkbook(_) => ErrorKind::InvalidWorkbook,
            ToolError::JsonLd(_) => ErrorKind::JsonLd,
            ToolError::Rdf(_) => ErrorKind::Rdf,
            ToolError::InvalidIri(_) => ErrorKind::InvalidIri,
            ToolError::InvalidBlankNode(_) => ErrorKind::InvalidBlankNode,
            ToolError::UnsupportedConversion { .. } => ErrorKind::UnsupportedConversion,
            ToolError::MissingMetadata(_) => ErrorKind::MissingMetadata,
            ToolError::InvalidLiteral { .. } => ErrorKind::InvalidLiteral,
            ToolError::MissingInput(_) => ErrorKind::MissingInput,
            ToolError::Logging(_) => ErrorKind::Logging,
        }
    }

    /// The text that the failure carries: what it is about. A failure that
    /// carries two texts has them in [`ToolError::words`]; this is the
    /// first of them.
    pub open spec fn detail(&self) -> Seq<char> {
        match self {
            ToolError::Io(detail) => detail@,
            ToolError::Json(detail) => detail@,
            ToolError::ExcelWrite(detail) => detail@,
            ToolError::ExcelRead(detail) => detail@,
            ToolError::InvalidWorkbook(detail) => detail@,
            ToolError::JsonLd(detail) => detail@,
            ToolError::Rdf(detail) => detail@,
            ToolError::InvalidIri(detail) => detail@,
            ToolError::InvalidBlankNode(detail) => detail@,
            ToolError::UnsupportedConversion { from, .. } => from@,
            ToolError::MissingMetadata(sheet) => sheet@,
            ToolError::InvalidLiteral { column, .. } => column@,
            ToolError::MissingInput(path) => path@,
            ToolError::Logging(detail) => detail@,
        }
    }

    /// The failure in words: what kind of failure it is, and the text that
    /// it carries.
    pub open spec fn words(&self) -> Seq<char> {
        match self {
            ToolError::Io(detail) => "I/O error: "@ + detail@,
            ToolError::Json(detail) => "JSON error: "@ + detail@,
            ToolError::ExcelWrite(detail) => "Excel write error: "@ + detail@,
            ToolError::ExcelRead(detail) => "Excel read error: "@ + detail@,
            ToolError::InvalidWorkbook(detail) => "invalid workbook structure: "@ + detail@,
            ToolError::JsonLd(detail) => "JSON-LD normalization error: "@ + detail@,
            ToolError::Rdf(detail) => "RDF error: "@ + detail@,
            ToolError::InvalidIri(detail) => "invalid IRI: "@ + detail@,
            ToolError::InvalidBlankNode(detail) => "invalid blank node identifier: "@ + detail@,
            ToolError::UnsupportedConversion { from, to } => "unsupported conversion from \""@
                + from@ + "\" to \""@ + to@ + "\""@,
            ToolError::MissingMetadata(sheet) => "missing metadata entry for sheet "@ + sheet@,
            ToolError::InvalidLiteral { column, value } => "invalid literal value '"@ + value@
                + "' in column "@ + column@,
            ToolError::MissingInput(path) => "input file not found: "@ + path@,
            ToolError::Logging(detail) => "failed to initialise logging: "@ + detail@,
        }
    }

    /// The failure in words.
    pub fn message(&self) -> (text: String)
        ensures
            text@ == self.words(),
    {
        match self {
            ToolError::Io(detail) => join("I/O error: ", detail.as_str()),
            ToolError::Json(detail) => join("JSON error: ", detail.as_str()),
            ToolError::ExcelWrite(detail) => join("Excel write error: ", detail.as_str()),
            ToolError::ExcelRead(detail) => join("Excel read error: ", detail.as_str()),
            ToolError::InvalidWorkbook(detail) => join(
                "invalid workbook structure: ",
                detail.as_str(),
            ),
            ToolError::JsonLd(detail) => join("JSON-LD normalization error: ", detail.as_str()),
            ToolError::Rdf(detail) => join("RDF error: ", detail.as_str()),
            ToolError::InvalidIri(detail) => join("invalid IRI: ", detail.as_str()),
            ToolError::InvalidBlankNode(detail) => join(
                "invalid blank node identifier: ",
                detail.as_str(),
            ),
            ToolError::UnsupportedConversion { from, to } => {
                let head = join("unsupported conversion from \"", from.as_str());
                let middle = join(head.as_str(), "\" to \"");
                let tail = join(middle.as_str(), to.as_str());
                join(tail.as_str(), "\"")
            },
            ToolError::MissingMetadata(sheet) => join(
                "missing metadata entry for sheet ",
                sheet.as_str(),
            ),
            ToolError::InvalidLiteral { column, value } => {
                let head = join("invalid literal value '", value.as_str());
                let middle = join(head.as_str(), "' in column ");
                join(middle.as_str(), column.as_str())
            },
            ToolError::MissingInput(path) => join("input file not found: ", path.as_str()),
            ToolError::Logging(detail) => join("failed to initialise logging: ", detail.as_str()),
        }
    }
}

} // verus!
