//! The RDF codec: quads to nodes and nodes to quads.

use vstd::prelude::*;
use crate::error::{ErrorKind, ToolError};
use crate::fold::{
    fault_at, lemma_fault_at, lemma_try_fold_all, lemma_try_fold_fault, lemma_try_fold_next,
    try_fold,
};
use crate::model::{
    ArrayValue, clone_scalars, clone_strings, double_of_text, entries, Node, nodes_view, NodeView,
    NumberValue, PropertyValue, PropertyView, scalars, ScalarValue, ScalarView, text_option, texts,
};
use crate::nodes::{
    ensured, key_of, lemma_ensured, lemma_update_sorted, NodeKey, NodeSet, position, sorted_nodes,
    with_property, with_type,
};
use crate::text::{copy, join, str_eq, strip_prefix, to_chars};

verus! {

/// The predicate that gives a node its type.
pub const RDF_TYPE: &'static str = "http://www.w3.org/1999/02/22-rdf-syntax-ns#type";

/// The datatype of truth values.
pub const XSD_BOOLEAN: &'static str = "http://www.w3.org/2001/XMLSchema#boolean";

/// The datatype of whole numbers.
pub const XSD_INTEGER: &'static str = "http://www.w3.org/2001/XMLSchema#integer";

/// The datatype of decimal numbers.
pub const XSD_DECIMAL: &'static str = "http://www.w3.org/2001/XMLSchema#decimal";

/// The datatype of double-precision numbers.
pub const XSD_DOUBLE: &'static str = "http://www.w3.org/2001/XMLSchema#double";

/// The datatype of plain text.
pub const XSD_STRING: &'static str = "http://www.w3.org/2001/XMLSchema#string";

/// What stands before the label of a blank node in an identifier.
pub const BLANK_PREFIX: &'static str = "_:";

/// Whether `oxigraph::model::NamedNode::new` accepts the text as an IRI.
pub uninterp spec fn is_rdf_iri(text: Seq<char>) -> bool;

/// Whether `oxigraph::model::BlankNode::new` accepts the text as the label
/// of a blank node.
pub uninterp spec fn is_blank_label(text: Seq<char>) -> bool;

/// `oxigraph::model::NamedNode::new`: whether it accepts `text`.
#[verifier::external_body]
pub(crate) fn check_iri(text: &str) -> (r: bool)
    ensures
        r == is_rdf_iri(text@),
{
    oxigraph::model::NamedNode::new(text).is_ok()
}

/// `oxigraph::model::BlankNode::new`: whether it accepts `text`.
#[verifier::external_body]
fn check_blank_label(text: &str) -> (r: bool)
    ensures
        r == is_blank_label(text@),
{
    oxigraph::model::BlankNode::new(text).is_ok()
}

/// The mathematical value of a [`Resource`].
pub enum ResourceView {
    Named(Seq<char>),
    Blank(Seq<char>),
}

/// What a quad can have as subject or graph: a node with an IRI, or a
/// blank node with a label.
#[derive(Debug, PartialEq, Eq)]
pub enum Resource {
    Named(String),
    Blank(String),
}

impl Clone for Resource {
    fn clone(&self) -> (r: Resource)
        ensures
            r@ == self@,
    {
        match self {
            Resource::Named(iri) => Resource::Named(iri.clone()),
            Resource::Blank(label) => Resource::Blank(label.clone()),
        }
    }
}

impl View for Resource {
    type V = ResourceView;

    open spec fn view(&self) -> ResourceView {
        match self {
            Resource::Named(iri) => ResourceView::Named(iri@),
            Resource::Blank(label) => ResourceView::Blank(label@),
        }
    }
}

/// The mathematical value of a [`Literal`].
pub struct LiteralView {
    pub value: Seq<char>,
    pub language: Option<Seq<char>>,
    pub datatype: Seq<char>,
}

/// A literal: its lexical form, its language tag if it has one, and the
/// IRI of its datatype.
#[derive(Debug, PartialEq, Eq)]
pub struct Literal {
    pub value: String,
    pub language: Option<String>,
    pub datatype: String,
}

impl Clone for Literal {
    fn clone(&self) -> (r: Literal)
        ensures
            r@ == self@,
    {
        Literal {
            value: self.value.clone(),
            language: crate::model::clone_text_option(&self.language),
            datatype: self.datatype.clone(),
        }
    }
}

impl View for Literal {
    type V = LiteralView;

    open spec fn view(&self) -> LiteralView {
        LiteralView {
            value: self.value@,
            language: text_option(self.language),
            datatype: self.datatype@,
        }
    }
}

/// The mathematical value of a [`Term`].
pub enum TermView {
    Resource(ResourceView),
    Literal(LiteralView),
}

/// The object of a quad.
#[derive(Debug, PartialEq, Eq)]
pub enum Term {
    Resource(Resource),
    Literal(Literal),
}

impl Clone for Term {
    fn clone(&self) -> (r: Term)
        ensures
            r@ == self@,
    {
        match self {
            Term::Resource(resource) => Term::Resource(resource.clone()),
            Term::Literal(literal) => Term::Literal(literal.clone()),
        }
    }
}

impl View for Term {
    type V = TermView;

    open spec fn view(&self) -> TermView {
        match self {
            Term::Resource(resource) => TermView::Resource(resource@),
            Term::Literal(literal) => TermView::Literal(literal@),
        }
    }
}

/// The mathematical value of a [`Quad`].
pub struct QuadView {
    pub subject: ResourceView,
    pub predicate: Seq<char>,
    pub object: TermView,
    pub graph: Option<ResourceView>,
}

/// A statement: subject, predicate and object, in a graph (`None` for the
/// default graph).
#[derive(Debug, PartialEq, Eq)]
pub struct Quad {
    pub subject: Resource,
    pub predicate: String,
    pub object: Term,
    pub graph: Option<Resource>,
}

/// A copy of an optional resource.
pub fn clone_resource_option(resource: &Option<Resource>) -> (r: Option<Resource>)
    ensures
        resource_option(r) == resource_option(*resource),
{
    match resource {
        Some(resource) => Some(resource.clone()),
        None => None,
    }
}

impl Clone for Quad {
    fn clone(&self) -> (r: Quad)
        ensures
            r@ == self@,
    {
        Quad {
            subject: self.subject.clone(),
            predicate: self.predicate.clone(),
            object: self.object.clone(),
            graph: clone_resource_option(&self.graph),
        }
    }
}

/// The value of an optional resource.
pub open spec fn resource_option(resource: Option<Resource>) -> Option<ResourceView> {
    match resource {
        Some(r) => Some(r@),
        None => None,
    }
}

impl View for Quad {
    type V = QuadView;

    open spec fn view(&self) -> QuadView {
        QuadView {
            subject: self.subject@,
            predicate: self.predicate@,
            object: self.object@,
            graph: resource_option(self.graph),
        }
    }
}

/// The views of a list of quads.
pub open spec fn quads_view(quads: Seq<Quad>) -> Seq<QuadView> {
    quads.map_values(|quad: Quad| quad@)
}

/// The serializations of RDF.
#[derive(Debug, Clone, Copy, PartialEq, Eq)]
pub enum RdfFormat {
    Turtle,
    NTriples,
    NQuads,
    TriG,
    JsonLd,
}

/// An ASCII capital letter as a small letter; any other character as it is.
pub open spec fn lower_char(c: char) -> char {
    if 'A' <= c <= 'Z' {
        ((c as u8) + 32) as char
    } else {
        c
    }
}

/// The text with its ASCII capital letters made small.
pub open spec fn lowered(text: Seq<char>) -> Seq<char> {
    text.map_values(|c: char| lower_char(c))
}

/// The format that a file extension stands for.
pub open spec fn format_of(extension: Seq<char>) -> Option<RdfFormat> {
    let name = lowered(extension);
    if name == "ttl"@ || name == "turtle"@ {
        Some(RdfFormat::Turtle)
    } else if name == "nt"@ {
        Some(RdfFormat::NTriples)
    } else if name == "nq"@ {
        Some(RdfFormat::NQuads)
    } else if name == "trig"@ {
        Some(RdfFormat::TriG)
    } else if name == "jsonld"@ {
        Some(RdfFormat::JsonLd)
    } else {
        None
    }
}

/// The format that the extension of a file name stands for, whatever the
/// case of its letters.
pub fn detect_format(extension: &str) -> (r: Option<RdfFormat>)
    ensures
        r == format_of(extension@),
{
    let source = to_chars(extension);
    let mut small: Vec<char> = Vec::new();
    let mut i: usize = 0;
    while i < source.len()
        invariant
            i <= source.len(),
            small.len() == i,
            forall|k: int| 0 <= k < i ==> small@[k] == lower_char(source@[k]),
        decreases source.len() - i,
    {
        let c = source[i];
        if 'A' <= c && c <= 'Z' {
            small.push(((c as u8) + 32) as char);
        } else {
            small.push(c);
        }
        i += 1;
    }
    assert(small@ =~= lowered(extension@));
    let name = crate::text::from_chars(&small);
    if str_eq(name.as_str(), "ttl") || str_eq(name.as_str(), "turtle") {
        Some(RdfFormat::Turtle)
    } else if str_eq(name.as_str(), "nt") {
        Some(RdfFormat::NTriples)
    } else if str_eq(name.as_str(), "nq") {
        Some(RdfFormat::NQuads)
    } else if str_eq(name.as_str(), "trig") {
        Some(RdfFormat::TriG)
    } else if str_eq(name.as_str(), "jsonld") {
        Some(RdfFormat::JsonLd)
    } else {
        None
    }
}

/// The identifier that stands for a resource: the IRI of a named node, the
/// label of a blank node behind `_:`.
pub open spec fn resource_id(resource: ResourceView) -> Seq<char> {
    match resource {
        ResourceView::Named(iri) => iri,
        ResourceView::Blank(label) => BLANK_PREFIX@ + label,
    }
}

/// The identifier that stands for the subject of a quad.
pub fn subject_to_id(subject: &Resource) -> (id: String)
    ensures
        id@ == resource_id(subject@),
{
    match subject {
        Resource::Named(iri) => iri.clone(),
        Resource::Blank(label) => join(BLANK_PREFIX, label.as_str()),
    }
}

/// The name of the graph of a quad; `None` for the default graph.
pub fn graph_name_to_string(graph: &Option<Resource>) -> (name: Option<String>)
    ensures
        text_option(name) == (match resource_option(*graph) {
            Some(resource) => Some(resource_id(resource)),
            None => None,
        }),
{
    match graph {
        Some(resource) => Some(subject_to_id(resource)),
        None => None,
    }
}

/// The literal value that an RDF literal stands for: with a language tag,
/// the text `value@language`; as a truth value, whether its lexical form is
/// `true` or `1`; as an integer, decimal or double, the double that its
/// lexical form denotes (`None` where it denotes none); else its lexical
/// form.
pub open spec fn literal_scalar(literal: LiteralView) -> Option<ScalarView> {
    match literal.language {
        Some(language) => Some(ScalarView::String(literal.value + "@"@ + language)),
        None => if literal.datatype == XSD_BOOLEAN@ {
            Some(ScalarView::Boolean(literal.value == "true"@ || literal.value == "1"@))
        } else if literal.datatype == XSD_INTEGER@ || literal.datatype == XSD_DECIMAL@
            || literal.datatype == XSD_DOUBLE@ {
            match double_of_text(literal.value) {
                Some(number) => Some(ScalarView::Number(number)),
                None => None,
            }
        } else {
            Some(ScalarView::String(literal.value))
        },
    }
}

/// The literal value that an RDF literal stands for; a number whose
/// lexical form denotes no double is a fault.
pub fn literal_to_scalar(literal: &Literal) -> (r: Result<ScalarValue, ToolError>)
    ensures
        match r {
            Ok(scalar) => literal_scalar(literal@) == Some(scalar@),
            Err(e) => literal_scalar(literal@) is None && e is Rdf && e.detail()
                == "invalid float literal: "@ + literal@.value,
        },
{
    match &literal.language {
        Some(language) => {
            let head = join(literal.value.as_str(), "@");
            return Ok(ScalarValue::String(join(head.as_str(), language.as_str())));
        },
        None => {},
    }
    let datatype = literal.datatype.as_str();
    let value = literal.value.as_str();
    if str_eq(datatype, XSD_BOOLEAN) {
        Ok(ScalarValue::Boolean(str_eq(value, "true") || str_eq(value, "1")))
    } else if str_eq(datatype, XSD_INTEGER) || str_eq(datatype, XSD_DECIMAL) || str_eq(
        datatype,
        XSD_DOUBLE,
    ) {
        match NumberValue::parse(value) {
            Some(number) => Ok(ScalarValue::Number(number)),
            None => Err(ToolError::Rdf(join("invalid float literal: ", value))),
        }
    } else {
        Ok(ScalarValue::String(copy(value)))
    }
}

/// The property value that the object of a quad stands for.
pub open spec fn term_property(term: TermView) -> Option<PropertyView> {
    match term {
        TermView::Resource(resource) => Some(PropertyView::ObjectRef(resource_id(resource))),
        TermView::Literal(literal) => match literal_scalar(literal) {
            Some(scalar) => Some(PropertyView::Scalar(scalar)),
            None => None,
        },
    }
}

/// What the failure says of the object of a quad that stands for no
/// value: the lexical form that denotes no number.
pub open spec fn quad_fault(term: TermView) -> Seq<char> {
    match term {
        TermView::Literal(literal) => "invalid float literal: "@ + literal.value,
        TermView::Resource(_) => Seq::empty(),
    }
}

/// The property value that the object of a quad stands for.
pub fn term_to_property(term: &Term) -> (r: Result<PropertyValue, ToolError>)
    ensures
        match r {
            Ok(value) => term_property(term@) == Some(value@),
            Err(e) => term_property(term@) is None && e is Rdf && e.detail() == quad_fault(term@),
        },
{
    match term {
        Term::Resource(resource) => Ok(PropertyValue::ObjectRef(subject_to_id(resource))),
        Term::Literal(literal) => match literal_to_scalar(literal) {
            Ok(scalar) => Ok(PropertyValue::Scalar(scalar)),
            Err(e) => Err(e),
        },
    }
}

/// What a predicate holds once `value` has been seen for it, where it held
/// `held` before. A first value is kept as it is. A second literal, or a
/// second reference, makes a list of the two, and further ones are put
/// behind. A value of the other kind takes the place of what was held.
pub open spec fn merged(held: Option<PropertyView>, value: PropertyView) -> PropertyView {
    match (held, value) {
        (Some(PropertyView::Scalar(first)), PropertyView::Scalar(second)) => PropertyView::Scalars(
            seq![first, second],
        ),
        (Some(PropertyView::ObjectRef(first)), PropertyView::ObjectRef(second)) => {
            PropertyView::ObjectRefs(seq![first, second])
        },
        (Some(PropertyView::Scalars(items)), PropertyView::Scalar(next)) => PropertyView::Scalars(
            items.push(next),
        ),
        (Some(PropertyView::ObjectRefs(items)), PropertyView::ObjectRef(next)) => {
            PropertyView::ObjectRefs(items.push(next))
        },
        (Some(PropertyView::Scalars(items)), PropertyView::Scalars(more)) => PropertyView::Scalars(
            items + more,
        ),
        (Some(PropertyView::ObjectRefs(items)), PropertyView::ObjectRefs(more)) => {
            PropertyView::ObjectRefs(items + more)
        },
        (_, other) => other,
    }
}

/// The value that `node` holds under `predicate` once `value` has been
/// merged into it.
fn merge_value(node: &Node, predicate: &str, value: PropertyValue) -> (r: PropertyValue)
    ensures
        r@ == merged(node@.get(predicate@), value@),
{
    match node.get(predicate) {
        None => value,
        Some(PropertyValue::Scalar(first)) => match value {
            PropertyValue::Scalar(second) => {
                let mut items: Vec<ScalarValue> = Vec::new();
                items.push(first.clone());
                items.push(second);
                assert(scalars(items@) =~= seq![first@, second@]);
                PropertyValue::Array(ArrayValue::Scalars(items))
            },
            other => other,
        },
        Some(PropertyValue::ObjectRef(first)) => match value {
            PropertyValue::ObjectRef(second) => {
                let mut items: Vec<String> = Vec::new();
                items.push(first.clone());
                items.push(second);
                assert(texts(items@) =~= seq![first@, second@]);
                PropertyValue::Array(ArrayValue::ObjectRefs(items))
            },
            other => other,
        },
        Some(PropertyValue::Array(ArrayValue::Scalars(held))) => match value {
            PropertyValue::Scalar(next) => {
                let mut items = clone_scalars(held);
                let ghost before = scalars(items@);
                items.push(next);
                assert(scalars(items@) =~= before.push(next@));
                PropertyValue::Array(ArrayValue::Scalars(items))
            },
            PropertyValue::Array(ArrayValue::Scalars(more)) => {
                let mut items = clone_scalars(held);
                let mut rest = more;
                let ghost before = scalars(items@);
                let ghost tail = scalars(rest@);
                items.append(&mut rest);
                assert(scalars(items@) =~= before + tail);
                PropertyValue::Array(ArrayValue::Scalars(items))
            },
            other => other,
        },
        Some(PropertyValue::Array(ArrayValue::ObjectRefs(held))) => match value {
            PropertyValue::ObjectRef(next) => {
                let mut items = clone_strings(held);
                let ghost before = texts(items@);
                items.push(next);
                assert(texts(items@) =~= before.push(next@));
                PropertyValue::Array(ArrayValue::ObjectRefs(items))
            },
            PropertyValue::Array(ArrayValue::ObjectRefs(more)) => {
                let mut items = clone_strings(held);
                let mut rest = more;
                let ghost before = texts(items@);
                let ghost tail = texts(rest@);
                items.append(&mut rest);
                assert(texts(items@) =~= before + tail);
                PropertyValue::Array(ArrayValue::ObjectRefs(items))
            },
            other => other,
        },
    }
}

/// Merges one more value for `predicate` into `node`.
pub fn merge_property(node: &mut Node, predicate: String, value: PropertyValue)
    ensures
        final(node)@ == with_property(
            old(node)@,
            predicate@,
            merged(old(node)@.get(predicate@), value@),
        ),
{
    let value = merge_value(node, predicate.as_str(), value);
    node.insert_property(predicate, value);
}

/// The nodes after one more quad: its subject is a node of its graph; a
/// quad with the predicate `rdf:type` gives that node the type that its
/// object names, and says nothing where its object is no named node; any
/// other quad has its object merged into what the node holds under its
/// predicate.
pub open spec fn quad_step(nodes: Seq<NodeView>, quad: QuadView) -> Result<
    Seq<NodeView>,
    ErrorKind,
> {
    let key = (
        match quad.graph {
            Some(resource) => Some(resource_id(resource)),
            None => None,
        },
        resource_id(quad.subject),
    );
    let at = position(nodes, key);
    let there = ensured(nodes, key);
    if quad.predicate == RDF_TYPE@ {
        match quad.object {
            TermView::Resource(ResourceView::Named(class)) => Ok(
                there.update(at, with_type(there[at], class)),
            ),
            _ => Ok(there),
        }
    } else {
        match term_property(quad.object) {
            Some(value) => Ok(
                there.update(
                    at,
                    with_property(
                        there[at],
                        quad.predicate,
                        merged(there[at].get(quad.predicate), value),
                    ),
                ),
            ),
            None => Err(ErrorKind::Rdf),
        }
    }
}

/// The step that takes in one more quad.
pub open spec fn quad_stepper() -> spec_fn(Seq<NodeView>, QuadView) -> Result<
    Seq<NodeView>,
    ErrorKind,
> {
    |nodes: Seq<NodeView>, quad: QuadView| quad_step(nodes, quad)
}

/// The nodes that a sequence of quads describes.
pub open spec fn nodes_of_quads(quads: Seq<QuadView>) -> Result<Seq<NodeView>, ErrorKind> {
    try_fold(Seq::<NodeView>::empty(), quads, quad_stepper())
}

/// Takes in one quad.
fn take_quad(nodes: &mut NodeSet, quad: &Quad) -> (r: Result<(), ToolError>)
    ensures
        match r {
            Ok(()) => quad_step(old(nodes)@, quad@) == Ok::<Seq<NodeView>, ErrorKind>(
                final(nodes)@,
            ),
            Err(e) => quad_step(old(nodes)@, quad@) == Err::<Seq<NodeView>, ErrorKind>(e.kind())
                && e.detail() == quad_fault(quad@.object),
        },
{
    let id = subject_to_id(&quad.subject);
    let graph = graph_name_to_string(&quad.graph);
    let at = nodes.ensure_node(graph, id.as_str());
    if str_eq(quad.predicate.as_str(), RDF_TYPE) {
        match &quad.object {
            Term::Resource(Resource::Named(class)) => {
                nodes.add_type(at, class.clone());
            },
            _ => {},
        }
        return Ok(());
    }
    match term_to_property(&quad.object) {
        Ok(value) => {
            let value = merge_value(nodes.node(at), quad.predicate.as_str(), value);
            nodes.insert_property(at, quad.predicate.clone(), value);
            Ok(())
        },
        Err(e) => Err(e),
    }
}

/// Reads the nodes that quads describe; they come in rising order of graph
/// and identifier. The failure names the lexical form of the first literal
/// that denotes no number.
pub fn read_rdf(quads: &Vec<Quad>) -> (r: Result<Vec<Node>, ToolError>)
    ensures
        match r {
            Ok(nodes) => nodes_of_quads(quads_view(quads@)) == Ok::<Seq<NodeView>, ErrorKind>(
                nodes_view(nodes@),
            ) && crate::nodes::sorted_nodes(nodes_view(nodes@)),
            Err(e) => nodes_of_quads(quads_view(quads@)) == Err::<Seq<NodeView>, ErrorKind>(
                e.kind(),
            ) && e.detail() == quad_fault(
                quads_view(quads@)[fault_at(
                    Seq::<NodeView>::empty(),
                    quads_view(quads@),
                    quad_stepper(),
                )].object,
            ),
        },
{
    let mut nodes = NodeSet::new();
    let ghost all = quads_view(quads@);
    let ghost step = quad_stepper();
    proof {
        lemma_try_fold_all(Seq::<NodeView>::empty(), all, step);
    }
    let mut i: usize = 0;
    while i < quads.len()
        invariant
            i <= quads.len(),
            all == quads_view(quads@),
            step == quad_stepper(),
            try_fold(Seq::<NodeView>::empty(), all.take(i as int), step) == Ok::<
                Seq<NodeView>,
                ErrorKind,
            >(nodes@),
        decreases quads.len() - i,
    {
        proof {
            lemma_try_fold_next(Seq::<NodeView>::empty(), all, step, i as int);
            assert(all[i as int] == quads@[i as int]@);
        }
        match take_quad(&mut nodes, &quads[i]) {
            Ok(()) => {},
            Err(e) => {
                proof {
                    lemma_try_fold_fault(Seq::<NodeView>::empty(), all, step, i + 1);
                    lemma_fault_at(Seq::<NodeView>::empty(), all, step, i as int);
                }
                return Err(e);
            },
        }
        i += 1;
    }
    proof {
        lemma_try_fold_all(Seq::<NodeView>::empty(), all, step);
    }
    Ok(nodes.into_nodes())
}

/// The resource that an identifier stands for: behind `_:`, the blank node
/// with the label that follows; else the named node with the identifier as
/// its IRI. A label that is none is an RDF fault, an IRI that is none an
/// invalid IRI.
pub open spec fn node_ref(id: Seq<char>) -> Result<ResourceView, ErrorKind> {
    if BLANK_PREFIX@.is_prefix_of(id) {
        let label = id.subrange(BLANK_PREFIX@.len() as int, id.len() as int);
        if is_blank_label(label) {
            Ok(ResourceView::Blank(label))
        } else {
            Err(ErrorKind::Rdf)
        }
    } else if is_rdf_iri(id) {
        Ok(ResourceView::Named(id))
    } else {
        Err(ErrorKind::InvalidIri)
    }
}

/// What the failure says of an identifier that stands for no resource:
/// behind `_:`, that the label is none; else the identifier itself.
pub open spec fn node_fault(id: Seq<char>) -> Seq<char> {
    if BLANK_PREFIX@.is_prefix_of(id) {
        "invalid blank node identifier: "@ + id.subrange(
            BLANK_PREFIX@.len() as int,
            id.len() as int,
        )
    } else {
        id
    }
}

/// The resource that an identifier stands for.
pub fn id_to_subject(id: &str) -> (r: Result<Resource, ToolError>)
    ensures
        match r {
            Ok(resource) => node_ref(id@) == Ok::<ResourceView, ErrorKind>(resource@),
            Err(e) => node_ref(id@) == Err::<ResourceView, ErrorKind>(e.kind()) && e.detail()
                == node_fault(id@),
        },
{
    match strip_prefix(id, BLANK_PREFIX) {
        Some(label) => {
            if check_blank_label(label.as_str()) {
                Ok(Resource::Blank(label))
            } else {
                Err(ToolError::Rdf(join("invalid blank node identifier: ", label.as_str())))
            }
        },
        None => {
            if check_iri(id) {
                Ok(Resource::Named(copy(id)))
            } else {
                Err(ToolError::InvalidIri(copy(id)))
            }
        },
    }
}

/// The term that an identifier stands for.
pub fn id_to_term(id: &str) -> (r: Result<Term, ToolError>)
    ensures
        match r {
            Ok(term) => term@ is Resource && node_ref(id@) == Ok::<ResourceView, ErrorKind>(
                term@->Resource_0,
            ),
            Err(e) => node_ref(id@) == Err::<ResourceView, ErrorKind>(e.kind()) && e.detail()
                == node_fault(id@),
        },
{
    match id_to_subject(id) {
        Ok(resource) => Ok(Term::Resource(resource)),
        Err(e) => Err(e),
    }
}

/// The graph that a graph name stands for; no name stands for the default
/// graph.
pub open spec fn graph_ref(graph: Option<Seq<char>>) -> Result<Option<ResourceView>, ErrorKind> {
    match graph {
        None => Ok(None),
        Some(name) => match node_ref(name) {
            Ok(resource) => Ok(Some(resource)),
            Err(kind) => Err(kind),
        },
    }
}

/// The graph that a graph name stands for.
pub fn graph_to_name(graph: &Option<String>) -> (r: Result<Option<Resource>, ToolError>)
    ensures
        match r {
            Ok(resource) => graph_ref(text_option(*graph)) == Ok::<
                Option<ResourceView>,
                ErrorKind,
            >(resource_option(resource)),
            Err(e) => graph_ref(text_option(*graph)) == Err::<Option<ResourceView>, ErrorKind>(
                e.kind(),
            ) && (graph matches Some(name) && e.detail() == node_fault(name@)),
        },
{
    match graph {
        None => Ok(None),
        Some(name) => match id_to_subject(name.as_str()) {
            Ok(resource) => Ok(Some(resource)),
            Err(e) => Err(e),
        },
    }
}

/// The term that is written for a literal value: plain text for a string,
/// the decimal notation as a double for a number, `true` or `false` as a
/// truth value. Nothing is written for a null.
pub open spec fn scalar_term(value: ScalarView) -> Option<TermView> {
    match value {
        ScalarView::String(text) => Some(
            TermView::Literal(LiteralView { value: text, language: None, datatype: XSD_STRING@ }),
        ),
        ScalarView::Number(number) => Some(
            TermView::Literal(
                LiteralView { value: number.decimal, language: None, datatype: XSD_DOUBLE@ },
            ),
        ),
        ScalarView::Boolean(flag) => Some(
            TermView::Literal(
                LiteralView {
                    value: if flag {
                        "true"@
                    } else {
                        "false"@
                    },
                    language: None,
                    datatype: XSD_BOOLEAN@,
                },
            ),
        ),
        ScalarView::Null => None,
    }
}

/// The term that is written for a literal value.
pub fn scalar_to_term(value: &ScalarValue) -> (r: Option<Term>)
    ensures
        match r {
            Some(term) => scalar_term(value@) == Some(term@),
            None => scalar_term(value@) is None,
        },
{
    match value {
        ScalarValue::String(text) => Some(
            Term::Literal(
                Literal { value: text.clone(), language: None, datatype: copy(XSD_STRING) },
            ),
        ),
        ScalarValue::Number(number) => Some(
            Term::Literal(
                Literal {
                    value: number.decimal().clone(),
                    language: None,
                    datatype: copy(XSD_DOUBLE),
                },
            ),
        ),
        ScalarValue::Boolean(flag) => Some(
            Term::Literal(
                Literal {
                    value: if *flag {
                        copy("true")
                    } else {
                        copy("false")
                    },
                    language: None,
                    datatype: copy(XSD_BOOLEAN),
                },
            ),
        ),
        ScalarValue::Null => None,
    }
}

/// The terms that are written for a list of literal values, in order.
pub open spec fn scalar_terms(items: Seq<ScalarView>) -> Seq<TermView>
    decreases items.len(),
{
    if items.len() == 0 {
        seq![]
    } else {
        let rest = scalar_terms(items.drop_last());
        match scalar_term(items.last()) {
            Some(term) => rest.push(term),
            None => rest,
        }
    }
}

/// The step that takes in one more reference as a term.
pub open spec fn ref_stepper() -> spec_fn(Seq<TermView>, Seq<char>) -> Result<
    Seq<TermView>,
    ErrorKind,
> {
    |terms: Seq<TermView>, target: Seq<char>|
        match node_ref(target) {
            Ok(resource) => Ok(terms.push(TermView::Resource(resource))),
            Err(kind) => Err(kind),
        }
}

/// The terms that are written for a value: one for each literal that is
/// not null, one for each reference.
pub open spec fn value_terms(value: PropertyView) -> Result<Seq<TermView>, ErrorKind> {
    match value {
        PropertyView::Scalar(scalar) => Ok(scalar_terms(seq![scalar])),
        PropertyView::Scalars(items) => Ok(scalar_terms(items)),
        PropertyView::ObjectRef(target) => try_fold(
            Seq::<TermView>::empty(),
            seq![target],
            ref_stepper(),
        ),
        PropertyView::ObjectRefs(targets) => try_fold(
            Seq::<TermView>::empty(),
            targets,
            ref_stepper(),
        ),
    }
}

/// The views of a list of terms.
pub open spec fn terms_view(terms: Seq<Term>) -> Seq<TermView> {
    terms.map_values(|term: Term| term@)
}

/// The terms that are written for a list of literal values.
fn scalars_to_terms(items: &Vec<ScalarValue>) -> (terms: Vec<Term>)
    ensures
        terms_view(terms@) == scalar_terms(scalars(items@)),
{
    let ghost all = scalars(items@);
    let mut terms: Vec<Term> = Vec::new();
    assert(terms_view(terms@) =~= seq![]);
    assert(all.take(0) =~= seq![]);
    let mut i: usize = 0;
    while i < items.len()
        invariant
            i <= items.len(),
            all == scalars(items@),
            terms_view(terms@) == scalar_terms(all.take(i as int)),
        decreases items.len() - i,
    {
        proof {
            assert(all.take(i + 1).drop_last() =~= all.take(i as int));
            assert(all.take(i + 1).last() == items@[i as int]@);
        }
        let ghost before = terms_view(terms@);
        match scalar_to_term(&items[i]) {
            Some(term) => {
                terms.push(term);
                assert(terms_view(terms@) =~= before.push(term@));
            },
            None => {},
        }
        i += 1;
    }
    assert(all.take(items@.len() as int) =~= all);
    terms
}

/// What the failure says of references of which one stands for no
/// resource: what is wrong with the first such reference.
pub open spec fn refs_fault(targets: Seq<Seq<char>>) -> Seq<char> {
    node_fault(targets[fault_at(Seq::<TermView>::empty(), targets, ref_stepper())])
}

/// What the failure says of a value that cannot be written: what is wrong
/// with its first reference that stands for no resource.
pub open spec fn value_fault(value: PropertyView) -> Seq<char> {
    match value {
        PropertyView::ObjectRef(target) => node_fault(target),
        PropertyView::ObjectRefs(targets) => refs_fault(targets),
        _ => Seq::empty(),
    }
}

/// What the failure says of a name that had to be an IRI.
pub open spec fn iri_fault(name: Seq<char>) -> Seq<char> {
    "invalid IRI: "@ + name
}

/// What the failure says of a property that cannot be written: that its
/// predicate is no IRI, or what is wrong with its value.
pub open spec fn entry_fault(entry: (Seq<char>, PropertyView)) -> Seq<char> {
    if is_rdf_iri(entry.0) {
        value_fault(entry.1)
    } else {
        iri_fault(entry.0)
    }
}

/// What the failure says of a node that cannot be written behind `quads`:
/// what is wrong with its identifier, else with its graph, else with the
/// first of its types that is no IRI, else with the first of its
/// properties that cannot be written.
pub open spec fn node_write_fault(quads: Seq<QuadView>, node: NodeView) -> Seq<char> {
    match node_ref(node.id) {
        Err(_) => node_fault(node.id),
        Ok(subject) => match graph_ref(node.graph) {
            Err(_) => node_fault(node.graph->Some_0),
            Ok(graph) => match try_fold(quads, node.types, type_stepper(subject, graph)) {
                Err(_) => iri_fault(
                    node.types[fault_at(quads, node.types, type_stepper(subject, graph))],
                ),
                Ok(typed) => entry_fault(
                    node.properties[fault_at(
                        typed,
                        node.properties,
                        property_stepper(subject, graph),
                    )],
                ),
            },
        },
    }
}

/// What the failure says of nodes that cannot be written: what is wrong
/// with the first node that cannot.
pub open spec fn write_fault(nodes: Seq<NodeView>) -> Seq<char> {
    let at = fault_at(Seq::<QuadView>::empty(), nodes, node_stepper());
    node_write_fault(
        try_fold(Seq::<QuadView>::empty(), nodes.take(at), node_stepper())->Ok_0,
        nodes[at],
    )
}

/// The terms that are written for a list of references.
fn refs_to_terms(targets: &Vec<String>) -> (r: Result<Vec<Term>, ToolError>)
    ensures
        match r {
            Ok(terms) => try_fold(Seq::<TermView>::empty(), texts(targets@), ref_stepper())
                == Ok::<Seq<TermView>, ErrorKind>(terms_view(terms@)),
            Err(e) => try_fold(Seq::<TermView>::empty(), texts(targets@), ref_stepper())
                == Err::<Seq<TermView>, ErrorKind>(e.kind()) && e.detail() == refs_fault(
                texts(targets@),
            ),
        },
{
    let ghost all = texts(targets@);
    let ghost step = ref_stepper();
    let ghost start = Seq::<TermView>::empty();
    let mut terms: Vec<Term> = Vec::new();
    proof {
        assert(terms_view(terms@) =~= start);
        lemma_try_fold_all(start, all, step);
    }
    let mut i: usize = 0;
    while i < targets.len()
        invariant
            i <= targets.len(),
            all == texts(targets@),
            step == ref_stepper(),
            start == Seq::<TermView>::empty(),
            try_fold(start, all.take(i as int), step) == Ok::<Seq<TermView>, ErrorKind>(
                terms_view(terms@),
            ),
        decreases targets.len() - i,
    {
        proof {
            lemma_try_fold_next(start, all, step, i as int);
            assert(all[i as int] == targets@[i as int]@);
        }
        let ghost before = terms_view(terms@);
        match id_to_term(targets[i].as_str()) {
            Ok(term) => {
                terms.push(term);
                assert(terms_view(terms@) =~= before.push(term@));
            },
            Err(e) => {
                proof {
                    lemma_try_fold_fault(start, all, step, i + 1);
                    lemma_fault_at(start, all, step, i as int);
                }
                return Err(e);
            },
        }
        i += 1;
    }
    proof {
        lemma_try_fold_all(start, all, step);
    }
    Ok(terms)
}

/// The terms that are written for a value.
pub fn value_to_terms(value: &PropertyValue) -> (r: Result<Vec<Term>, ToolError>)
    ensures
        match r {
            Ok(terms) => value_terms(value@) == Ok::<Seq<TermView>, ErrorKind>(
                terms_view(terms@),
            ),
            Err(e) => value_terms(value@) == Err::<Seq<TermView>, ErrorKind>(e.kind())
                && e.detail() == value_fault(value@),
        },
{
    match value {
        PropertyValue::Scalar(scalar) => {
            let mut items: Vec<ScalarValue> = Vec::new();
            items.push(scalar.clone());
            assert(scalars(items@) =~= seq![scalar@]);
            Ok(scalars_to_terms(&items))
        },
        PropertyValue::Array(ArrayValue::Scalars(items)) => Ok(scalars_to_terms(items)),
        PropertyValue::ObjectRef(target) => {
            let mut targets: Vec<String> = Vec::new();
            targets.push(target.clone());
            proof {
                let one = seq![target@];
                assert(texts(targets@) =~= one);
                assert(one.drop_last() =~= Seq::<Seq<char>>::empty());
                assert(fault_at(Seq::<TermView>::empty(), one, ref_stepper()) == 0);
            }
            refs_to_terms(&targets)
        },
        PropertyValue::Array(ArrayValue::ObjectRefs(targets)) => refs_to_terms(targets),
    }
}

/// The quads with the given subject, predicate and graph, one for each
/// term.
pub open spec fn quads_for(
    subject: ResourceView,
    graph: Option<ResourceView>,
    predicate: Seq<char>,
    terms: Seq<TermView>,
) -> Seq<QuadView> {
    terms.map_values(|term: TermView| QuadView { subject, predicate, object: term, graph })
}

/// The step that writes one more type of a node.
pub open spec fn type_stepper(subject: ResourceView, graph: Option<ResourceView>) -> spec_fn(
    Seq<QuadView>,
    Seq<char>,
) -> Result<Seq<QuadView>, ErrorKind> {
    |quads: Seq<QuadView>, class: Seq<char>|
        if is_rdf_iri(class) {
            Ok(
                quads.push(
                    QuadView {
                        subject,
                        predicate: RDF_TYPE@,
                        object: TermView::Resource(ResourceView::Named(class)),
                        graph,
                    },
                ),
            )
        } else {
            Err(ErrorKind::Rdf)
        }
}

/// The step that writes one more property of a node: its predicate has to
/// be an IRI, and each term of its value makes a quad.
pub open spec fn property_stepper(subject: ResourceView, graph: Option<ResourceView>) -> spec_fn(
    Seq<QuadView>,
    (Seq<char>, PropertyView),
) -> Result<Seq<QuadView>, ErrorKind> {
    |quads: Seq<QuadView>, entry: (Seq<char>, PropertyView)|
        if is_rdf_iri(entry.0) {
            match value_terms(entry.1) {
                Ok(terms) => Ok(quads + quads_for(subject, graph, entry.0, terms)),
                Err(kind) => Err(kind),
            }
        } else {
            Err(ErrorKind::Rdf)
        }
}

/// The quads behind `quads` once `node` is written: one for each of its
/// types, then those of its properties, in the order in which the node
/// holds them.
pub open spec fn node_quads(quads: Seq<QuadView>, node: NodeView) -> Result<
    Seq<QuadView>,
    ErrorKind,
> {
    match node_ref(node.id) {
        Ok(subject) => match graph_ref(node.graph) {
            Ok(graph) => match try_fold(quads, node.types, type_stepper(subject, graph)) {
                Ok(typed) => try_fold(typed, node.properties, property_stepper(subject, graph)),
                Err(kind) => Err(kind),
            },
            Err(kind) => Err(kind),
        },
        Err(kind) => Err(kind),
    }
}

/// The step that writes one more node.
pub open spec fn node_stepper() -> spec_fn(Seq<QuadView>, NodeView) -> Result<
    Seq<QuadView>,
    ErrorKind,
> {
    |quads: Seq<QuadView>, node: NodeView| node_quads(quads, node)
}

/// The quads that are written for nodes, node by node.
pub open spec fn quads_of_nodes(nodes: Seq<NodeView>) -> Result<Seq<QuadView>, ErrorKind> {
    try_fold(Seq::<QuadView>::empty(), nodes, node_stepper())
}

/// Writes the quads of one node behind those written before.
fn write_node(node: &Node, quads: &mut Vec<Quad>) -> (r: Result<(), ToolError>)
    ensures
        match r {
            Ok(()) => node_quads(quads_view(old(quads)@), node@) == Ok::<
                Seq<QuadView>,
                ErrorKind,
            >(quads_view(final(quads)@)),
            Err(e) => node_quads(quads_view(old(quads)@), node@) == Err::<
                Seq<QuadView>,
                ErrorKind,
            >(e.kind()) && e.detail() == node_write_fault(quads_view(old(quads)@), node@),
        },
{
    let subject = match id_to_subject(node.id().as_str()) {
        Ok(subject) => subject,
        Err(e) => {
            return Err(e);
        },
    };
    let graph = match graph_to_name(node.graph()) {
        Ok(graph) => graph,
        Err(e) => {
            return Err(e);
        },
    };
    let ghost start = quads_view(quads@);
    let ghost wanted = node_quads(start, node@);
    let ghost fault = node_write_fault(start, node@);
    let types = node.types();
    let ghost all_types = texts(types@);
    let ghost type_step = type_stepper(subject@, resource_option(graph));
    proof {
        lemma_try_fold_all(start, all_types, type_step);
    }
    let mut i: usize = 0;
    while i < types.len()
        invariant
            i <= types.len(),
            all_types == texts(types@),
            all_types == node@.types,
            type_step == type_stepper(subject@, resource_option(graph)),
            wanted == node_quads(quads_view(old(quads)@), node@),
            wanted == (match try_fold(start, all_types, type_step) {
                Ok(typed) => try_fold(
                    typed,
                    node@.properties,
                    property_stepper(subject@, resource_option(graph)),
                ),
                Err(kind) => Err(kind),
            }),
            fault == (match try_fold(start, all_types, type_step) {
                Ok(typed) => entry_fault(
                    node@.properties[fault_at(
                        typed,
                        node@.properties,
                        property_stepper(subject@, resource_option(graph)),
                    )],
                ),
                Err(_) => iri_fault(all_types[fault_at(start, all_types, type_step)]),
            }),
            fault == node_write_fault(quads_view(old(quads)@), node@),
            try_fold(start, all_types.take(i as int), type_step) == Ok::<
                Seq<QuadView>,
                ErrorKind,
            >(quads_view(quads@)),
        decreases types.len() - i,
    {
        proof {
            lemma_try_fold_next(start, all_types, type_step, i as int);
            assert(all_types[i as int] == types@[i as int]@);
        }
        if !check_iri(types[i].as_str()) {
            proof {
                lemma_try_fold_fault(start, all_types, type_step, i + 1);
                lemma_fault_at(start, all_types, type_step, i as int);
            }
            return Err(ToolError::Rdf(join("invalid IRI: ", types[i].as_str())));
        }
        let ghost before = quads_view(quads@);
        let quad = Quad {
            subject: subject.clone(),
            predicate: copy(RDF_TYPE),
            object: Term::Resource(Resource::Named(types[i].clone())),
            graph: clone_resource_option(&graph),
        };
        quads.push(quad);
        assert(quads_view(quads@) =~= before.push(quad@));
        i += 1;
    }
    proof {
        lemma_try_fold_all(start, all_types, type_step);
    }
    let ghost typed = quads_view(quads@);
    let properties = node.properties();
    let ghost all = entries(properties@);
    let ghost step = property_stepper(subject@, resource_option(graph));
    proof {
        lemma_try_fold_all(typed, all, step);
    }
    let mut j: usize = 0;
    while j < properties.len()
        invariant
            j <= properties.len(),
            all == entries(properties@),
            step == property_stepper(subject@, resource_option(graph)),
            wanted == node_quads(quads_view(old(quads)@), node@),
            wanted == try_fold(typed, all, step),
            try_fold(typed, all, step) is Err ==> fault == entry_fault(
                all[fault_at(typed, all, step)],
            ),
            fault == node_write_fault(quads_view(old(quads)@), node@),
            try_fold(typed, all.take(j as int), step) == Ok::<Seq<QuadView>, ErrorKind>(
                quads_view(quads@),
            ),
        decreases properties.len() - j,
    {
        proof {
            lemma_try_fold_next(typed, all, step, j as int);
            assert(all[j as int] == (properties@[j as int].0@, properties@[j as int].1@));
        }
        let predicate = &properties[j].0;
        if !check_iri(predicate.as_str()) {
            proof {
                lemma_try_fold_fault(typed, all, step, j + 1);
                lemma_fault_at(typed, all, step, j as int);
            }
            return Err(ToolError::Rdf(join("invalid IRI: ", predicate.as_str())));
        }
        let terms = match value_to_terms(&properties[j].1) {
            Ok(terms) => terms,
            Err(e) => {
                proof {
                    lemma_try_fold_fault(typed, all, step, j + 1);
                    lemma_fault_at(typed, all, step, j as int);
                }
                return Err(e);
            },
        };
        let ghost before = quads_view(quads@);
        let ghost made = quads_for(
            subject@,
            resource_option(graph),
            predicate@,
            terms_view(terms@),
        );
        let mut k: usize = 0;
        while k < terms.len()
            invariant
                k <= terms.len(),
                made == quads_for(
                    subject@,
                    resource_option(graph),
                    predicate@,
                    terms_view(terms@),
                ),
                quads_view(quads@) == before + made.take(k as int),
            decreases terms.len() - k,
        {
            let ghost prior = quads_view(quads@);
            let quad = Quad {
                subject: subject.clone(),
                predicate: predicate.clone(),
                object: terms[k].clone(),
                graph: clone_resource_option(&graph),
            };
            quads.push(quad);
            proof {
                assert(quads_view(quads@) =~= prior.push(quad@));
                assert(made[k as int] == quad@);
                assert(made.take(k + 1) =~= made.take(k as int).push(made[k as int]));
                assert(quads_view(quads@) =~= before + made.take(k + 1));
            }
            k += 1;
        }
        proof {
            assert(made.take(terms@.len() as int) =~= made);
        }
        j += 1;
    }
    proof {
        lemma_try_fold_all(typed, all, step);
    }
    Ok(())
}

/// Writes nodes as quads.
///
/// Fails where an identifier, a graph name or a reference is no IRI and
/// no blank node (an invalid IRI, or an RDF fault for a bad label), and
/// where a type or a predicate is no IRI (an RDF fault). The failure says
/// what is wrong with the first node that cannot be written.
pub fn write_rdf(nodes: &[Node]) -> (r: Result<Vec<Quad>, ToolError>)
    ensures
        match r {
            Ok(quads) => quads_of_nodes(nodes_view(nodes@)) == Ok::<Seq<QuadView>, ErrorKind>(
                quads_view(quads@),
            ),
            Err(e) => quads_of_nodes(nodes_view(nodes@)) == Err::<Seq<QuadView>, ErrorKind>(
                e.kind(),
            ) && e.detail() == write_fault(nodes_view(nodes@)),
        },
{
    let mut quads: Vec<Quad> = Vec::new();
    let ghost all = nodes_view(nodes@);
    let ghost step = node_stepper();
    let ghost start = Seq::<QuadView>::empty();
    proof {
        assert(quads_view(quads@) =~= start);
        lemma_try_fold_all(start, all, step);
    }
    let mut i: usize = 0;
    while i < nodes.len()
        invariant
            i <= nodes.len(),
            all == nodes_view(nodes@),
            step == node_stepper(),
            start == Seq::<QuadView>::empty(),
            try_fold(start, all.take(i as int), step) == Ok::<Seq<QuadView>, ErrorKind>(
                quads_view(quads@),
            ),
        decreases nodes.len() - i,
    {
        proof {
            lemma_try_fold_next(start, all, step, i as int);
            assert(all[i as int] == nodes@[i as int]@);
        }
        match write_node(&nodes[i], &mut quads) {
            Ok(()) => {},
            Err(e) => {
                proof {
                    lemma_try_fold_fault(start, all, step, i + 1);
                    lemma_fault_at(start, all, step, i as int);
                }
                return Err(e);
            },
        }
        i += 1;
    }
    proof {
        lemma_try_fold_all(start, all, step);
    }
    Ok(quads)
}

/// Writing a property that holds a null writes nothing: the quads stay as
/// they were.
pub proof fn null_writes_no_quad(
    subject: ResourceView,
    graph: Option<ResourceView>,
    quads: Seq<QuadView>,
    predicate: Seq<char>,
)
    requires
        is_rdf_iri(predicate),
    ensures
        property_stepper(subject, graph)(
            quads,
            (predicate, PropertyView::Scalar(ScalarView::Null)),
        ) == Ok::<Seq<QuadView>, ErrorKind>(quads),
{
    let items = seq![ScalarView::Null];
    assert(items.drop_last() =~= Seq::<ScalarView>::empty());
    assert(scalar_terms(items.drop_last()) =~= Seq::<TermView>::empty());
    assert(scalar_terms(items) =~= Seq::<TermView>::empty());
    assert(quads_for(subject, graph, predicate, Seq::<TermView>::empty()) =~= Seq::<
        QuadView,
    >::empty());
    assert(quads + Seq::<QuadView>::empty() =~= quads);
}

/// A property that holds a null leaves no trace in what is written: the
/// quads of a node are those of the node without the property.
pub proof fn null_property_is_not_written(quads: Seq<QuadView>, node: NodeView, at: int)
    requires
        0 <= at < node.properties.len(),
        node.properties[at].1 == PropertyView::Scalar(ScalarView::Null),
        is_rdf_iri(node.properties[at].0),
    ensures
        node_quads(quads, node) == node_quads(
            quads,
            NodeView { properties: node.properties.remove(at), ..node },
        ),
{
    if node_ref(node.id) is Ok && graph_ref(node.graph) is Ok {
        let subject = node_ref(node.id)->Ok_0;
        let graph = graph_ref(node.graph)->Ok_0;
        let typed = try_fold(quads, node.types, type_stepper(subject, graph));
        if typed is Ok {
            let step = property_stepper(subject, graph);
            assert forall|written: Seq<QuadView>| #[trigger]
                step(written, node.properties[at]) == Ok::<Seq<QuadView>, ErrorKind>(
                    written,
                ) by {
                null_writes_no_quad(subject, graph, written, node.properties[at].0);
            }
            crate::fold::lemma_try_fold_skip(typed->Ok_0, node.properties, step, at);
        }
    }
}

/// The key of the node that a quad speaks of: the name of its graph and
/// the identifier of its subject.
pub open spec fn quad_key(quad: QuadView) -> NodeKey {
    (
        match quad.graph {
            Some(resource) => Some(resource_id(resource)),
            None => None,
        },
        resource_id(quad.subject),
    )
}

/// The resource that an identifier stands for has the identifier.
pub proof fn lemma_node_ref(id: Seq<char>)
    ensures
        node_ref(id) matches Ok(resource) ==> resource_id(resource) == id,
{
    if BLANK_PREFIX@.is_prefix_of(id) {
        let label = id.subrange(BLANK_PREFIX@.len() as int, id.len() as int);
        assert(BLANK_PREFIX@ + label =~= id);
    }
}

/// Whether a quad is one that is written for a node: it speaks of the
/// node, and gives it a type or a value that it holds and that is no
/// null.
pub open spec fn written_for(quad: QuadView, node: NodeView) -> bool {
    &&& quad_key(quad) == key_of(node)
    &&& (quad.predicate == RDF_TYPE@ || exists|j: int|
        0 <= j < node.properties.len() && quad.predicate == (#[trigger] node.properties[j]).0
            && node.properties[j].1 != PropertyView::Scalar(ScalarView::Null))
}

/// The terms of a null are none.
pub proof fn lemma_null_terms()
    ensures
        scalar_terms(seq![ScalarView::Null]) == Seq::<TermView>::empty(),
{
    let items = seq![ScalarView::Null];
    assert(items.drop_last() =~= Seq::<ScalarView>::empty());
    assert(scalar_terms(items.drop_last()) =~= Seq::<TermView>::empty());
    assert(scalar_terms(items) =~= Seq::<TermView>::empty());
}

/// What writing the first types of a node puts behind the quads: quads
/// with the subject and the graph of the node that give it a type.
pub proof fn lemma_types_written(
    quads: Seq<QuadView>,
    types: Seq<Seq<char>>,
    subject: ResourceView,
    graph: Option<ResourceView>,
)
    requires
        try_fold(quads, types, type_stepper(subject, graph)) is Ok,
    ensures
        ({
            let written = try_fold(quads, types, type_stepper(subject, graph))->Ok_0;
            &&& written.len() >= quads.len()
            &&& forall|k: int| 0 <= k < quads.len() ==> #[trigger] written[k] == quads[k]
            &&& forall|k: int|
                quads.len() <= k < written.len() ==> (#[trigger] written[k]).subject == subject
                    && written[k].graph == graph && written[k].predicate == RDF_TYPE@
        }),
    decreases types.len(),
{
    if types.len() > 0 {
        let step = type_stepper(subject, graph);
        let before = try_fold(quads, types.drop_last(), step);
        assert(before is Ok);
        lemma_types_written(quads, types.drop_last(), subject, graph);
    }
}

/// What writing the first properties of a node puts behind the quads:
/// quads with the subject and the graph of the node, each under the
/// predicate of a value that is no null.
pub proof fn lemma_properties_written(
    quads: Seq<QuadView>,
    properties: Seq<(Seq<char>, PropertyView)>,
    subject: ResourceView,
    graph: Option<ResourceView>,
)
    requires
        try_fold(quads, properties, property_stepper(subject, graph)) is Ok,
    ensures
        ({
            let written = try_fold(quads, properties, property_stepper(subject, graph))->Ok_0;
            &&& written.len() >= quads.len()
            &&& forall|k: int| 0 <= k < quads.len() ==> #[trigger] written[k] == quads[k]
            &&& forall|k: int|
                quads.len() <= k < written.len() ==> (#[trigger] written[k]).subject == subject
                    && written[k].graph == graph && exists|j: int|
                    0 <= j < properties.len() && written[k].predicate == (
                    #[trigger] properties[j]).0 && properties[j].1 != PropertyView::Scalar(
                        ScalarView::Null,
                    )
        }),
    decreases properties.len(),
{
    if properties.len() > 0 {
        let step = property_stepper(subject, graph);
        let rest = properties.drop_last();
        let entry = properties.last();
        let last = properties.len() - 1;
        assert(entry == properties[last]);
        let before = try_fold(quads, rest, step);
        assert(before is Ok);
        lemma_properties_written(quads, rest, subject, graph);
        let middle = before->Ok_0;
        let written = try_fold(quads, properties, step)->Ok_0;
        let terms = value_terms(entry.1)->Ok_0;
        assert(written == middle + quads_for(subject, graph, entry.0, terms));
        lemma_null_terms();
        assert forall|k: int| quads.len() <= k < written.len() implies (
        #[trigger] written[k]).subject == subject && written[k].graph == graph && exists|j: int|
            0 <= j < properties.len() && written[k].predicate == (#[trigger] properties[j]).0
                && properties[j].1 != PropertyView::Scalar(ScalarView::Null) by {
            if k < middle.len() {
                assert(written[k] == middle[k]);
                let j = choose|j: int|
                    0 <= j < rest.len() && middle[k].predicate == (#[trigger] rest[j]).0
                        && rest[j].1 != PropertyView::Scalar(ScalarView::Null);
                assert(properties[j] == rest[j]);
            } else {
                assert(written[k] == quads_for(subject, graph, entry.0, terms)[k - middle.len()]);
                assert(terms.len() > 0);
                assert(written[k].predicate == properties[last].0);
            }
        }
    }
}

/// The quads that writing a node puts behind the quads are written for
/// that node.
pub proof fn lemma_node_written(quads: Seq<QuadView>, node: NodeView)
    requires
        node_quads(quads, node) is Ok,
    ensures
        ({
            let written = node_quads(quads, node)->Ok_0;
            &&& written.len() >= quads.len()
            &&& forall|k: int| 0 <= k < quads.len() ==> #[trigger] written[k] == quads[k]
            &&& forall|k: int|
                quads.len() <= k < written.len() ==> written_for(#[trigger] written[k], node)
        }),
{
    let subject = node_ref(node.id)->Ok_0;
    let graph = graph_ref(node.graph)->Ok_0;
    lemma_node_ref(node.id);
    if node.graph is Some {
        lemma_node_ref(node.graph->Some_0);
    }
    let typed = try_fold(quads, node.types, type_stepper(subject, graph));
    assert(typed is Ok);
    lemma_types_written(quads, node.types, subject, graph);
    lemma_properties_written(typed->Ok_0, node.properties, subject, graph);
    let written = node_quads(quads, node)->Ok_0;
    assert forall|k: int| quads.len() <= k < written.len() implies written_for(
        #[trigger] written[k],
        node,
    ) by {
        if k < typed->Ok_0.len() {
            assert(written[k] == typed->Ok_0[k]);
        }
    }
}

/// Every quad that is written for nodes is written for one of them.
pub proof fn lemma_nodes_written(nodes: Seq<NodeView>)
    requires
        quads_of_nodes(nodes) is Ok,
    ensures
        forall|k: int|
            0 <= k < quads_of_nodes(nodes)->Ok_0.len() ==> exists|m: int|
                0 <= m < nodes.len() && written_for(
                    #[trigger] quads_of_nodes(nodes)->Ok_0[k],
                    #[trigger] nodes[m],
                ),
    decreases nodes.len(),
{
    if nodes.len() > 0 {
        let step = node_stepper();
        let start = Seq::<QuadView>::empty();
        let rest = nodes.drop_last();
        let before = try_fold(start, rest, step);
        assert(before is Ok);
        lemma_nodes_written(rest);
        lemma_node_written(before->Ok_0, nodes.last());
        let written = quads_of_nodes(nodes)->Ok_0;
        assert forall|k: int| 0 <= k < written.len() implies exists|m: int|
            0 <= m < nodes.len() && written_for(#[trigger] written[k], #[trigger] nodes[m]) by {
            if k < before->Ok_0.len() {
                assert(written[k] == before->Ok_0[k]);
                let m = choose|m: int|
                    0 <= m < rest.len() && written_for(before->Ok_0[k], #[trigger] rest[m]);
                assert(nodes[m] == rest[m]);
            } else {
                assert(nodes[nodes.len() - 1] == nodes.last());
            }
        }
    }
}

/// Whether no node with the given key holds a value under the predicate.
pub open spec fn holds_nothing(nodes: Seq<NodeView>, key: NodeKey, predicate: Seq<char>) -> bool {
    &&& sorted_nodes(nodes)
    &&& forall|i: int|
        0 <= i < nodes.len() ==> crate::text::strictly_sorted(
            crate::model::keys((#[trigger] nodes[i]).properties),
        ) && (key_of(nodes[i]) == key ==> nodes[i].get(predicate) is None)
}

/// A quad that does not give the node with the key a value under the
/// predicate leaves the node without one.
pub proof fn lemma_quad_keeps_nothing(
    nodes: Seq<NodeView>,
    quad: QuadView,
    key: NodeKey,
    predicate: Seq<char>,
)
    requires
        holds_nothing(nodes, key, predicate),
        !(quad_key(quad) == key && quad.predicate == predicate),
        quad_step(nodes, quad) is Ok,
    ensures
        holds_nothing(quad_step(nodes, quad)->Ok_0, key, predicate),
{
    let own = quad_key(quad);
    let at = position(nodes, own);
    let there = ensured(nodes, own);
    let next = quad_step(nodes, quad)->Ok_0;
    lemma_ensured(nodes, own);
    crate::order::lemma_lower(crate::nodes::keys_of(nodes), own, crate::nodes::key_lt());
    assert(crate::nodes::keys_of(nodes).len() == nodes.len());
    let empty = Seq::<(Seq<char>, PropertyView)>::empty();
    assert(crate::model::keys(empty) =~= Seq::<Seq<char>>::empty());
    crate::text::lemma_rank(crate::model::keys(empty), predicate);
    assert forall|i: int| 0 <= i < there.len() implies crate::text::strictly_sorted(
        crate::model::keys((#[trigger] there[i]).properties),
    ) && (key_of(there[i]) == key ==> there[i].get(predicate) is None) by {
        if crate::nodes::has_key(nodes, own) {
        } else {
            if i < at {
                assert(there[i] == nodes[i]);
            } else if i > at {
                assert(there[i] == nodes[i - 1]);
            } else {
                assert(there[i].properties =~= empty);
            }
        }
    }
    if quad.predicate == RDF_TYPE@ {
        match quad.object {
            TermView::Resource(ResourceView::Named(class)) => {
                lemma_update_sorted(there, at, with_type(there[at], class));
            },
            _ => {},
        }
    } else {
        let value = term_property(quad.object)->Some_0;
        let merged_value = merged(there[at].get(quad.predicate), value);
        let node = with_property(there[at], quad.predicate, merged_value);
        lemma_update_sorted(there, at, node);
        crate::model::lemma_insert_entry_sorted(there[at].properties, quad.predicate, merged_value);
        crate::model::lemma_lookup_insert(
            there[at].properties,
            quad.predicate,
            merged_value,
            predicate,
        );
    }
}

/// Nodes read from quads of which none gives the node with the key a value
/// under the predicate hold none there.
pub proof fn lemma_quads_keep_nothing(quads: Seq<QuadView>, key: NodeKey, predicate: Seq<char>)
    requires
        nodes_of_quads(quads) is Ok,
        forall|k: int|
            0 <= k < quads.len() ==> !(quad_key(#[trigger] quads[k]) == key && quads[k].predicate
                == predicate),
    ensures
        holds_nothing(nodes_of_quads(quads)->Ok_0, key, predicate),
    decreases quads.len(),
{
    let start = Seq::<NodeView>::empty();
    if quads.len() == 0 {
        assert(crate::nodes::keys_of(start) =~= Seq::<NodeKey>::empty());
    } else {
        let rest = quads.drop_last();
        let before = try_fold(start, rest, quad_stepper());
        assert(before is Ok);
        assert forall|k: int| 0 <= k < rest.len() implies !(quad_key(#[trigger] rest[k]) == key
            && rest[k].predicate == predicate) by {
            assert(rest[k] == quads[k]);
        }
        lemma_quads_keep_nothing(rest, key, predicate);
        assert(quads.last() == quads[quads.len() - 1]);
        lemma_quad_keeps_nothing(before->Ok_0, quads.last(), key, predicate);
    }
}

/// A property that holds a null is lost on the way through RDF: where
/// nodes with keys of their own are written as quads and the quads are
/// read again, the node with the key of a node that held a null under a
/// predicate other than `rdf:type` holds nothing under that predicate.
pub proof fn null_is_lost_through_rdf(nodes: Seq<NodeView>, node: int, at: int)
    requires
        sorted_nodes(nodes),
        0 <= node < nodes.len(),
        nodes[node].wf(),
        0 <= at < nodes[node].properties.len(),
        nodes[node].properties[at].1 == PropertyView::Scalar(ScalarView::Null),
        nodes[node].properties[at].0 != RDF_TYPE@,
        quads_of_nodes(nodes) matches Ok(quads) && nodes_of_quads(quads) is Ok,
    ensures
        forall|k: int|
            0 <= k < quads_of_nodes(nodes)->Ok_0.len() ==> !(quad_key(
                #[trigger] quads_of_nodes(nodes)->Ok_0[k],
            ) == key_of(nodes[node]) && quads_of_nodes(nodes)->Ok_0[k].predicate
                == nodes[node].properties[at].0),
        holds_nothing(
            nodes_of_quads(quads_of_nodes(nodes)->Ok_0)->Ok_0,
            key_of(nodes[node]),
            nodes[node].properties[at].0,
        ),
{
    let quads = quads_of_nodes(nodes)->Ok_0;
    let key = key_of(nodes[node]);
    let properties = nodes[node].properties;
    let predicate = properties[at].0;
    lemma_nodes_written(nodes);
    crate::nodes::lemma_key_lt_total();
    assert forall|k: int| 0 <= k < quads.len() implies !(quad_key(#[trigger] quads[k]) == key
        && quads[k].predicate == predicate) by {
        if quad_key(quads[k]) == key && quads[k].predicate == predicate {
            let m = choose|m: int|
                0 <= m < nodes.len() && written_for(quads[k], #[trigger] nodes[m]);
            assert(crate::nodes::keys_of(nodes)[m] == key_of(nodes[m]));
            assert(crate::nodes::keys_of(nodes)[node] == key_of(nodes[node]));
            if m < node {
                assert(crate::nodes::key_lt()(
                    crate::nodes::keys_of(nodes)[m],
                    crate::nodes::keys_of(nodes)[node],
                ));
            } else if node < m {
                assert(crate::nodes::key_lt()(
                    crate::nodes::keys_of(nodes)[node],
                    crate::nodes::keys_of(nodes)[m],
                ));
            }
            assert(m == node);
            let j = choose|j: int|
                0 <= j < properties.len() && predicate == (#[trigger] properties[j]).0
                    && properties[j].1 != PropertyView::Scalar(ScalarView::Null);
            assert(crate::model::keys(properties)[j] == properties[j].0);
            assert(crate::model::keys(properties)[at] == properties[at].0);
            if j < at {
                assert(crate::text::text_lt(
                    crate::model::keys(properties)[j],
                    crate::model::keys(properties)[at],
                ));
            } else if at < j {
                assert(crate::text::text_lt(
                    crate::model::keys(properties)[at],
                    crate::model::keys(properties)[j],
                ));
            }
            crate::text::lemma_text_lt_irreflexive(predicate);
        }
    }
    lemma_quads_keep_nothing(quads, key, predicate);
}

} // verus!
