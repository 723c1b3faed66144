//! The JSON-LD codec: documents to nodes and nodes to documents, with the
//! contexts that expand the terms of a document.

use vstd::prelude::*;
use crate::error::{ErrorKind, ToolError};
use crate::fold::{lemma_try_fold_all, lemma_try_fold_fault, lemma_try_fold_next, try_fold};
use crate::json::{
    copy_json, find_member, from_tree, insert_member, items_view, json_scalar, json_wf, JsonValue,
    JsonView, lemma_member_index, lemma_wf_array, lemma_wf_object, member_index, member_keys,
    member_position, members_view, put_member, scalar_json, scalar_of_json, text_of_json, to_tree,
};
use crate::model::{
    ArrayValue, clone_strings, clone_text_option, double_of_json, entries, insert_sorted,
    insert_text, Node, nodes_view, NodeView, NumberValue, PropertyValue, PropertyView, scalars,
    ScalarValue, ScalarView, text_option, texts,
};
use crate::nodes::{ensured, key_of, NodeSet, position, with_property, with_type};
use crate::pairs::{
    add_text, clone_pairs, get_pair, has_text, pair_value, pairs_view, put_pair, remove_pair,
    remove_text, set_pair, with_text, without_key, without_text,
};
use crate::text::{
    copy, first_index_of, join, split_once, str_eq, strictly_sorted, text_lt, to_chars,
};

verus! {

/// Whether `iref::Iri::new` accepts the text as an IRI.
pub uninterp spec fn is_iri(text: Seq<char>) -> bool;

/// The hyphenated text of the version 5 UUID of `name` in the namespace
/// `Uuid::NAMESPACE_OID`.
pub uninterp spec fn uuid_of(name: Seq<char>) -> Seq<char>;

/// `iref::Iri::new`: whether it accepts `value` as an IRI.
#[verifier::external_body]
pub(crate) fn looks_like_iri(value: &str) -> (r: bool)
    ensures
        r == is_iri(value@),
{
    iref::Iri::new(value).is_ok()
}

/// `uuid::Uuid::new_v5` in the namespace `Uuid::NAMESPACE_OID` over the
/// bytes of `name`, written by `Display` of the UUID.
#[verifier::external_body]
fn name_uuid(name: &str) -> (r: String)
    ensures
        r@ == uuid_of(name@),
{
    uuid::Uuid::new_v5(&uuid::Uuid::NAMESPACE_OID, name.as_bytes()).to_string()
}

/// The mathematical value of an [`ActiveContext`].
pub struct ContextView {
    pub vocab: Option<Seq<char>>,
    pub term_map: Seq<(Seq<char>, Seq<char>)>,
    pub id_properties: Seq<Seq<char>>,
}

/// What is in force at a place of a document to resolve its terms: the
/// vocabulary prefix, the identifiers that terms stand for, and the
/// identifiers of the properties whose values are references.
pub struct ActiveContext {
    pub vocab: Option<String>,
    pub term_map: Vec<(String, String)>,
    pub id_properties: Vec<String>,
}

impl View for ActiveContext {
    type V = ContextView;

    open spec fn view(&self) -> ContextView {
        ContextView {
            vocab: text_option(self.vocab),
            term_map: pairs_view(self.term_map@),
            id_properties: texts(self.id_properties@),
        }
    }
}

/// The context in which nothing is defined.
pub open spec fn empty_context() -> ContextView {
    ContextView { vocab: None, term_map: seq![], id_properties: seq![] }
}

/// The view of an optional context.
pub open spec fn context_option(context: Option<&ActiveContext>) -> Option<ContextView> {
    match context {
        Some(c) => Some(c@),
        None => None,
    }
}

/// The context itself, or the empty context where there is none.
pub open spec fn context_or_empty(context: Option<ContextView>) -> ContextView {
    match context {
        Some(c) => c,
        None => empty_context(),
    }
}

impl ActiveContext {
    /// The context in which nothing is defined.
    pub fn new() -> (context: ActiveContext)
        ensures
            context@ == empty_context(),
    {
        let context = ActiveContext {
            vocab: None,
            term_map: Vec::new(),
            id_properties: Vec::new(),
        };
        assert(pairs_view(context.term_map@) =~= seq![]);
        assert(texts(context.id_properties@) =~= seq![]);
        context
    }

    /// A copy of `parent`, or the empty context where there is none.
    pub fn derive(parent: Option<&ActiveContext>) -> (context: ActiveContext)
        ensures
            context@ == context_or_empty(context_option(parent)),
    {
        match parent {
            Some(parent) => parent.clone(),
            None => ActiveContext::new(),
        }
    }
}

impl Clone for ActiveContext {
    fn clone(&self) -> (r: ActiveContext)
        ensures
            r@ == self@,
    {
        ActiveContext {
            vocab: clone_text_option(&self.vocab),
            term_map: clone_pairs(&self.term_map),
            id_properties: clone_strings(&self.id_properties),
        }
    }
}

/// The context without what it held for `term`: the term itself, and the
/// mark on the identifier that it stood for.
pub open spec fn removed_term(context: ContextView, term: Seq<char>) -> ContextView {
    match pair_value(context.term_map, term) {
        Some(previous) => ContextView {
            term_map: without_key(context.term_map, term),
            id_properties: without_text(context.id_properties, previous),
            ..context
        },
        None => context,
    }
}

/// Takes the definition of `term` out of the context.
pub fn remove_term_definition(context: &mut ActiveContext, term: &str)
    ensures
        final(context)@ == removed_term(old(context)@, term@),
{
    let previous: Option<String> = match get_pair(&context.term_map, term) {
        Some(previous) => Some(previous.clone()),
        None => None,
    };
    match previous {
        Some(previous) => {
            remove_pair(&mut context.term_map, term);
            remove_text(&mut context.id_properties, previous.as_str());
        },
        None => {},
    }
}

/// The context in which `term` stands for `expanded`, and `expanded` is
/// marked as a property whose values are references, or not.
pub open spec fn updated_term(
    context: ContextView,
    term: Seq<char>,
    expanded: Seq<char>,
    is_id_type: bool,
) -> ContextView {
    ContextView {
        term_map: put_pair(context.term_map, term, expanded),
        id_properties: if is_id_type {
            with_text(context.id_properties, expanded)
        } else {
            without_text(context.id_properties, expanded)
        },
        ..context
    }
}

/// Defines `term` as `expanded` in the context.
pub fn update_term_definition(
    context: &mut ActiveContext,
    term: &str,
    expanded: String,
    is_id_type: bool,
)
    ensures
        final(context)@ == updated_term(old(context)@, term@, expanded@, is_id_type),
{
    set_pair(&mut context.term_map, copy(term), expanded.clone());
    if is_id_type {
        add_text(&mut context.id_properties, expanded);
    } else {
        remove_text(&mut context.id_properties, expanded.as_str());
    }
}

/// The term behind the vocabulary prefix, where the context has one.
pub open spec fn vocab_expansion(context: ContextView, term: Seq<char>) -> Option<Seq<char>> {
    match context.vocab {
        Some(vocab) => Some(vocab + term),
        None => None,
    }
}

/// The term behind the vocabulary prefix, where the context has one.
pub fn default_vocab_expansion(context: &ActiveContext, term: &str) -> (r: Option<String>)
    ensures
        text_option(r) == vocab_expansion(context@, term@),
{
    match &context.vocab {
        Some(vocab) => Some(join(vocab.as_str(), term)),
        None => None,
    }
}

/// The expansion of a compact form `prefix:suffix`: what the prefix stands
/// for, followed by the suffix. `None` where the value holds no colon or
/// the context does not define what stands before the first one.
pub open spec fn compact_expansion(context: ContextView, value: Seq<char>) -> Option<Seq<char>> {
    let at = first_index_of(value, ':');
    if at < value.len() {
        match pair_value(context.term_map, value.subrange(0, at)) {
            Some(base) => Some(base + value.subrange(at + 1, value.len() as int)),
            None => None,
        }
    } else {
        None
    }
}

/// The expansion of a compact form `prefix:suffix`.
pub fn expand_compact_iri(context: &ActiveContext, value: &str) -> (r: Option<String>)
    ensures
        text_option(r) == compact_expansion(context@, value@),
{
    match split_once(value, ':') {
        Some((prefix, suffix)) => match get_pair(&context.term_map, prefix.as_str()) {
            Some(base) => Some(join(base.as_str(), suffix.as_str())),
            None => None,
        },
        None => None,
    }
}

/// What a reference in a context stands for: itself if it is an IRI, else
/// its compact expansion, else itself behind the vocabulary prefix, else
/// itself.
pub open spec fn reference_expansion(context: ContextView, value: Seq<char>) -> Seq<char> {
    if is_iri(value) {
        value
    } else {
        match compact_expansion(context, value) {
            Some(expanded) => expanded,
            None => match vocab_expansion(context, value) {
                Some(expanded) => expanded,
                None => value,
            },
        }
    }
}

/// What a reference in a context stands for.
pub fn expand_context_reference(context: &ActiveContext, value: &str) -> (r: String)
    ensures
        r@ == reference_expansion(context@, value@),
{
    if looks_like_iri(value) {
        return copy(value);
    }
    match expand_compact_iri(context, value) {
        Some(expanded) => {
            return expanded;
        },
        None => {},
    }
    match default_vocab_expansion(context, value) {
        Some(expanded) => expanded,
        None => copy(value),
    }
}

/// Whether the text begins with `@`.
pub open spec fn is_keyword(term: Seq<char>) -> bool {
    term.len() > 0 && term[0] == '@'
}

/// Whether the text begins with `@`.
pub fn starts_with_at(term: &str) -> (r: bool)
    ensures
        r == is_keyword(term@),
{
    let chars = to_chars(term);
    chars.len() > 0 && chars[0] == '@'
}

/// What a term stands for: itself if it begins with `@` or is an IRI; else,
/// where there is a context, what the context defines for it, else its
/// compact expansion, else itself behind the vocabulary prefix; else
/// itself.
pub open spec fn term_expansion(context: Option<ContextView>, term: Seq<char>) -> Seq<char> {
    if is_keyword(term) || is_iri(term) {
        term
    } else {
        match context {
            Some(context) => match pair_value(context.term_map, term) {
                Some(mapped) => mapped,
                None => match compact_expansion(context, term) {
                    Some(expanded) => expanded,
                    None => match vocab_expansion(context, term) {
                        Some(expanded) => expanded,
                        None => term,
                    },
                },
            },
            None => term,
        }
    }
}

/// What a term stands for.
pub fn expand_term(context: Option<&ActiveContext>, term: &str) -> (r: String)
    ensures
        r@ == term_expansion(context_option(context), term@),
{
    if starts_with_at(term) || looks_like_iri(term) {
        return copy(term);
    }
    match context {
        Some(context) => {
            match get_pair(&context.term_map, term) {
                Some(mapped) => {
                    return mapped.clone();
                },
                None => {},
            }
            match expand_compact_iri(context, term) {
                Some(expanded) => {
                    return expanded;
                },
                None => {},
            }
            match default_vocab_expansion(context, term) {
                Some(expanded) => expanded,
                None => copy(term),
            }
        },
        None => copy(term),
    }
}

/// The context once the `@type` of a term definition has been heeded,
/// where `expanded` is what the term stands for so far. A `@type` that is
/// a text defines the term anew, marked as holding references if the type
/// is `@id`; a term that stands for nothing is then taken to stand for
/// itself behind the vocabulary prefix, or for itself.
pub open spec fn typed_term(
    context: ContextView,
    term: Seq<char>,
    expanded: Option<Seq<char>>,
    definition: JsonView,
) -> ContextView {
    match definition.get("@type"@) {
        Some(JsonView::String(kind)) => match expanded {
            Some(expanded) => updated_term(context, term, expanded, kind == "@id"@),
            None => if kind == "@id"@ {
                updated_term(
                    context,
                    term,
                    match vocab_expansion(context, term) {
                        Some(inferred) => inferred,
                        None => term,
                    },
                    true,
                )
            } else {
                context
            },
        },
        _ => context,
    }
}

/// The context once `term` is defined by `definition`: null takes the
/// term out; a text makes the term stand for what the text refers to; an
/// object does so by its `@id` (null takes the term out, anything but a
/// text or null is a fault) and its `@type`. Any other definition is a
/// fault.
pub open spec fn term_defined(context: ContextView, term: Seq<char>, definition: JsonView) -> Result<
    ContextView,
    ErrorKind,
> {
    match definition {
        JsonView::Null => Ok(removed_term(context, term)),
        JsonView::String(target) => Ok(
            updated_term(context, term, reference_expansion(context, target), false),
        ),
        JsonView::Object(_) => match definition.get("@id"@) {
            Some(JsonView::Null) => Ok(
                typed_term(removed_term(context, term), term, None, definition),
            ),
            Some(JsonView::String(reference)) => Ok(
                typed_term(
                    updated_term(
                        context,
                        term,
                        reference_expansion(context, reference),
                        false,
                    ),
                    term,
                    Some(reference_expansion(context, reference)),
                    definition,
                ),
            ),
            Some(_) => Err(ErrorKind::JsonLd),
            None => Ok(
                typed_term(
                    context,
                    term,
                    match pair_value(context.term_map, term) {
                        Some(mapped) => Some(mapped),
                        None => vocab_expansion(context, term),
                    },
                    definition,
                ),
            ),
        },
        _ => Err(ErrorKind::JsonLd),
    }
}

/// Heeds the `@type` of a term definition.
fn apply_term_type(
    context: &mut ActiveContext,
    term: &str,
    expanded: Option<String>,
    definition: &JsonValue,
)
    ensures
        final(context)@ == typed_term(old(context)@, term@, text_option(expanded), definition@),
{
    match definition.get("@type") {
        Some(JsonValue::String(kind)) => {
            let is_id_type = str_eq(kind.as_str(), "@id");
            match expanded {
                Some(expanded) => {
                    update_term_definition(context, term, expanded, is_id_type);
                },
                None => {
                    if is_id_type {
                        let inferred = match default_vocab_expansion(context, term) {
                            Some(inferred) => inferred,
                            None => copy(term),
                        };
                        update_term_definition(context, term, inferred, true);
                    }
                },
            }
        },
        _ => {},
    }
}

/// What the failure says of a definition that defines no term: of an
/// object, that its `@id` is neither a string nor null; of anything else,
/// that it is neither a string, an object nor null.
pub open spec fn term_fault(term: Seq<char>, definition: JsonView) -> Seq<char> {
    if definition is Object {
        "invalid @id definition for term '"@ + term + "': expected string or null"@
    } else {
        "invalid term definition for '"@ + term + "': expected string, object, or null"@
    }
}

/// Defines `term` in the context as `definition` says.
pub fn parse_context_term(term: &str, definition: &JsonValue, context: &mut ActiveContext) -> (r:
    Result<(), ToolError>)
    ensures
        match r {
            Ok(()) => term_defined(old(context)@, term@, definition@) == Ok::<
                ContextView,
                ErrorKind,
            >(final(context)@),
            Err(e) => term_defined(old(context)@, term@, definition@) is Err && e is JsonLd
                && e.detail() == term_fault(term@, definition@),
        },
{
    match definition {
        JsonValue::Null => {
            remove_term_definition(context, term);
            Ok(())
        },
        JsonValue::String(target) => {
            let expanded = expand_context_reference(context, target.as_str());
            update_term_definition(context, term, expanded, false);
            Ok(())
        },
        JsonValue::Object(_) => {
            let expanded: Option<String> = match definition.get("@id") {
                Some(JsonValue::Null) => {
                    remove_term_definition(context, term);
                    None
                },
                Some(JsonValue::String(reference)) => {
                    let expanded = expand_context_reference(context, reference.as_str());
                    update_term_definition(context, term, expanded.clone(), false);
                    Some(expanded)
                },
                Some(_) => {
                    let head = join("invalid @id definition for term '", term);
                    return Err(
                        ToolError::JsonLd(join(head.as_str(), "': expected string or null")),
                    );
                },
                None => match get_pair(&context.term_map, term) {
                    Some(mapped) => Some(mapped.clone()),
                    None => default_vocab_expansion(context, term),
                },
            };
            apply_term_type(context, term, expanded, definition);
            Ok(())
        },
        _ => {
            let head = join("invalid term definition for '", term);
            Err(ToolError::JsonLd(join(head.as_str(), "': expected string, object, or null")))
        },
    }
}

/// The context with the vocabulary prefix that a context object sets:
/// none for null, the text for a text; anything else is a fault. A context
/// object without `@vocab` keeps the prefix.
pub open spec fn vocab_set(context: ContextView, object: JsonView) -> Result<
    ContextView,
    ErrorKind,
> {
    match object.get("@vocab"@) {
        None => Ok(context),
        Some(JsonView::Null) => Ok(ContextView { vocab: None, ..context }),
        Some(JsonView::String(vocab)) => Ok(ContextView { vocab: Some(vocab), ..context }),
        Some(_) => Err(ErrorKind::JsonLd),
    }
}

/// The step that takes in one more member of a context object: a member
/// whose key begins with `@` says nothing, any other defines a term.
pub open spec fn term_stepper() -> spec_fn(ContextView, (Seq<char>, JsonView)) -> Result<
    ContextView,
    ErrorKind,
> {
    |context: ContextView, member: (Seq<char>, JsonView)|
        if is_keyword(member.0) {
            Ok(context)
        } else {
            term_defined(context, member.0, member.1)
        }
}

/// The context that a context object derives from `parent`.
pub open spec fn context_object(
    members: Seq<(Seq<char>, JsonView)>,
    parent: Option<ContextView>,
) -> Result<ContextView, ErrorKind> {
    match vocab_set(context_or_empty(parent), JsonView::Object(members)) {
        Ok(context) => try_fold(context, members, term_stepper()),
        Err(kind) => Err(kind),
    }
}

/// The context that a context object derives from `parent`.
pub fn parse_context_object(
    members: &Vec<(String, JsonValue)>,
    parent: Option<&ActiveContext>,
) -> (r: Result<ActiveContext, ToolError>)
    ensures
        match r {
            Ok(context) => context_object(members_view(members@), context_option(parent)) == Ok::<
                ContextView,
                ErrorKind,
            >(context@),
            Err(e) => context_object(members_view(members@), context_option(parent)) is Err
                && e is JsonLd,
        },
{
    let mut context = ActiveContext::derive(parent);
    match find_member(members, "@vocab") {
        None => {},
        Some(JsonValue::Null) => {
            context.vocab = None;
        },
        Some(JsonValue::String(vocab)) => {
            context.vocab = Some(vocab.clone());
        },
        Some(_) => {
            return Err(
                ToolError::JsonLd(copy("invalid @vocab definition: expected string or null")),
            );
        },
    }
    let ghost start = context@;
    let ghost all = members_view(members@);
    let ghost step = term_stepper();
    let ghost wanted = context_object(all, context_option(parent));
    proof {
        lemma_try_fold_all(start, all, step);
    }
    let mut i: usize = 0;
    while i < members.len()
        invariant
            i <= members.len(),
            all == members_view(members@),
            step == term_stepper(),
            wanted == context_object(all, context_option(parent)),
            wanted == try_fold(start, all, step),
            try_fold(start, all.take(i as int), step) == Ok::<ContextView, ErrorKind>(context@),
        decreases members.len() - i,
    {
        proof {
            lemma_try_fold_next(start, all, step, i as int);
            assert(all[i as int] == (members@[i as int].0@, members@[i as int].1@));
        }
        if !starts_with_at(members[i].0.as_str()) {
            match parse_context_term(members[i].0.as_str(), &members[i].1, &mut context) {
                Ok(()) => {},
                Err(e) => {
                    proof {
                        lemma_try_fold_fault(start, all, step, i + 1);
                    }
                    return Err(e);
                },
            }
        }
        i += 1;
    }
    proof {
        lemma_try_fold_all(start, all, step);
    }
    Ok(context)
}

/// The context that the value of a `@context` derives from `parent`: null
/// gives the empty context; an object derives from the parent; an array
/// derives from the parent entry by entry; a text, which would name a
/// remote context, and any other value are faults.
pub open spec fn context_value(value: JsonView, parent: Option<ContextView>) -> Result<
    ContextView,
    ErrorKind,
>
    decreases value, 1nat,
{
    match value {
        JsonView::Null => Ok(empty_context()),
        JsonView::Array(entries) => context_entries(value, entries.len(), context_or_empty(parent)),
        JsonView::Object(members) => context_object(members, parent),
        _ => Err(ErrorKind::JsonLd),
    }
}

/// The context that the first `count` entries of the array `value` derive
/// from `start`, one after the other.
pub open spec fn context_entries(value: JsonView, count: nat, start: ContextView) -> Result<
    ContextView,
    ErrorKind,
>
    decreases value, 0nat, count,
{
    if count == 0 || !(value is Array) || count > value->Array_0.len() {
        Ok(start)
    } else {
        match context_entries(value, (count - 1) as nat, start) {
            Ok(context) => context_value(value->Array_0[count - 1], Some(context)),
            Err(kind) => Err(kind),
        }
    }
}

/// The context that the value of a `@context` derives from `parent`.
pub fn parse_context_value(value: &JsonValue, parent: Option<&ActiveContext>) -> (r: Result<
    ActiveContext,
    ToolError,
>)
    ensures
        match r {
            Ok(context) => context_value(value@, context_option(parent)) == Ok::<
                ContextView,
                ErrorKind,
            >(context@),
            Err(e) => context_value(value@, context_option(parent)) is Err && e is JsonLd,
        },
    decreases value,
{
    match value {
        JsonValue::Null => Ok(ActiveContext::new()),
        JsonValue::Array(entries) => {
            let mut current = ActiveContext::derive(parent);
            let ghost start = current@;
            let ghost whole = value@;
            assert(whole->Array_0.len() == entries@.len());
            let mut i: usize = 0;
            while i < entries.len()
                invariant
                    i <= entries.len(),
                    value == JsonValue::Array(*entries),
                    whole == value@,
                    whole is Array,
                    whole->Array_0 == items_view(entries@),
                    whole->Array_0.len() == entries@.len(),
                    context_entries(whole, i as nat, start) == Ok::<ContextView, ErrorKind>(
                        current@,
                    ),
                    context_value(whole, context_option(parent)) == context_entries(
                        whole,
                        entries@.len(),
                        start,
                    ),
                decreases entries.len() - i,
            {
                proof {
                    assert(decreases_to!(value => value->Array_0@[i as int]));
                    assert(whole->Array_0[i as int] == entries@[i as int]@);
                }
                match parse_context_value(&entries[i], Some(&current)) {
                    Ok(next) => {
                        current = next;
                    },
                    Err(e) => {
                        proof {
                            lemma_context_entries_fault(whole, (i + 1) as nat, start);
                        }
                        return Err(e);
                    },
                }
                i += 1;
            }
            Ok(current)
        },
        JsonValue::Object(members) => parse_context_object(members, parent),
        JsonValue::String(_) => Err(
            ToolError::JsonLd(copy("remote context references are not supported")),
        ),
        _ => Err(
            ToolError::JsonLd(
                copy("invalid @context entry: expected object, array, null, or string"),
            ),
        ),
    }
}

/// A fault among the first entries of a context array is the fault of the
/// whole array.
pub proof fn lemma_context_entries_fault(value: JsonView, count: nat, start: ContextView)
    requires
        value is Array,
        count <= value->Array_0.len(),
        context_entries(value, count, start) is Err,
    ensures
        context_entries(value, value->Array_0.len(), start) is Err,
    decreases value->Array_0.len() - count,
{
    if count < value->Array_0.len() {
        lemma_context_entries_fault(value, count + 1, start);
    }
}

/// The scalars and the references that the entries of an array have given.
pub type ArrayParts = (Seq<ScalarView>, Seq<Seq<char>>);

/// The parts with what a value gives put behind them: a literal or a
/// reference itself, a list its members.
pub open spec fn collected(parts: ArrayParts, value: PropertyView) -> ArrayParts {
    match value {
        PropertyView::Scalar(scalar) => (parts.0.push(scalar), parts.1),
        PropertyView::ObjectRef(target) => (parts.0, parts.1.push(target)),
        PropertyView::Scalars(items) => (parts.0 + items, parts.1),
        PropertyView::ObjectRefs(targets) => (parts.0, parts.1 + targets),
    }
}

/// The value that the parts of an array make: a list of literals, or a
/// list of references; an array that holds both is a fault.
pub open spec fn array_value(parts: ArrayParts) -> Result<PropertyView, ErrorKind> {
    if parts.1.len() == 0 {
        Ok(PropertyView::Scalars(parts.0))
    } else if parts.0.len() == 0 {
        Ok(PropertyView::ObjectRefs(parts.1))
    } else {
        Err(ErrorKind::JsonLd)
    }
}

/// Whether an object has a member with the key `key`.
pub open spec fn has_member(value: JsonView, key: Seq<char>) -> bool {
    value is Object && 0 <= member_index(value->Object_0, key) < value->Object_0.len()
}

/// What a reference says: expanded as a term where the property holds
/// references by its definition, else as it stands.
pub open spec fn reference_of(context: Option<ContextView>, treat_as_id: bool, id: Seq<char>) -> Seq<
    char,
> {
    if treat_as_id {
        term_expansion(context, id)
    } else {
        id
    }
}

/// The value of a property: a literal for null, a truth value or a number;
/// for a text a reference where the property holds references or the text
/// is an IRI, else a literal; for an array what its entries make; for an
/// object what its `@set` or `@list` holds, else a reference to its `@id`
/// if that is a text, else what its `@value` holds, else its own JSON text
/// as a literal.
pub open spec fn property_value(
    value: JsonView,
    context: Option<ContextView>,
    treat_as_id: bool,
) -> Result<PropertyView, ErrorKind>
    decreases value, 1nat,
{
    match value {
        JsonView::Null => Ok(PropertyView::Scalar(ScalarView::Null)),
        JsonView::Bool(flag) => Ok(PropertyView::Scalar(ScalarView::Boolean(flag))),
        JsonView::Number(text) => match double_of_json(text) {
            Some(number) => Ok(PropertyView::Scalar(ScalarView::Number(number))),
            None => Err(ErrorKind::JsonLd),
        },
        JsonView::String(text) => if treat_as_id {
            Ok(PropertyView::ObjectRef(term_expansion(context, text)))
        } else if is_iri(text) {
            Ok(PropertyView::ObjectRef(text))
        } else {
            Ok(PropertyView::Scalar(ScalarView::String(text)))
        },
        JsonView::Array(entries) => match array_parts(
            value,
            entries.len(),
            context,
            treat_as_id,
        ) {
            Ok(parts) => array_value(parts),
            Err(kind) => Err(kind),
        },
        JsonView::Object(members) => if has_member(value, "@set"@) {
            property_value(
                value->Object_0[member_index(value->Object_0, "@set"@)].1,
                context,
                treat_as_id,
            )
        } else if has_member(value, "@list"@) {
            property_value(
                value->Object_0[member_index(value->Object_0, "@list"@)].1,
                context,
                treat_as_id,
            )
        } else {
            match value.get("@id"@) {
                Some(JsonView::String(id)) => Ok(
                    PropertyView::ObjectRef(reference_of(context, treat_as_id, id)),
                ),
                _ => if has_member(value, "@value"@) {
                    property_value(
                        value->Object_0[member_index(value->Object_0, "@value"@)].1,
                        context,
                        treat_as_id,
                    )
                } else {
                    match text_of_json(value) {
                        Some(text) => Ok(PropertyView::Scalar(ScalarView::String(text))),
                        None => Err(ErrorKind::JsonLd),
                    }
                },
            }
        },
    }
}

/// The literal that a JSON value stands for, as an entry of an array.
pub open spec fn entry_scalar(value: JsonView) -> Result<ScalarView, ErrorKind> {
    match json_scalar(value) {
        Some(scalar) => Ok(scalar),
        None => Err(ErrorKind::JsonLd),
    }
}

/// The parts with what one entry of an array gives put behind them: a
/// nested array, and an object with `@set` or `@list`, gives what it is
/// the value of; an object with `@id` gives a reference, and is a fault
/// where the `@id` is no text; an object with `@value` gives the literal
/// that the `@value` stands for; any other object gives its JSON text; a
/// text gives a reference where the property holds references or the text
/// is an IRI; anything else gives the literal that it stands for.
pub open spec fn entry_parts(
    parts: ArrayParts,
    entry: JsonView,
    nested: Result<PropertyView, ErrorKind>,
    context: Option<ContextView>,
    treat_as_id: bool,
) -> Result<ArrayParts, ErrorKind> {
    match entry {
        JsonView::Array(_) => match nested {
            Ok(value) => Ok(collected(parts, value)),
            Err(kind) => Err(kind),
        },
        JsonView::Object(_) => if has_member(entry, "@set"@) || has_member(entry, "@list"@) {
            match nested {
                Ok(value) => Ok(collected(parts, value)),
                Err(kind) => Err(kind),
            }
        } else if has_member(entry, "@id"@) {
            match entry.get("@id"@) {
                Some(JsonView::String(id)) => Ok(
                    (parts.0, parts.1.push(reference_of(context, treat_as_id, id))),
                ),
                _ => Err(ErrorKind::JsonLd),
            }
        } else if has_member(entry, "@value"@) {
            match entry_scalar(entry->Object_0[member_index(entry->Object_0, "@value"@)].1) {
                Ok(scalar) => Ok((parts.0.push(scalar), parts.1)),
                Err(kind) => Err(kind),
            }
        } else {
            match text_of_json(entry) {
                Some(text) => Ok((parts.0.push(ScalarView::String(text)), parts.1)),
                None => Err(ErrorKind::JsonLd),
            }
        },
        JsonView::String(text) => if treat_as_id || is_iri(text) {
            Ok((parts.0, parts.1.push(reference_of(context, treat_as_id, text))))
        } else {
            Ok((parts.0.push(ScalarView::String(text)), parts.1))
        },
        _ => match entry_scalar(entry) {
            Ok(scalar) => Ok((parts.0.push(scalar), parts.1)),
            Err(kind) => Err(kind),
        },
    }
}

/// The scalars and the references that the first `count` entries of the
/// array `value` give, or the first fault among them.
pub open spec fn array_parts(
    value: JsonView,
    count: nat,
    context: Option<ContextView>,
    treat_as_id: bool,
) -> Result<ArrayParts, ErrorKind>
    decreases value, 0nat, count,
{
    if count == 0 || !(value is Array) || count > value->Array_0.len() {
        Ok((Seq::<ScalarView>::empty(), Seq::<Seq<char>>::empty()))
    } else {
        match array_parts(value, (count - 1) as nat, context, treat_as_id) {
            Ok(parts) => entry_parts(
                parts,
                value->Array_0[count - 1],
                property_value(value->Array_0[count - 1], context, treat_as_id),
                context,
                treat_as_id,
            ),
            Err(kind) => Err(kind),
        }
    }
}

/// A fault among the first entries of an array is the fault of the whole
/// array.
pub proof fn lemma_array_parts_fault(
    value: JsonView,
    count: nat,
    context: Option<ContextView>,
    treat_as_id: bool,
)
    requires
        value is Array,
        count <= value->Array_0.len(),
        array_parts(value, count, context, treat_as_id) is Err,
    ensures
        array_parts(value, value->Array_0.len(), context, treat_as_id) is Err,
    decreases value->Array_0.len() - count,
{
    if count < value->Array_0.len() {
        lemma_array_parts_fault(value, count + 1, context, treat_as_id);
    }
}

/// The literal that a JSON value stands for, as an entry of an array.
pub fn extract_scalar(value: &JsonValue) -> (r: Result<ScalarValue, ToolError>)
    requires
        json_wf(value@),
    ensures
        match r {
            Ok(scalar) => entry_scalar(value@) == Ok::<ScalarView, ErrorKind>(scalar@),
            Err(e) => entry_scalar(value@) is Err && e is JsonLd && e.detail()
                == "invalid literal"@,
        },
{
    match scalar_of_json(value) {
        Ok(scalar) => Ok(scalar),
        Err(_) => Err(ToolError::JsonLd(copy("invalid literal"))),
    }
}

/// Puts what a value gives behind the scalars and references of an array.
pub fn collect_array_entry(
    value: PropertyValue,
    scalar_items: &mut Vec<ScalarValue>,
    refs: &mut Vec<String>,
)
    ensures
        (scalars(final(scalar_items)@), texts(final(refs)@)) == collected(
            (scalars(old(scalar_items)@), texts(old(refs)@)),
            value@,
        ),
{
    let ghost before_scalars = scalars(scalar_items@);
    let ghost before_refs = texts(refs@);
    match value {
        PropertyValue::Scalar(scalar) => {
            scalar_items.push(scalar);
            assert(scalars(scalar_items@) =~= before_scalars.push(scalar@));
        },
        PropertyValue::ObjectRef(target) => {
            refs.push(target);
            assert(texts(refs@) =~= before_refs.push(target@));
        },
        PropertyValue::Array(ArrayValue::Scalars(nested)) => {
            let mut nested = nested;
            let ghost more = scalars(nested@);
            scalar_items.append(&mut nested);
            assert(scalars(scalar_items@) =~= before_scalars + more);
        },
        PropertyValue::Array(ArrayValue::ObjectRefs(nested)) => {
            let mut nested = nested;
            let ghost more = texts(nested@);
            refs.append(&mut nested);
            assert(texts(refs@) =~= before_refs + more);
        },
    }
}

/// What a reference says.
fn reference_text(context: Option<&ActiveContext>, treat_as_id: bool, id: &str) -> (r: String)
    ensures
        r@ == reference_of(context_option(context), treat_as_id, id@),
{
    if treat_as_id {
        expand_term(context, id)
    } else {
        copy(id)
    }
}

/// The value of a property.
pub fn parse_property_value(
    value: &JsonValue,
    context: Option<&ActiveContext>,
    treat_as_id: bool,
) -> (r: Result<PropertyValue, ToolError>)
    requires
        json_wf(value@),
    ensures
        match r {
            Ok(parsed) => property_value(value@, context_option(context), treat_as_id) == Ok::<
                PropertyView,
                ErrorKind,
            >(parsed@),
            Err(e) => property_value(value@, context_option(context), treat_as_id) is Err
                && e is JsonLd,
        },
    decreases value, 1nat,
{
    match value {
        JsonValue::Null => Ok(PropertyValue::Scalar(ScalarValue::Null)),
        JsonValue::Bool(flag) => Ok(PropertyValue::Scalar(ScalarValue::Boolean(*flag))),
        JsonValue::Number(number) => match NumberValue::from_json(number) {
            Some(n) => Ok(PropertyValue::Scalar(ScalarValue::Number(n))),
            None => Err(ToolError::JsonLd(copy("invalid number literal"))),
        },
        JsonValue::String(text) => {
            if treat_as_id {
                Ok(PropertyValue::ObjectRef(expand_term(context, text.as_str())))
            } else if looks_like_iri(text.as_str()) {
                Ok(PropertyValue::ObjectRef(text.clone()))
            } else {
                Ok(PropertyValue::Scalar(ScalarValue::String(text.clone())))
            }
        },
        JsonValue::Array(_) => parse_array(value, context, treat_as_id),
        JsonValue::Object(members) => {
            let ghost all = members_view(members@);
            proof {
                assert(value@ == JsonView::Object(all));
                lemma_wf_object(all);
                lemma_member_index(all, "@set"@);
                lemma_member_index(all, "@list"@);
                lemma_member_index(all, "@value"@);
            }
            match member_position(members, "@set") {
                Some(at) => {
                    proof {
                        assert(decreases_to!(value => value->Object_0@[at as int].1));
                        assert(all[at as int] == (members@[at as int].0@, members@[at as int].1@));
                    }
                    return parse_property_value(&members[at].1, context, treat_as_id);
                },
                None => {},
            }
            match member_position(members, "@list") {
                Some(at) => {
                    proof {
                        assert(decreases_to!(value => value->Object_0@[at as int].1));
                        assert(all[at as int] == (members@[at as int].0@, members@[at as int].1@));
                    }
                    return parse_property_value(&members[at].1, context, treat_as_id);
                },
                None => {},
            }
            match find_member(members, "@id") {
                Some(JsonValue::String(id)) => {
                    return Ok(
                        PropertyValue::ObjectRef(
                            reference_text(context, treat_as_id, id.as_str()),
                        ),
                    );
                },
                _ => {},
            }
            match member_position(members, "@value") {
                Some(at) => {
                    proof {
                        assert(decreases_to!(value => value->Object_0@[at as int].1));
                        assert(all[at as int] == (members@[at as int].0@, members@[at as int].1@));
                    }
                    return parse_property_value(&members[at].1, context, treat_as_id);
                },
                None => {},
            }
            match value.to_text() {
                Ok(text) => Ok(PropertyValue::Scalar(ScalarValue::String(text))),
                Err(e) => Err(ToolError::JsonLd(e.message())),
            }
        },
    }
}

/// The value of a property that is given as an array.
pub fn parse_array(value: &JsonValue, context: Option<&ActiveContext>, treat_as_id: bool) -> (r:
    Result<PropertyValue, ToolError>)
    requires
        json_wf(value@),
        value@ is Array,
    ensures
        match r {
            Ok(parsed) => property_value(value@, context_option(context), treat_as_id) == Ok::<
                PropertyView,
                ErrorKind,
            >(parsed@),
            Err(e) => property_value(value@, context_option(context), treat_as_id) is Err
                && e is JsonLd,
        },
    decreases value, 0nat,
{
    let entries = match value {
        JsonValue::Array(entries) => entries,
        _ => {
            return Ok(PropertyValue::Scalar(ScalarValue::Null));
        },
    };
    let ghost whole = value@;
    let ghost all = items_view(entries@);
    let ghost ctx = context_option(context);
    proof {
        assert(whole == JsonView::Array(all));
        lemma_wf_array(all);
    }
    let mut scalar_items: Vec<ScalarValue> = Vec::new();
    let mut refs: Vec<String> = Vec::new();
    proof {
        assert(scalars(scalar_items@) =~= Seq::<ScalarView>::empty());
        assert(texts(refs@) =~= Seq::<Seq<char>>::empty());
    }
    let mut i: usize = 0;
    while i < entries.len()
        invariant
            i <= entries.len(),
            value == JsonValue::Array(*entries),
            whole == value@,
            whole == JsonView::Array(all),
            all == items_view(entries@),
            all.len() == entries@.len(),
            ctx == context_option(context),
            forall|k: int| 0 <= k < all.len() ==> json_wf(#[trigger] all[k]),
            array_parts(whole, i as nat, ctx, treat_as_id) == Ok::<ArrayParts, ErrorKind>(
                (scalars(scalar_items@), texts(refs@)),
            ),
        decreases entries.len() - i,
    {
        let entry = &entries[i];
        let ghost before = (scalars(scalar_items@), texts(refs@));
        proof {
            assert(decreases_to!(value => value->Array_0@[i as int]));
            assert(all[i as int] == entry@);
            assert(json_wf(all[i as int]));
        }
        let done: Result<(), ToolError> = match entry {
            JsonValue::Array(_) => match parse_property_value(entry, context, treat_as_id) {
                Ok(nested) => {
                    collect_array_entry(nested, &mut scalar_items, &mut refs);
                    Ok(())
                },
                Err(e) => Err(e),
            },
            JsonValue::Object(members) => {
                let ghost inner = members_view(members@);
                proof {
                    assert(entry@ == JsonView::Object(inner));
                    lemma_wf_object(inner);
                    lemma_member_index(inner, "@set"@);
                    lemma_member_index(inner, "@list"@);
                    lemma_member_index(inner, "@id"@);
                    lemma_member_index(inner, "@value"@);
                }
                if member_position(members, "@set").is_some() || member_position(
                    members,
                    "@list",
                ).is_some() {
                    match parse_property_value(entry, context, treat_as_id) {
                        Ok(nested) => {
                            collect_array_entry(nested, &mut scalar_items, &mut refs);
                            Ok(())
                        },
                        Err(e) => Err(e),
                    }
                } else if member_position(members, "@id").is_some() {
                    match find_member(members, "@id") {
                        Some(JsonValue::String(id)) => {
                            let ghost prior = texts(refs@);
                            let target = reference_text(context, treat_as_id, id.as_str());
                            refs.push(target);
                            assert(texts(refs@) =~= prior.push(target@));
                            Ok(())
                        },
                        _ => Err(ToolError::JsonLd(copy("object reference missing @id"))),
                    }
                } else {
                    match member_position(members, "@value") {
                        Some(at) => {
                            proof {
                                assert(inner[at as int] == (
                                    members@[at as int].0@,
                                    members@[at as int].1@,
                                ));
                            }
                            match extract_scalar(&members[at].1) {
                                Ok(scalar) => {
                                    let ghost prior = scalars(scalar_items@);
                                    scalar_items.push(scalar);
                                    assert(scalars(scalar_items@) =~= prior.push(scalar@));
                                    Ok(())
                                },
                                Err(e) => Err(e),
                            }
                        },
                        None => match entry.to_text() {
                            Ok(text) => {
                                let ghost prior = scalars(scalar_items@);
                                let scalar = ScalarValue::String(text);
                                scalar_items.push(scalar);
                                assert(scalars(scalar_items@) =~= prior.push(scalar@));
                                Ok(())
                            },
                            Err(e) => Err(ToolError::JsonLd(e.message())),
                        },
                    }
                }
            },
            JsonValue::String(text) => {
                if treat_as_id || looks_like_iri(text.as_str()) {
                    let ghost prior = texts(refs@);
                    let target = reference_text(context, treat_as_id, text.as_str());
                    refs.push(target);
                    assert(texts(refs@) =~= prior.push(target@));
                } else {
                    let ghost prior = scalars(scalar_items@);
                    let scalar = ScalarValue::String(text.clone());
                    scalar_items.push(scalar);
                    assert(scalars(scalar_items@) =~= prior.push(scalar@));
                }
                Ok(())
            },
            _ => match extract_scalar(entry) {
                Ok(scalar) => {
                    let ghost prior = scalars(scalar_items@);
                    scalar_items.push(scalar);
                    assert(scalars(scalar_items@) =~= prior.push(scalar@));
                    Ok(())
                },
                Err(e) => Err(e),
            },
        };
        assert(match done {
            Ok(()) => entry_parts(
                before,
                entry@,
                property_value(entry@, ctx, treat_as_id),
                ctx,
                treat_as_id,
            ) == Ok::<ArrayParts, ErrorKind>((scalars(scalar_items@), texts(refs@))),
            Err(e) => entry_parts(
                before,
                entry@,
                property_value(entry@, ctx, treat_as_id),
                ctx,
                treat_as_id,
            ) is Err && e is JsonLd,
        });
        match done {
            Ok(()) => {},
            Err(e) => {
                proof {
                    lemma_array_parts_fault(whole, (i + 1) as nat, ctx, treat_as_id);
                }
                return Err(e);
            },
        }
        i += 1;
    }
    if refs.len() == 0 {
        Ok(PropertyValue::Array(ArrayValue::Scalars(scalar_items)))
    } else if scalar_items.len() == 0 {
        Ok(PropertyValue::Array(ArrayValue::ObjectRefs(refs)))
    } else {
        Err(
            ToolError::JsonLd(
                copy("mixed arrays of literals and object references are not supported"),
            ),
        )
    }
}

/// Whether a member takes part in the identity of an object without an
/// identifier: every member but `@context` and `@graph`.
pub open spec fn is_content(key: Seq<char>) -> bool {
    key != "@context"@ && key != "@graph"@
}

/// The members of an object that take part in its identity, in the order
/// in which the object holds them.
pub open spec fn content_members(members: Seq<(Seq<char>, JsonView)>) -> Seq<
    (Seq<char>, JsonView),
>
    decreases members.len(),
{
    if members.len() == 0 {
        members
    } else if is_content(members.last().0) {
        content_members(members.drop_last()).push(members.last())
    } else {
        content_members(members.drop_last())
    }
}

/// The canonical text of an object: the JSON text of its content, or
/// nothing where that has no JSON text.
pub open spec fn canonical_text(members: Seq<(Seq<char>, JsonView)>) -> Seq<char> {
    match text_of_json(JsonView::Object(content_members(members))) {
        Some(text) => text,
        None => Seq::empty(),
    }
}

/// The identifier given to an object that has none: the UUID of its
/// canonical text, as a URN.
pub open spec fn surrogate_id(members: Seq<(Seq<char>, JsonView)>) -> Seq<char> {
    "urn:uuid:"@ + uuid_of(canonical_text(members))
}

/// What is kept of well-formed members is well formed, and holds only
/// members of the whole.
pub proof fn lemma_content_members(members: Seq<(Seq<char>, JsonView)>)
    requires
        json_wf(JsonView::Object(members)),
    ensures
        json_wf(JsonView::Object(content_members(members))),
        forall|i: int|
            0 <= i < content_members(members).len() ==> members.contains(
                #[trigger] content_members(members)[i],
            ),
    decreases members.len(),
{
    lemma_wf_object(members);
    let kept = content_members(members);
    if members.len() > 0 {
        let rest = members.drop_last();
        lemma_wf_object(rest);
        assert(strictly_sorted(member_keys(rest))) by {
            assert forall|i: int, j: int| 0 <= i < j < rest.len() implies text_lt(
                #[trigger] member_keys(rest)[i],
                #[trigger] member_keys(rest)[j],
            ) by {
                assert(member_keys(rest)[i] == member_keys(members)[i]);
                assert(member_keys(rest)[j] == member_keys(members)[j]);
            }
        }
        assert forall|i: int| 0 <= i < rest.len() implies json_wf((#[trigger] rest[i]).1) by {
            assert(rest[i] == members[i]);
        }
        lemma_content_members(rest);
        let inner = content_members(rest);
        lemma_wf_object(inner);
        lemma_wf_object(kept);
        assert forall|i: int| 0 <= i < kept.len() implies members.contains(#[trigger] kept[i]) by {
            if i < inner.len() {
                assert(rest.contains(inner[i]));
                let at = choose|at: int| 0 <= at < rest.len() && rest[at] == inner[i];
                assert(members[at] == inner[i]);
            } else {
                assert(members[members.len() - 1] == kept[i]);
            }
        }
        if is_content(members.last().0) {
            assert forall|i: int, j: int| 0 <= i < j < kept.len() implies text_lt(
                #[trigger] member_keys(kept)[i],
                #[trigger] member_keys(kept)[j],
            ) by {
                if j < inner.len() {
                    assert(member_keys(inner)[i] == member_keys(kept)[i]);
                    assert(member_keys(inner)[j] == member_keys(kept)[j]);
                } else {
                    assert(rest.contains(inner[i]));
                    let at = choose|at: int| 0 <= at < rest.len() && rest[at] == inner[i];
                    assert(member_keys(members)[at] == inner[i].0);
                    assert(member_keys(members)[members.len() - 1] == members.last().0);
                }
            }
            assert forall|i: int| 0 <= i < kept.len() implies json_wf((#[trigger] kept[i]).1) by {
                if i < inner.len() {
                    assert(kept[i] == inner[i]);
                } else {
                    assert(kept[i] == members[members.len() - 1]);
                }
            }
        }
    }
}

/// The canonical text of an object.
pub fn canonicalise_object(members: &Vec<(String, JsonValue)>) -> (text: String)
    requires
        json_wf(JsonView::Object(members_view(members@))),
    ensures
        text@ == canonical_text(members_view(members@)),
{
    let ghost all = members_view(members@);
    let mut kept: Vec<(String, JsonValue)> = Vec::new();
    assert(members_view(kept@) =~= content_members(all.take(0)));
    let mut i: usize = 0;
    while i < members.len()
        invariant
            i <= members.len(),
            all == members_view(members@),
            members_view(kept@) == content_members(all.take(i as int)),
        decreases members.len() - i,
    {
        proof {
            assert(all.take(i + 1).drop_last() =~= all.take(i as int));
            assert(all.take(i + 1).last() == all[i as int]);
            assert(all[i as int] == (members@[i as int].0@, members@[i as int].1@));
        }
        let key = members[i].0.as_str();
        if !str_eq(key, "@context") && !str_eq(key, "@graph") {
            let ghost before = members_view(kept@);
            kept.push((members[i].0.clone(), copy_json(&members[i].1)));
            assert(members_view(kept@) =~= before.push(all[i as int]));
        }
        i += 1;
    }
    proof {
        assert(all.take(members@.len() as int) =~= all);
        lemma_content_members(all);
    }
    let object = JsonValue::Object(kept);
    match object.to_text() {
        Ok(text) => text,
        Err(_) => String::new(),
    }
}

/// The identifier given to an object that has none.
pub fn generate_surrogate_id(members: &Vec<(String, JsonValue)>) -> (id: String)
    requires
        json_wf(JsonView::Object(members_view(members@))),
    ensures
        id@ == surrogate_id(members_view(members@)),
{
    let canonical = canonicalise_object(members);
    let uuid = name_uuid(canonical.as_str());
    join("urn:uuid:", uuid.as_str())
}

/// Whether an object holds anything of a node besides what names it: a
/// member other than `@id`, `@graph` and `@context`.
pub open spec fn holds_node(members: Seq<(Seq<char>, JsonView)>) -> bool {
    exists|i: int|
        0 <= i < members.len() && (#[trigger] members[i]).0 != "@id"@ && members[i].0
            != "@graph"@ && members[i].0 != "@context"@
}

/// Whether an object holds anything of a node besides what names it.
pub fn has_node_properties(members: &Vec<(String, JsonValue)>) -> (r: bool)
    ensures
        r == holds_node(members_view(members@)),
{
    let ghost all = members_view(members@);
    let mut i: usize = 0;
    while i < members.len()
        invariant
            i <= members.len(),
            all == members_view(members@),
            forall|k: int|
                0 <= k < i ==> (#[trigger] all[k]).0 == "@id"@ || all[k].0 == "@graph"@
                    || all[k].0 == "@context"@,
        decreases members.len() - i,
    {
        let key = members[i].0.as_str();
        assert(all[i as int].0 == key@);
        if !str_eq(key, "@id") && !str_eq(key, "@graph") && !str_eq(key, "@context") {
            return true;
        }
        i += 1;
    }
    false
}

/// The identifier of the node that an object describes: its `@id` where
/// that is a text that is not empty, else its surrogate identifier.
pub open spec fn node_id(members: Seq<(Seq<char>, JsonView)>) -> Seq<char> {
    match JsonView::Object(members).get("@id"@) {
        Some(JsonView::String(id)) => if id.len() > 0 {
            id
        } else {
            surrogate_id(members)
        },
        _ => surrogate_id(members),
    }
}

/// The node with the types that the first `count` entries of a `@type`
/// array name: each entry that is a text names one.
pub open spec fn types_added(
    node: NodeView,
    context: Option<ContextView>,
    entries: Seq<JsonView>,
) -> NodeView
    decreases entries.len(),
{
    if entries.len() == 0 {
        node
    } else {
        let before = types_added(node, context, entries.drop_last());
        match entries.last() {
            JsonView::String(name) => with_type(before, term_expansion(context, name)),
            _ => before,
        }
    }
}

/// The node with the types that the `@type` of an object names; a `@type`
/// that is neither a text nor an array is a fault.
pub open spec fn typed_node(
    node: NodeView,
    context: Option<ContextView>,
    members: Seq<(Seq<char>, JsonView)>,
) -> Result<NodeView, ErrorKind> {
    match JsonView::Object(members).get("@type"@) {
        None => Ok(node),
        Some(JsonView::Array(entries)) => Ok(types_added(node, context, entries)),
        Some(JsonView::String(name)) => Ok(with_type(node, term_expansion(context, name))),
        Some(_) => Err(ErrorKind::JsonLd),
    }
}

/// Whether a member of an object is read as something other than a
/// property.
pub open spec fn is_reserved(key: Seq<char>) -> bool {
    key == "@id"@ || key == "@type"@ || key == "@context"@ || key == "@graph"@
}

/// Whether the values of the property with the expanded key `key` are
/// references by its definition in the context.
pub open spec fn holds_references(context: Option<ContextView>, key: Seq<char>) -> bool {
    match context {
        Some(context) => context.id_properties.contains(key),
        None => false,
    }
}

/// The step that takes in one more member of an object as a property of
/// the node: under its expanded key, with its value put in place of what
/// the node held there.
pub open spec fn member_stepper(context: Option<ContextView>) -> spec_fn(
    NodeView,
    (Seq<char>, JsonView),
) -> Result<NodeView, ErrorKind> {
    |node: NodeView, member: (Seq<char>, JsonView)|
        if is_reserved(member.0) {
            Ok(node)
        } else {
            match property_value(
                member.1,
                context,
                holds_references(context, term_expansion(context, member.0)),
            ) {
                Ok(value) => Ok(with_property(node, term_expansion(context, member.0), value)),
                Err(_) => Err(ErrorKind::JsonLd),
            }
        }
}

/// The node once an object has been read into it.
pub open spec fn node_filled(
    node: NodeView,
    context: Option<ContextView>,
    members: Seq<(Seq<char>, JsonView)>,
) -> Result<NodeView, ErrorKind> {
    match typed_node(node, context, members) {
        Ok(typed) => try_fold(typed, members, member_stepper(context)),
        Err(kind) => Err(kind),
    }
}

/// The nodes once an object has been read as a node of the graph `graph`.
pub open spec fn node_object(
    members: Seq<(Seq<char>, JsonView)>,
    graph: Option<Seq<char>>,
    context: Option<ContextView>,
    nodes: Seq<NodeView>,
) -> Result<Seq<NodeView>, ErrorKind> {
    let key = (graph, node_id(members));
    let at = position(nodes, key);
    let there = ensured(nodes, key);
    match node_filled(there[at], context, members) {
        Ok(node) => Ok(there.update(at, node)),
        Err(kind) => Err(kind),
    }
}

/// Reads the types and the properties of an object into a node.
fn fill_node(
    node: &mut Node,
    members: &Vec<(String, JsonValue)>,
    context: Option<&ActiveContext>,
) -> (r: Result<(), ToolError>)
    requires
        json_wf(JsonView::Object(members_view(members@))),
    ensures
        match r {
            Ok(()) => node_filled(old(node)@, context_option(context), members_view(members@))
                == Ok::<NodeView, ErrorKind>(final(node)@),
            Err(e) => node_filled(
                old(node)@,
                context_option(context),
                members_view(members@),
            ) is Err && e is JsonLd,
        },
        key_of(final(node)@) == key_of(old(node)@),
{
    let ghost all = members_view(members@);
    let ghost ctx = context_option(context);
    let ghost wanted = node_filled(node@, ctx, all);
    let ghost first = node@;
    proof {
        lemma_wf_object(all);
    }
    match find_member(members, "@type") {
        None => {},
        Some(JsonValue::Array(entries)) => {
            let ghost names = items_view(entries@);
            assert(names.take(0) =~= Seq::<JsonView>::empty());
            let mut i: usize = 0;
            while i < entries.len()
                invariant
                    i <= entries.len(),
                    names == items_view(entries@),
                    ctx == context_option(context),
                    key_of(node@) == key_of(first),
                    node@ == types_added(first, ctx, names.take(i as int)),
                decreases entries.len() - i,
            {
                proof {
                    assert(names.take(i + 1).drop_last() =~= names.take(i as int));
                    assert(names.take(i + 1).last() == entries@[i as int]@);
                }
                match &entries[i] {
                    JsonValue::String(name) => {
                        node.add_type(expand_term(context, name.as_str()));
                    },
                    _ => {},
                }
                i += 1;
            }
            proof {
                assert(names.take(entries@.len() as int) =~= names);
            }
        },
        Some(JsonValue::String(name)) => {
            node.add_type(expand_term(context, name.as_str()));
        },
        Some(_) => {
            return Err(
                ToolError::JsonLd(copy("invalid @type entry: expected string or array")),
            );
        },
    }
    let ghost typed = node@;
    let ghost step = member_stepper(ctx);
    proof {
        lemma_try_fold_all(typed, all, step);
    }
    let mut j: usize = 0;
    while j < members.len()
        invariant
            j <= members.len(),
            all == members_view(members@),
            ctx == context_option(context),
            step == member_stepper(ctx),
            wanted == try_fold(typed, all, step),
            wanted == node_filled(old(node)@, ctx, all),
            first == old(node)@,
            key_of(node@) == key_of(first),
            forall|k: int| 0 <= k < all.len() ==> json_wf((#[trigger] all[k]).1),
            try_fold(typed, all.take(j as int), step) == Ok::<NodeView, ErrorKind>(node@),
        decreases members.len() - j,
    {
        proof {
            lemma_try_fold_next(typed, all, step, j as int);
            assert(all[j as int] == (members@[j as int].0@, members@[j as int].1@));
            assert(json_wf(all[j as int].1));
        }
        let key = members[j].0.as_str();
        let reserved = str_eq(key, "@id") || str_eq(key, "@type") || str_eq(key, "@context")
            || str_eq(key, "@graph");
        if !reserved {
            let expanded = expand_term(context, key);
            let treat_as_id = match context {
                Some(context) => has_text(&context.id_properties, expanded.as_str()),
                None => false,
            };
            match parse_property_value(&members[j].1, context, treat_as_id) {
                Ok(value) => {
                    node.insert_property(expanded, value);
                },
                Err(e) => {
                    proof {
                        lemma_try_fold_fault(typed, all, step, j + 1);
                    }
                    let head = join("failed to parse property '", expanded.as_str());
                    let middle = join(head.as_str(), "': ");
                    return Err(
                        ToolError::JsonLd(join(middle.as_str(), e.message().as_str())),
                    );
                },
            }
        }
        j += 1;
    }
    proof {
        lemma_try_fold_all(typed, all, step);
    }
    Ok(())
}

/// Reads an object as a node of the graph `graph`.
pub fn parse_node_object(
    members: &Vec<(String, JsonValue)>,
    graph: &Option<String>,
    context: Option<&ActiveContext>,
    nodes: &mut NodeSet,
) -> (r: Result<(), ToolError>)
    requires
        json_wf(JsonView::Object(members_view(members@))),
    ensures
        match r {
            Ok(()) => node_object(
                members_view(members@),
                text_option(*graph),
                context_option(context),
                old(nodes)@,
            ) == Ok::<Seq<NodeView>, ErrorKind>(final(nodes)@),
            Err(e) => node_object(
                members_view(members@),
                text_option(*graph),
                context_option(context),
                old(nodes)@,
            ) is Err && e is JsonLd,
        },
{
    let given: Option<String> = match find_member(members, "@id") {
        Some(JsonValue::String(id)) => {
            if id.as_str().unicode_len() > 0 {
                Some(id.clone())
            } else {
                None
            }
        },
        _ => None,
    };
    let id = match given {
        Some(id) => id,
        None => generate_surrogate_id(members),
    };
    let at = nodes.ensure_node(clone_text_option(graph), id.as_str());
    let mut node = nodes.node(at).clone();
    match fill_node(&mut node, members, context) {
        Ok(()) => {
            nodes.replace(at, node);
            Ok(())
        },
        Err(e) => Err(e),
    }
}

/// The context in force inside an object: what its `@context` derives
/// from the context around it, or that context itself where it has none.
pub open spec fn local_context(value: JsonView, context: Option<ContextView>) -> Result<
    Option<ContextView>,
    ErrorKind,
> {
    match value.get("@context"@) {
        Some(defined) => match context_value(defined, context) {
            Ok(derived) => Ok(Some(derived)),
            Err(kind) => Err(kind),
        },
        None => Ok(context),
    }
}

/// The name of the graph that an object with `@graph` opens: its `@id`
/// where that is a text.
pub open spec fn opened_graph(value: JsonView) -> Option<Seq<char>> {
    match value.get("@id"@) {
        Some(JsonView::String(id)) => Some(id),
        _ => None,
    }
}

/// The nodes once an entry has been read in the graph `graph`: an object
/// with `@graph` has the entries of that graph read under its own `@id`
/// as graph name, and is read as a node of `graph` besides if it holds
/// anything of a node; any other object is read as a node of `graph`; an
/// array is read entry by entry; anything else is a fault.
pub open spec fn entry_nodes(
    value: JsonView,
    graph: Option<Seq<char>>,
    context: Option<ContextView>,
    nodes: Seq<NodeView>,
) -> Result<Seq<NodeView>, ErrorKind>
    decreases value, 2nat,
{
    match value {
        JsonView::Object(members) => match local_context(value, context) {
            Ok(inner) => if has_member(value, "@graph"@) {
                match graph_nodes(
                    value->Object_0[member_index(value->Object_0, "@graph"@)].1,
                    opened_graph(value),
                    inner,
                    nodes,
                ) {
                    Ok(read) => if holds_node(members) {
                        node_object(members, graph, inner, read)
                    } else {
                        Ok(read)
                    },
                    Err(kind) => Err(kind),
                }
            } else {
                node_object(members, graph, inner, nodes)
            },
            Err(kind) => Err(kind),
        },
        JsonView::Array(entries) => entries_nodes(value, entries.len(), graph, context, nodes),
        _ => Err(ErrorKind::JsonLd),
    }
}

/// The nodes once the first `count` entries of the array `value` have been
/// read in the graph `graph`.
pub open spec fn entries_nodes(
    value: JsonView,
    count: nat,
    graph: Option<Seq<char>>,
    context: Option<ContextView>,
    nodes: Seq<NodeView>,
) -> Result<Seq<NodeView>, ErrorKind>
    decreases value, 0nat, count,
{
    if count == 0 || !(value is Array) || count > value->Array_0.len() {
        Ok(nodes)
    } else {
        match entries_nodes(value, (count - 1) as nat, graph, context, nodes) {
            Ok(read) => entry_nodes(value->Array_0[count - 1], graph, context, read),
            Err(kind) => Err(kind),
        }
    }
}

/// The nodes once the value of a `@graph` has been read: an array entry by
/// entry, an object as one entry, null as nothing; anything else is a
/// fault.
pub open spec fn graph_nodes(
    value: JsonView,
    graph: Option<Seq<char>>,
    context: Option<ContextView>,
    nodes: Seq<NodeView>,
) -> Result<Seq<NodeView>, ErrorKind>
    decreases value, 3nat,
{
    match value {
        JsonView::Array(entries) => entries_nodes(value, entries.len(), graph, context, nodes),
        JsonView::Object(_) => entry_nodes(value, graph, context, nodes),
        JsonView::Null => Ok(nodes),
        _ => Err(ErrorKind::JsonLd),
    }
}

/// A fault among the first entries of an array is the fault of the whole
/// array.
pub proof fn lemma_entries_nodes_fault(
    value: JsonView,
    count: nat,
    graph: Option<Seq<char>>,
    context: Option<ContextView>,
    nodes: Seq<NodeView>,
)
    requires
        value is Array,
        count <= value->Array_0.len(),
        entries_nodes(value, count, graph, context, nodes) is Err,
    ensures
        entries_nodes(value, value->Array_0.len(), graph, context, nodes) is Err,
    decreases value->Array_0.len() - count,
{
    if count < value->Array_0.len() {
        lemma_entries_nodes_fault(value, count + 1, graph, context, nodes);
    }
}

/// Reads the entries of an array in the graph `graph`.
fn parse_entries(
    value: &JsonValue,
    graph: &Option<String>,
    context: Option<&ActiveContext>,
    nodes: &mut NodeSet,
) -> (r: Result<(), ToolError>)
    requires
        json_wf(value@),
        value@ is Array,
    ensures
        match r {
            Ok(()) => entries_nodes(
                value@,
                value@->Array_0.len(),
                text_option(*graph),
                context_option(context),
                old(nodes)@,
            ) == Ok::<Seq<NodeView>, ErrorKind>(final(nodes)@),
            Err(e) => entries_nodes(
                value@,
                value@->Array_0.len(),
                text_option(*graph),
                context_option(context),
                old(nodes)@,
            ) is Err && e is JsonLd,
        },
    decreases value, 0nat,
{
    let entries = match value {
        JsonValue::Array(entries) => entries,
        _ => {
            return Ok(());
        },
    };
    let ghost whole = value@;
    let ghost all = items_view(entries@);
    let ghost start = nodes@;
    let ghost ctx = context_option(context);
    let ghost name = text_option(*graph);
    proof {
        assert(whole == JsonView::Array(all));
        lemma_wf_array(all);
    }
    let mut i: usize = 0;
    while i < entries.len()
        invariant
            i <= entries.len(),
            value == JsonValue::Array(*entries),
            whole == value@,
            whole == JsonView::Array(all),
            all == items_view(entries@),
            all.len() == entries@.len(),
            ctx == context_option(context),
            name == text_option(*graph),
            start == old(nodes)@,
            forall|k: int| 0 <= k < all.len() ==> json_wf(#[trigger] all[k]),
            entries_nodes(whole, i as nat, name, ctx, start) == Ok::<Seq<NodeView>, ErrorKind>(
                nodes@,
            ),
        decreases entries.len() - i,
    {
        proof {
            assert(decreases_to!(value => value->Array_0@[i as int]));
            assert(all[i as int] == entries@[i as int]@);
            assert(json_wf(all[i as int]));
        }
        match parse_entry(&entries[i], graph, context, nodes) {
            Ok(()) => {},
            Err(e) => {
                proof {
                    lemma_entries_nodes_fault(whole, (i + 1) as nat, name, ctx, start);
                }
                return Err(e);
            },
        }
        i += 1;
    }
    Ok(())
}

/// Reads one entry in the graph `graph`.
pub fn parse_entry(
    value: &JsonValue,
    graph: &Option<String>,
    context: Option<&ActiveContext>,
    nodes: &mut NodeSet,
) -> (r: Result<(), ToolError>)
    requires
        json_wf(value@),
    ensures
        match r {
            Ok(()) => entry_nodes(
                value@,
                text_option(*graph),
                context_option(context),
                old(nodes)@,
            ) == Ok::<Seq<NodeView>, ErrorKind>(final(nodes)@),
            Err(e) => entry_nodes(
                value@,
                text_option(*graph),
                context_option(context),
                old(nodes)@,
            ) is Err && e is JsonLd,
        },
    decreases value, 2nat,
{
    match value {
        JsonValue::Object(members) => {
            let ghost all = members_view(members@);
            proof {
                assert(value@ == JsonView::Object(all));
                lemma_wf_object(all);
                lemma_member_index(all, "@graph"@);
                lemma_member_index(all, "@context"@);
            }
            let derived: Option<ActiveContext> = match member_position(members, "@context") {
                Some(at) => {
                    proof {
                        assert(all[at as int] == (members@[at as int].0@, members@[at as int].1@));
                    }
                    match parse_context_value(&members[at].1, context) {
                        Ok(derived) => Some(derived),
                        Err(e) => {
                            return Err(e);
                        },
                    }
                },
                None => None,
            };
            let inner: Option<&ActiveContext> = match &derived {
                Some(derived) => Some(derived),
                None => context,
            };
            assert(local_context(value@, context_option(context)) == Ok::<
                Option<ContextView>,
                ErrorKind,
            >(context_option(inner)));
            match member_position(members, "@graph") {
                Some(at) => {
                    proof {
                        assert(decreases_to!(value => value->Object_0@[at as int].1));
                        assert(all[at as int] == (members@[at as int].0@, members@[at as int].1@));
                    }
                    let opened: Option<String> = match find_member(members, "@id") {
                        Some(JsonValue::String(id)) => Some(id.clone()),
                        _ => None,
                    };
                    match parse_graph(&members[at].1, &opened, inner, nodes) {
                        Ok(()) => {},
                        Err(e) => {
                            return Err(e);
                        },
                    }
                    if has_node_properties(members) {
                        parse_node_object(members, graph, inner, nodes)
                    } else {
                        Ok(())
                    }
                },
                None => parse_node_object(members, graph, inner, nodes),
            }
        },
        JsonValue::Array(_) => parse_entries(value, graph, context, nodes),
        _ => Err(ToolError::JsonLd(copy("expected JSON object for node"))),
    }
}

/// Reads the value of a `@graph` as the graph `graph`.
pub fn parse_graph(
    value: &JsonValue,
    graph: &Option<String>,
    context: Option<&ActiveContext>,
    nodes: &mut NodeSet,
) -> (r: Result<(), ToolError>)
    requires
        json_wf(value@),
    ensures
        match r {
            Ok(()) => graph_nodes(
                value@,
                text_option(*graph),
                context_option(context),
                old(nodes)@,
            ) == Ok::<Seq<NodeView>, ErrorKind>(final(nodes)@),
            Err(e) => graph_nodes(
                value@,
                text_option(*graph),
                context_option(context),
                old(nodes)@,
            ) is Err && e is JsonLd,
        },
    decreases value, 3nat,
{
    match value {
        JsonValue::Array(_) => parse_entries(value, graph, context, nodes),
        JsonValue::Object(_) => parse_entry(value, graph, context, nodes),
        JsonValue::Null => Ok(()),
        _ => Err(ToolError::JsonLd(copy("invalid @graph entry: expected array or object"))),
    }
}

/// The nodes that a document describes: an array is read entry by entry;
/// an object is read as one entry, in the context that its `@context`
/// gives; anything else is a fault.
pub open spec fn document_nodes(document: JsonView) -> Result<Seq<NodeView>, ErrorKind> {
    match document {
        JsonView::Array(entries) => entries_nodes(
            document,
            entries.len(),
            None,
            None,
            Seq::<NodeView>::empty(),
        ),
        JsonView::Object(_) => match local_context(document, None) {
            Ok(base) => entry_nodes(document, None, base, Seq::<NodeView>::empty()),
            Err(kind) => Err(kind),
        },
        _ => Err(ErrorKind::JsonLd),
    }
}

/// Reads the nodes of a JSON-LD document; they come in rising order of
/// graph and identifier. Every failure is a JSON-LD failure.
///
/// The members of every object of the document have to stand in rising
/// order of their keys, as [`JsonValue::parse`] gives them;
/// [`crate::json::is_well_formed`] tells whether they do.
pub fn parse_jsonld_document(document: &JsonValue) -> (r: Result<Vec<Node>, ToolError>)
    requires
        json_wf(document@),
    ensures
        match r {
            Ok(nodes) => document_nodes(document@) == Ok::<Seq<NodeView>, ErrorKind>(
                nodes_view(nodes@),
            ) && crate::nodes::sorted_nodes(nodes_view(nodes@)),
            Err(e) => document_nodes(document@) is Err && e is JsonLd,
        },
{
    let mut nodes = NodeSet::new();
    let none: Option<String> = None;
    match document {
        JsonValue::Array(_) => {
            match parse_entries(document, &none, None, &mut nodes) {
                Ok(()) => {},
                Err(e) => {
                    return Err(e);
                },
            }
        },
        JsonValue::Object(members) => {
            let ghost all = members_view(members@);
            proof {
                assert(document@ == JsonView::Object(all));
                lemma_wf_object(all);
                lemma_member_index(all, "@context"@);
            }
            let base: Option<ActiveContext> = match member_position(members, "@context") {
                Some(at) => {
                    proof {
                        assert(all[at as int] == (members@[at as int].0@, members@[at as int].1@));
                    }
                    match parse_context_value(&members[at].1, None) {
                        Ok(base) => Some(base),
                        Err(e) => {
                            return Err(e);
                        },
                    }
                },
                None => None,
            };
            let context: Option<&ActiveContext> = match &base {
                Some(base) => Some(base),
                None => None,
            };
            match parse_entry(document, &none, context, &mut nodes) {
                Ok(()) => {},
                Err(e) => {
                    return Err(e);
                },
            }
        },
        _ => {
            return Err(ToolError::JsonLd(copy("expected JSON-LD array or object")));
        },
    }
    Ok(nodes.into_nodes())
}

/// The JSON object that stands for a reference.
pub open spec fn reference_json(target: Seq<char>) -> JsonView {
    JsonView::Object(seq![("@id"@, JsonView::String(target))])
}

/// The JSON value that stands for the value of a property: a literal as
/// JSON writes it, a reference as an object with `@id`, a list as an array
/// of those.
pub open spec fn value_json(value: PropertyView) -> JsonView {
    match value {
        PropertyView::Scalar(scalar) => scalar_json(scalar),
        PropertyView::ObjectRef(target) => reference_json(target),
        PropertyView::Scalars(items) => JsonView::Array(
            items.map_values(|item: ScalarView| scalar_json(item)),
        ),
        PropertyView::ObjectRefs(targets) => JsonView::Array(
            targets.map_values(|target: Seq<char>| reference_json(target)),
        ),
    }
}

/// The members of an object with those for the given properties put in,
/// one after the other.
pub open spec fn properties_put(
    members: Seq<(Seq<char>, JsonView)>,
    properties: Seq<(Seq<char>, PropertyView)>,
) -> Seq<(Seq<char>, JsonView)>
    decreases properties.len(),
{
    if properties.len() == 0 {
        members
    } else {
        put_member(
            properties_put(members, properties.drop_last()),
            properties.last().0,
            value_json(properties.last().1),
        )
    }
}

/// The members of an object with `@type` for the given types: nothing for
/// no type, a text for one, an array of texts for more.
pub open spec fn types_put(members: Seq<(Seq<char>, JsonView)>, types: Seq<Seq<char>>) -> Seq<
    (Seq<char>, JsonView),
> {
    if types.len() == 0 {
        members
    } else if types.len() == 1 {
        put_member(members, "@type"@, JsonView::String(types[0]))
    } else {
        put_member(
            members,
            "@type"@,
            JsonView::Array(types.map_values(|name: Seq<char>| JsonView::String(name))),
        )
    }
}

/// The JSON object that stands for a node: its identifier under `@id`, its
/// types under `@type`, and a member for each property.
pub open spec fn node_json(node: NodeView) -> JsonView {
    JsonView::Object(
        properties_put(
            types_put(
                put_member(
                    Seq::<(Seq<char>, JsonView)>::empty(),
                    "@id"@,
                    JsonView::String(node.id),
                ),
                node.types,
            ),
            node.properties,
        ),
    )
}

/// The JSON object that stands for a reference.
fn reference_to_json(target: &String) -> (r: JsonValue)
    ensures
        r@ == reference_json(target@),
        json_wf(r@),
{
    let mut members: Vec<(String, JsonValue)> = Vec::new();
    members.push((copy("@id"), JsonValue::String(target.clone())));
    let r = JsonValue::Object(members);
    proof {
        assert(members_view(members@) =~= seq![("@id"@, JsonView::String(target@))]);
        lemma_wf_object(members_view(members@));
    }
    r
}

/// The JSON value that stands for the value of a property.
fn value_to_json(value: &PropertyValue) -> (r: JsonValue)
    ensures
        r@ == value_json(value@),
        json_wf(r@),
{
    match value {
        PropertyValue::Scalar(scalar) => scalar.to_json(),
        PropertyValue::ObjectRef(target) => reference_to_json(target),
        PropertyValue::Array(ArrayValue::Scalars(items)) => {
            let mut values: Vec<JsonValue> = Vec::new();
            let mut i: usize = 0;
            while i < items.len()
                invariant
                    i <= items.len(),
                    values.len() == i,
                    forall|k: int|
                        0 <= k < i ==> (#[trigger] values@[k])@ == scalar_json(items@[k]@)
                            && json_wf(values@[k]@),
                decreases items.len() - i,
            {
                values.push(items[i].to_json());
                i += 1;
            }
            proof {
                assert(items_view(values@) =~= scalars(items@).map_values(
                    |item: ScalarView| scalar_json(item),
                ));
                assert forall|k: int| 0 <= k < items_view(values@).len() implies json_wf(
                    #[trigger] items_view(values@)[k],
                ) by {
                    assert(items_view(values@)[k] == values@[k]@);
                }
                lemma_wf_array(items_view(values@));
            }
            JsonValue::Array(values)
        },
        PropertyValue::Array(ArrayValue::ObjectRefs(targets)) => {
            let mut values: Vec<JsonValue> = Vec::new();
            let mut i: usize = 0;
            while i < targets.len()
                invariant
                    i <= targets.len(),
                    values.len() == i,
                    forall|k: int|
                        0 <= k < i ==> (#[trigger] values@[k])@ == reference_json(targets@[k]@)
                            && json_wf(values@[k]@),
                decreases targets.len() - i,
            {
                values.push(reference_to_json(&targets[i]));
                i += 1;
            }
            proof {
                assert(items_view(values@) =~= texts(targets@).map_values(
                    |target: Seq<char>| reference_json(target),
                ));
                assert forall|k: int| 0 <= k < items_view(values@).len() implies json_wf(
                    #[trigger] items_view(values@)[k],
                ) by {
                    assert(items_view(values@)[k] == values@[k]@);
                }
                lemma_wf_array(items_view(values@));
            }
            JsonValue::Array(values)
        },
    }
}

/// The JSON object that stands for a node.
pub fn node_to_json(node: &Node) -> (r: JsonValue)
    ensures
        r@ == node_json(node@),
        json_wf(r@),
{
    let mut members: Vec<(String, JsonValue)> = Vec::new();
    proof {
        assert(members_view(members@) =~= Seq::<(Seq<char>, JsonView)>::empty());
        lemma_wf_object(members_view(members@));
    }
    insert_member(&mut members, copy("@id"), JsonValue::String(node.id().clone()));
    let types = node.types();
    if types.len() == 1 {
        insert_member(&mut members, copy("@type"), JsonValue::String(types[0].clone()));
    } else if types.len() > 1 {
        let mut names: Vec<JsonValue> = Vec::new();
        let mut i: usize = 0;
        while i < types.len()
            invariant
                i <= types.len(),
                names.len() == i,
                forall|k: int|
                    0 <= k < i ==> (#[trigger] names@[k])@ == JsonView::String(types@[k]@),
            decreases types.len() - i,
        {
            names.push(JsonValue::String(types[i].clone()));
            i += 1;
        }
        proof {
            assert(items_view(names@) =~= texts(types@).map_values(
                |name: Seq<char>| JsonView::String(name),
            ));
            assert forall|k: int| 0 <= k < items_view(names@).len() implies json_wf(
                #[trigger] items_view(names@)[k],
            ) by {
                assert(items_view(names@)[k] == names@[k]@);
            }
            lemma_wf_array(items_view(names@));
        }
        insert_member(&mut members, copy("@type"), JsonValue::Array(names));
    }
    let properties = node.properties();
    let ghost all = entries(properties@);
    let ghost start = members_view(members@);
    assert(all.take(0) =~= Seq::<(Seq<char>, PropertyView)>::empty());
    let mut j: usize = 0;
    while j < properties.len()
        invariant
            j <= properties.len(),
            all == entries(properties@),
            json_wf(JsonView::Object(members_view(members@))),
            members_view(members@) == properties_put(start, all.take(j as int)),
        decreases properties.len() - j,
    {
        proof {
            assert(all.take(j + 1).drop_last() =~= all.take(j as int));
            assert(all.take(j + 1).last() == (properties@[j as int].0@, properties@[j as int].1@));
        }
        insert_member(&mut members, properties[j].0.clone(), value_to_json(&properties[j].1));
        j += 1;
    }
    proof {
        assert(all.take(properties@.len() as int) =~= all);
    }
    JsonValue::Object(members)
}

/// The JSON objects of the nodes of one graph, in the order of the nodes.
pub open spec fn graph_entries(nodes: Seq<NodeView>, graph: Option<Seq<char>>) -> Seq<JsonView>
    decreases nodes.len(),
{
    if nodes.len() == 0 {
        seq![]
    } else {
        let rest = graph_entries(nodes.drop_last(), graph);
        if nodes.last().graph == graph {
            rest.push(node_json(nodes.last()))
        } else {
            rest
        }
    }
}

/// The names of the named graphs of the nodes, each once, in rising order.
pub open spec fn graph_names(nodes: Seq<NodeView>) -> Seq<Seq<char>>
    decreases nodes.len(),
{
    if nodes.len() == 0 {
        seq![]
    } else {
        let rest = graph_names(nodes.drop_last());
        match nodes.last().graph {
            Some(name) => insert_text(rest, name),
            None => rest,
        }
    }
}

/// The JSON object that stands for a named graph: its name under `@id`,
/// its nodes under `@graph`.
pub open spec fn graph_json(nodes: Seq<NodeView>, name: Seq<char>) -> JsonView {
    JsonView::Object(
        put_member(
            put_member(Seq::<(Seq<char>, JsonView)>::empty(), "@id"@, JsonView::String(name)),
            "@graph"@,
            JsonView::Array(graph_entries(nodes, Some(name))),
        ),
    )
}

/// The document for nodes, in expanded form: under `@graph`, the nodes of
/// the default graph and then one object for each named graph.
pub open spec fn document_json(nodes: Seq<NodeView>) -> JsonView {
    JsonView::Object(
        seq![
            (
                "@graph"@,
                JsonView::Array(
                    graph_entries(nodes, None) + graph_names(nodes).map_values(
                        |name: Seq<char>| graph_json(nodes, name),
                    ),
                ),
            ),
        ],
    )
}

/// Whether two graph names name the same graph.
fn same_graph(graph: &Option<String>, wanted: &Option<String>) -> (r: bool)
    ensures
        r == (text_option(*graph) == text_option(*wanted)),
{
    match (graph, wanted) {
        (None, None) => true,
        (Some(a), Some(b)) => str_eq(a.as_str(), b.as_str()),
        _ => false,
    }
}

/// The JSON objects of the nodes of one graph, in the order of the nodes.
fn entries_of_graph(nodes: &[Node], graph: &Option<String>) -> (r: Vec<JsonValue>)
    ensures
        items_view(r@) == graph_entries(nodes_view(nodes@), text_option(*graph)),
        json_wf(JsonView::Array(items_view(r@))),
{
    let ghost views = nodes_view(nodes@);
    let ghost name = text_option(*graph);
    let mut r: Vec<JsonValue> = Vec::new();
    assert(items_view(r@) =~= graph_entries(views.take(0), name));
    let mut i: usize = 0;
    while i < nodes.len()
        invariant
            i <= nodes.len(),
            views == nodes_view(nodes@),
            name == text_option(*graph),
            items_view(r@) == graph_entries(views.take(i as int), name),
            forall|k: int| 0 <= k < r@.len() ==> json_wf((#[trigger] r@[k])@),
        decreases nodes.len() - i,
    {
        proof {
            assert(views.take(i + 1).drop_last() =~= views.take(i as int));
            assert(views.take(i + 1).last() == nodes@[i as int]@);
        }
        if same_graph(nodes[i].graph(), graph) {
            let ghost before = items_view(r@);
            let entry = node_to_json(&nodes[i]);
            r.push(entry);
            assert(items_view(r@) =~= before.push(entry@));
        }
        i += 1;
    }
    proof {
        assert(views.take(nodes@.len() as int) =~= views);
        assert forall|k: int| 0 <= k < items_view(r@).len() implies json_wf(
            #[trigger] items_view(r@)[k],
        ) by {
            assert(items_view(r@)[k] == r@[k]@);
        }
        lemma_wf_array(items_view(r@));
    }
    r
}

/// The names of the named graphs of the nodes, each once, in rising order.
fn names_of_graphs(nodes: &[Node]) -> (r: Vec<String>)
    ensures
        texts(r@) == graph_names(nodes_view(nodes@)),
{
    let ghost views = nodes_view(nodes@);
    let mut r: Vec<String> = Vec::new();
    assert(texts(r@) =~= graph_names(views.take(0)));
    let mut i: usize = 0;
    while i < nodes.len()
        invariant
            i <= nodes.len(),
            views == nodes_view(nodes@),
            strictly_sorted(texts(r@)),
            texts(r@) == graph_names(views.take(i as int)),
        decreases nodes.len() - i,
    {
        proof {
            assert(views.take(i + 1).drop_last() =~= views.take(i as int));
            assert(views.take(i + 1).last() == nodes@[i as int]@);
        }
        match nodes[i].graph() {
            Some(name) => {
                insert_sorted(&mut r, name.clone());
            },
            None => {},
        }
        i += 1;
    }
    proof {
        assert(views.take(nodes@.len() as int) =~= views);
    }
    r
}

/// The document for nodes, in expanded form.
pub fn expanded_document(nodes: &[Node]) -> (r: JsonValue)
    ensures
        r@ == document_json(nodes_view(nodes@)),
        json_wf(r@),
{
    let ghost views = nodes_view(nodes@);
    let none: Option<String> = None;
    let mut graph_items = entries_of_graph(nodes, &none);
    let names = names_of_graphs(nodes);
    let ghost plain = items_view(graph_items@);
    let ghost wanted = graph_names(views).map_values(|name: Seq<char>| graph_json(views, name));
    proof {
        lemma_wf_array(plain);
        assert forall|k: int| 0 <= k < graph_items@.len() implies json_wf(
            (#[trigger] graph_items@[k])@,
        ) by {
            assert(plain[k] == graph_items@[k]@);
        }
        assert(wanted.take(0) =~= Seq::<JsonView>::empty());
        assert(plain + wanted.take(0) =~= plain);
    }
    let mut i: usize = 0;
    while i < names.len()
        invariant
            i <= names.len(),
            views == nodes_view(nodes@),
            texts(names@) == graph_names(views),
            wanted == graph_names(views).map_values(|name: Seq<char>| graph_json(views, name)),
            items_view(graph_items@) == plain + wanted.take(i as int),
            forall|k: int| 0 <= k < graph_items@.len() ==> json_wf((#[trigger] graph_items@[k])@),
        decreases names.len() - i,
    {
        let name: Option<String> = Some(names[i].clone());
        let inner = entries_of_graph(nodes, &name);
        let mut members: Vec<(String, JsonValue)> = Vec::new();
        proof {
            assert(members_view(members@) =~= Seq::<(Seq<char>, JsonView)>::empty());
            lemma_wf_object(members_view(members@));
        }
        insert_member(&mut members, copy("@id"), JsonValue::String(names[i].clone()));
        insert_member(&mut members, copy("@graph"), JsonValue::Array(inner));
        let container = JsonValue::Object(members);
        let ghost before = items_view(graph_items@);
        graph_items.push(container);
        proof {
            assert(container@ == graph_json(views, names@[i as int]@));
            assert(wanted[i as int] == graph_json(views, texts(names@)[i as int]));
            assert(items_view(graph_items@) =~= before.push(container@));
            assert(wanted.take(i + 1) =~= wanted.take(i as int).push(wanted[i as int]));
            assert(items_view(graph_items@) =~= plain + wanted.take(i + 1));
        }
        i += 1;
    }
    proof {
        assert(wanted.take(names@.len() as int) =~= wanted);
        assert forall|k: int| 0 <= k < items_view(graph_items@).len() implies json_wf(
            #[trigger] items_view(graph_items@)[k],
        ) by {
            assert(items_view(graph_items@)[k] == graph_items@[k]@);
        }
        lemma_wf_array(items_view(graph_items@));
    }
    let mut document: Vec<(String, JsonValue)> = Vec::new();
    document.push((copy("@graph"), JsonValue::Array(graph_items)));
    let r = JsonValue::Object(document);
    proof {
        assert(members_view(document@) =~= seq![
            ("@graph"@, JsonView::Array(plain + wanted)),
        ]);
        lemma_wf_object(members_view(document@));
    }
    r
}

/// Compaction of an expanded document against a context, as
/// `json_ld::JsonLdProcessor::compact_using` does it without loading
/// anything: the compacted document, or the message of the fault. Nothing
/// is claimed of the document but that its members stand in rising order.
/// The compaction is run to its end by `futures::executor::block_on`, which
/// must not be called from within a task of such an executor; and that the
/// compaction comes to an end on every document and context is taken from
/// its authors, not shown.
#[verifier::external_body]
fn compact_with_context(expanded: &JsonValue, context: &JsonValue) -> (r: Result<
    JsonValue,
    String,
>)
    requires
        json_wf(expanded@),
        json_wf(context@),
    ensures
        r matches Ok(document) ==> json_wf(document@),
{
    let document = json_syntax::Value::from_serde_json(to_tree(expanded));
    let remote = json_ld::RemoteDocument::new(None, None, document);
    let context = json_syntax::Value::from_serde_json(to_tree(context));
    let context = <json_ld_syntax::context::Context as json_ld_syntax::TryFromJson>::try_from_json(
        context,
    ).map_err(|fault| fault.to_string())?;
    let context = json_ld::RemoteContextReference::Loaded(
        json_ld::RemoteContext::new(None, None, context),
    );
    let options = json_ld::Options::default();
    let compacted = futures::executor::block_on(
        json_ld::JsonLdProcessor::compact_using(&remote, context, &json_ld::NoLoader, options),
    ).map_err(|fault| fault.to_string())?;
    Ok(from_tree(json_syntax::Value::into_serde_json(compacted)))
}

/// Writes nodes as a JSON-LD document: in expanded form where no context
/// is given, else compacted against the context.
///
/// Without a context the call always succeeds. With one, the document is
/// what the compaction of the expanded form gives; a fault of the
/// compaction is a JSON-LD failure. The compaction blocks the calling
/// thread, and must not be asked for from within a task of a `futures`
/// executor.
pub fn nodes_to_jsonld(nodes: &[Node], context: Option<&JsonValue>) -> (r: Result<
    JsonValue,
    ToolError,
>)
    requires
        context matches Some(given) ==> json_wf(given@),
    ensures
        context is None ==> (r matches Ok(document) && document@ == document_json(
            nodes_view(nodes@),
        )),
        r matches Ok(document) ==> json_wf(document@),
        r matches Err(e) ==> e is JsonLd,
{
    let expanded = expanded_document(nodes);
    match context {
        Some(context) => match compact_with_context(&expanded, context) {
            Ok(document) => Ok(document),
            Err(message) => Err(ToolError::JsonLd(message)),
        },
        None => Ok(expanded),
    }
}

/// An array whose entries give a literal and a reference has no value:
/// reading it as the value of a property is a JSON-LD failure.
pub proof fn mixed_array_fails(value: JsonView, context: Option<ContextView>, treat_as_id: bool)
    requires
        value is Array,
        array_parts(value, value->Array_0.len(), context, treat_as_id) matches Ok(parts)
            && parts.0.len() > 0 && parts.1.len() > 0,
    ensures
        property_value(value, context, treat_as_id) == Err::<PropertyView, ErrorKind>(
            ErrorKind::JsonLd,
        ),
{
}

/// An array that holds a literal text and, behind it, an object with an
/// `@id`, gives a literal and a reference, whatever else it holds before
/// them; so it has no value.
pub proof fn literal_with_reference_fails(
    value: JsonView,
    context: Option<ContextView>,
    text: Seq<char>,
    id: Seq<char>,
)
    requires
        value is Array,
        value->Array_0.len() >= 2,
        value->Array_0[value->Array_0.len() - 2] == JsonView::String(text),
        !is_iri(text),
        value->Array_0[value->Array_0.len() - 1] == JsonView::Object(
            seq![("@id"@, JsonView::String(id))],
        ),
    ensures
        property_value(value, context, false) is Err,
{
    let entries = value->Array_0;
    let count = entries.len();
    let target = entries[count - 1];
    let members = seq![("@id"@, JsonView::String(id))];
    reveal_strlit("@id");
    reveal_strlit("@set");
    reveal_strlit("@list");
    assert("@id"@ != "@set"@) by {
        assert("@id"@[1] == 'i');
        assert("@set"@[1] == 's');
    }
    assert("@id"@ != "@list"@) by {
        assert("@id"@[1] == 'i');
        assert("@list"@[1] == 'l');
    }
    assert(member_index(members, "@id"@) == 0);
    crate::json::lemma_member_index_is(members, "@set"@, 1);
    crate::json::lemma_member_index_is(members, "@list"@, 1);
    assert(has_member(target, "@id"@));
    assert(!has_member(target, "@set"@));
    assert(!has_member(target, "@list"@));
    let before = array_parts(value, (count - 2) as nat, context, false);
    let middle = array_parts(value, (count - 1) as nat, context, false);
    let whole = array_parts(value, count, context, false);
    if before is Ok {
        let parts = before->Ok_0;
        assert(middle == Ok::<ArrayParts, ErrorKind>(
            (parts.0.push(ScalarView::String(text)), parts.1),
        ));
        assert(whole == Ok::<ArrayParts, ErrorKind>(
            (parts.0.push(ScalarView::String(text)), parts.1.push(id)),
        ));
    } else {
        assert(middle is Err);
        assert(whole is Err);
    }
}

/// Objects without an identifier that have the same content, whatever
/// their `@context` and `@graph` hold, are given the same identifier.
pub proof fn same_content_same_identifier(
    first: Seq<(Seq<char>, JsonView)>,
    second: Seq<(Seq<char>, JsonView)>,
)
    requires
        content_members(first) == content_members(second),
    ensures
        surrogate_id(first) == surrogate_id(second),
{
}

/// Two objects without an identifier are given the same identifier
/// exactly where the UUIDs of their canonical texts are the same.
pub proof fn identifiers_follow_content(
    first: Seq<(Seq<char>, JsonView)>,
    second: Seq<(Seq<char>, JsonView)>,
)
    ensures
        surrogate_id(first) == surrogate_id(second) <==> uuid_of(canonical_text(first))
            == uuid_of(canonical_text(second)),
{
    let head = "urn:uuid:"@;
    let a = uuid_of(canonical_text(first));
    let b = uuid_of(canonical_text(second));
    if surrogate_id(first) == surrogate_id(second) {
        assert((head + a).subrange(head.len() as int, (head + a).len() as int) =~= a);
        assert((head + b).subrange(head.len() as int, (head + b).len() as int) =~= b);
    }
}

} // verus!
