//! The table codec, workbook to graph: nodes and their types from the table
//! of memberships, their properties from the type tables, their lists of
//! references from the child tables.

use vstd::prelude::*;
use crate::error::{ErrorKind, ToolError};
use crate::flatten::{
    ENTITIES_SHEET, METADATA_SHEET, SheetTable, SheetView, UNTYPED_MARKER, WorkbookData,
};
use crate::fold::{
    fault_at, lemma_fault_at, lemma_try_fold_all, lemma_try_fold_fault, lemma_try_fold_keeps,
    lemma_try_fold_next, try_fold,
};
use crate::json::{
    items_view, json_of_text, json_scalar, JsonValue, JsonView, scalar_of_json, ScalarFault,
};
use crate::model::{
    ArrayValue, clone_strings, lookup, Node, nodes_view, NodeView, PropertyValue, PropertyView,
    scalars, ScalarValue, ScalarView, texts,
};
use crate::nodes::{
    ensured, fresh, has_key, key_lt, key_of, keys_of, lemma_ensured, lemma_update_sorted, NodeKey, NodeSet,
    position, sorted_nodes, with_property, with_type,
};
use crate::order::lemma_lower;
use crate::pairs::{pairs_view, put_pair, set_pair};
use crate::rows::{Row, rows_view};
use crate::text::{copy, is_blank, join, str_eq, strip_suffix, trimmed};

verus! {

/// The text of the cell at `index`; nothing where the row has no such cell.
pub open spec fn cell(row: Row, index: int) -> Seq<char> {
    if 0 <= index < row.len() {
        row[index]
    } else {
        Seq::empty()
    }
}

/// The text of the cell at `index`; nothing where the row has no such cell.
pub fn string_at(row: &Vec<String>, index: usize) -> (text: String)
    ensures
        text@ == cell(texts(row@), index as int),
{
    if index < row.len() {
        row[index].clone()
    } else {
        String::new()
    }
}

/// The place of the first table with the sheet name `name`, or the number
/// of tables if none has it.
pub open spec fn sheet_index(tables: Seq<SheetView>, name: Seq<char>) -> int
    decreases tables.len(),
{
    if tables.len() == 0 || tables[0].sheet_name == name {
        0
    } else {
        1 + sheet_index(tables.drop_first(), name)
    }
}

/// Where `sheet_index` points: behind the tables with other names, at the
/// first table with the name.
pub proof fn lemma_sheet_index(tables: Seq<SheetView>, name: Seq<char>)
    ensures
        0 <= sheet_index(tables, name) <= tables.len(),
        forall|i: int|
            0 <= i < sheet_index(tables, name) ==> (#[trigger] tables[i]).sheet_name != name,
        sheet_index(tables, name) < tables.len() ==> tables[sheet_index(
            tables,
            name,
        )].sheet_name == name,
    decreases tables.len(),
{
    if tables.len() == 0 || tables[0].sheet_name == name {
    } else {
        let rest = tables.drop_first();
        lemma_sheet_index(rest, name);
        assert forall|i: int| 0 <= i < sheet_index(tables, name) implies (
        #[trigger] tables[i]).sheet_name != name by {
            if i > 0 {
                assert(rest[i - 1] == tables[i]);
            }
        }
    }
}

/// A place behind tables with other names, at which the tables end or the
/// name stands, is where `sheet_index` points.
pub proof fn lemma_sheet_index_is(tables: Seq<SheetView>, name: Seq<char>, k: int)
    requires
        0 <= k <= tables.len(),
        forall|i: int| 0 <= i < k ==> (#[trigger] tables[i]).sheet_name != name,
        k < tables.len() ==> tables[k].sheet_name == name,
    ensures
        sheet_index(tables, name) == k,
{
    lemma_sheet_index(tables, name);
    let f = sheet_index(tables, name);
    if f < k {
        assert(tables[f].sheet_name != name);
    } else if k < f {
        assert(tables[k].sheet_name != name);
    }
}

/// The table with the sheet name `name`.
pub open spec fn sheet(tables: Seq<SheetView>, name: Seq<char>) -> Option<SheetView> {
    let at = sheet_index(tables, name);
    if at < tables.len() {
        Some(tables[at])
    } else {
        None
    }
}

/// What the failure says of a sheet that a workbook lacks.
pub open spec fn missing_sheet(name: Seq<char>) -> Seq<char> {
    "missing sheet '"@ + name + "'"@
}

/// The table with the sheet name `name`; a workbook without it is invalid.
pub fn read_required_sheet<'a>(workbook: &'a WorkbookData, name: &str) -> (r: Result<
    &'a SheetTable,
    ToolError,
>)
    ensures
        match r {
            Ok(table) => sheet(workbook@, name@) == Some(table@),
            Err(e) => sheet(workbook@, name@) is None && e is InvalidWorkbook && e.detail()
                == missing_sheet(name@),
        },
{
    let ghost all = workbook@;
    let mut i: usize = 0;
    while i < workbook.tables.len()
        invariant
            i <= workbook.tables.len(),
            all == workbook@,
            forall|k: int| 0 <= k < i ==> (#[trigger] all[k]).sheet_name != name@,
        decreases workbook.tables.len() - i,
    {
        assert(all[i as int] == workbook.tables@[i as int]@);
        if str_eq(workbook.tables[i].sheet_name.as_str(), name) {
            proof {
                lemma_sheet_index_is(all, name@, i as int);
            }
            return Ok(&workbook.tables[i]);
        }
        i += 1;
    }
    proof {
        lemma_sheet_index_is(all, name@, i as int);
    }
    let head = join("missing sheet '", name);
    Err(ToolError::InvalidWorkbook(join(head.as_str(), "'")))
}

/// What the metadata table says of the generated sheets: for each type
/// sheet its type, for each child sheet its predicate. A sheet that is
/// named twice keeps its place and takes what is said of it last.
pub struct SheetRoles {
    pub type_sheets: Vec<(String, String)>,
    pub child_sheets: Vec<(String, String)>,
}

/// The mathematical value of [`SheetRoles`].
pub struct RolesView {
    pub type_sheets: Seq<(Seq<char>, Seq<char>)>,
    pub child_sheets: Seq<(Seq<char>, Seq<char>)>,
}

impl View for SheetRoles {
    type V = RolesView;

    open spec fn view(&self) -> RolesView {
        RolesView {
            type_sheets: pairs_view(self.type_sheets@),
            child_sheets: pairs_view(self.child_sheets@),
        }
    }
}

/// The roles after one more row of the metadata table. A row without a
/// kind says nothing; a kind other than `type` and `child` is a fault.
pub open spec fn metadata_step(roles: RolesView, row: Row) -> Option<RolesView> {
    let kind = cell(row, 0);
    if kind.len() == 0 {
        Some(roles)
    } else if kind == "type"@ {
        Some(
            RolesView {
                type_sheets: put_pair(roles.type_sheets, cell(row, 1), cell(row, 2)),
                ..roles
            },
        )
    } else if kind == "child"@ {
        Some(
            RolesView {
                child_sheets: put_pair(roles.child_sheets, cell(row, 1), cell(row, 3)),
                ..roles
            },
        )
    } else {
        None
    }
}

/// The roles that the rows of the metadata table give; `None` where a row
/// has an unknown kind.
pub open spec fn metadata_roles(rows: Seq<Row>) -> Option<RolesView>
    decreases rows.len(),
{
    if rows.len() == 0 {
        Some(RolesView { type_sheets: seq![], child_sheets: seq![] })
    } else {
        match metadata_roles(rows.drop_last()) {
            Some(roles) => metadata_step(roles, rows.last()),
            None => None,
        }
    }
}

/// The first kind in the rows of the metadata table that is neither `type`
/// nor `child`, where there is one.
pub open spec fn unknown_kind(rows: Seq<Row>) -> Seq<char>
    decreases rows.len(),
{
    if rows.len() == 0 {
        seq![]
    } else if metadata_roles(rows.drop_last()) is None {
        unknown_kind(rows.drop_last())
    } else {
        cell(rows.last(), 0)
    }
}

/// What the failure says of a metadata table with a kind that is neither
/// `type` nor `child`.
pub open spec fn metadata_fault(rows: Seq<Row>) -> Seq<char> {
    "unknown metadata kind '"@ + unknown_kind(rows) + "'"@
}

/// Reads the metadata table. A failure names the first kind that is
/// neither `type` nor `child`.
pub fn parse_metadata(table: &SheetTable) -> (r: Result<SheetRoles, ToolError>)
    ensures
        match r {
            Ok(roles) => metadata_roles(table@.rows) == Some(roles@),
            Err(e) => metadata_roles(table@.rows) is None && e is InvalidWorkbook && e.detail()
                == metadata_fault(table@.rows),
        },
{
    let mut roles = SheetRoles { type_sheets: Vec::new(), child_sheets: Vec::new() };
    let ghost rows = table@.rows;
    assert(pairs_view(roles.type_sheets@) =~= seq![]);
    assert(pairs_view(roles.child_sheets@) =~= seq![]);
    let mut i: usize = 0;
    while i < table.rows.len()
        invariant
            i <= table.rows.len(),
            rows == rows_view(table.rows@),
            metadata_roles(rows.take(i as int)) == Some(roles@),
        decreases table.rows.len() - i,
    {
        proof {
            assert(rows.take(i + 1).drop_last() =~= rows.take(i as int));
            assert(rows.take(i + 1).last() == texts(table.rows@[i as int]@));
        }
        let row = &table.rows[i];
        let kind = string_at(row, 0);
        proof {
            reveal_strlit("type");
            reveal_strlit("child");
        }
        if kind.as_str().unicode_len() == 0 {
        } else if str_eq(kind.as_str(), "type") {
            set_pair(&mut roles.type_sheets, string_at(row, 1), string_at(row, 2));
        } else if str_eq(kind.as_str(), "child") {
            set_pair(&mut roles.child_sheets, string_at(row, 1), string_at(row, 3));
        } else {
            proof {
                lemma_metadata_fault(rows, i as int);
                assert(unknown_kind(rows.take(i + 1)) == kind@);
            }
            let head = join("unknown metadata kind '", kind.as_str());
            return Err(ToolError::InvalidWorkbook(join(head.as_str(), "'")));
        }
        i += 1;
    }
    proof {
        assert(rows.take(table.rows@.len() as int) =~= rows);
    }
    Ok(roles)
}

/// Once the rows up to some place give no roles, all rows give none.
pub proof fn lemma_metadata_fault(rows: Seq<Row>, upto: int)
    requires
        0 <= upto < rows.len(),
        metadata_roles(rows.take(upto + 1)) is None,
    ensures
        metadata_roles(rows) is None,
        unknown_kind(rows) == unknown_kind(rows.take(upto + 1)),
    decreases rows.len(),
{
    if upto + 1 < rows.len() {
        assert(rows.drop_last().take(upto + 1) =~= rows.take(upto + 1));
        lemma_metadata_fault(rows.drop_last(), upto);
    } else {
        assert(rows.take(upto + 1) =~= rows);
    }
}

/// The literal that a JSON value stands for, or the kind of failure: that
/// of `number_fault` where a number has no double, a JSON failure where an
/// array or object has no text.
pub open spec fn scalar_or(value: JsonView, number_fault: ErrorKind) -> Result<
    ScalarView,
    ErrorKind,
> {
    match json_scalar(value) {
        Some(scalar) => Ok(scalar),
        None => if value is Number {
            Err(number_fault)
        } else {
            Err(ErrorKind::Json)
        },
    }
}

/// The literals that JSON values stand for, or the first failure.
pub open spec fn scalars_or(items: Seq<JsonView>, number_fault: ErrorKind) -> Result<
    Seq<ScalarView>,
    ErrorKind,
> {
    try_fold(Seq::<ScalarView>::empty(), items, scalar_stepper(number_fault))
}

/// The step that takes in one more JSON value as a literal.
pub open spec fn scalar_stepper(number_fault: ErrorKind) -> spec_fn(
    Seq<ScalarView>,
    JsonView,
) -> Result<Seq<ScalarView>, ErrorKind> {
    |done: Seq<ScalarView>, item: JsonView|
        match scalar_or(item, number_fault) {
            Ok(scalar) => Ok(done.push(scalar)),
            Err(kind) => Err(kind),
        }
}

/// What the failure says of a number that has no double.
pub open spec fn number_fault() -> Seq<char> {
    "invalid number literal"@
}

/// The literal that a JSON value read from a cell stands for.
pub fn value_to_scalar(value: &JsonValue) -> (r: Result<ScalarValue, ToolError>)
    requires
        crate::json::json_wf(value@),
    ensures
        match r {
            Ok(scalar) => scalar_or(value@, ErrorKind::InvalidWorkbook) == Ok::<
                ScalarView,
                ErrorKind,
            >(scalar@),
            Err(e) => scalar_or(value@, ErrorKind::InvalidWorkbook) == Err::<
                ScalarView,
                ErrorKind,
            >(e.kind()) && (e is InvalidWorkbook ==> e.detail() == number_fault()),
        },
{
    match scalar_of_json(value) {
        Ok(scalar) => Ok(scalar),
        Err(ScalarFault::Number) => Err(
            ToolError::InvalidWorkbook(copy("invalid number literal")),
        ),
        Err(ScalarFault::Text(message)) => Err(ToolError::Json(message)),
    }
}

/// What a cell under the header `header` with the text `raw` says: under a
/// header that ends in `Id`, a reference under the predicate before the
/// `Id`; else the literal, or the list of literals, that `raw` is the JSON
/// text of, under the header as predicate.
pub open spec fn decoded(header: Seq<char>, raw: Seq<char>) -> Result<
    (Seq<char>, PropertyView),
    ErrorKind,
> {
    if "Id"@.is_suffix_of(header) {
        Ok((header.subrange(0, header.len() - "Id"@.len()), PropertyView::ObjectRef(raw)))
    } else {
        match json_of_text(raw) {
            None => Err(ErrorKind::Json),
            Some(JsonView::Array(items)) => match scalars_or(items, ErrorKind::InvalidWorkbook) {
                Ok(values) => Ok((header, PropertyView::Scalars(values))),
                Err(kind) => Err(kind),
            },
            Some(other) => match scalar_or(other, ErrorKind::InvalidWorkbook) {
                Ok(value) => Ok((header, PropertyView::Scalar(value))),
                Err(kind) => Err(kind),
            },
        }
    }
}

/// The literals that the items of a JSON array stand for.
fn values_to_scalars(items: &Vec<JsonValue>) -> (r: Result<Vec<ScalarValue>, ToolError>)
    requires
        crate::json::json_wf(JsonView::Array(items_view(items@))),
    ensures
        match r {
            Ok(values) => scalars_or(items_view(items@), ErrorKind::InvalidWorkbook) == Ok::<
                Seq<ScalarView>,
                ErrorKind,
            >(scalars(values@)),
            Err(e) => scalars_or(items_view(items@), ErrorKind::InvalidWorkbook) == Err::<
                Seq<ScalarView>,
                ErrorKind,
            >(e.kind()) && (e is InvalidWorkbook ==> e.detail() == number_fault()),
        },
{
    let ghost all = items_view(items@);
    let ghost step = scalar_stepper(ErrorKind::InvalidWorkbook);
    let mut values: Vec<ScalarValue> = Vec::new();
    proof {
        crate::json::lemma_wf_array(all);
        lemma_try_fold_all(Seq::<ScalarView>::empty(), all, step);
        assert(scalars(values@) =~= Seq::<ScalarView>::empty());
    }
    let mut i: usize = 0;
    while i < items.len()
        invariant
            i <= items.len(),
            all == items_view(items@),
            forall|k: int| 0 <= k < all.len() ==> crate::json::json_wf(#[trigger] all[k]),
            step == scalar_stepper(ErrorKind::InvalidWorkbook),
            try_fold(Seq::<ScalarView>::empty(), all.take(i as int), step) == Ok::<
                Seq<ScalarView>,
                ErrorKind,
            >(scalars(values@)),
        decreases items.len() - i,
    {
        proof {
            lemma_try_fold_next(Seq::<ScalarView>::empty(), all, step, i as int);
            assert(all[i as int] == items@[i as int]@);
            assert(crate::json::json_wf(all[i as int]));
        }
        let ghost before = scalars(values@);
        match value_to_scalar(&items[i]) {
            Ok(scalar) => {
                values.push(scalar);
                assert(scalars(values@) =~= before.push(scalar@));
            },
            Err(e) => {
                proof {
                    lemma_try_fold_fault(Seq::<ScalarView>::empty(), all, step, i + 1);
                }
                return Err(e);
            },
        }
        i += 1;
    }
    proof {
        lemma_try_fold_all(Seq::<ScalarView>::empty(), all, step);
    }
    Ok(values)
}

/// What a cell under the header `header` with the text `raw` says.
pub fn parse_property_entry(header: &str, raw: &str) -> (r: Result<
    (String, PropertyValue),
    ToolError,
>)
    ensures
        match r {
            Ok((predicate, value)) => decoded(header@, raw@) == Ok::<
                (Seq<char>, PropertyView),
                ErrorKind,
            >((predicate@, value@)),
            Err(e) => decoded(header@, raw@) == Err::<(Seq<char>, PropertyView), ErrorKind>(
                e.kind(),
            ) && (e is InvalidWorkbook ==> e.detail() == number_fault()),
        },
{
    match strip_suffix(header, "Id") {
        Some(predicate) => {
            return Ok((predicate, PropertyValue::ObjectRef(copy(raw))));
        },
        None => {},
    }
    let parsed = match JsonValue::parse(raw) {
        Ok(value) => value,
        Err(e) => {
            return Err(e);
        },
    };
    match parsed {
        JsonValue::Array(items) => match values_to_scalars(&items) {
            Ok(values) => Ok((copy(header), PropertyValue::Array(ArrayValue::Scalars(values)))),
            Err(e) => Err(e),
        },
        other => match value_to_scalar(&other) {
            Ok(value) => Ok((copy(header), PropertyValue::Scalar(value))),
            Err(e) => Err(e),
        },
    }
}

/// The key of a node of the default graph.
pub open spec fn plain_key(id: Seq<char>) -> crate::nodes::NodeKey {
    (None, id)
}

/// The nodes after the node `id` has been noted with the type `class`:
/// the node is there, and has the type unless that is empty or the marker
/// for nodes without types.
pub open spec fn note_type(nodes: Seq<NodeView>, id: Seq<char>, class: Seq<char>) -> Seq<
    NodeView,
> {
    let at = position(nodes, plain_key(id));
    let there = ensured(nodes, plain_key(id));
    if class.len() > 0 && class != UNTYPED_MARKER@ {
        there.update(at, with_type(there[at], class))
    } else {
        there
    }
}

/// Notes the node `id` with the type `class`, and gives its place.
fn note(nodes: &mut NodeSet, id: &str, class: &str) -> (at: usize)
    ensures
        final(nodes)@ == note_type(old(nodes)@, id@, class@),
        at == position(old(nodes)@, plain_key(id@)),
        at < final(nodes)@.len(),
{
    let at = nodes.ensure_node(None, id);
    if class.unicode_len() > 0 && !str_eq(class, UNTYPED_MARKER) {
        nodes.add_type(at, copy(class));
    }
    at
}

/// The nodes after one more row of the table of memberships. A row
/// without an identifier says nothing.
pub open spec fn entity_step(nodes: Seq<NodeView>, row: Row) -> Result<Seq<NodeView>, ErrorKind> {
    if cell(row, 0).len() == 0 {
        Ok(nodes)
    } else {
        Ok(note_type(nodes, cell(row, 0), cell(row, 1)))
    }
}

/// The nodes that the rows of the table of memberships give.
pub open spec fn entity_nodes(rows: Seq<Row>) -> Result<Seq<NodeView>, ErrorKind> {
    try_fold(Seq::<NodeView>::empty(), rows, entity_stepper())
}

/// The step that takes in one more row of the table of memberships.
pub open spec fn entity_stepper() -> spec_fn(Seq<NodeView>, Row) -> Result<
    Seq<NodeView>,
    ErrorKind,
> {
    |nodes: Seq<NodeView>, row: Row| entity_step(nodes, row)
}

/// Reads the table of memberships.
pub fn initialize_nodes(table: &SheetTable) -> (nodes: NodeSet)
    ensures
        entity_nodes(table@.rows) == Ok::<Seq<NodeView>, ErrorKind>(nodes@),
{
    let mut nodes = NodeSet::new();
    let ghost rows = table@.rows;
    let ghost step = entity_stepper();
    proof {
        lemma_try_fold_all(Seq::<NodeView>::empty(), rows, step);
    }
    let mut i: usize = 0;
    while i < table.rows.len()
        invariant
            i <= table.rows.len(),
            rows == rows_view(table.rows@),
            step == entity_stepper(),
            try_fold(Seq::<NodeView>::empty(), rows.take(i as int), step) == Ok::<
                Seq<NodeView>,
                ErrorKind,
            >(nodes@),
        decreases table.rows.len() - i,
    {
        proof {
            lemma_try_fold_next(Seq::<NodeView>::empty(), rows, step, i as int);
            assert(rows[i as int] == texts(table.rows@[i as int]@));
        }
        let row = &table.rows[i];
        let id = string_at(row, 0);
        if id.as_str().unicode_len() > 0 {
            let class = string_at(row, 1);
            note(&mut nodes, id.as_str(), class.as_str());
        }
        i += 1;
    }
    proof {
        lemma_try_fold_all(Seq::<NodeView>::empty(), rows, step);
    }
    nodes
}

/// The nodes after one more cell of a row of a type table has been read
/// into the node at the place `at`. A cell without a header, and a cell
/// that holds nothing but white space, says nothing.
pub open spec fn cell_step(
    nodes: Seq<NodeView>,
    at: int,
    header: Seq<char>,
    raw: Seq<char>,
) -> Result<Seq<NodeView>, ErrorKind> {
    if header.len() == 0 || trimmed(raw).len() == 0 {
        Ok(nodes)
    } else {
        match decoded(header, raw) {
            Ok((predicate, value)) => Ok(
                nodes.update(at, with_property(nodes[at], predicate, value)),
            ),
            Err(kind) => Err(kind),
        }
    }
}

/// The cells of a row behind its identifier, each with its header.
pub open spec fn headed_cells(headers: Seq<Seq<char>>, row: Row) -> Seq<(Seq<char>, Seq<char>)> {
    Seq::new(
        if row.len() > 0 {
            (row.len() - 1) as nat
        } else {
            0
        },
        |i: int| (cell(headers, i + 1), cell(row, i + 1)),
    )
}

/// The nodes after the node at the place `at` has been given the type
/// `class` as its first type. Nothing changes where the node has a type
/// already: the table of memberships alone gives a node further types.
/// Nor does anything change where the type is empty or the marker for
/// nodes without types.
pub open spec fn first_type(nodes: Seq<NodeView>, at: int, class: Seq<char>) -> Seq<NodeView> {
    if class.len() > 0 && class != UNTYPED_MARKER@ && nodes[at].types.len() == 0 {
        nodes.update(at, with_type(nodes[at], class))
    } else {
        nodes
    }
}

/// The nodes after one more row of the table of the type `class`: the
/// node that the row names has what the cells of the row hold, and the
/// type where it had none. A row without an identifier says nothing, and
/// so does a row that names a node that is not there: a type table adds
/// no node.
pub open spec fn type_row_step(
    nodes: Seq<NodeView>,
    class: Seq<char>,
    headers: Seq<Seq<char>>,
    row: Row,
) -> Result<Seq<NodeView>, ErrorKind> {
    let id = cell(row, 0);
    if id.len() == 0 || !has_key(nodes, plain_key(id)) {
        Ok(nodes)
    } else {
        let at = position(nodes, plain_key(id));
        try_fold(first_type(nodes, at, class), headed_cells(headers, row), cell_stepper(at))
    }
}

/// The step that takes in one more cell for the node at the place `at`.
pub open spec fn cell_stepper(at: int) -> spec_fn(
    Seq<NodeView>,
    (Seq<char>, Seq<char>),
) -> Result<Seq<NodeView>, ErrorKind> {
    |nodes: Seq<NodeView>, entry: (Seq<char>, Seq<char>)| cell_step(nodes, at, entry.0, entry.1)
}

/// The step that takes in one more row of the table of the type `class`.
pub open spec fn type_row_stepper(class: Seq<char>, headers: Seq<Seq<char>>) -> spec_fn(
    Seq<NodeView>,
    Row,
) -> Result<Seq<NodeView>, ErrorKind> {
    |nodes: Seq<NodeView>, row: Row| type_row_step(nodes, class, headers, row)
}

/// The nodes after the table of the type `class` has been read. A table
/// without a header row says nothing.
pub open spec fn type_sheet_nodes(nodes: Seq<NodeView>, class: Seq<char>, table: SheetView) -> Result<
    Seq<NodeView>,
    ErrorKind,
> {
    if table.columns.len() == 0 {
        Ok(nodes)
    } else {
        try_fold(nodes, table.rows, type_row_stepper(class, table.columns))
    }
}

/// Reads one row of the table of the type `class`.
fn ingest_type_row(headers: &Vec<String>, row: &Vec<String>, class: &str, nodes: &mut NodeSet) -> (r:
    Result<(), ToolError>)
    ensures
        match r {
            Ok(()) => type_row_step(old(nodes)@, class@, texts(headers@), texts(row@)) == Ok::<
                Seq<NodeView>,
                ErrorKind,
            >(final(nodes)@),
            Err(e) => type_row_step(old(nodes)@, class@, texts(headers@), texts(row@)) == Err::<
                Seq<NodeView>,
                ErrorKind,
            >(e.kind()) && (e is InvalidWorkbook ==> e.detail() == number_fault()),
        },
{
    let id = string_at(row, 0);
    if id.as_str().unicode_len() == 0 {
        return Ok(());
    }
    let at = match nodes.find(&None, id.as_str()) {
        Some(at) => at,
        None => {
            return Ok(());
        },
    };
    if class.unicode_len() > 0 && !str_eq(class, UNTYPED_MARKER) && nodes.node(at).types().len()
        == 0 {
        nodes.add_type(at, copy(class));
    }
    let ghost start = nodes@;
    let ghost cells = headed_cells(texts(headers@), texts(row@));
    let ghost step = cell_stepper(at as int);
    proof {
        lemma_try_fold_all(start, cells, step);
    }
    let mut column: usize = 1;
    while column < row.len()
        invariant
            1 <= column,
            row.len() > 0 ==> column <= row.len(),
            cells == headed_cells(texts(headers@), texts(row@)),
            step == cell_stepper(at as int),
            at < nodes@.len(),
            try_fold(start, cells, step) == type_row_step(
                old(nodes)@,
                class@,
                texts(headers@),
                texts(row@),
            ),
            try_fold(start, cells.take(column - 1), step) == Ok::<Seq<NodeView>, ErrorKind>(
                nodes@,
            ),
        decreases row.len() - column,
    {
        proof {
            lemma_try_fold_next(start, cells, step, column - 1);
            assert(cells[column - 1] == (
                cell(texts(headers@), column as int),
                cell(texts(row@), column as int),
            ));
        }
        let header = string_at(headers, column);
        let raw = &row[column];
        if header.as_str().unicode_len() > 0 && !is_blank(raw.as_str()) {
            match parse_property_entry(header.as_str(), raw.as_str()) {
                Ok((predicate, value)) => {
                    nodes.insert_property(at, predicate, value);
                },
                Err(e) => {
                    proof {
                        lemma_try_fold_fault(start, cells, step, column as int);
                    }
                    return Err(e);
                },
            }
        }
        column += 1;
    }
    proof {
        if row.len() > 0 {
            lemma_try_fold_all(start, cells, step);
        }
    }
    Ok(())
}

/// Reads the table of the type `class` into `nodes`.
pub fn ingest_type_sheet(table: &SheetTable, class: &str, nodes: &mut NodeSet) -> (r: Result<
    (),
    ToolError,
>)
    ensures
        match r {
            Ok(()) => type_sheet_nodes(old(nodes)@, class@, table@) == Ok::<
                Seq<NodeView>,
                ErrorKind,
            >(final(nodes)@),
            Err(e) => type_sheet_nodes(old(nodes)@, class@, table@) == Err::<
                Seq<NodeView>,
                ErrorKind,
            >(e.kind()) && (e is InvalidWorkbook ==> e.detail() == number_fault()),
        },
{
    if table.columns.len() == 0 {
        assert(table@.columns.len() == 0);
        return Ok(());
    }
    assert(table@.columns.len() == table.columns@.len());
    let ghost start = nodes@;
    let ghost rows = table@.rows;
    let ghost headers = table@.columns;
    let ghost step = type_row_stepper(class@, headers);
    proof {
        lemma_try_fold_all(start, rows, step);
    }
    let mut i: usize = 0;
    while i < table.rows.len()
        invariant
            i <= table.rows.len(),
            rows == rows_view(table.rows@),
            headers == texts(table.columns@),
            step == type_row_stepper(class@, headers),
            try_fold(start, rows, step) == type_sheet_nodes(old(nodes)@, class@, table@),
            try_fold(start, rows.take(i as int), step) == Ok::<Seq<NodeView>, ErrorKind>(nodes@),
        decreases table.rows.len() - i,
    {
        proof {
            lemma_try_fold_next(start, rows, step, i as int);
            assert(rows[i as int] == texts(table.rows@[i as int]@));
        }
        match ingest_type_row(&table.columns, &table.rows[i], class, nodes) {
            Ok(()) => {},
            Err(e) => {
                proof {
                    lemma_try_fold_fault(start, rows, step, i + 1);
                }
                return Err(e);
            },
        }
        i += 1;
    }
    proof {
        lemma_try_fold_all(start, rows, step);
    }
    Ok(())
}

/// The nodes after one more row of the child table of `predicate`: the
/// target is put behind the references that the parent holds under the
/// predicate. A row without parent or target says nothing, and so does a
/// row whose parent is not there: a child table adds no node. A parent
/// that holds something else under the predicate is a fault.
pub open spec fn edge_step(nodes: Seq<NodeView>, predicate: Seq<char>, row: Row) -> Result<
    Seq<NodeView>,
    ErrorKind,
> {
    let parent = cell(row, 0);
    let target = cell(row, 1);
    if parent.len() == 0 || target.len() == 0 || !has_key(nodes, plain_key(parent)) {
        Ok(nodes)
    } else {
        let at = position(nodes, plain_key(parent));
        match lookup(nodes[at].properties, predicate) {
            Some(PropertyView::ObjectRefs(targets)) => Ok(
                nodes.update(
                    at,
                    with_property(
                        nodes[at],
                        predicate,
                        PropertyView::ObjectRefs(targets.push(target)),
                    ),
                ),
            ),
            Some(_) => Err(ErrorKind::InvalidWorkbook),
            None => Ok(
                nodes.update(
                    at,
                    with_property(nodes[at], predicate, PropertyView::ObjectRefs(seq![target])),
                ),
            ),
        }
    }
}

/// The nodes after the child table of `predicate` has been read.
pub open spec fn child_sheet_nodes(
    nodes: Seq<NodeView>,
    predicate: Seq<char>,
    table: SheetView,
) -> Result<Seq<NodeView>, ErrorKind> {
    try_fold(nodes, table.rows, edge_stepper(predicate))
}

/// What the failure of a child table says: the predicate under which a
/// parent holds something other than a list of references.
pub open spec fn edge_fault(predicate: Seq<char>) -> Seq<char> {
    "predicate '"@ + predicate + "' is not an object reference array"@
}

/// The step that takes in one more row of the child table of `predicate`.
pub open spec fn edge_stepper(predicate: Seq<char>) -> spec_fn(Seq<NodeView>, Row) -> Result<
    Seq<NodeView>,
    ErrorKind,
> {
    |nodes: Seq<NodeView>, row: Row| edge_step(nodes, predicate, row)
}

/// Reads one row of the child table of `predicate`.
fn ingest_edge(row: &Vec<String>, predicate: &str, nodes: &mut NodeSet) -> (r: Result<
    (),
    ToolError,
>)
    ensures
        match r {
            Ok(()) => edge_step(old(nodes)@, predicate@, texts(row@)) == Ok::<
                Seq<NodeView>,
                ErrorKind,
            >(final(nodes)@),
            Err(e) => edge_step(old(nodes)@, predicate@, texts(row@)) == Err::<
                Seq<NodeView>,
                ErrorKind,
            >(e.kind()) && e.detail() == edge_fault(predicate@),
        },
{
    let parent = string_at(row, 0);
    let target = string_at(row, 1);
    if parent.as_str().unicode_len() == 0 || target.as_str().unicode_len() == 0 {
        return Ok(());
    }
    let at = match nodes.find(&None, parent.as_str()) {
        Some(at) => at,
        None => {
            return Ok(());
        },
    };
    let held: Option<Vec<String>> = match nodes.node(at).get(predicate) {
        Some(PropertyValue::Array(ArrayValue::ObjectRefs(targets))) => Some(clone_strings(targets)),
        Some(_) => {
            let head = join("predicate '", predicate);
            return Err(
                ToolError::InvalidWorkbook(
                    join(head.as_str(), "' is not an object reference array"),
                ),
            );
        },
        None => None,
    };
    let mut targets: Vec<String> = match held {
        Some(targets) => targets,
        None => Vec::new(),
    };
    let ghost before = texts(targets@);
    targets.push(target);
    proof {
        assert(texts(targets@) =~= before.push(target@));
        if held is None {
            assert(before =~= Seq::<Seq<char>>::empty());
            assert(texts(targets@) =~= seq![target@]);
        }
    }
    nodes.insert_property(at, copy(predicate), PropertyValue::Array(ArrayValue::ObjectRefs(targets)));
    Ok(())
}

/// Reads the child table of `predicate` into `nodes`.
pub fn ingest_child_sheet(table: &SheetTable, predicate: &str, nodes: &mut NodeSet) -> (r: Result<
    (),
    ToolError,
>)
    ensures
        match r {
            Ok(()) => child_sheet_nodes(old(nodes)@, predicate@, table@) == Ok::<
                Seq<NodeView>,
                ErrorKind,
            >(final(nodes)@),
            Err(e) => child_sheet_nodes(old(nodes)@, predicate@, table@) == Err::<
                Seq<NodeView>,
                ErrorKind,
            >(e.kind()) && e.detail() == edge_fault(predicate@),
        },
{
    let ghost start = nodes@;
    let ghost rows = table@.rows;
    let ghost step = edge_stepper(predicate@);
    proof {
        lemma_try_fold_all(start, rows, step);
    }
    let mut i: usize = 0;
    while i < table.rows.len()
        invariant
            i <= table.rows.len(),
            rows == rows_view(table.rows@),
            step == edge_stepper(predicate@),
            try_fold(start, rows, step) == child_sheet_nodes(old(nodes)@, predicate@, table@),
            try_fold(start, rows.take(i as int), step) == Ok::<Seq<NodeView>, ErrorKind>(nodes@),
        decreases table.rows.len() - i,
    {
        proof {
            lemma_try_fold_next(start, rows, step, i as int);
            assert(rows[i as int] == texts(table.rows@[i as int]@));
        }
        match ingest_edge(&table.rows[i], predicate, nodes) {
            Ok(()) => {},
            Err(e) => {
                proof {
                    lemma_try_fold_fault(start, rows, step, i + 1);
                }
                return Err(e);
            },
        }
        i += 1;
    }
    proof {
        lemma_try_fold_all(start, rows, step);
    }
    Ok(())
}

/// The nodes after the type sheet `role.0` of the type `role.1` has been
/// read; a workbook without that sheet is invalid.
pub open spec fn type_role_step(
    tables: Seq<SheetView>,
    nodes: Seq<NodeView>,
    role: (Seq<char>, Seq<char>),
) -> Result<Seq<NodeView>, ErrorKind> {
    match sheet(tables, role.0) {
        Some(table) => type_sheet_nodes(nodes, role.1, table),
        None => Err(ErrorKind::InvalidWorkbook),
    }
}

/// The nodes after the child sheet `role.0` of the predicate `role.1` has
/// been read; a workbook without that sheet is invalid.
pub open spec fn child_role_step(
    tables: Seq<SheetView>,
    nodes: Seq<NodeView>,
    role: (Seq<char>, Seq<char>),
) -> Result<Seq<NodeView>, ErrorKind> {
    match sheet(tables, role.0) {
        Some(table) => child_sheet_nodes(nodes, role.1, table),
        None => Err(ErrorKind::InvalidWorkbook),
    }
}

/// The step that takes in one more type sheet.
pub open spec fn type_role_stepper(tables: Seq<SheetView>) -> spec_fn(
    Seq<NodeView>,
    (Seq<char>, Seq<char>),
) -> Result<Seq<NodeView>, ErrorKind> {
    |nodes: Seq<NodeView>, role: (Seq<char>, Seq<char>)| type_role_step(tables, nodes, role)
}

/// The step that takes in one more child sheet.
pub open spec fn child_role_stepper(tables: Seq<SheetView>) -> spec_fn(
    Seq<NodeView>,
    (Seq<char>, Seq<char>),
) -> Result<Seq<NodeView>, ErrorKind> {
    |nodes: Seq<NodeView>, role: (Seq<char>, Seq<char>)| child_role_step(tables, nodes, role)
}

/// What the failure says of a type sheet that cannot be read: that it is
/// missing, or that a cell holds a number that has no double.
pub open spec fn type_role_fault(tables: Seq<SheetView>, role: (Seq<char>, Seq<char>)) -> Seq<
    char,
> {
    match sheet(tables, role.0) {
        Some(_) => number_fault(),
        None => missing_sheet(role.0),
    }
}

/// What the failure says of a child sheet that cannot be read: that it is
/// missing, or that a parent holds something other than a list of
/// references under its predicate.
pub open spec fn child_role_fault(tables: Seq<SheetView>, role: (Seq<char>, Seq<char>)) -> Seq<
    char,
> {
    match sheet(tables, role.0) {
        Some(_) => edge_fault(role.1),
        None => missing_sheet(role.0),
    }
}

/// What the failure says of a workbook that is invalid: which sheet is
/// missing, which kind the metadata table does not know, or what is wrong
/// in the first sheet that cannot be read.
pub open spec fn workbook_fault(tables: Seq<SheetView>) -> Seq<char> {
    match (sheet(tables, METADATA_SHEET@), sheet(tables, ENTITIES_SHEET@)) {
        (None, _) => missing_sheet(METADATA_SHEET@),
        (Some(_), None) => missing_sheet(ENTITIES_SHEET@),
        (Some(metadata), Some(entities)) => match metadata_roles(metadata.rows) {
            None => metadata_fault(metadata.rows),
            Some(roles) => {
                let listed = entity_nodes(entities.rows)->Ok_0;
                match try_fold(listed, roles.type_sheets, type_role_stepper(tables)) {
                    Err(_) => type_role_fault(
                        tables,
                        roles.type_sheets[fault_at(
                            listed,
                            roles.type_sheets,
                            type_role_stepper(tables),
                        )],
                    ),
                    Ok(typed) => child_role_fault(
                        tables,
                        roles.child_sheets[fault_at(
                            typed,
                            roles.child_sheets,
                            child_role_stepper(tables),
                        )],
                    ),
                }
            },
        },
    }
}

/// The nodes that a workbook holds: those of the table of memberships,
/// with what the type sheets and then the child sheets say of them, in the
/// order in which the metadata table names the sheets.
pub open spec fn unflattened(tables: Seq<SheetView>) -> Result<Seq<NodeView>, ErrorKind> {
    match (sheet(tables, METADATA_SHEET@), sheet(tables, ENTITIES_SHEET@)) {
        (Some(metadata), Some(entities)) => match metadata_roles(metadata.rows) {
            Some(roles) => match entity_nodes(entities.rows) {
                Ok(listed) => match try_fold(
                    listed,
                    roles.type_sheets,
                    type_role_stepper(tables),
                ) {
                    Ok(typed) => try_fold(typed, roles.child_sheets, child_role_stepper(tables)),
                    Err(kind) => Err(kind),
                },
                Err(kind) => Err(kind),
            },
            None => Err(ErrorKind::InvalidWorkbook),
        },
        _ => Err(ErrorKind::InvalidWorkbook),
    }
}

/// Reads the nodes of a workbook; they come in rising order of graph and
/// identifier, and the table of memberships names each of them and gives
/// it its types beyond a first. Of an invalid workbook the failure says
/// what is wrong with it.
pub fn read_nodes(workbook: &WorkbookData) -> (r: Result<Vec<Node>, ToolError>)
    ensures
        match r {
            Ok(nodes) => {
                &&& unflattened(workbook@) == Ok::<Seq<NodeView>, ErrorKind>(nodes_view(nodes@))
                &&& sorted_nodes(nodes_view(nodes@))
                &&& forall|i: int|
                    0 <= i < nodes@.len() ==> named_in(
                        sheet(workbook@, ENTITIES_SHEET@)->Some_0.rows,
                        #[trigger] nodes_view(nodes@)[i],
                    ) && types_from(
                        entity_nodes(sheet(workbook@, ENTITIES_SHEET@)->Some_0.rows)->Ok_0[i],
                        nodes_view(nodes@)[i],
                    )
            },
            Err(e) => unflattened(workbook@) == Err::<Seq<NodeView>, ErrorKind>(e.kind()) && (e
                is InvalidWorkbook ==> e.detail() == workbook_fault(workbook@)),
        },
{
    let metadata = match read_required_sheet(workbook, METADATA_SHEET) {
        Ok(table) => table,
        Err(e) => {
            return Err(e);
        },
    };
    let entities = match read_required_sheet(workbook, ENTITIES_SHEET) {
        Ok(table) => table,
        Err(e) => {
            return Err(e);
        },
    };
    let roles = match parse_metadata(metadata) {
        Ok(roles) => roles,
        Err(e) => {
            return Err(e);
        },
    };
    let mut nodes = initialize_nodes(entities);
    let ghost tables = workbook@;
    let ghost listed = nodes@;
    let ghost type_roles = roles@.type_sheets;
    let ghost type_step = type_role_stepper(tables);
    let ghost wanted = unflattened(tables);
    proof {
        lemma_try_fold_all(listed, type_roles, type_step);
    }
    let mut i: usize = 0;
    while i < roles.type_sheets.len()
        invariant
            i <= roles.type_sheets.len(),
            tables == workbook@,
            type_roles == pairs_view(roles.type_sheets@),
            type_step == type_role_stepper(tables),
            wanted == unflattened(tables),
            wanted == (match try_fold(listed, type_roles, type_step) {
                Ok(typed) => try_fold(typed, roles@.child_sheets, child_role_stepper(tables)),
                Err(kind) => Err(kind),
            }),
            try_fold(listed, type_roles, type_step) is Err ==> workbook_fault(tables)
                == type_role_fault(tables, type_roles[fault_at(listed, type_roles, type_step)]),
            try_fold(listed, type_roles.take(i as int), type_step) == Ok::<
                Seq<NodeView>,
                ErrorKind,
            >(nodes@),
        decreases roles.type_sheets.len() - i,
    {
        proof {
            lemma_try_fold_next(listed, type_roles, type_step, i as int);
            assert(type_roles[i as int] == (
                roles.type_sheets@[i as int].0@,
                roles.type_sheets@[i as int].1@,
            ));
        }
        let done = match read_required_sheet(workbook, roles.type_sheets[i].0.as_str()) {
            Ok(table) => ingest_type_sheet(table, roles.type_sheets[i].1.as_str(), &mut nodes),
            Err(e) => Err(e),
        };
        match done {
            Ok(()) => {},
            Err(e) => {
                proof {
                    lemma_try_fold_fault(listed, type_roles, type_step, i + 1);
                    lemma_fault_at(listed, type_roles, type_step, i as int);
                }
                return Err(e);
            },
        }
        i += 1;
    }
    proof {
        lemma_try_fold_all(listed, type_roles, type_step);
    }
    let ghost typed = nodes@;
    let ghost child_roles = roles@.child_sheets;
    let ghost child_step = child_role_stepper(tables);
    proof {
        lemma_try_fold_all(typed, child_roles, child_step);
    }
    let mut j: usize = 0;
    while j < roles.child_sheets.len()
        invariant
            j <= roles.child_sheets.len(),
            tables == workbook@,
            child_roles == pairs_view(roles.child_sheets@),
            child_step == child_role_stepper(tables),
            wanted == unflattened(tables),
            wanted == try_fold(typed, child_roles, child_step),
            try_fold(typed, child_roles, child_step) is Err ==> workbook_fault(tables)
                == child_role_fault(tables, child_roles[fault_at(typed, child_roles, child_step)]),
            try_fold(typed, child_roles.take(j as int), child_step) == Ok::<
                Seq<NodeView>,
                ErrorKind,
            >(nodes@),
        decreases roles.child_sheets.len() - j,
    {
        proof {
            lemma_try_fold_next(typed, child_roles, child_step, j as int);
            assert(child_roles[j as int] == (
                roles.child_sheets@[j as int].0@,
                roles.child_sheets@[j as int].1@,
            ));
        }
        let done = match read_required_sheet(workbook, roles.child_sheets[j].0.as_str()) {
            Ok(table) => ingest_child_sheet(table, roles.child_sheets[j].1.as_str(), &mut nodes),
            Err(e) => Err(e),
        };
        match done {
            Ok(()) => {},
            Err(e) => {
                proof {
                    lemma_try_fold_fault(typed, child_roles, child_step, j + 1);
                    lemma_fault_at(typed, child_roles, child_step, j as int);
                }
                return Err(e);
            },
        }
        j += 1;
    }
    proof {
        lemma_try_fold_all(typed, child_roles, child_step);
        entities_name_every_node(tables);
    }
    Ok(nodes.into_nodes())
}

/// Whether the table of memberships names `node`: the node belongs to the
/// default graph, and a row begins with its identifier.
pub open spec fn named_in(rows: Seq<Row>, node: NodeView) -> bool {
    node.graph is None && exists|r: int|
        0 <= r < rows.len() && #[trigger] cell(rows[r], 0) == node.id
}

/// Whether nodes stand in rising order and the rows name each of them.
pub open spec fn all_named(rows: Seq<Row>) -> spec_fn(Seq<NodeView>) -> bool {
    |nodes: Seq<NodeView>|
        sorted_nodes(nodes) && forall|i: int|
            0 <= i < nodes.len() ==> named_in(rows, #[trigger] nodes[i])
}

/// Whether `node` has the types of `listed`, or the one type that a type
/// table gave it where `listed` has none.
pub open spec fn types_from(listed: NodeView, node: NodeView) -> bool {
    node.types == listed.types || (listed.types.len() == 0 && node.types.len() == 1)
}

/// Whether nodes have the keys and the types of `listed`.
pub open spec fn same_frame(listed: Seq<NodeView>) -> spec_fn(Seq<NodeView>) -> bool {
    |nodes: Seq<NodeView>|
        keys_of(nodes) == keys_of(listed) && forall|i: int|
            0 <= i < listed.len() ==> (#[trigger] nodes[i]).types == listed[i].types
}

/// Whether nodes have the keys of `listed`, and each the types of the
/// node of `listed` at its place, or one type where that node has none.
pub open spec fn typed_from(listed: Seq<NodeView>) -> spec_fn(Seq<NodeView>) -> bool {
    |nodes: Seq<NodeView>|
        keys_of(nodes) == keys_of(listed) && forall|i: int|
            0 <= i < listed.len() ==> types_from(listed[i], #[trigger] nodes[i])
}

/// The nodes of a table of memberships stand in rising order, and a row of
/// the table names each of them.
pub proof fn lemma_entities_named(rows: Seq<Row>)
    ensures
        entity_nodes(rows) matches Ok(nodes) ==> all_named(rows)(nodes),
{
    let kept = all_named(rows);
    let step = entity_stepper();
    let empty = Seq::<NodeView>::empty();
    assert(keys_of(empty) =~= Seq::<NodeKey>::empty());
    assert(kept(empty));
    assert forall|s: Seq<NodeView>, i: int|
        0 <= i < rows.len() && kept(s) && (#[trigger] step(s, rows[i])) is Ok implies kept(
        step(s, rows[i])->Ok_0,
    ) by {
        let id = cell(rows[i], 0);
        let class = cell(rows[i], 1);
        if id.len() > 0 {
            let key = plain_key(id);
            let at = position(s, key);
            let there = ensured(s, key);
            lemma_ensured(s, key);
            assert forall|k: int| 0 <= k < there.len() implies named_in(
                rows,
                #[trigger] there[k],
            ) by {
                if !has_key(s, key) {
                    lemma_lower(keys_of(s), key, key_lt());
                    s.insert_ensures(at, fresh(key));
                    if k < at {
                        assert(there[k] == s[k]);
                    } else if k == at {
                        assert(cell(rows[i], 0) == there[k].id);
                    } else {
                        assert(there[k] == s[k - 1]);
                    }
                }
            }
            if class.len() > 0 && class != UNTYPED_MARKER@ {
                let next = there.update(at, with_type(there[at], class));
                lemma_update_sorted(there, at, with_type(there[at], class));
                assert forall|k: int| 0 <= k < next.len() implies named_in(
                    rows,
                    #[trigger] next[k],
                ) by {
                    if k == at {
                        assert(named_in(rows, there[at]));
                    } else {
                        assert(next[k] == there[k]);
                    }
                }
            }
        }
    }
    lemma_try_fold_keeps(empty, rows, step, kept);
}

/// Reading the cells of a row into a node keeps the keys and the types of
/// the nodes.
pub proof fn lemma_cells_keep(nodes: Seq<NodeView>, at: int, cells: Seq<(Seq<char>, Seq<char>)>)
    requires
        0 <= at < nodes.len(),
    ensures
        try_fold(nodes, cells, cell_stepper(at)) matches Ok(next) ==> same_frame(nodes)(next),
{
    let kept = same_frame(nodes);
    let step = cell_stepper(at);
    assert(keys_of(nodes).len() == nodes.len());
    assert forall|s: Seq<NodeView>, i: int|
        0 <= i < cells.len() && kept(s) && (#[trigger] step(s, cells[i])) is Ok implies kept(
        step(s, cells[i])->Ok_0,
    ) by {
        assert(keys_of(s).len() == s.len());
        let next = step(s, cells[i])->Ok_0;
        assert(keys_of(next) =~= keys_of(s));
        assert forall|k: int| 0 <= k < nodes.len() implies (#[trigger] next[k]).types
            == nodes[k].types by {
            assert(s[k].types == nodes[k].types);
        }
    }
    lemma_try_fold_keeps(nodes, cells, step, kept);
}

/// A row of a type table keeps the keys of the nodes, and their types but
/// for a first type of a node that had none.
pub proof fn lemma_type_row_keeps(
    nodes: Seq<NodeView>,
    class: Seq<char>,
    headers: Seq<Seq<char>>,
    row: Row,
)
    ensures
        type_row_step(nodes, class, headers, row) matches Ok(next) ==> typed_from(nodes)(next),
{
    let id = cell(row, 0);
    assert(keys_of(nodes).len() == nodes.len());
    if id.len() > 0 && has_key(nodes, plain_key(id)) {
        let at = position(nodes, plain_key(id));
        lemma_lower(keys_of(nodes), plain_key(id), key_lt());
        let noted = first_type(nodes, at, class);
        assert(keys_of(noted) =~= keys_of(nodes));
        lemma_cells_keep(noted, at, headed_cells(headers, row));
        if type_row_step(nodes, class, headers, row) is Ok {
            let next = type_row_step(nodes, class, headers, row)->Ok_0;
            assert forall|k: int| 0 <= k < nodes.len() implies types_from(
                nodes[k],
                #[trigger] next[k],
            ) by {
                assert(next[k].types == noted[k].types);
                if k == at && noted != nodes {
                    assert(noted[at].types =~= seq![class]) by {
                        assert(nodes[at].types =~= Seq::<Seq<char>>::empty());
                        crate::text::lemma_rank(nodes[at].types, class);
                    }
                }
            }
        }
    } else {
        assert forall|k: int| 0 <= k < nodes.len() implies types_from(
            nodes[k],
            #[trigger] nodes[k],
        ) by {}
    }
}

/// A type table keeps the keys of the nodes, and their types but for a
/// first type of a node that had none.
pub proof fn lemma_type_sheet_keeps(nodes: Seq<NodeView>, class: Seq<char>, table: SheetView)
    ensures
        type_sheet_nodes(nodes, class, table) matches Ok(next) ==> typed_from(nodes)(next),
{
    let kept = typed_from(nodes);
    let step = type_row_stepper(class, table.columns);
    assert(keys_of(nodes).len() == nodes.len());
    assert(kept(nodes)) by {
        assert forall|k: int| 0 <= k < nodes.len() implies types_from(
            nodes[k],
            #[trigger] nodes[k],
        ) by {}
    }
    assert forall|s: Seq<NodeView>, i: int|
        0 <= i < table.rows.len() && kept(s) && (#[trigger] step(s, table.rows[i])) is Ok implies kept(
        step(s, table.rows[i])->Ok_0,
    ) by {
        lemma_type_row_keeps(s, class, table.columns, table.rows[i]);
        let next = step(s, table.rows[i])->Ok_0;
        assert(keys_of(s).len() == s.len());
        assert forall|k: int| 0 <= k < nodes.len() implies types_from(
            nodes[k],
            #[trigger] next[k],
        ) by {
            assert(types_from(nodes[k], s[k]));
            assert(types_from(s[k], next[k]));
        }
    }
    lemma_try_fold_keeps(nodes, table.rows, step, kept);
}

/// A row of a child table keeps the keys and the types of the nodes.
pub proof fn lemma_edge_keeps(nodes: Seq<NodeView>, predicate: Seq<char>, row: Row)
    ensures
        edge_step(nodes, predicate, row) matches Ok(next) ==> same_frame(nodes)(next),
{
    let parent = cell(row, 0);
    assert(keys_of(nodes).len() == nodes.len());
    if has_key(nodes, plain_key(parent)) && edge_step(nodes, predicate, row) is Ok {
        lemma_lower(keys_of(nodes), plain_key(parent), key_lt());
        assert(keys_of(edge_step(nodes, predicate, row)->Ok_0) =~= keys_of(nodes));
    }
}

/// A child table keeps the keys and the types of the nodes.
pub proof fn lemma_child_sheet_keeps(nodes: Seq<NodeView>, predicate: Seq<char>, table: SheetView)
    ensures
        child_sheet_nodes(nodes, predicate, table) matches Ok(next) ==> same_frame(nodes)(next),
{
    let kept = same_frame(nodes);
    let step = edge_stepper(predicate);
    assert(keys_of(nodes).len() == nodes.len());
    assert forall|s: Seq<NodeView>, i: int|
        0 <= i < table.rows.len() && kept(s) && (#[trigger] step(s, table.rows[i])) is Ok implies kept(
        step(s, table.rows[i])->Ok_0,
    ) by {
        lemma_edge_keeps(s, predicate, table.rows[i]);
        let next = step(s, table.rows[i])->Ok_0;
        assert(keys_of(s).len() == s.len());
        assert forall|k: int| 0 <= k < nodes.len() implies (#[trigger] next[k]).types
            == nodes[k].types by {
            assert(s[k].types == nodes[k].types);
            assert(next[k].types == s[k].types);
        }
    }
    lemma_try_fold_keeps(nodes, table.rows, step, kept);
}

/// The table of memberships alone says which nodes a workbook holds and
/// which types they have beyond a first: the nodes that are read have the
/// keys of the nodes that the table of memberships gives, each belongs to
/// the default graph, a row of that table begins with its identifier, and
/// it has the types that the table gives it, or one type where the table
/// gives it none. The type tables and the child tables add no node.
pub proof fn entities_name_every_node(tables: Seq<SheetView>)
    ensures
        unflattened(tables) matches Ok(nodes) ==> {
            &&& sheet(tables, ENTITIES_SHEET@) matches Some(entities)
            &&& entity_nodes(entities.rows) matches Ok(listed)
            &&& keys_of(nodes) == keys_of(listed)
            &&& forall|i: int|
                0 <= i < nodes.len() ==> named_in(
                    sheet(tables, ENTITIES_SHEET@)->Some_0.rows,
                    #[trigger] nodes[i],
                ) && types_from(
                    entity_nodes(sheet(tables, ENTITIES_SHEET@)->Some_0.rows)->Ok_0[i],
                    nodes[i],
                )
        },
{
    if unflattened(tables) is Ok {
        let metadata = sheet(tables, METADATA_SHEET@)->Some_0;
        let entities = sheet(tables, ENTITIES_SHEET@)->Some_0;
        let roles = metadata_roles(metadata.rows)->Some_0;
        let listed = entity_nodes(entities.rows)->Ok_0;
        let kept = typed_from(listed);
        let type_step = type_role_stepper(tables);
        let child_step = child_role_stepper(tables);
        let typed = try_fold(listed, roles.type_sheets, type_step)->Ok_0;
        let nodes = unflattened(tables)->Ok_0;
        assert(keys_of(listed).len() == listed.len());
        assert(kept(listed)) by {
            assert forall|k: int| 0 <= k < listed.len() implies types_from(
                listed[k],
                #[trigger] listed[k],
            ) by {}
        }
        assert forall|s: Seq<NodeView>, i: int|
            0 <= i < roles.type_sheets.len() && kept(s) && (#[trigger] type_step(
                s,
                roles.type_sheets[i],
            )) is Ok implies kept(type_step(s, roles.type_sheets[i])->Ok_0) by {
            let role = roles.type_sheets[i];
            lemma_type_sheet_keeps(s, role.1, sheet(tables, role.0)->Some_0);
            let next = type_step(s, role)->Ok_0;
            assert(keys_of(s).len() == s.len());
            assert forall|k: int| 0 <= k < listed.len() implies types_from(
                listed[k],
                #[trigger] next[k],
            ) by {
                assert(types_from(listed[k], s[k]));
                assert(types_from(s[k], next[k]));
            }
        }
        lemma_try_fold_keeps(listed, roles.type_sheets, type_step, kept);
        assert forall|s: Seq<NodeView>, i: int|
            0 <= i < roles.child_sheets.len() && kept(s) && (#[trigger] child_step(
                s,
                roles.child_sheets[i],
            )) is Ok implies kept(child_step(s, roles.child_sheets[i])->Ok_0) by {
            let role = roles.child_sheets[i];
            lemma_child_sheet_keeps(s, role.1, sheet(tables, role.0)->Some_0);
            let next = child_step(s, role)->Ok_0;
            assert(keys_of(s).len() == s.len());
            assert forall|k: int| 0 <= k < listed.len() implies types_from(
                listed[k],
                #[trigger] next[k],
            ) by {
                assert(types_from(listed[k], s[k]));
                assert(next[k].types == s[k].types);
            }
        }
        lemma_try_fold_keeps(typed, roles.child_sheets, child_step, kept);
        lemma_entities_named(entities.rows);
        assert forall|i: int| 0 <= i < nodes.len() implies named_in(
            entities.rows,
            #[trigger] nodes[i],
        ) && types_from(listed[i], nodes[i]) by {
            assert(keys_of(nodes).len() == nodes.len());
            assert(keys_of(nodes)[i] == key_of(nodes[i]));
            assert(keys_of(listed)[i] == key_of(listed[i]));
            assert(named_in(entities.rows, listed[i]));
        }
    }
}

} // verus!
