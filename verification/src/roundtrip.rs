//! What the table codec gives back: flattening nodes into a workbook and
//! reading the workbook again.

use vstd::prelude::*;
use crate::error::ErrorKind;
use crate::excel_read::{
    cell, cell_stepper, child_role_stepper, child_sheet_nodes, decoded, edge_stepper, entity_nodes,
    entity_stepper, first_type, headed_cells, lemma_sheet_index_is, metadata_roles,
    parse_property_entry, plain_key, RolesView, sheet, type_role_stepper, type_row_step,
    type_row_stepper, type_sheet_nodes, unflattened,
};
use crate::flatten::{
    add_keys, all_pairs, all_types, cell_at, cell_of, cell_text_of, cells_defined, child_keys,
    child_keys_found, child_table, collect_child_key_count, collect_types, column_of, edges,
    ENTITIES_SHEET, entities_table, flatten_defined, flattened, generated, laid_out,
    lemma_assign_all, lemma_insert_text_holds, lemma_table_lt_weak, memberships, metadata_rows,
    METADATA_SHEET, metadata_table, node_cells, node_child_keys, node_edges, node_memberships,
    node_types, raws_of, reserved, resolve_row, sheet_names, sheet_names_are_distinct, SheetView,
    table_lt, type_builder, type_table, TypeTableView, UNTYPED_MARKER, with_columns,
};
use crate::fold::{lemma_try_fold_concat, lemma_try_fold_next, try_fold};
use crate::model::{
    ArrayValue, entries, insert_entry, insert_text, keys, lemma_entries_equal,
    lemma_insert_entry_sorted, lemma_insert_text_next, lemma_lookup_entry, lemma_lookup_insert,
    lookup, Node, nodes_view, NodeView, PropertyValue, PropertyView, scalars, ScalarValue, texts,
};
use crate::nodes::{
    fresh, key_lt, key_of, keys_of, lemma_position_at, lemma_position_end, lemma_update_sorted,
    sorted_nodes, with_property, with_type,
};
use crate::order::{lemma_sort, lemma_sort_ordered, ordered, sort};
use crate::pairs::{lemma_pair_index_is, put_pair};
use crate::rows::{lemma_row_lt_weak, Row, row_lt};
use crate::text::{
    is_blank, lemma_text_lt_asymmetric, lemma_text_lt_irreflexive, str_eq, str_lt, strictly_sorted,
    text_lt, trimmed,
};

verus! {

/// Whether the cell of a value reads back as the value under its
/// predicate: a literal or a list of literals has a JSON text that is not
/// blank and is read as the same value, under a predicate that is not
/// empty; a reference is not blank; a list of references is not empty and
/// holds no empty reference.
pub open spec fn value_returns(predicate: Seq<char>, value: PropertyView) -> bool {
    match value {
        PropertyView::ObjectRef(target) => trimmed(target).len() > 0,
        PropertyView::ObjectRefs(targets) => {
            &&& targets.len() > 0
            &&& forall|i: int| 0 <= i < targets.len() ==> (#[trigger] targets[i]).len() > 0
        },
        _ => {
            &&& predicate.len() > 0
            &&& cell_of(value) matches Some(text) && trimmed(text).len() > 0 && decoded(
                predicate,
                text,
            ) == Ok::<(Seq<char>, PropertyView), ErrorKind>((predicate, value))
        },
    }
}

/// Whether a workbook can carry a node: it belongs to the default graph,
/// has an identifier, has no type that is empty or the marker for nodes
/// without types, and each of its values reads back from its cell.
pub open spec fn node_returns(node: NodeView) -> bool {
    &&& node.wf()
    &&& node.graph is None
    &&& node.id.len() > 0
    &&& forall|i: int|
        0 <= i < node.types.len() ==> (#[trigger] node.types[i]).len() > 0 && node.types[i]
            != UNTYPED_MARKER@
    &&& forall|i: int|
        0 <= i < node.properties.len() ==> value_returns(
            (#[trigger] node.properties[i]).0,
            node.properties[i].1,
        )
}

/// Whether a workbook can carry the nodes: they stand in rising order of
/// their identifiers, each can be carried, and there are fewer sheets than
/// a machine can count.
pub open spec fn nodes_return(nodes: Seq<NodeView>) -> bool {
    &&& sorted_nodes(nodes)
    &&& forall|i: int| 0 <= i < nodes.len() ==> node_returns(#[trigger] nodes[i])
    &&& all_types(nodes).len() + child_keys(nodes).len() + 2 < 0x1_0000_0000_0000_0000
}

/// The nodes without their properties.
pub open spec fn bare(nodes: Seq<NodeView>) -> Seq<NodeView> {
    nodes.map_values(|node: NodeView| NodeView { properties: seq![], ..node })
}

/// Among nodes of the default graph in rising order, identifiers rise.
pub proof fn lemma_ids_rise(nodes: Seq<NodeView>, i: int, j: int)
    requires
        sorted_nodes(nodes),
        0 <= i < j < nodes.len(),
        nodes[i].graph is None,
        nodes[j].graph is None,
    ensures
        text_lt(nodes[i].id, nodes[j].id),
{
    assert(keys_of(nodes)[i] == key_of(nodes[i]));
    assert(keys_of(nodes)[j] == key_of(nodes[j]));
    assert(key_lt()(keys_of(nodes)[i], keys_of(nodes)[j]));
}

/// The nodes that stand for a workbook once the first nodes are wholly
/// read and one more node is read as far as its first types.
pub open spec fn listed(nodes: Seq<NodeView>, node: NodeView, types: int) -> Seq<NodeView> {
    bare(nodes).push(NodeView { types: node.types.take(types), properties: seq![], ..node })
}

/// The keys of nodes in order, with a greater key behind them, are in
/// order.
pub proof fn lemma_sorted_push(nodes: Seq<NodeView>, node: NodeView)
    requires
        sorted_nodes(nodes),
        forall|i: int| 0 <= i < nodes.len() ==> key_lt()(key_of(#[trigger] nodes[i]), key_of(node)),
    ensures
        sorted_nodes(nodes.push(node)),
{
    let all = nodes.push(node);
    assert forall|i: int, j: int| 0 <= i < j < all.len() implies key_lt()(
        #[trigger] keys_of(all)[i],
        #[trigger] keys_of(all)[j],
    ) by {
        assert(keys_of(all)[i] == key_of(all[i]));
        assert(keys_of(all)[j] == key_of(all[j]));
        if j < nodes.len() {
            assert(keys_of(nodes)[i] == key_of(nodes[i]));
            assert(keys_of(nodes)[j] == key_of(nodes[j]));
            assert(key_lt()(keys_of(nodes)[i], keys_of(nodes)[j]));
        }
    }
}

/// Nodes without their properties keep their keys and their order.
pub proof fn lemma_bare(nodes: Seq<NodeView>)
    ensures
        bare(nodes).len() == nodes.len(),
        keys_of(bare(nodes)) == keys_of(nodes),
        sorted_nodes(nodes) ==> sorted_nodes(bare(nodes)),
        forall|i: int|
            0 <= i < nodes.len() ==> #[trigger] bare(nodes)[i] == (NodeView {
                properties: seq![],
                ..nodes[i]
            }),
{
    assert(keys_of(bare(nodes)) =~= keys_of(nodes));
}

/// Reading the rows of memberships of one node, behind the nodes before
/// it, lists the node with its types.
pub proof fn lemma_entity_rows(nodes: Seq<NodeView>, node: NodeView, count: int)
    requires
        sorted_nodes(nodes.push(node)),
        node_returns(node),
        forall|i: int| 0 <= i < nodes.len() ==> (#[trigger] nodes[i]).graph is None,
        0 <= count <= node_memberships(node).len(),
    ensures
        try_fold(bare(nodes), node_memberships(node).take(count), entity_stepper()) == Ok::<
            Seq<NodeView>,
            ErrorKind,
        >(
            if count == 0 {
                bare(nodes)
            } else {
                listed(nodes, node, if node.types.len() == 0 { 0 } else { count })
            },
        ),
    decreases count,
{
    let step = entity_stepper();
    let rows = node_memberships(node);
    let start = bare(nodes);
    let key = plain_key(node.id);
    let whole = nodes.push(node);
    assert(sorted_nodes(nodes)) by {
        assert forall|i: int, j: int| 0 <= i < j < nodes.len() implies key_lt()(
            #[trigger] keys_of(nodes)[i],
            #[trigger] keys_of(nodes)[j],
        ) by {
            assert(keys_of(nodes)[i] == keys_of(whole)[i]);
            assert(keys_of(nodes)[j] == keys_of(whole)[j]);
        }
    }
    lemma_bare(nodes);
    assert forall|i: int| 0 <= i < nodes.len() implies key_lt()(
        key_of(#[trigger] start[i]),
        key,
    ) by {
        assert(keys_of(whole)[i] == key_of(nodes[i]));
        assert(keys_of(whole)[nodes.len() as int] == key_of(node));
        assert(key_lt()(keys_of(whole)[i], keys_of(whole)[nodes.len() as int]));
    }
    if count == 0 {
        assert(rows.take(0) =~= Seq::<Row>::empty());
    } else {
        lemma_entity_rows(nodes, node, count - 1);
        assert(rows.take(count).drop_last() =~= rows.take(count - 1));
        let row = rows[count - 1];
        assert(rows.take(count).last() == row);
        assert(row == seq![node.id, node_types(node)[count - 1]]);
        assert(cell(row, 0) == node.id);
        assert(cell(row, 1) == node_types(node)[count - 1]);
        if count == 1 {
            lemma_position_end(start, key);
            if node.types.len() == 0 {
                assert(node.types.take(0) =~= Seq::<Seq<char>>::empty());
                assert(fresh(key) == (NodeView {
                    types: node.types.take(0),
                    properties: seq![],
                    ..node
                }));
            } else {
                assert(node.types.take(0) =~= Seq::<Seq<char>>::empty());
                lemma_insert_text_next(node.types, 0);
                let there = start.push(fresh(key));
                assert(there.update(start.len() as int, with_type(fresh(key), node.types[0]))
                    =~= listed(nodes, node, 1));
            }
        } else {
            let before = listed(nodes, node, count - 1);
            let partial = before[nodes.len() as int];
            assert forall|i: int| 0 <= i < start.len() implies key_lt()(
                key_of(#[trigger] start[i]),
                key_of(partial),
            ) by {}
            lemma_sorted_push(start, partial);
            lemma_position_at(before, nodes.len() as int);
            lemma_insert_text_next(node.types, count - 1);
            assert(before.update(
                nodes.len() as int,
                with_type(partial, node.types[count - 1]),
            ) =~= listed(nodes, node, count));
        }
    }
}

/// Reading the table of memberships of nodes that can be carried lists
/// the nodes with their types.
pub proof fn lemma_entities_read(nodes: Seq<NodeView>)
    requires
        sorted_nodes(nodes),
        forall|i: int| 0 <= i < nodes.len() ==> node_returns(#[trigger] nodes[i]),
    ensures
        entity_nodes(memberships(nodes)) == Ok::<Seq<NodeView>, ErrorKind>(bare(nodes)),
    decreases nodes.len(),
{
    let step = entity_stepper();
    let empty = Seq::<NodeView>::empty();
    if nodes.len() == 0 {
        assert(bare(nodes) =~= empty);
    } else {
        let rest = nodes.drop_last();
        let node = nodes.last();
        assert(rest.push(node) =~= nodes);
        assert(sorted_nodes(rest)) by {
            assert forall|i: int, j: int| 0 <= i < j < rest.len() implies key_lt()(
                #[trigger] keys_of(rest)[i],
                #[trigger] keys_of(rest)[j],
            ) by {
                assert(keys_of(rest)[i] == keys_of(nodes)[i]);
                assert(keys_of(rest)[j] == keys_of(nodes)[j]);
            }
        }
        assert forall|i: int| 0 <= i < rest.len() implies node_returns(#[trigger] rest[i]) by {
            assert(rest[i] == nodes[i]);
        }
        lemma_entities_read(rest);
        lemma_try_fold_concat(empty, memberships(rest), node_memberships(node), step);
        let rows = node_memberships(node);
        assert(rows.take(rows.len() as int) =~= rows);
        assert(node_returns(node)) by {
            assert(nodes[nodes.len() - 1] == node);
        }
        lemma_entity_rows(rest, node, rows.len() as int);
        lemma_bare(nodes);
        lemma_bare(rest);
        assert(node.types.take(node.types.len() as int) =~= node.types);
        assert(listed(rest, node, node.types.len() as int) =~= bare(nodes));
    }
}

/// Whether a row begins with the identifier of one of the nodes.
pub open spec fn row_of(nodes: Seq<NodeView>, row: Row) -> bool {
    exists|k: int| 0 <= k < nodes.len() && row[0] == (#[trigger] nodes[k]).id
}

/// Nodes in rising order, all but the last.
pub proof fn lemma_sorted_rest(nodes: Seq<NodeView>)
    requires
        sorted_nodes(nodes),
        nodes.len() > 0,
    ensures
        sorted_nodes(nodes.drop_last()),
{
    let rest = nodes.drop_last();
    assert forall|i: int, j: int| 0 <= i < j < rest.len() implies key_lt()(
        #[trigger] keys_of(rest)[i],
        #[trigger] keys_of(rest)[j],
    ) by {
        assert(keys_of(rest)[i] == keys_of(nodes)[i]);
        assert(keys_of(rest)[j] == keys_of(nodes)[j]);
    }
}

/// The rows of memberships of nodes in rising order are in order, and each
/// begins with the identifier of a node.
pub proof fn lemma_memberships_ordered(nodes: Seq<NodeView>)
    requires
        sorted_nodes(nodes),
        forall|i: int| 0 <= i < nodes.len() ==> node_returns(#[trigger] nodes[i]),
    ensures
        ordered(memberships(nodes), row_lt(2)),
        forall|i: int|
            0 <= i < memberships(nodes).len() ==> row_of(nodes, #[trigger] memberships(nodes)[i]),
    decreases nodes.len(),
{
    if nodes.len() > 0 {
        let rest = nodes.drop_last();
        let node = nodes.last();
        let last = nodes.len() - 1;
        lemma_sorted_rest(nodes);
        assert forall|i: int| 0 <= i < rest.len() implies node_returns(#[trigger] rest[i]) by {
            assert(rest[i] == nodes[i]);
        }
        lemma_memberships_ordered(rest);
        let before = memberships(rest);
        let own = node_memberships(node);
        let all = memberships(nodes);
        assert(node == nodes[last]);
        assert(node_returns(node));
        assert forall|i: int| 0 <= i < all.len() implies row_of(nodes, #[trigger] all[i]) by {
            if i < before.len() {
                assert(all[i] == before[i]);
                let k = choose|k: int|
                    0 <= k < rest.len() && before[i][0] == (#[trigger] rest[k]).id;
                assert(nodes[k] == rest[k]);
            } else {
                assert(all[i] == own[i - before.len()]);
                assert(all[i][0] == nodes[last].id);
            }
        }
        assert forall|i: int, j: int| 0 <= i < j < all.len() implies !row_lt(2)(
            #[trigger] all[j],
            #[trigger] all[i],
        ) by {
            if j < before.len() {
                assert(all[i] == before[i] && all[j] == before[j]);
            } else {
                let b = j - before.len();
                assert(all[j] == own[b]);
                assert(own[b] == seq![node.id, node_types(node)[b]]);
                if i < before.len() {
                    assert(all[i] == before[i]);
                    let k = choose|k: int|
                        0 <= k < rest.len() && before[i][0] == (#[trigger] rest[k]).id;
                    assert(nodes[k] == rest[k]);
                    assert(node_returns(nodes[k]));
                    lemma_ids_rise(nodes, k, last);
                    lemma_text_lt_asymmetric(nodes[k].id, node.id);
                } else {
                    let a = i - before.len();
                    assert(all[i] == own[a]);
                    assert(own[a] == seq![node.id, node_types(node)[a]]);
                    lemma_text_lt_irreflexive(node.id);
                    assert(node.types.len() > 0);
                    assert(text_lt(node.types[a], node.types[b]));
                    lemma_text_lt_asymmetric(node.types[a], node.types[b]);
                }
            }
        }
    }
}

/// Which values of which nodes have been read: for a node, by its place,
/// and a predicate, whether the value under the predicate is there.
pub type Progress = spec_fn(int, Seq<char>) -> bool;

/// Whether `read` are the nodes `nodes` as far as `have` says: each node
/// with its identifier, graph and types, and with its value under each
/// predicate that `have` holds of, and under no other.
pub open spec fn agrees(read: Seq<NodeView>, nodes: Seq<NodeView>, have: Progress) -> bool {
    &&& read.len() == nodes.len()
    &&& forall|i: int|
        0 <= i < nodes.len() ==> {
            &&& (#[trigger] read[i]).id == nodes[i].id
            &&& read[i].graph == nodes[i].graph
            &&& read[i].types == nodes[i].types
            &&& strictly_sorted(keys(read[i].properties))
            &&& forall|q: Seq<char>|
                #[trigger] lookup(read[i].properties, q) == (if have(i, q) {
                    lookup(nodes[i].properties, q)
                } else {
                    None
                })
        }
}

/// Nothing has been read.
pub open spec fn nothing() -> Progress {
    |i: int, q: Seq<char>| false
}

/// What `have` says, and of the node at `at` what `more` says.
pub open spec fn and_of(have: Progress, at: int, more: spec_fn(Seq<char>) -> bool) -> Progress {
    |i: int, q: Seq<char>| have(i, q) || (i == at && more(q))
}

/// Nodes that agree with the same nodes as far as the same has been read.
pub proof fn lemma_agrees_same(
    read: Seq<NodeView>,
    nodes: Seq<NodeView>,
    have: Progress,
    other: Progress,
)
    requires
        agrees(read, nodes, have),
        forall|i: int, q: Seq<char>|
            0 <= i < nodes.len() ==> #[trigger] have(i, q) == other(i, q),
    ensures
        agrees(read, nodes, other),
{
    assert forall|i: int| 0 <= i < nodes.len() implies {
        &&& (#[trigger] read[i]).id == nodes[i].id
        &&& read[i].graph == nodes[i].graph
        &&& read[i].types == nodes[i].types
        &&& strictly_sorted(keys(read[i].properties))
        &&& forall|q: Seq<char>|
            #[trigger] lookup(read[i].properties, q) == (if other(i, q) {
                lookup(nodes[i].properties, q)
            } else {
                None
            })
    } by {
        assert forall|q: Seq<char>|
            #[trigger] lookup(read[i].properties, q) == (if other(i, q) {
                lookup(nodes[i].properties, q)
            } else {
                None
            }) by {
            assert(have(i, q) == other(i, q));
        }
    }
}

/// Nodes that agree with sorted nodes have their keys, and so their
/// order.
pub proof fn lemma_agrees_keys(read: Seq<NodeView>, nodes: Seq<NodeView>, have: Progress)
    requires
        agrees(read, nodes, have),
    ensures
        keys_of(read) == keys_of(nodes),
        sorted_nodes(nodes) ==> sorted_nodes(read),
{
    assert forall|i: int| 0 <= i < nodes.len() implies keys_of(read)[i] == keys_of(nodes)[i] by {
        assert(key_of(read[i]) == key_of(nodes[i]));
    }
    assert(keys_of(read) =~= keys_of(nodes));
}

/// The nodes without their properties agree with the nodes as far as
/// nothing has been read.
pub proof fn lemma_agrees_bare(nodes: Seq<NodeView>)
    ensures
        agrees(bare(nodes), nodes, nothing()),
{
    lemma_bare(nodes);
    assert forall|i: int| 0 <= i < nodes.len() implies {
        &&& (#[trigger] bare(nodes)[i]).id == nodes[i].id
        &&& bare(nodes)[i].graph == nodes[i].graph
        &&& bare(nodes)[i].types == nodes[i].types
        &&& strictly_sorted(keys(bare(nodes)[i].properties))
        &&& forall|q: Seq<char>|
            #[trigger] lookup(bare(nodes)[i].properties, q) == (if nothing()(i, q) {
                lookup(nodes[i].properties, q)
            } else {
                None
            })
    } by {
        let empty = Seq::<(Seq<char>, PropertyView)>::empty();
        assert(bare(nodes)[i].properties =~= empty);
        assert(keys(empty) =~= Seq::<Seq<char>>::empty());
        assert forall|q: Seq<char>| #[trigger] lookup(empty, q) is None by {
            crate::text::lemma_rank(keys(empty), q);
        }
    }
}

/// Nodes that agree with well-formed nodes as far as everything has been
/// read are those nodes.
pub proof fn lemma_agrees_all(read: Seq<NodeView>, nodes: Seq<NodeView>, have: Progress)
    requires
        agrees(read, nodes, have),
        forall|i: int| 0 <= i < nodes.len() ==> (#[trigger] nodes[i]).wf(),
        forall|i: int, q: Seq<char>|
            0 <= i < nodes.len() && lookup(nodes[i].properties, q) is Some ==> #[trigger] have(
                i,
                q,
            ),
    ensures
        read == nodes,
{
    assert forall|i: int| 0 <= i < nodes.len() implies read[i] == nodes[i] by {
        assert(nodes[i].wf());
        assert forall|q: Seq<char>|
            lookup(read[i].properties, q) == lookup(nodes[i].properties, q) by {
            if lookup(nodes[i].properties, q) is Some {
                assert(have(i, q));
            }
        }
        lemma_entries_equal(read[i].properties, nodes[i].properties);
    }
    assert(read =~= nodes);
}

/// Each value that has a cell has a text, and no two values share a
/// column.
pub open spec fn cells_apart(properties: Seq<(Seq<char>, PropertyView)>) -> bool {
    &&& cells_defined(properties)
    &&& forall|a: int, b: int|
        0 <= a < properties.len() && 0 <= b < properties.len() && a != b && column_of(
            #[trigger] properties[a],
        ) is Some ==> column_of(properties[a]) != column_of(#[trigger] properties[b])
}

/// In the header of its column, a value that has a cell reads back from
/// its text.
pub proof fn lemma_cell_decodes(node: NodeView, at: int)
    requires
        node_returns(node),
        0 <= at < node.properties.len(),
        column_of(node.properties[at]) is Some,
    ensures
        cell_of(node.properties[at].1) is Some,
        column_of(node.properties[at])->Some_0.len() > 0,
        trimmed(cell_of(node.properties[at].1)->Some_0).len() > 0,
        decoded(column_of(node.properties[at])->Some_0, cell_of(node.properties[at].1)->Some_0)
            == Ok::<(Seq<char>, PropertyView), ErrorKind>(node.properties[at]),
{
    let entry = node.properties[at];
    assert(value_returns(entry.0, entry.1));
    reveal_strlit("Id");
    match entry.1 {
        PropertyView::ObjectRef(target) => {
            let header = entry.0 + "Id"@;
            assert(header.subrange(header.len() - "Id"@.len(), header.len() as int) =~= "Id"@);
            assert("Id"@.is_suffix_of(header));
            assert(header.subrange(0, header.len() - "Id"@.len()) =~= entry.0);
        },
        _ => {},
    }
}

/// The predicate that a cell is read under depends on its header alone.
pub proof fn lemma_decoded_predicate(header: Seq<char>, raw: Seq<char>)
    ensures
        decoded(header, raw) matches Ok(entry) ==> entry.0 == (if "Id"@.is_suffix_of(header) {
            header.subrange(0, header.len() - "Id"@.len())
        } else {
            header
        }),
{
}

/// The values of a node that can be carried have texts and columns of
/// their own.
pub proof fn lemma_cells_apart(node: NodeView)
    requires
        node_returns(node),
    ensures
        cells_apart(node.properties),
{
    let properties = node.properties;
    reveal_strlit("Id");
    assert forall|i: int|
        0 <= i < properties.len() && column_of(#[trigger] properties[i]) is Some implies cell_of(
        properties[i].1,
    ) is Some by {
        lemma_cell_decodes(node, i);
    }
    assert forall|a: int, b: int|
        0 <= a < properties.len() && 0 <= b < properties.len() && a != b && column_of(
            #[trigger] properties[a],
        ) is Some implies column_of(properties[a]) != column_of(#[trigger] properties[b]) by {
        if column_of(properties[a]) == column_of(properties[b]) {
            lemma_cell_decodes(node, a);
            lemma_cell_decodes(node, b);
            let header = column_of(properties[a])->Some_0;
            lemma_decoded_predicate(header, cell_of(properties[a].1)->Some_0);
            lemma_decoded_predicate(header, cell_of(properties[b].1)->Some_0);
            assert(properties[a].0 == properties[b].0);
            assert(keys(properties)[a] == properties[a].0);
            assert(keys(properties)[b] == properties[b].0);
            if a < b {
                assert(text_lt(keys(properties)[a], keys(properties)[b]));
            } else {
                assert(text_lt(keys(properties)[b], keys(properties)[a]));
            }
            lemma_text_lt_irreflexive(properties[a].0);
        }
    }
}

/// The text that the cells of values hold for a column: that of the value
/// with that column, and nothing where no value has it.
pub proof fn lemma_cell_at(properties: Seq<(Seq<char>, PropertyView)>, header: Seq<char>)
    requires
        cells_apart(properties),
    ensures
        forall|k: int|
            0 <= k < properties.len() && column_of(#[trigger] properties[k]) == Some(header)
                ==> cell_at(node_cells(properties), header) == cell_of(properties[k].1)->Some_0,
        (forall|k: int|
            0 <= k < properties.len() ==> column_of(#[trigger] properties[k]) != Some(header))
            ==> cell_at(node_cells(properties), header) == Seq::<char>::empty(),
    decreases properties.len(),
{
    if properties.len() > 0 {
        let rest = properties.drop_last();
        let entry = properties.last();
        let last = properties.len() - 1;
        assert(entry == properties[last]);
        assert(cells_apart(rest)) by {
            assert forall|i: int|
                0 <= i < rest.len() && column_of(#[trigger] rest[i]) is Some implies cell_of(
                rest[i].1,
            ) is Some by {
                assert(rest[i] == properties[i]);
            }
            assert forall|a: int, b: int|
                0 <= a < rest.len() && 0 <= b < rest.len() && a != b && column_of(
                    #[trigger] rest[a],
                ) is Some implies column_of(rest[a]) != column_of(#[trigger] rest[b]) by {
                assert(rest[a] == properties[a]);
                assert(rest[b] == properties[b]);
            }
        }
        lemma_cell_at(rest, header);
        let cells = node_cells(properties);
        let before = node_cells(rest);
        if column_of(entry) is Some {
            let column = column_of(entry)->Some_0;
            let text = cell_of(entry.1)->Some_0;
            assert(cells == before.push((column, text)));
            assert(cells.drop_last() =~= before);
            assert(cells.last() == (column, text));
        } else {
            assert(cells == before);
        }
        assert forall|k: int|
            0 <= k < properties.len() && column_of(#[trigger] properties[k]) == Some(
                header,
            ) implies cell_at(cells, header) == cell_of(properties[k].1)->Some_0 by {
            if k < last {
                assert(rest[k] == properties[k]);
                assert(column_of(properties[k]) != column_of(properties[last]));
            }
        }
        if forall|k: int|
            0 <= k < properties.len() ==> column_of(#[trigger] properties[k]) != Some(header) {
            assert forall|k: int| 0 <= k < rest.len() implies column_of(#[trigger] rest[k])
                != Some(header) by {
                assert(rest[k] == properties[k]);
            }
        }
    }
}

/// The column in which a node holds its value under a predicate, if it
/// holds one there that has a column.
pub open spec fn column_in(node: NodeView, predicate: Seq<char>) -> Option<Seq<char>> {
    match lookup(node.properties, predicate) {
        Some(value) => column_of((predicate, value)),
        None => None,
    }
}

/// Whether the column of a node's value under a predicate is among the
/// given columns.
pub open spec fn read_in(node: NodeView, columns: Seq<Seq<char>>) -> spec_fn(Seq<char>) -> bool {
    |predicate: Seq<char>|
        column_in(node, predicate) is Some && columns.contains(column_in(node, predicate)->Some_0)
}

/// Whether a node holds a value with a column under a predicate.
pub open spec fn in_columns(node: NodeView) -> spec_fn(Seq<char>) -> bool {
    |predicate: Seq<char>| column_in(node, predicate) is Some
}

/// A text without characters has nothing left when trimmed.
pub proof fn lemma_trimmed_empty()
    ensures
        trimmed(Seq::<char>::empty()).len() == 0,
{
    crate::text::lemma_skip_spaces(Seq::<char>::empty(), 0);
}

/// Reading the first cells of the row of a node into nodes that agree
/// with the nodes gives nodes that agree as far as those cells reach.
pub proof fn lemma_row_cells(
    read: Seq<NodeView>,
    nodes: Seq<NodeView>,
    have: Progress,
    at: int,
    columns: Seq<Seq<char>>,
    count: int,
)
    requires
        agrees(read, nodes, have),
        0 <= at < nodes.len(),
        node_returns(nodes[at]),
        0 <= count <= columns.len(),
    ensures
        try_fold(
            read,
            headed_cells(
                seq!["id"@] + columns,
                resolve_row(nodes[at].id, node_cells(nodes[at].properties), columns),
            ).take(count),
            cell_stepper(at),
        ) matches Ok(next) && agrees(
            next,
            nodes,
            and_of(have, at, read_in(nodes[at], columns.take(count))),
        ),
    decreases count,
{
    let node = nodes[at];
    let cells = node_cells(node.properties);
    let headers = seq!["id"@] + columns;
    let row = resolve_row(node.id, cells, columns);
    let entries = headed_cells(headers, row);
    let step = cell_stepper(at);
    assert(row.len() == columns.len() + 1);
    assert(entries.len() == columns.len());
    if count == 0 {
        assert(entries.take(0) =~= Seq::<(Seq<char>, Seq<char>)>::empty());
        assert(columns.take(0) =~= Seq::<Seq<char>>::empty());
        lemma_agrees_same(read, nodes, have, and_of(have, at, read_in(node, columns.take(0))));
    } else {
        lemma_row_cells(read, nodes, have, at, columns, count - 1);
        lemma_try_fold_next(read, entries, step, count - 1);
        let before = try_fold(read, entries.take(count - 1), step)->Ok_0;
        let was = and_of(have, at, read_in(node, columns.take(count - 1)));
        let now = and_of(have, at, read_in(node, columns.take(count)));
        let header = columns[count - 1];
        let raw = cell_at(cells, header);
        assert(entries[count - 1] == (header, raw));
        assert(columns.take(count) =~= columns.take(count - 1).push(header));
        lemma_cells_apart(node);
        lemma_cell_at(node.properties, header);
        if exists|k: int|
            0 <= k < node.properties.len() && column_of(#[trigger] node.properties[k]) == Some(
                header,
            ) {
            let k = choose|k: int|
                0 <= k < node.properties.len() && column_of(#[trigger] node.properties[k])
                    == Some(header);
            let entry = node.properties[k];
            lemma_cell_decodes(node, k);
            lemma_lookup_entry(node.properties, k);
            let old = before[at];
            let new = with_property(old, entry.0, entry.1);
            let next = before.update(at, new);
            assert(step(before, entries[count - 1]) == Ok::<Seq<NodeView>, ErrorKind>(next));
            lemma_insert_entry_sorted(old.properties, entry.0, entry.1);
            assert forall|i: int| 0 <= i < nodes.len() implies {
                &&& (#[trigger] next[i]).id == nodes[i].id
                &&& next[i].graph == nodes[i].graph
                &&& next[i].types == nodes[i].types
                &&& strictly_sorted(keys(next[i].properties))
                &&& forall|q: Seq<char>|
                    #[trigger] lookup(next[i].properties, q) == (if now(i, q) {
                        lookup(nodes[i].properties, q)
                    } else {
                        None
                    })
            } by {
                assert(before[i].id == nodes[i].id);
                if i == at {
                    assert forall|q: Seq<char>|
                        #[trigger] lookup(next[i].properties, q) == (if now(i, q) {
                            lookup(nodes[i].properties, q)
                        } else {
                            None
                        }) by {
                        lemma_lookup_insert(old.properties, entry.0, entry.1, q);
                        assert(lookup(old.properties, q) == (if was(at, q) {
                            lookup(node.properties, q)
                        } else {
                            None
                        }));
                        if q == entry.0 {
                            assert(columns.take(count).contains(header)) by {
                                assert(columns.take(count)[count - 1] == header);
                            }
                        } else {
                            if column_in(node, q) == Some(header) {
                                crate::text::lemma_rank(keys(node.properties), q);
                                let j = crate::text::rank(keys(node.properties), q);
                                assert(node.properties[j].0 == q);
                                assert(column_of(node.properties[j]) == Some(header));
                            }
                            lemma_take_holds(columns, count, column_in(node, q));
                        }
                    }
                } else {
                    assert(next[i] == before[i]);
                    assert forall|q: Seq<char>|
                        #[trigger] lookup(next[i].properties, q) == (if now(i, q) {
                            lookup(nodes[i].properties, q)
                        } else {
                            None
                        }) by {
                        assert(lookup(before[i].properties, q) == (if was(i, q) {
                            lookup(nodes[i].properties, q)
                        } else {
                            None
                        }));
                    }
                }
            }
        } else {
            lemma_trimmed_empty();
            assert(raw == Seq::<char>::empty());
            assert(step(before, entries[count - 1]) == Ok::<Seq<NodeView>, ErrorKind>(before));
            assert forall|i: int, q: Seq<char>| 0 <= i < nodes.len() implies #[trigger] was(i, q)
                == now(i, q) by {
                if i == at {
                    if column_in(node, q) == Some(header) {
                        crate::text::lemma_rank(keys(node.properties), q);
                        let j = crate::text::rank(keys(node.properties), q);
                        assert(node.properties[j].0 == q);
                        assert(column_of(node.properties[j]) == Some(header));
                    }
                    lemma_take_holds(columns, count, column_in(node, q));
                }
            }
            lemma_agrees_same(before, nodes, was, now);
        }
    }
}

/// What the first columns hold once one more is taken: what they held,
/// and that one.
pub proof fn lemma_take_holds(columns: Seq<Seq<char>>, count: int, wanted: Option<Seq<char>>)
    requires
        0 < count <= columns.len(),
    ensures
        wanted matches Some(column) ==> (columns.take(count).contains(column)
            <==> columns.take(count - 1).contains(column) || column == columns[count - 1]),
{
    if wanted is Some {
        let column = wanted->Some_0;
        let more = columns.take(count);
        let fewer = columns.take(count - 1);
        if more.contains(column) {
            let i = choose|i: int| 0 <= i < more.len() && more[i] == column;
            if i < count - 1 {
                assert(fewer[i] == column);
            }
        }
        if fewer.contains(column) {
            let i = choose|i: int| 0 <= i < fewer.len() && fewer[i] == column;
            assert(more[i] == column);
        }
        assert(more[count - 1] == columns[count - 1]);
    }
}

/// Whether the columns hold the column of every value of the node that
/// has one.
pub open spec fn covers(columns: Seq<Seq<char>>, node: NodeView) -> bool {
    forall|k: int|
        0 <= k < node.properties.len() && column_of(#[trigger] node.properties[k]) is Some
            ==> columns.contains(column_of(node.properties[k])->Some_0)
}

/// Reading the row of a node in a table of one of its types, into nodes
/// that agree with the nodes, gives nodes that agree as far as the values
/// of that node that have columns.
pub proof fn lemma_type_row(
    read: Seq<NodeView>,
    nodes: Seq<NodeView>,
    have: Progress,
    at: int,
    class: Seq<char>,
    columns: Seq<Seq<char>>,
)
    requires
        agrees(read, nodes, have),
        sorted_nodes(nodes),
        0 <= at < nodes.len(),
        node_returns(nodes[at]),
        node_types(nodes[at]).contains(class),
        covers(columns, nodes[at]),
    ensures
        type_row_step(
            read,
            class,
            seq!["id"@] + columns,
            resolve_row(nodes[at].id, node_cells(nodes[at].properties), columns),
        ) matches Ok(next) && agrees(next, nodes, and_of(have, at, in_columns(nodes[at]))),
{
    let node = nodes[at];
    let headers = seq!["id"@] + columns;
    let row = resolve_row(node.id, node_cells(node.properties), columns);
    let entries = headed_cells(headers, row);
    assert(row[0] == node.id);
    assert(cell(row, 0) == node.id);
    lemma_agrees_keys(read, nodes, have);
    assert(key_of(read[at]) == plain_key(node.id));
    lemma_position_at(read, at);
    assert(first_type(read, at, class) == read) by {
        if class.len() > 0 && class != UNTYPED_MARKER@ {
            let i = choose|i: int| 0 <= i < node_types(node).len() && node_types(node)[i] == class;
            assert(node.types.len() > 0);
        }
    }
    assert(entries.take(columns.len() as int) =~= entries);
    assert(columns.take(columns.len() as int) =~= columns);
    lemma_row_cells(read, nodes, have, at, columns, columns.len() as int);
    let next = try_fold(read, entries, cell_stepper(at))->Ok_0;
    let was = and_of(have, at, read_in(node, columns));
    let now = and_of(have, at, in_columns(node));
    assert forall|i: int, q: Seq<char>| 0 <= i < nodes.len() implies #[trigger] was(i, q) == now(
        i,
        q,
    ) by {
        if i == at && column_in(node, q) is Some {
            crate::text::lemma_rank(keys(node.properties), q);
            let j = crate::text::rank(keys(node.properties), q);
            assert(node.properties[j].0 == q);
            assert(column_of(node.properties[j]) == column_in(node, q));
        }
    }
    lemma_agrees_same(next, nodes, was, now);
}

/// The rows of the members of a type among the nodes, laid out against
/// the given columns, in the order of the nodes.
pub open spec fn rows_with(nodes: Seq<NodeView>, class: Seq<char>, columns: Seq<Seq<char>>) -> Seq<
    Row,
>
    decreases nodes.len(),
{
    if nodes.len() == 0 {
        seq![]
    } else {
        let rest = rows_with(nodes.drop_last(), class, columns);
        if node_types(nodes.last()).contains(class) {
            rest.push(
                resolve_row(nodes.last().id, node_cells(nodes.last().properties), columns),
            )
        } else {
            rest
        }
    }
}

/// The rows of a type table, laid out against any columns, are the rows of
/// its members.
pub proof fn lemma_rows_with(nodes: Seq<NodeView>, class: Seq<char>, columns: Seq<Seq<char>>)
    ensures
        laid_out(TypeTableView { columns, rows: type_builder(nodes, class).rows }) == rows_with(
            nodes,
            class,
            columns,
        ),
    decreases nodes.len(),
{
    let table = TypeTableView { columns, rows: type_builder(nodes, class).rows };
    if nodes.len() == 0 {
        assert(laid_out(table) =~= Seq::<Row>::empty());
    } else {
        let rest = nodes.drop_last();
        lemma_rows_with(rest, class, columns);
        let before = TypeTableView { columns, rows: type_builder(rest, class).rows };
        if node_types(nodes.last()).contains(class) {
            assert(laid_out(table) =~= laid_out(before).push(
                resolve_row(nodes.last().id, node_cells(nodes.last().properties), columns),
            ));
        } else {
            assert(laid_out(table) =~= laid_out(before));
        }
    }
}

/// Columns with those of cells put in are still sorted.
pub proof fn lemma_with_columns_sorted(
    columns: Seq<Seq<char>>,
    cells: Seq<(Seq<char>, Seq<char>)>,
)
    requires
        strictly_sorted(columns),
    ensures
        strictly_sorted(with_columns(columns, cells)),
    decreases cells.len(),
{
    if cells.len() > 0 {
        lemma_with_columns_sorted(columns, cells.drop_last());
        crate::model::lemma_insert_text_sorted(
            with_columns(columns, cells.drop_last()),
            cells.last().0,
        );
    }
}

/// What columns hold once those of cells are put in: what they held, and
/// the columns of the cells.
pub proof fn lemma_with_columns(
    columns: Seq<Seq<char>>,
    cells: Seq<(Seq<char>, Seq<char>)>,
    y: Seq<char>,
)
    ensures
        with_columns(columns, cells).contains(y) <==> columns.contains(y) || exists|j: int|
            0 <= j < cells.len() && (#[trigger] cells[j]).0 == y,
    decreases cells.len(),
{
    if cells.len() > 0 {
        let rest = cells.drop_last();
        lemma_with_columns(columns, rest, y);
        let before = with_columns(columns, rest);
        lemma_insert_text_holds(before, cells.last().0, y);
        assert(cells[cells.len() - 1] == cells.last());
        if exists|j: int| 0 <= j < rest.len() && (#[trigger] rest[j]).0 == y {
            let j = choose|j: int| 0 <= j < rest.len() && (#[trigger] rest[j]).0 == y;
            assert(cells[j] == rest[j]);
            assert(cells[j].0 == y);
        }
        if y == cells.last().0 {
            assert(cells[cells.len() - 1].0 == y);
        }
        if exists|j: int| 0 <= j < cells.len() && (#[trigger] cells[j]).0 == y {
            let j = choose|j: int| 0 <= j < cells.len() && (#[trigger] cells[j]).0 == y;
            if j < rest.len() {
                assert(rest[j] == cells[j]);
                assert(rest[j].0 == y);
            }
        }
    }
}

/// The cells of values hold the column of every value that has a column
/// and a text.
pub proof fn lemma_cells_hold(properties: Seq<(Seq<char>, PropertyView)>, at: int)
    requires
        cells_defined(properties),
        0 <= at < properties.len(),
        column_of(properties[at]) is Some,
    ensures
        exists|j: int|
            0 <= j < node_cells(properties).len() && (#[trigger] node_cells(properties)[j]).0
                == column_of(properties[at])->Some_0,
    decreases properties.len(),
{
    let rest = properties.drop_last();
    let cells = node_cells(properties);
    let before = node_cells(rest);
    let last = properties.len() - 1;
    assert(properties.last() == properties[last]);
    if at == last {
        assert(cell_of(properties[at].1) is Some);
        assert(cells[cells.len() - 1].0 == column_of(properties[at])->Some_0);
    } else {
        assert(cells_defined(rest)) by {
            assert forall|i: int|
                0 <= i < rest.len() && column_of(#[trigger] rest[i]) is Some implies cell_of(
                rest[i].1,
            ) is Some by {
                assert(rest[i] == properties[i]);
            }
        }
        assert(rest[at] == properties[at]);
        lemma_cells_hold(rest, at);
        let j = choose|j: int|
            0 <= j < before.len() && (#[trigger] before[j]).0 == column_of(rest[at])->Some_0;
        assert(cells[j] == before[j]);
    }
}

/// The columns of a type table are sorted and hold the columns of every
/// member of the type.
pub proof fn lemma_builder_covers(nodes: Seq<NodeView>, class: Seq<char>)
    requires
        forall|i: int| 0 <= i < nodes.len() ==> node_returns(#[trigger] nodes[i]),
    ensures
        strictly_sorted(type_builder(nodes, class).columns),
        forall|i: int|
            0 <= i < nodes.len() && node_types(#[trigger] nodes[i]).contains(class) ==> covers(
                type_builder(nodes, class).columns,
                nodes[i],
            ),
    decreases nodes.len(),
{
    if nodes.len() > 0 {
        let rest = nodes.drop_last();
        let node = nodes.last();
        let last = nodes.len() - 1;
        assert(node == nodes[last]);
        assert forall|i: int| 0 <= i < rest.len() implies node_returns(#[trigger] rest[i]) by {
            assert(rest[i] == nodes[i]);
        }
        lemma_builder_covers(rest, class);
        let before = type_builder(rest, class).columns;
        let now = type_builder(nodes, class).columns;
        if node_types(node).contains(class) {
            lemma_with_columns_sorted(before, node_cells(node.properties));
        }
        assert forall|i: int|
            0 <= i < nodes.len() && node_types(#[trigger] nodes[i]).contains(class) implies covers(
            now,
            nodes[i],
        ) by {
            assert forall|k: int|
                0 <= k < nodes[i].properties.len() && column_of(
                    #[trigger] nodes[i].properties[k],
                ) is Some implies now.contains(column_of(nodes[i].properties[k])->Some_0) by {
                let column = column_of(nodes[i].properties[k])->Some_0;
                let cells = node_cells(node.properties);
                if node_types(node).contains(class) {
                    lemma_with_columns(before, cells, column);
                }
                if i < last {
                    assert(rest[i] == nodes[i]);
                    assert(covers(before, rest[i]));
                    assert(before.contains(column));
                } else {
                    lemma_cells_apart(node);
                    lemma_cells_hold(node.properties, k);
                }
            }
        }
    } else {
        assert(strictly_sorted(Seq::<Seq<char>>::empty()));
    }
}

/// What has been read once the rows of the members of a type among the
/// first nodes are read: what had been read, and of those members every
/// value that has a column.
pub open spec fn members_read(
    nodes: Seq<NodeView>,
    have: Progress,
    class: Seq<char>,
    count: int,
) -> Progress {
    |i: int, q: Seq<char>|
        have(i, q) || (0 <= i < count && i < nodes.len() && node_types(nodes[i]).contains(class)
            && column_in(nodes[i], q) is Some)
}

/// Reading the rows of the members of a type among the first nodes, into
/// nodes that agree with the nodes, gives nodes that agree as far as
/// those members.
pub proof fn lemma_type_rows(
    read: Seq<NodeView>,
    nodes: Seq<NodeView>,
    have: Progress,
    class: Seq<char>,
    columns: Seq<Seq<char>>,
    count: int,
)
    requires
        agrees(read, nodes, have),
        sorted_nodes(nodes),
        forall|i: int| 0 <= i < nodes.len() ==> node_returns(#[trigger] nodes[i]),
        forall|i: int|
            0 <= i < nodes.len() && node_types(#[trigger] nodes[i]).contains(class) ==> covers(
                columns,
                nodes[i],
            ),
        0 <= count <= nodes.len(),
    ensures
        try_fold(
            read,
            rows_with(nodes.take(count), class, columns),
            type_row_stepper(class, seq!["id"@] + columns),
        ) matches Ok(next) && agrees(next, nodes, members_read(nodes, have, class, count)),
    decreases count,
{
    let step = type_row_stepper(class, seq!["id"@] + columns);
    if count == 0 {
        assert(nodes.take(0) =~= Seq::<NodeView>::empty());
        lemma_agrees_same(read, nodes, have, members_read(nodes, have, class, 0));
    } else {
        lemma_type_rows(read, nodes, have, class, columns, count - 1);
        let node = nodes[count - 1];
        assert(nodes.take(count).drop_last() =~= nodes.take(count - 1));
        assert(nodes.take(count).last() == node);
        let rows = rows_with(nodes.take(count - 1), class, columns);
        let before = try_fold(read, rows, step)->Ok_0;
        let was = members_read(nodes, have, class, count - 1);
        let now = members_read(nodes, have, class, count);
        if node_types(node).contains(class) {
            let row = resolve_row(node.id, node_cells(node.properties), columns);
            assert(rows.push(row).drop_last() =~= rows);
            assert(rows.push(row).last() == row);
            lemma_type_row(before, nodes, was, count - 1, class, columns);
            let next = step(before, row)->Ok_0;
            let got = and_of(was, count - 1, in_columns(node));
            assert forall|i: int, q: Seq<char>| 0 <= i < nodes.len() implies #[trigger] got(i, q)
                == now(i, q) by {}
            lemma_agrees_same(next, nodes, got, now);
        } else {
            assert forall|i: int, q: Seq<char>| 0 <= i < nodes.len() implies #[trigger] was(i, q)
                == now(i, q) by {}
            lemma_agrees_same(before, nodes, was, now);
        }
    }
}

/// The rows of the members of a type among nodes in rising order are in
/// order of their identifiers, and each begins with the identifier of a
/// node.
pub proof fn lemma_rows_with_ordered(
    nodes: Seq<NodeView>,
    class: Seq<char>,
    columns: Seq<Seq<char>>,
)
    requires
        sorted_nodes(nodes),
        forall|i: int| 0 <= i < nodes.len() ==> node_returns(#[trigger] nodes[i]),
    ensures
        ordered(rows_with(nodes, class, columns), row_lt(1)),
        forall|i: int|
            0 <= i < rows_with(nodes, class, columns).len() ==> row_of(
                nodes,
                #[trigger] rows_with(nodes, class, columns)[i],
            ),
    decreases nodes.len(),
{
    if nodes.len() > 0 {
        let rest = nodes.drop_last();
        let node = nodes.last();
        let last = nodes.len() - 1;
        lemma_sorted_rest(nodes);
        assert forall|i: int| 0 <= i < rest.len() implies node_returns(#[trigger] rest[i]) by {
            assert(rest[i] == nodes[i]);
        }
        lemma_rows_with_ordered(rest, class, columns);
        let before = rows_with(rest, class, columns);
        let all = rows_with(nodes, class, columns);
        assert(node == nodes[last]);
        assert(node_returns(node));
        assert forall|i: int| 0 <= i < all.len() implies row_of(nodes, #[trigger] all[i]) by {
            if i < before.len() {
                assert(all[i] == before[i]);
                let k = choose|k: int|
                    0 <= k < rest.len() && before[i][0] == (#[trigger] rest[k]).id;
                assert(nodes[k] == rest[k]);
            } else {
                assert(all[i][0] == nodes[last].id);
            }
        }
        assert forall|i: int, j: int| 0 <= i < j < all.len() implies !row_lt(1)(
            #[trigger] all[j],
            #[trigger] all[i],
        ) by {
            if j < before.len() {
                assert(all[i] == before[i] && all[j] == before[j]);
            } else {
                assert(all[j][0] == node.id);
                assert(all[i] == before[i]);
                let k = choose|k: int|
                    0 <= k < rest.len() && before[i][0] == (#[trigger] rest[k]).id;
                assert(nodes[k] == rest[k]);
                assert(node_returns(nodes[k]));
                lemma_ids_rise(nodes, k, last);
                lemma_text_lt_asymmetric(nodes[k].id, node.id);
            }
        }
    }
}

/// Reading the table of a type into nodes that agree with the nodes gives
/// nodes that agree as far as the members of the type.
pub proof fn lemma_type_sheet(
    read: Seq<NodeView>,
    nodes: Seq<NodeView>,
    have: Progress,
    class: Seq<char>,
    name: Seq<char>,
)
    requires
        agrees(read, nodes, have),
        sorted_nodes(nodes),
        forall|i: int| 0 <= i < nodes.len() ==> node_returns(#[trigger] nodes[i]),
    ensures
        type_sheet_nodes(read, class, type_table(nodes, class, name)) matches Ok(next) && agrees(
            next,
            nodes,
            members_read(nodes, have, class, nodes.len() as int),
        ),
{
    let builder = type_builder(nodes, class);
    let columns = builder.columns;
    let table = type_table(nodes, class, name);
    assert(table.columns.len() > 0);
    lemma_rows_with(nodes, class, columns);
    assert(builder == (TypeTableView { columns, rows: builder.rows }));
    lemma_rows_with_ordered(nodes, class, columns);
    lemma_sort_ordered(rows_with(nodes, class, columns), row_lt(1));
    lemma_builder_covers(nodes, class);
    assert(nodes.take(nodes.len() as int) =~= nodes);
    lemma_type_rows(read, nodes, have, class, columns, nodes.len() as int);
}

/// Putting a value under a key twice is putting the second value.
pub proof fn lemma_insert_twice(
    m: Seq<(Seq<char>, PropertyView)>,
    key: Seq<char>,
    first: PropertyView,
    second: PropertyView,
)
    requires
        strictly_sorted(keys(m)),
    ensures
        insert_entry(insert_entry(m, key, first), key, second) == insert_entry(m, key, second),
{
    let once = insert_entry(m, key, first);
    lemma_insert_entry_sorted(m, key, first);
    lemma_insert_entry_sorted(once, key, second);
    lemma_insert_entry_sorted(m, key, second);
    assert forall|q: Seq<char>|
        lookup(insert_entry(once, key, second), q) == lookup(insert_entry(m, key, second), q) by {
        lemma_lookup_insert(once, key, second, q);
        lemma_lookup_insert(m, key, first, q);
        lemma_lookup_insert(m, key, second, q);
    }
    lemma_entries_equal(insert_entry(once, key, second), insert_entry(m, key, second));
}

/// The references that a node gives to the child table of a type and a
/// predicate: those that it holds under the predicate as a list, if the
/// type is its first.
pub open spec fn targets_of(node: NodeView, class: Seq<char>, predicate: Seq<char>) -> Option<
    Seq<Seq<char>>,
> {
    if node_types(node)[0] == class {
        match node.get(predicate) {
            Some(PropertyView::ObjectRefs(targets)) => Some(targets),
            _ => None,
        }
    } else {
        None
    }
}

/// Reading the first edges of a node, into nodes that agree with the
/// nodes and have nothing yet under the predicate for that node, puts the
/// first targets under the predicate.
pub proof fn lemma_node_edges(
    read: Seq<NodeView>,
    nodes: Seq<NodeView>,
    have: Progress,
    at: int,
    class: Seq<char>,
    predicate: Seq<char>,
    count: int,
)
    requires
        agrees(read, nodes, have),
        sorted_nodes(nodes),
        0 <= at < nodes.len(),
        node_returns(nodes[at]),
        targets_of(nodes[at], class, predicate) is Some,
        !have(at, predicate),
        0 < count <= targets_of(nodes[at], class, predicate)->Some_0.len(),
    ensures
        try_fold(
            read,
            node_edges(nodes[at], class, predicate).take(count),
            edge_stepper(predicate),
        ) == Ok::<Seq<NodeView>, ErrorKind>(
            read.update(
                at,
                with_property(
                    read[at],
                    predicate,
                    PropertyView::ObjectRefs(
                        targets_of(nodes[at], class, predicate)->Some_0.take(count),
                    ),
                ),
            ),
        ),
    decreases count,
{
    let node = nodes[at];
    let targets = targets_of(node, class, predicate)->Some_0;
    let rows = node_edges(node, class, predicate);
    let step = edge_stepper(predicate);
    let key = plain_key(node.id);
    crate::text::lemma_rank(keys(node.properties), predicate);
    let k = crate::text::rank(keys(node.properties), predicate);
    assert(node.properties[k] == (predicate, PropertyView::ObjectRefs(targets)));
    assert(value_returns(node.properties[k].0, node.properties[k].1));
    assert(rows.len() == targets.len());
    let row = rows[count - 1];
    assert(row == seq![node.id, targets[count - 1]]);
    assert(cell(row, 0) == node.id);
    assert(cell(row, 1) == targets[count - 1]);
    assert(targets[count - 1].len() > 0);
    lemma_agrees_keys(read, nodes, have);
    assert(key_of(read[at]) == key);
    assert(rows.take(count).drop_last() =~= rows.take(count - 1));
    assert(rows.take(count).last() == row);
    if count == 1 {
        assert(rows.take(0) =~= Seq::<Row>::empty());
        lemma_position_at(read, at);
        assert(lookup(read[at].properties, predicate) is None);
        assert(targets.take(1) =~= seq![targets[0]]);
    } else {
        lemma_node_edges(read, nodes, have, at, class, predicate, count - 1);
        let held = PropertyView::ObjectRefs(targets.take(count - 1));
        let partial = with_property(read[at], predicate, held);
        let before = read.update(at, partial);
        lemma_update_sorted(read, at, partial);
        lemma_position_at(before, at);
        lemma_lookup_insert(read[at].properties, predicate, held, predicate);
        assert(targets.take(count - 1).push(targets[count - 1]) =~= targets.take(count));
        lemma_insert_twice(
            read[at].properties,
            predicate,
            held,
            PropertyView::ObjectRefs(targets.take(count)),
        );
        assert(before.update(
            at,
            with_property(partial, predicate, PropertyView::ObjectRefs(targets.take(count))),
        ) =~= read.update(
            at,
            with_property(read[at], predicate, PropertyView::ObjectRefs(targets.take(count))),
        ));
    }
}

/// What has been read once the edges of the first nodes in the child
/// table of a type and a predicate are read: what had been read, and of
/// those nodes the lists of references under the predicate.
pub open spec fn edges_read(
    nodes: Seq<NodeView>,
    have: Progress,
    class: Seq<char>,
    predicate: Seq<char>,
    count: int,
) -> Progress {
    |i: int, q: Seq<char>|
        have(i, q) || (0 <= i < count && i < nodes.len() && q == predicate && targets_of(
            nodes[i],
            class,
            predicate,
        ) is Some)
}

/// Reading the edges of the first nodes in the child table of a type and
/// a predicate, into nodes that agree with the nodes, gives nodes that
/// agree as far as those edges.
pub proof fn lemma_edge_rows(
    read: Seq<NodeView>,
    nodes: Seq<NodeView>,
    have: Progress,
    class: Seq<char>,
    predicate: Seq<char>,
    count: int,
)
    requires
        agrees(read, nodes, have),
        sorted_nodes(nodes),
        forall|i: int| 0 <= i < nodes.len() ==> node_returns(#[trigger] nodes[i]),
        forall|i: int|
            0 <= i < nodes.len() && targets_of(#[trigger] nodes[i], class, predicate) is Some
                ==> !have(i, predicate),
        0 <= count <= nodes.len(),
    ensures
        try_fold(read, edges(nodes.take(count), class, predicate), edge_stepper(predicate))
            matches Ok(next) && agrees(
            next,
            nodes,
            edges_read(nodes, have, class, predicate, count),
        ),
    decreases count,
{
    let step = edge_stepper(predicate);
    if count == 0 {
        assert(nodes.take(0) =~= Seq::<NodeView>::empty());
        lemma_agrees_same(read, nodes, have, edges_read(nodes, have, class, predicate, 0));
    } else {
        lemma_edge_rows(read, nodes, have, class, predicate, count - 1);
        let at = count - 1;
        let node = nodes[at];
        assert(nodes.take(count).drop_last() =~= nodes.take(count - 1));
        assert(nodes.take(count).last() == node);
        let rows = edges(nodes.take(count - 1), class, predicate);
        let own = node_edges(node, class, predicate);
        let before = try_fold(read, rows, step)->Ok_0;
        let was = edges_read(nodes, have, class, predicate, count - 1);
        let now = edges_read(nodes, have, class, predicate, count);
        lemma_try_fold_concat(read, rows, own, step);
        if targets_of(node, class, predicate) is Some {
            let targets = targets_of(node, class, predicate)->Some_0;
            crate::text::lemma_rank(keys(node.properties), predicate);
            let k = crate::text::rank(keys(node.properties), predicate);
            assert(node.properties[k] == (predicate, PropertyView::ObjectRefs(targets)));
            assert(value_returns(node.properties[k].0, node.properties[k].1));
            assert(!have(at, predicate));
            assert(!was(at, predicate));
            assert(own.len() == targets.len());
            assert(own.take(own.len() as int) =~= own);
            assert(targets.take(targets.len() as int) =~= targets);
            lemma_node_edges(before, nodes, was, at, class, predicate, targets.len() as int);
            let value = PropertyView::ObjectRefs(targets);
            let next = before.update(at, with_property(before[at], predicate, value));
            lemma_insert_entry_sorted(before[at].properties, predicate, value);
            assert forall|i: int| 0 <= i < nodes.len() implies {
                &&& (#[trigger] next[i]).id == nodes[i].id
                &&& next[i].graph == nodes[i].graph
                &&& next[i].types == nodes[i].types
                &&& strictly_sorted(keys(next[i].properties))
                &&& forall|q: Seq<char>|
                    #[trigger] lookup(next[i].properties, q) == (if now(i, q) {
                        lookup(nodes[i].properties, q)
                    } else {
                        None
                    })
            } by {
                assert(before[i].id == nodes[i].id);
                assert forall|q: Seq<char>|
                    #[trigger] lookup(next[i].properties, q) == (if now(i, q) {
                        lookup(nodes[i].properties, q)
                    } else {
                        None
                    }) by {
                    assert(lookup(before[i].properties, q) == (if was(i, q) {
                        lookup(nodes[i].properties, q)
                    } else {
                        None
                    }));
                    if i == at {
                        lemma_lookup_insert(before[at].properties, predicate, value, q);
                    } else {
                        assert(next[i] == before[i]);
                    }
                }
            }
        } else {
            assert(own =~= Seq::<Row>::empty());
            assert forall|i: int, q: Seq<char>| 0 <= i < nodes.len() implies #[trigger] was(i, q)
                == now(i, q) by {}
            lemma_agrees_same(before, nodes, was, now);
        }
    }
}

/// Reading the child table of a type and a predicate, into nodes that
/// agree with the nodes and have none of its lists yet, gives nodes that
/// agree as far as those lists.
pub proof fn lemma_child_sheet(
    read: Seq<NodeView>,
    nodes: Seq<NodeView>,
    have: Progress,
    class: Seq<char>,
    predicate: Seq<char>,
    name: Seq<char>,
)
    requires
        agrees(read, nodes, have),
        sorted_nodes(nodes),
        forall|i: int| 0 <= i < nodes.len() ==> node_returns(#[trigger] nodes[i]),
        forall|i: int|
            0 <= i < nodes.len() && targets_of(#[trigger] nodes[i], class, predicate) is Some
                ==> !have(i, predicate),
    ensures
        child_sheet_nodes(read, predicate, child_table(nodes, class, predicate, name))
            matches Ok(next) && agrees(
            next,
            nodes,
            edges_read(nodes, have, class, predicate, nodes.len() as int),
        ),
{
    assert(nodes.take(nodes.len() as int) =~= nodes);
    lemma_edge_rows(read, nodes, have, class, predicate, nodes.len() as int);
}

/// A table of tables with names of their own is found under its name.
pub proof fn lemma_sheet_found(tables: Seq<SheetView>, at: int)
    requires
        forall|i: int, j: int|
            0 <= i < j < tables.len() ==> (#[trigger] tables[i]).sheet_name != (
            #[trigger] tables[j]).sheet_name,
        0 <= at < tables.len(),
    ensures
        sheet(tables, tables[at].sheet_name) == Some(tables[at]),
{
    assert forall|i: int| 0 <= i < at implies (#[trigger] tables[i]).sheet_name
        != tables[at].sheet_name by {}
    lemma_sheet_index_is(tables, tables[at].sheet_name, at);
}

/// What a sorted sequence holds is what was sorted.
pub proof fn lemma_sort_holds<T>(s: Seq<T>, lt: spec_fn(T, T) -> bool, x: T)
    requires
        crate::order::strict_weak(lt),
    ensures
        sort(s, lt).contains(x) <==> s.contains(x),
{
    lemma_sort(s, lt);
    s.to_multiset_ensures();
    sort(s, lt).to_multiset_ensures();
    assert(s.contains(x) <==> s.to_multiset().count(x) > 0);
    assert(sort(s, lt).contains(x) <==> sort(s, lt).to_multiset().count(x) > 0);
}

/// Each generated table of a workbook is found under its name.
pub proof fn lemma_generated_found(nodes: Seq<NodeView>, at: int)
    requires
        all_types(nodes).len() + child_keys(nodes).len() + 2 < 0x1_0000_0000_0000_0000,
        0 <= at < generated(nodes).len(),
    ensures
        sheet(flattened(nodes), sheet_names(nodes)[at]) == Some(generated(nodes)[at]),
        sheet(flattened(nodes), METADATA_SHEET@) == Some(metadata_table(nodes)),
        sheet(flattened(nodes), ENTITIES_SHEET@) == Some(entities_table(nodes)),
{
    let whole = flattened(nodes);
    let made = generated(nodes);
    let sorted = sort(made, table_lt());
    sheet_names_are_distinct(nodes);
    lemma_table_lt_weak();
    lemma_sort_holds(made, table_lt(), made[at]);
    assert(made.contains(made[at]));
    let k = choose|k: int| 0 <= k < sorted.len() && sorted[k] == made[at];
    assert(whole[k + 2] == made[at]);
    lemma_sheet_found(whole, k + 2);
    assert(whole[0] == entities_table(nodes));
    assert(whole[1] == metadata_table(nodes));
    lemma_sheet_found(whole, 0);
    lemma_sheet_found(whole, 1);
}

/// What keys hold once more keys are put behind them: what they held, and
/// those keys; none twice, if none was there twice.
pub proof fn lemma_add_keys(keys: Seq<Row>, more: Seq<Row>, y: Row)
    ensures
        add_keys(keys, more).contains(y) <==> keys.contains(y) || more.contains(y),
        keys.no_duplicates() ==> add_keys(keys, more).no_duplicates(),
        all_pairs(keys) && all_pairs(more) ==> all_pairs(add_keys(keys, more)),
    decreases more.len(),
{
    if more.len() > 0 {
        let rest = more.drop_last();
        lemma_add_keys(keys, rest, y);
        lemma_add_keys(keys, rest, more.last());
        let before = add_keys(keys, rest);
        let now = add_keys(keys, more);
        assert(more[more.len() - 1] == more.last());
        if rest.contains(y) {
            let i = choose|i: int| 0 <= i < rest.len() && rest[i] == y;
            assert(more[i] == y);
        }
        if more.contains(y) {
            let i = choose|i: int| 0 <= i < more.len() && more[i] == y;
            if i < rest.len() {
                assert(rest[i] == y);
            }
        }
        if before.contains(more.last()) {
        } else {
            assert(now == before.push(more.last()));
            if before.contains(y) {
                let i = choose|i: int| 0 <= i < before.len() && before[i] == y;
                assert(now[i] == y);
            }
            if now.contains(y) {
                let i = choose|i: int| 0 <= i < now.len() && now[i] == y;
                if i < before.len() {
                    assert(before[i] == y);
                }
            }
            assert(now[now.len() - 1] == more.last());
            if keys.no_duplicates() {
                assert forall|i: int, j: int|
                    0 <= i < now.len() && 0 <= j < now.len() && i != j implies now[i]
                    != now[j] by {
                    if i < before.len() && j < before.len() {
                        assert(before[i] != before[j]);
                    } else if i < before.len() {
                        assert(before.contains(before[i]));
                    } else {
                        assert(before.contains(before[j]));
                    }
                }
            }
            if all_pairs(keys) && all_pairs(more) {
                assert(all_pairs(rest)) by {
                    assert forall|i: int| 0 <= i < rest.len() implies (#[trigger] rest[i]).len()
                        == 2 by {
                        assert(rest[i] == more[i]);
                    }
                }
                assert forall|i: int| 0 <= i < now.len() implies (#[trigger] now[i]).len()
                    == 2 by {
                    if i < before.len() {
                        assert(now[i] == before[i]);
                    }
                }
            }
        }
        if all_pairs(keys) && all_pairs(more) {
            assert(all_pairs(rest)) by {
                assert forall|i: int| 0 <= i < rest.len() implies (#[trigger] rest[i]).len()
                    == 2 by {
                    assert(rest[i] == more[i]);
                }
            }
        }
    }
}

/// The keys that a node asks for are pairs of its first type and a
/// predicate, one for each list of references.
pub proof fn lemma_node_child_keys(
    class: Seq<char>,
    properties: Seq<(Seq<char>, PropertyView)>,
)
    ensures
        all_pairs(node_child_keys(class, properties)),
        forall|k: int|
            0 <= k < properties.len() && (#[trigger] properties[k]).1 is ObjectRefs
                ==> node_child_keys(class, properties).contains(seq![class, properties[k].0]),
    decreases properties.len(),
{
    if properties.len() > 0 {
        let rest = properties.drop_last();
        lemma_node_child_keys(class, rest);
        let before = node_child_keys(class, rest);
        let now = node_child_keys(class, properties);
        let last = properties.len() - 1;
        assert(properties.last() == properties[last]);
        assert forall|i: int| 0 <= i < now.len() implies (#[trigger] now[i]).len() == 2 by {
            if i < before.len() {
                assert(now[i] == before[i]);
            }
        }
        assert forall|k: int|
            0 <= k < properties.len() && (#[trigger] properties[k]).1 is ObjectRefs implies now.contains(
            seq![class, properties[k].0],
        ) by {
            if k < last {
                assert(rest[k] == properties[k]);
                let wanted = seq![class, properties[k].0];
                assert(before.contains(wanted));
                let i = choose|i: int| 0 <= i < before.len() && before[i] == wanted;
                assert(now[i] == wanted);
            } else {
                assert(now[now.len() - 1] == seq![class, properties[k].0]);
            }
        }
    }
}

/// The keys of the child tables are pairs, none of them twice, and there
/// is one for each list of references of each node, under its first type.
pub proof fn lemma_child_keys(nodes: Seq<NodeView>)
    ensures
        all_pairs(child_keys(nodes)),
        child_keys(nodes).no_duplicates(),
        forall|i: int, k: int|
            0 <= i < nodes.len() && 0 <= k < nodes[i].properties.len() && (
            #[trigger] nodes[i].properties[k]).1 is ObjectRefs ==> child_keys(nodes).contains(
                seq![node_types(nodes[i])[0], nodes[i].properties[k].0],
            ),
{
    lemma_keys_found(nodes);
    let found = child_keys_found(nodes);
    let sorted = child_keys(nodes);
    lemma_row_lt_weak(2);
    lemma_sort(found, row_lt(2));
    found.lemma_multiset_has_no_duplicates();
    sorted.lemma_multiset_has_no_duplicates_conv();
    assert forall|i: int| 0 <= i < sorted.len() implies (#[trigger] sorted[i]).len() == 2 by {
        lemma_sort_holds(found, row_lt(2), sorted[i]);
        assert(sorted.contains(sorted[i]));
        let j = choose|j: int| 0 <= j < found.len() && found[j] == sorted[i];
        assert(found[j].len() == 2);
    }
    assert forall|i: int, k: int|
        0 <= i < nodes.len() && 0 <= k < nodes[i].properties.len() && (
        #[trigger] nodes[i].properties[k]).1 is ObjectRefs implies sorted.contains(
        seq![node_types(nodes[i])[0], nodes[i].properties[k].0],
    ) by {
        lemma_sort_holds(found, row_lt(2), seq![node_types(nodes[i])[0], nodes[i].properties[k].0]);
    }
}

/// The keys found among the nodes are pairs, none of them twice, and
/// there is one for each list of references of each node.
pub proof fn lemma_keys_found(nodes: Seq<NodeView>)
    ensures
        all_pairs(child_keys_found(nodes)),
        child_keys_found(nodes).no_duplicates(),
        forall|i: int, k: int|
            0 <= i < nodes.len() && 0 <= k < nodes[i].properties.len() && (
            #[trigger] nodes[i].properties[k]).1 is ObjectRefs ==> child_keys_found(
                nodes,
            ).contains(seq![node_types(nodes[i])[0], nodes[i].properties[k].0]),
    decreases nodes.len(),
{
    if nodes.len() > 0 {
        let rest = nodes.drop_last();
        let node = nodes.last();
        let last = nodes.len() - 1;
        assert(node == nodes[last]);
        lemma_keys_found(rest);
        let before = child_keys_found(rest);
        let own = node_child_keys(node_types(node)[0], node.properties);
        let now = child_keys_found(nodes);
        lemma_node_child_keys(node_types(node)[0], node.properties);
        lemma_add_keys(before, own, Seq::<Seq<char>>::empty());
        assert forall|i: int, k: int|
            0 <= i < nodes.len() && 0 <= k < nodes[i].properties.len() && (
            #[trigger] nodes[i].properties[k]).1 is ObjectRefs implies now.contains(
            seq![node_types(nodes[i])[0], nodes[i].properties[k].0],
        ) by {
            let wanted = seq![node_types(nodes[i])[0], nodes[i].properties[k].0];
            lemma_add_keys(before, own, wanted);
            if i < last {
                assert(rest[i] == nodes[i]);
                assert(rest[i].properties[k].1 is ObjectRefs);
            }
        }
    }
}

/// What the first rows of the metadata table of a workbook say: each
/// type sheet with its type, then each child sheet with its predicate.
pub open spec fn roles_of(nodes: Seq<NodeView>, count: int) -> RolesView {
    let types = all_types(nodes);
    let keys = child_keys(nodes);
    let names = sheet_names(nodes);
    RolesView {
        type_sheets: Seq::new(
            (if count < types.len() { count } else { types.len() as int }) as nat,
            |i: int| (names[i], types[i]),
        ),
        child_sheets: Seq::new(
            (if count < types.len() { 0 } else { count - types.len() }) as nat,
            |j: int| (names[types.len() + j], keys[j][1]),
        ),
    }
}

/// Reading the first rows of the metadata table of a workbook gives what
/// they say.
pub proof fn lemma_metadata_read(nodes: Seq<NodeView>, count: int)
    requires
        all_types(nodes).len() + child_keys(nodes).len() + 2 < 0x1_0000_0000_0000_0000,
        0 <= count <= metadata_rows(nodes).len(),
    ensures
        metadata_roles(metadata_rows(nodes).take(count)) == Some(roles_of(nodes, count)),
    decreases count,
{
    let types = all_types(nodes);
    let keys = child_keys(nodes);
    let names = sheet_names(nodes);
    let rows = metadata_rows(nodes);
    if count == 0 {
        assert(rows.take(0) =~= Seq::<Row>::empty());
        assert(roles_of(nodes, 0).type_sheets =~= Seq::<(Seq<char>, Seq<char>)>::empty());
        assert(roles_of(nodes, 0).child_sheets =~= Seq::<(Seq<char>, Seq<char>)>::empty());
    } else {
        lemma_metadata_read(nodes, count - 1);
        assert(rows.take(count).drop_last() =~= rows.take(count - 1));
        let at = count - 1;
        let row = rows[at];
        assert(rows.take(count).last() == row);
        let before = roles_of(nodes, count - 1);
        let now = roles_of(nodes, count);
        reveal_strlit("type");
        reveal_strlit("child");
        assert("type"@ != "child"@) by {
            assert("type"@[0] == 't');
            assert("child"@[0] == 'c');
        }
        let empty = Seq::<Seq<char>>::empty();
        crate::model::lemma_insert_text_sorted(empty, ENTITIES_SHEET@);
        crate::model::lemma_insert_text_sorted(
            insert_text(empty, ENTITIES_SHEET@),
            METADATA_SHEET@,
        );
        lemma_insert_text_holds(empty, ENTITIES_SHEET@, ENTITIES_SHEET@);
        lemma_insert_text_holds(
            insert_text(empty, ENTITIES_SHEET@),
            METADATA_SHEET@,
            METADATA_SHEET@,
        );
        assert(raws_of(types, keys).len() == types.len() + keys.len());
        lemma_assign_all(reserved(), raws_of(types, keys));
        if at < types.len() {
            assert(row == seq!["type"@, names[at], types[at], Seq::<char>::empty()]);
            assert(cell(row, 0) == "type"@);
            assert(cell(row, 1) == names[at]);
            assert(cell(row, 2) == types[at]);
            assert forall|i: int| 0 <= i < before.type_sheets.len() implies (
            #[trigger] before.type_sheets[i]).0 != names[at] by {
                assert(names[i] != names[at]);
            }
            lemma_pair_index_is(before.type_sheets, names[at], before.type_sheets.len() as int);
            assert(put_pair(before.type_sheets, names[at], types[at]) =~= now.type_sheets);
            assert(before.child_sheets =~= now.child_sheets);
        } else {
            let j = at - types.len();
            assert(row == seq!["child"@, names[at], keys[j][0], keys[j][1]]);
            assert(cell(row, 0) == "child"@);
            assert(cell(row, 1) == names[at]);
            assert(cell(row, 3) == keys[j][1]);
            assert forall|i: int| 0 <= i < before.child_sheets.len() implies (
            #[trigger] before.child_sheets[i]).0 != names[at] by {
                assert(names[types.len() + i] != names[at]);
            }
            lemma_pair_index_is(before.child_sheets, names[at], before.child_sheets.len() as int);
            assert(put_pair(before.child_sheets, names[at], keys[j][1]) =~= now.child_sheets);
            assert(before.type_sheets =~= now.type_sheets);
        }
    }
}

/// What has been read once the first type sheets are read: of each node
/// that has one of their types, every value that has a column.
pub open spec fn types_read(nodes: Seq<NodeView>, count: int) -> Progress {
    |i: int, q: Seq<char>|
        0 <= i < nodes.len() && column_in(nodes[i], q) is Some && exists|t: int|
            0 <= t < count && t < all_types(nodes).len() && node_types(nodes[i]).contains(
                #[trigger] all_types(nodes)[t],
            )
}

/// Reading the first type sheets of the workbook for nodes gives nodes
/// that agree as far as the members of their types.
pub proof fn lemma_type_roles(nodes: Seq<NodeView>, count: int)
    requires
        nodes_return(nodes),
        0 <= count <= all_types(nodes).len(),
    ensures
        try_fold(
            bare(nodes),
            roles_of(nodes, metadata_rows(nodes).len() as int).type_sheets.take(count),
            type_role_stepper(flattened(nodes)),
        ) matches Ok(next) && agrees(next, nodes, types_read(nodes, count)),
    decreases count,
{
    let types = all_types(nodes);
    let names = sheet_names(nodes);
    let tables = flattened(nodes);
    let roles = roles_of(nodes, metadata_rows(nodes).len() as int).type_sheets;
    let step = type_role_stepper(tables);
    assert(roles.len() == types.len());
    if count == 0 {
        assert(roles.take(0) =~= Seq::<(Seq<char>, Seq<char>)>::empty());
        lemma_agrees_bare(nodes);
        assert forall|i: int, q: Seq<char>| 0 <= i < nodes.len() implies #[trigger] nothing()(i, q)
            == types_read(nodes, 0)(i, q) by {}
        lemma_agrees_same(bare(nodes), nodes, nothing(), types_read(nodes, 0));
    } else {
        lemma_type_roles(nodes, count - 1);
        lemma_try_fold_next(bare(nodes), roles, step, count - 1);
        let at = count - 1;
        let before = try_fold(bare(nodes), roles.take(count - 1), step)->Ok_0;
        let was = types_read(nodes, count - 1);
        let now = types_read(nodes, count);
        assert(roles[at] == (names[at], types[at]));
        lemma_generated_found(nodes, at);
        assert(generated(nodes)[at] == type_table(nodes, types[at], names[at]));
        lemma_type_sheet(before, nodes, was, types[at], names[at]);
        let next = type_sheet_nodes(before, types[at], type_table(nodes, types[at], names[at]))->Ok_0;
        let got = members_read(nodes, was, types[at], nodes.len() as int);
        assert forall|i: int, q: Seq<char>| 0 <= i < nodes.len() implies #[trigger] got(i, q)
            == now(i, q) by {
            if got(i, q) {
                if was(i, q) {
                    let t = choose|t: int|
                        0 <= t < count - 1 && t < all_types(nodes).len() && node_types(
                            nodes[i],
                        ).contains(#[trigger] all_types(nodes)[t]);
                    assert(node_types(nodes[i]).contains(all_types(nodes)[t]));
                } else {
                    assert(node_types(nodes[i]).contains(all_types(nodes)[at]));
                }
            }
            if now(i, q) {
                let t = choose|t: int|
                    0 <= t < count && t < all_types(nodes).len() && node_types(
                        nodes[i],
                    ).contains(#[trigger] all_types(nodes)[t]);
                if t < count - 1 {
                    assert(node_types(nodes[i]).contains(all_types(nodes)[t]));
                    assert(was(i, q));
                }
            }
        }
        lemma_agrees_same(next, nodes, got, now);
    }
}

/// What has been read once the type sheets and the first child sheets are
/// read: every value that has a column, and of each node the lists of
/// references that those child sheets hold.
pub open spec fn children_read(nodes: Seq<NodeView>, count: int) -> Progress {
    |i: int, q: Seq<char>|
        0 <= i < nodes.len() && (column_in(nodes[i], q) is Some || exists|c: int|
            0 <= c < count && c < child_keys(nodes).len() && q == (
            #[trigger] child_keys(nodes)[c])[1] && targets_of(
                nodes[i],
                child_keys(nodes)[c][0],
                child_keys(nodes)[c][1],
            ) is Some)
}

/// Before a child sheet is read, none of the lists that it holds has been
/// read.
pub proof fn lemma_child_unread(nodes: Seq<NodeView>, at: int, i: int)
    requires
        0 <= at < child_keys(nodes).len(),
        0 <= i < nodes.len(),
        targets_of(nodes[i], child_keys(nodes)[at][0], child_keys(nodes)[at][1]) is Some,
    ensures
        !children_read(nodes, at)(i, child_keys(nodes)[at][1]),
{
    let keys = child_keys(nodes);
    let predicate = keys[at][1];
    lemma_child_keys(nodes);
    if children_read(nodes, at)(i, predicate) {
        assert(column_in(nodes[i], predicate) is None);
        let c = choose|c: int|
            0 <= c < at && c < child_keys(nodes).len() && predicate == (
            #[trigger] child_keys(nodes)[c])[1] && targets_of(
                nodes[i],
                child_keys(nodes)[c][0],
                child_keys(nodes)[c][1],
            ) is Some;
        assert(keys[c].len() == 2);
        assert(keys[at].len() == 2);
        assert(keys[c] =~= keys[at]);
    }
}

/// What has been read after one more child sheet is what had been read
/// and the lists of that sheet.
pub proof fn lemma_child_progress(nodes: Seq<NodeView>, at: int, i: int, q: Seq<char>)
    requires
        0 <= at < child_keys(nodes).len(),
        0 <= i < nodes.len(),
    ensures
        edges_read(
            nodes,
            children_read(nodes, at),
            child_keys(nodes)[at][0],
            child_keys(nodes)[at][1],
            nodes.len() as int,
        )(i, q) == children_read(nodes, at + 1)(i, q),
{
    let was = children_read(nodes, at);
    let now = children_read(nodes, at + 1);
    let got = edges_read(
        nodes,
        was,
        child_keys(nodes)[at][0],
        child_keys(nodes)[at][1],
        nodes.len() as int,
    );
    if got(i, q) && !was(i, q) {
        assert(q == child_keys(nodes)[at][1]);
    }
    if was(i, q) && column_in(nodes[i], q) is None {
        let c = choose|c: int|
            0 <= c < at && c < child_keys(nodes).len() && q == (#[trigger] child_keys(nodes)[c])[1]
                && targets_of(nodes[i], child_keys(nodes)[c][0], child_keys(nodes)[c][1]) is Some;
        assert(q == child_keys(nodes)[c][1]);
    }
    if now(i, q) && column_in(nodes[i], q) is None {
        let c = choose|c: int|
            0 <= c < at + 1 && c < child_keys(nodes).len() && q == (
            #[trigger] child_keys(nodes)[c])[1] && targets_of(
                nodes[i],
                child_keys(nodes)[c][0],
                child_keys(nodes)[c][1],
            ) is Some;
        if c < at {
            assert(q == child_keys(nodes)[c][1]);
            assert(was(i, q));
        }
    }
}

/// The child sheet at a place among the child sheets of the workbook for
/// nodes is the child table of its key.
pub proof fn lemma_child_found(nodes: Seq<NodeView>, at: int)
    requires
        all_types(nodes).len() + child_keys(nodes).len() + 2 < 0x1_0000_0000_0000_0000,
        0 <= at < child_keys(nodes).len(),
    ensures
        roles_of(nodes, metadata_rows(nodes).len() as int).child_sheets.len() == child_keys(
            nodes,
        ).len(),
        sheet(flattened(nodes), sheet_names(nodes)[all_types(nodes).len() + at]) == Some(
            child_table(
                nodes,
                child_keys(nodes)[at][0],
                child_keys(nodes)[at][1],
                sheet_names(nodes)[all_types(nodes).len() + at],
            ),
        ),
        roles_of(nodes, metadata_rows(nodes).len() as int).child_sheets[at] == (
            sheet_names(nodes)[all_types(nodes).len() + at],
            child_keys(nodes)[at][1],
        ),
{
    let types = all_types(nodes);
    lemma_generated_found(nodes, types.len() + at);
}

/// Reading the first child sheets of the workbook for nodes, into nodes
/// that agree as far as the type sheets, gives nodes that agree as far as
/// those child sheets.
pub proof fn lemma_child_roles(nodes: Seq<NodeView>, read: Seq<NodeView>, count: int)
    requires
        nodes_return(nodes),
        agrees(read, nodes, children_read(nodes, 0)),
        0 <= count <= child_keys(nodes).len(),
    ensures
        try_fold(
            read,
            roles_of(nodes, metadata_rows(nodes).len() as int).child_sheets.take(count),
            child_role_stepper(flattened(nodes)),
        ) matches Ok(next) && agrees(next, nodes, children_read(nodes, count)),
    decreases count,
{
    let keys = child_keys(nodes);
    let names = sheet_names(nodes);
    let tables = flattened(nodes);
    let roles = roles_of(nodes, metadata_rows(nodes).len() as int).child_sheets;
    let step = child_role_stepper(tables);
    if count == 0 {
        assert(roles.take(0) =~= Seq::<(Seq<char>, Seq<char>)>::empty());
    } else {
        let at = count - 1;
        lemma_child_found(nodes, at);
        lemma_child_roles(nodes, read, count - 1);
        lemma_try_fold_next(read, roles, step, count - 1);
        let before = try_fold(read, roles.take(count - 1), step)->Ok_0;
        let was = children_read(nodes, count - 1);
        let now = children_read(nodes, count);
        let class = keys[at][0];
        let predicate = keys[at][1];
        let name = names[all_types(nodes).len() + at];
        assert forall|i: int|
            0 <= i < nodes.len() && targets_of(#[trigger] nodes[i], class, predicate) is Some implies !was(
            i,
            predicate,
        ) by {
            lemma_child_unread(nodes, at, i);
        }
        lemma_child_sheet(before, nodes, was, class, predicate, name);
        let next = child_sheet_nodes(before, predicate, child_table(nodes, class, predicate, name))->Ok_0;
        let got = edges_read(nodes, was, class, predicate, nodes.len() as int);
        assert forall|i: int, q: Seq<char>| 0 <= i < nodes.len() implies #[trigger] got(i, q)
            == now(i, q) by {
            lemma_child_progress(nodes, at, i, q);
        }
        lemma_agrees_same(next, nodes, got, now);
    }
}

/// Once every type sheet is read, every value that has a column is read.
pub proof fn lemma_types_done(nodes: Seq<NodeView>, i: int, q: Seq<char>)
    requires
        0 <= i < nodes.len(),
    ensures
        types_read(nodes, all_types(nodes).len() as int)(i, q) == children_read(nodes, 0)(i, q),
{
    let types = all_types(nodes);
    crate::flatten::lemma_all_types(nodes);
    if column_in(nodes[i], q) is Some {
        let first = node_types(nodes[i])[0];
        assert(node_types(nodes[i]).contains(first));
        assert(types.contains(first));
        let t = choose|t: int| 0 <= t < types.len() && types[t] == first;
        assert(node_types(nodes[i]).contains(all_types(nodes)[t]));
    }
}

/// Once every child sheet is read, every value is read.
pub proof fn lemma_children_done(nodes: Seq<NodeView>, i: int, q: Seq<char>)
    requires
        0 <= i < nodes.len(),
        lookup(nodes[i].properties, q) is Some,
    ensures
        children_read(nodes, child_keys(nodes).len() as int)(i, q),
{
    let keys = child_keys(nodes);
    let node = nodes[i];
    lemma_child_keys(nodes);
    crate::text::lemma_rank(crate::model::keys(node.properties), q);
    let k = crate::text::rank(crate::model::keys(node.properties), q);
    assert(node.properties[k].0 == q);
    if node.properties[k].1 is ObjectRefs {
        let wanted = seq![node_types(node)[0], q];
        assert(keys.contains(wanted));
        let c = choose|c: int| 0 <= c < keys.len() && keys[c] == wanted;
        assert(child_keys(nodes)[c][1] == q);
        assert(child_keys(nodes)[c][0] == node_types(node)[0]);
        assert(targets_of(node, child_keys(nodes)[c][0], child_keys(nodes)[c][1]) is Some);
    }
}

/// Reading the sheets that the metadata table names, into the nodes that
/// the table of memberships lists, gives the nodes.
pub proof fn lemma_sheets_read(nodes: Seq<NodeView>)
    requires
        nodes_return(nodes),
    ensures
        try_fold(
            bare(nodes),
            roles_of(nodes, metadata_rows(nodes).len() as int).type_sheets,
            type_role_stepper(flattened(nodes)),
        ) matches Ok(typed) && try_fold(
            typed,
            roles_of(nodes, metadata_rows(nodes).len() as int).child_sheets,
            child_role_stepper(flattened(nodes)),
        ) == Ok::<Seq<NodeView>, ErrorKind>(nodes),
{
    let types = all_types(nodes);
    let keys = child_keys(nodes);
    let tables = flattened(nodes);
    let roles = roles_of(nodes, metadata_rows(nodes).len() as int);
    assert(roles.type_sheets.take(types.len() as int) =~= roles.type_sheets);
    lemma_type_roles(nodes, types.len() as int);
    let typed = try_fold(bare(nodes), roles.type_sheets, type_role_stepper(tables))->Ok_0;
    assert forall|i: int, q: Seq<char>| 0 <= i < nodes.len() implies #[trigger] types_read(
        nodes,
        types.len() as int,
    )(i, q) == children_read(nodes, 0)(i, q) by {
        lemma_types_done(nodes, i, q);
    }
    lemma_agrees_same(typed, nodes, types_read(nodes, types.len() as int), children_read(nodes, 0));
    assert(roles.child_sheets.take(keys.len() as int) =~= roles.child_sheets);
    lemma_child_roles(nodes, typed, keys.len() as int);
    let read = try_fold(typed, roles.child_sheets, child_role_stepper(tables))->Ok_0;
    let have = children_read(nodes, keys.len() as int);
    assert forall|i: int, q: Seq<char>|
        0 <= i < nodes.len() && lookup(nodes[i].properties, q) is Some implies #[trigger] have(
        i,
        q,
    ) by {
        lemma_children_done(nodes, i, q);
    }
    assert forall|i: int| 0 <= i < nodes.len() implies (#[trigger] nodes[i]).wf() by {
        assert(node_returns(nodes[i]));
    }
    lemma_agrees_all(read, nodes, have);
}

/// The metadata table and the table of memberships of the workbook for
/// nodes are found under their names, and read as what they say.
pub proof fn lemma_reserved_read(nodes: Seq<NodeView>)
    requires
        nodes_return(nodes),
    ensures
        sheet(flattened(nodes), METADATA_SHEET@) == Some(metadata_table(nodes)),
        sheet(flattened(nodes), ENTITIES_SHEET@) == Some(entities_table(nodes)),
        metadata_roles(metadata_table(nodes).rows) == Some(
            roles_of(nodes, metadata_rows(nodes).len() as int),
        ),
        entity_nodes(entities_table(nodes).rows) == Ok::<Seq<NodeView>, ErrorKind>(bare(nodes)),
{
    let tables = flattened(nodes);
    let rows = metadata_rows(nodes);
    sheet_names_are_distinct(nodes);
    lemma_sheet_found(tables, 0);
    lemma_sheet_found(tables, 1);
    assert(rows.take(rows.len() as int) =~= rows);
    lemma_metadata_read(nodes, rows.len() as int);
    lemma_memberships_ordered(nodes);
    lemma_sort_ordered(memberships(nodes), row_lt(2));
    lemma_entities_read(nodes);
}

/// Flattening nodes into a workbook and reading the workbook gives the
/// nodes back, for nodes that a workbook can carry: nodes of the default
/// graph in rising order of their identifiers, with identifiers and types
/// that are not empty, whose literals read back from their JSON text under
/// predicates that are not empty, whose references are not blank, and whose
/// lists of references are not empty and hold no empty reference; such a
/// list comes back in its own order.
pub proof fn flatten_then_unflatten(nodes: Seq<NodeView>)
    requires
        nodes_return(nodes),
    ensures
        flatten_defined(nodes),
        unflattened(flattened(nodes)) == Ok::<Seq<NodeView>, ErrorKind>(nodes),
{
    assert forall|i: int| 0 <= i < nodes.len() implies cells_defined(
        (#[trigger] nodes[i]).properties,
    ) by {
        lemma_cells_apart(nodes[i]);
    }
    lemma_reserved_read(nodes);
    lemma_sheets_read(nodes);
}

/// Whether two optional texts are the same.
fn same_text_option(a: &Option<String>, b: &Option<String>) -> (r: bool)
    ensures
        r == (crate::model::text_option(*a) == crate::model::text_option(*b)),
{
    match (a, b) {
        (None, None) => true,
        (Some(x), Some(y)) => str_eq(x.as_str(), y.as_str()),
        _ => false,
    }
}

/// Whether two literals are the same.
pub fn same_scalar(a: &ScalarValue, b: &ScalarValue) -> (r: bool)
    ensures
        r == (a@ == b@),
{
    match (a, b) {
        (ScalarValue::String(x), ScalarValue::String(y)) => str_eq(x.as_str(), y.as_str()),
        (ScalarValue::Number(x), ScalarValue::Number(y)) => {
            str_eq(x.decimal().as_str(), y.decimal().as_str()) && same_text_option(
                &x.json_text(),
                &y.json_text(),
            )
        },
        (ScalarValue::Boolean(x), ScalarValue::Boolean(y)) => *x == *y,
        (ScalarValue::Null, ScalarValue::Null) => true,
        _ => false,
    }
}

/// Whether two lists of texts are the same.
fn same_texts(a: &Vec<String>, b: &Vec<String>) -> (r: bool)
    ensures
        r == (texts(a@) == texts(b@)),
{
    if a.len() != b.len() {
        assert(texts(a@).len() != texts(b@).len());
        return false;
    }
    let mut i: usize = 0;
    while i < a.len()
        invariant
            i <= a.len(),
            a.len() == b.len(),
            forall|k: int| 0 <= k < i ==> a@[k]@ == b@[k]@,
        decreases a.len() - i,
    {
        if !str_eq(a[i].as_str(), b[i].as_str()) {
            assert(texts(a@)[i as int] != texts(b@)[i as int]);
            return false;
        }
        i += 1;
    }
    assert(texts(a@) =~= texts(b@));
    true
}

/// Whether two lists of literals are the same.
fn same_scalars(a: &Vec<ScalarValue>, b: &Vec<ScalarValue>) -> (r: bool)
    ensures
        r == (scalars(a@) == scalars(b@)),
{
    if a.len() != b.len() {
        assert(scalars(a@).len() != scalars(b@).len());
        return false;
    }
    let mut i: usize = 0;
    while i < a.len()
        invariant
            i <= a.len(),
            a.len() == b.len(),
            forall|k: int| 0 <= k < i ==> a@[k]@ == b@[k]@,
        decreases a.len() - i,
    {
        if !same_scalar(&a[i], &b[i]) {
            assert(scalars(a@)[i as int] != scalars(b@)[i as int]);
            return false;
        }
        i += 1;
    }
    assert(scalars(a@) =~= scalars(b@));
    true
}

/// Whether two values are the same.
pub fn same_value(a: &PropertyValue, b: &PropertyValue) -> (r: bool)
    ensures
        r == (a@ == b@),
{
    match (a, b) {
        (PropertyValue::Scalar(x), PropertyValue::Scalar(y)) => same_scalar(x, y),
        (PropertyValue::ObjectRef(x), PropertyValue::ObjectRef(y)) => str_eq(
            x.as_str(),
            y.as_str(),
        ),
        (
            PropertyValue::Array(ArrayValue::Scalars(x)),
            PropertyValue::Array(ArrayValue::Scalars(y)),
        ) => same_scalars(x, y),
        (
            PropertyValue::Array(ArrayValue::ObjectRefs(x)),
            PropertyValue::Array(ArrayValue::ObjectRefs(y)),
        ) => same_texts(x, y),
        _ => false,
    }
}

/// Whether the cell of a value reads back as the value under its
/// predicate.
pub fn value_comes_back(predicate: &str, value: &PropertyValue) -> (r: bool)
    ensures
        r == value_returns(predicate@, value@),
{
    match value {
        PropertyValue::ObjectRef(target) => !is_blank(target.as_str()),
        PropertyValue::Array(ArrayValue::ObjectRefs(targets)) => {
            if targets.len() == 0 {
                return false;
            }
            let ghost all = texts(targets@);
            let mut i: usize = 0;
            while i < targets.len()
                invariant
                    i <= targets.len(),
                    all == texts(targets@),
                    value@ == PropertyView::ObjectRefs(all),
                    forall|k: int| 0 <= k < i ==> (#[trigger] all[k]).len() > 0,
                decreases targets.len() - i,
            {
                assert(all[i as int] == targets@[i as int]@);
                if targets[i].as_str().unicode_len() == 0 {
                    assert(all[i as int].len() == 0);
                    return false;
                }
                i += 1;
            }
            true
        },
        _ => {
            if predicate.unicode_len() == 0 {
                return false;
            }
            let text = match cell_text_of(value) {
                Ok(Some(text)) => text,
                _ => {
                    return false;
                },
            };
            if is_blank(text.as_str()) {
                return false;
            }
            match parse_property_entry(predicate, text.as_str()) {
                Ok((name, read)) => str_eq(name.as_str(), predicate) && same_value(&read, value),
                Err(_) => false,
            }
        },
    }
}

/// Whether a workbook can carry a node.
pub fn node_comes_back(node: &Node) -> (r: bool)
    ensures
        r == node_returns(node@),
{
    if node.graph().is_some() || node.id().as_str().unicode_len() == 0 {
        return false;
    }
    let types = node.types();
    proof {
        reveal_strlit("__untyped__");
    }
    let mut i: usize = 0;
    while i < types.len()
        invariant
            i <= types.len(),
            texts(types@) == node@.types,
            forall|k: int|
                0 <= k < i ==> (#[trigger] node@.types[k]).len() > 0 && node@.types[k]
                    != UNTYPED_MARKER@,
        decreases types.len() - i,
    {
        assert(node@.types[i as int] == types@[i as int]@);
        if types[i].as_str().unicode_len() == 0 || str_eq(types[i].as_str(), UNTYPED_MARKER) {
            return false;
        }
        i += 1;
    }
    let properties = node.properties();
    let mut j: usize = 0;
    while j < properties.len()
        invariant
            j <= properties.len(),
            entries(properties@) == node@.properties,
            forall|k: int|
                0 <= k < j ==> value_returns(
                    (#[trigger] node@.properties[k]).0,
                    node@.properties[k].1,
                ),
        decreases properties.len() - j,
    {
        assert(node@.properties[j as int] == (properties@[j as int].0@, properties@[j as int].1@));
        if !value_comes_back(properties[j].0.as_str(), &properties[j].1) {
            return false;
        }
        j += 1;
    }
    true
}

/// Whether flattening the nodes into a workbook and reading the workbook
/// is sure to give the nodes back: whether a workbook can carry them.
pub fn comes_back(nodes: &[Node]) -> (r: bool)
    ensures
        r == nodes_return(nodes_view(nodes@)),
        r ==> flatten_defined(nodes_view(nodes@)) && unflattened(
            flattened(nodes_view(nodes@)),
        ) == Ok::<Seq<NodeView>, ErrorKind>(nodes_view(nodes@)),
{
    let ghost views = nodes_view(nodes@);
    let mut i: usize = 0;
    while i < nodes.len()
        invariant
            i <= nodes.len(),
            views == nodes_view(nodes@),
            forall|k: int| 0 <= k < i ==> node_returns(#[trigger] views[k]),
            forall|k: int| 0 < k < i ==> key_lt()(keys_of(views)[k - 1], #[trigger] keys_of(views)[k]),
        decreases nodes.len() - i,
    {
        assert(views[i as int] == nodes@[i as int]@);
        if !node_comes_back(&nodes[i]) {
            return false;
        }
        if i > 0 {
            assert(views[i - 1] == nodes@[i - 1]@);
            assert(keys_of(views)[i as int] == key_of(views[i as int]));
            assert(keys_of(views)[i - 1] == key_of(views[i - 1]));
            if !str_lt(nodes[i - 1].id().as_str(), nodes[i].id().as_str()) {
                assert(!sorted_nodes(views));
                return false;
            }
        }
        i += 1;
    }
    proof {
        crate::nodes::lemma_key_lt_total();
        crate::order::lemma_steps_rising(keys_of(views), key_lt());
    }
    let types = collect_types(nodes);
    let keys = collect_child_key_count(nodes);
    let fits = (types.len() as u128) + (keys as u128) + 2 < 0x1_0000_0000_0000_0000;
    proof {
        assert(texts(types@).len() == types@.len());
        if fits {
            flatten_then_unflatten(views);
        }
    }
    fits
}

} // verus!
