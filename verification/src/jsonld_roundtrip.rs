//! What the JSON-LD codec gives back: writing nodes as a document in
//! expanded form and reading the document again.

use vstd::prelude::*;
use crate::error::ErrorKind;
use crate::flatten::lemma_insert_text_holds;
use crate::fold::try_fold;
use crate::json::{
    JsonView, lemma_member_index, lemma_member_index_is, member_index, member_keys, put_member,
    scalar_json,
};
use crate::jsonld::{
    array_parts, ArrayParts, document_json, document_nodes, entries_nodes, entry_nodes,
    graph_entries, graph_json, graph_names, has_member, holds_node, is_iri, is_reserved,
    looks_like_iri, member_stepper, node_filled, node_json, properties_put, property_value,
    reference_json, term_expansion, typed_node, types_added, types_put, value_json,
};
use crate::model::{
    ArrayValue, double_of_json, entries, keys, lemma_entries_equal, lemma_insert_entry_sorted,
    lemma_insert_text_next, lemma_insert_text_present, lemma_insert_text_sorted,
    lemma_lookup_drop_last, lemma_lookup_entry, lemma_lookup_insert, lookup, Node, nodes_view,
    NodeView, NumberValue, PropertyValue, PropertyView, scalars, ScalarValue, ScalarView,
};
use crate::nodes::{
    fresh, key_less, key_lt, key_of, keys_of, lemma_key_lt_total, lemma_position_end,
    sorted_nodes,
};
use crate::order::lemma_steps_rising;
use crate::roundtrip::{lemma_sorted_rest, same_scalar};
use crate::text::{
    lemma_rank, lemma_rank_is, lemma_text_lt_asymmetric, lemma_text_lt_irreflexive, rank, str_eq,
    strictly_sorted, text_lt,
};

verus! {

/// What the members of an object hold under a key.
pub open spec fn held(members: Seq<(Seq<char>, JsonView)>, key: Seq<char>) -> Option<JsonView> {
    JsonView::Object(members).get(key)
}

/// Members in rising order of their keys, with a value put under a key,
/// stand in rising order, hold the value under the key, and hold what they
/// held under every other key.
pub proof fn lemma_put_get(
    members: Seq<(Seq<char>, JsonView)>,
    key: Seq<char>,
    value: JsonView,
    other: Seq<char>,
)
    requires
        strictly_sorted(member_keys(members)),
    ensures
        strictly_sorted(member_keys(put_member(members, key, value))),
        held(put_member(members, key, value), other) == (if other == key {
            Some(value)
        } else {
            held(members, other)
        }),
{
    let keys = member_keys(members);
    let at = rank(keys, key);
    let put = put_member(members, key, value);
    lemma_rank(keys, key);
    lemma_insert_text_sorted(keys, key);
    lemma_member_index(members, other);
    let found = member_index(members, other);
    assert forall|i: int| 0 <= i < at implies (#[trigger] members[i]).0 != key by {
        assert(keys[i] == members[i].0);
        assert(text_lt(keys[i], key));
        lemma_text_lt_irreflexive(key);
    }
    if at < members.len() && members[at].0 == key {
        assert(member_keys(put) =~= keys);
        if other == key {
            lemma_member_index_is(put, other, at);
        } else {
            assert forall|i: int| 0 <= i < found implies (#[trigger] put[i]).0 != other by {
                assert(members[i].0 != other);
            }
            lemma_member_index_is(put, other, found);
        }
    } else {
        assert(member_keys(put) =~= keys.insert(at, key));
        members.insert_ensures(at, (key, value));
        if other == key {
            lemma_member_index_is(put, other, at);
        } else if found < at {
            assert forall|i: int| 0 <= i < found implies (#[trigger] put[i]).0 != other by {
                assert(put[i] == members[i]);
            }
            assert(put[found] == members[found]);
            lemma_member_index_is(put, other, found);
        } else {
            assert forall|i: int| 0 <= i < found + 1 implies (#[trigger] put[i]).0 != other by {
                if i < at {
                    assert(put[i] == members[i]);
                } else if i > at {
                    assert(put[i] == members[i - 1]);
                }
            }
            if found < members.len() {
                assert(put[found + 1] == members[found]);
            }
            lemma_member_index_is(put, other, found + 1);
        }
    }
}

/// The keys with a meaning of their own are told apart.
pub proof fn lemma_keywords()
    ensures
        "@id"@ != "@set"@,
        "@id"@ != "@list"@,
        "@id"@ != "@type"@,
        "@id"@ != "@graph"@,
        "@id"@ != "@context"@,
        "@type"@ != "@graph"@,
        "@type"@ != "@context"@,
        "@graph"@ != "@context"@,
        "@graph"@[1] == 'g',
        "@id"@[1] == 'i',
        "@id"@.len() == 3,
{
    reveal_strlit("@id");
    reveal_strlit("@set");
    reveal_strlit("@list");
    reveal_strlit("@type");
    reveal_strlit("@graph");
    reveal_strlit("@context");
    assert("@id"@.len() == 3);
    assert("@set"@.len() == 4);
    assert("@set"@[1] == 's');
    assert("@id"@[1] == 'i');
    assert("@list"@.len() == 5);
    assert("@type"@.len() == 5);
    assert("@type"@[1] == 't');
    assert("@graph"@.len() == 6);
    assert("@graph"@[1] == 'g');
    assert("@context"@.len() == 8);
}

/// The object that stands for a reference holds the target under `@id`
/// and nothing else.
pub proof fn lemma_reference_json(target: Seq<char>)
    ensures
        !has_member(reference_json(target), "@set"@),
        !has_member(reference_json(target), "@list"@),
        has_member(reference_json(target), "@id"@),
        reference_json(target).get("@id"@) == Some(JsonView::String(target)),
{
    lemma_keywords();
    let members = seq![("@id"@, JsonView::String(target))];
    lemma_member_index_is(members, "@set"@, 1);
    lemma_member_index_is(members, "@list"@, 1);
    lemma_member_index_is(members, "@id"@, 0);
}

/// Whether a literal is written into a document and read back as itself:
/// a text that is no IRI, a number that JSON can hold and that is read
/// from what JSON holds for it, a truth value, a null.
pub open spec fn scalar_kept(scalar: ScalarView) -> bool {
    match scalar {
        ScalarView::String(text) => !is_iri(text),
        ScalarView::Number(number) => number.json matches Some(text) && double_of_json(text)
            == Some(number),
        _ => true,
    }
}

/// Whether a value is written into a document and read back as itself:
/// a reference always, a literal as said, a list of such literals, a list
/// of references that is not empty.
pub open spec fn value_kept(value: PropertyView) -> bool {
    match value {
        PropertyView::Scalar(scalar) => scalar_kept(scalar),
        PropertyView::ObjectRef(_) => true,
        PropertyView::Scalars(items) => {
            forall|i: int| 0 <= i < items.len() ==> scalar_kept(#[trigger] items[i])
        },
        PropertyView::ObjectRefs(targets) => targets.len() > 0,
    }
}

/// The first entries of the array of a list of literals give those
/// literals.
pub proof fn lemma_scalars_read(items: Seq<ScalarView>, count: nat)
    requires
        forall|i: int| 0 <= i < items.len() ==> scalar_kept(#[trigger] items[i]),
        count <= items.len(),
    ensures
        array_parts(value_json(PropertyView::Scalars(items)), count, None, false) == Ok::<
            ArrayParts,
            ErrorKind,
        >((items.take(count as int), Seq::<Seq<char>>::empty())),
    decreases count,
{
    let value = value_json(PropertyView::Scalars(items));
    if count == 0 {
        assert(items.take(0) =~= Seq::<ScalarView>::empty());
    } else {
        lemma_scalars_read(items, (count - 1) as nat);
        let item = items[count - 1];
        assert(value->Array_0[count - 1] == scalar_json(item));
        assert(scalar_kept(item));
        assert(items.take(count - 1).push(item) =~= items.take(count as int));
    }
}

/// The first entries of the array of a list of references give those
/// references.
pub proof fn lemma_refs_read(targets: Seq<Seq<char>>, count: nat)
    requires
        count <= targets.len(),
    ensures
        array_parts(value_json(PropertyView::ObjectRefs(targets)), count, None, false) == Ok::<
            ArrayParts,
            ErrorKind,
        >((Seq::<ScalarView>::empty(), targets.take(count as int))),
    decreases count,
{
    let value = value_json(PropertyView::ObjectRefs(targets));
    if count == 0 {
        assert(targets.take(0) =~= Seq::<Seq<char>>::empty());
    } else {
        lemma_refs_read(targets, (count - 1) as nat);
        let target = targets[count - 1];
        assert(value->Array_0[count - 1] == reference_json(target));
        lemma_reference_json(target);
        assert(targets.take(count - 1).push(target) =~= targets.take(count as int));
    }
}

/// What is written for a value that is kept is read as the value.
pub proof fn lemma_value_read(value: PropertyView)
    requires
        value_kept(value),
    ensures
        property_value(value_json(value), None, false) == Ok::<PropertyView, ErrorKind>(value),
{
    match value {
        PropertyView::Scalar(_) => {},
        PropertyView::ObjectRef(target) => {
            lemma_reference_json(target);
        },
        PropertyView::Scalars(items) => {
            lemma_scalars_read(items, items.len());
            assert(items.take(items.len() as int) =~= items);
        },
        PropertyView::ObjectRefs(targets) => {
            lemma_refs_read(targets, targets.len());
            assert(targets.take(targets.len() as int) =~= targets);
        },
    }
}

/// What is written for the types of a node: nothing for no type, a text
/// for one, an array of texts for more.
pub open spec fn types_json(types: Seq<Seq<char>>) -> Option<JsonView> {
    if types.len() == 0 {
        None
    } else if types.len() == 1 {
        Some(JsonView::String(types[0]))
    } else {
        Some(JsonView::Array(types.map_values(|name: Seq<char>| JsonView::String(name))))
    }
}

/// Whether the JSON-LD codec gives a node back: it has an identifier, no
/// predicate has a meaning of its own in a document, and each value is
/// kept.
pub open spec fn node_kept(node: NodeView) -> bool {
    &&& node.wf()
    &&& node.id.len() > 0
    &&& forall|i: int|
        0 <= i < node.properties.len() ==> !is_reserved((#[trigger] node.properties[i]).0)
            && value_kept(node.properties[i].1)
}

/// Members with those of properties put in stand in rising order, and
/// hold under a key what the properties hold under it, else what the
/// members held.
pub proof fn lemma_properties_put(
    members: Seq<(Seq<char>, JsonView)>,
    properties: Seq<(Seq<char>, PropertyView)>,
    key: Seq<char>,
)
    requires
        strictly_sorted(member_keys(members)),
        strictly_sorted(keys(properties)),
    ensures
        strictly_sorted(member_keys(properties_put(members, properties))),
        held(properties_put(members, properties), key) == (match lookup(properties, key) {
            Some(value) => Some(value_json(value)),
            None => held(members, key),
        }),
    decreases properties.len(),
{
    if properties.len() > 0 {
        let rest = properties.drop_last();
        let last = properties.last();
        lemma_lookup_drop_last(properties, key);
        lemma_lookup_entry(properties, properties.len() - 1);
        lemma_properties_put(members, rest, key);
        lemma_put_get(properties_put(members, rest), last.0, value_json(last.1), key);
    } else {
        lemma_rank(keys(properties), key);
    }
}

/// Sorted entries hold something only under the key of one of them.
pub proof fn lemma_lookup_is_entry(m: Seq<(Seq<char>, PropertyView)>, key: Seq<char>)
    ensures
        lookup(m, key) matches Some(value) ==> 0 <= rank(keys(m), key) < m.len() && m[rank(
            keys(m),
            key,
        )] == (key, value),
{
    lemma_rank(keys(m), key);
}

/// What the object of a node holds: its properties under their
/// predicates, its types under `@type`, its identifier under `@id`, and
/// nothing else; its members stand in rising order.
pub proof fn lemma_node_members(node: NodeView, key: Seq<char>)
    requires
        node_kept(node),
    ensures
        strictly_sorted(member_keys(node_json(node)->Object_0)),
        held(node_json(node)->Object_0, key) == (match lookup(node.properties, key) {
            Some(value) => Some(value_json(value)),
            None => if key == "@type"@ {
                types_json(node.types)
            } else if key == "@id"@ {
                Some(JsonView::String(node.id))
            } else {
                None
            },
        }),
{
    lemma_keywords();
    let empty = Seq::<(Seq<char>, JsonView)>::empty();
    assert(member_keys(empty) =~= Seq::<Seq<char>>::empty());
    lemma_member_index_is(empty, key, 0);
    lemma_put_get(empty, "@id"@, JsonView::String(node.id), key);
    let named = put_member(empty, "@id"@, JsonView::String(node.id));
    let typed = types_put(named, node.types);
    if node.types.len() == 1 {
        lemma_put_get(named, "@type"@, JsonView::String(node.types[0]), key);
    } else if node.types.len() > 1 {
        lemma_put_get(
            named,
            "@type"@,
            JsonView::Array(node.types.map_values(|name: Seq<char>| JsonView::String(name))),
            key,
        );
    }
    lemma_properties_put(typed, node.properties, key);
}

/// What a node holds under a key once members have been read into it: for
/// a key that is read as a property, what is read from the member with
/// that key, else what the node held.
pub open spec fn read_under(
    start: NodeView,
    members: Seq<(Seq<char>, JsonView)>,
    key: Seq<char>,
) -> Option<PropertyView> {
    if is_reserved(key) {
        lookup(start.properties, key)
    } else {
        match held(members, key) {
            Some(value) => Some(property_value(value, None, false)->Ok_0),
            None => lookup(start.properties, key),
        }
    }
}

/// Among members in rising order of their keys, the first ones hold under
/// a key what one of them has under it, and nothing else.
pub proof fn lemma_held_take(members: Seq<(Seq<char>, JsonView)>, count: int, key: Seq<char>)
    requires
        strictly_sorted(member_keys(members)),
        0 < count <= members.len(),
    ensures
        held(members.take(count), key) == (if key == members[count - 1].0 {
            Some(members[count - 1].1)
        } else {
            held(members.take(count - 1), key)
        }),
        key == members[count - 1].0 ==> held(members.take(count - 1), key) is None,
{
    let now = members.take(count);
    let before = members.take(count - 1);
    lemma_member_index(before, key);
    let found = member_index(before, key);
    if key == members[count - 1].0 {
        assert forall|i: int| 0 <= i < count - 1 implies (#[trigger] now[i]).0 != key by {
            assert(member_keys(members)[i] == members[i].0);
            assert(member_keys(members)[count - 1] == key);
            assert(text_lt(member_keys(members)[i], member_keys(members)[count - 1]));
            lemma_text_lt_irreflexive(key);
        }
        lemma_member_index_is(now, key, count - 1);
        assert forall|i: int| 0 <= i < count - 1 implies (#[trigger] before[i]).0 != key by {
            assert(before[i] == now[i]);
        }
        lemma_member_index_is(before, key, count - 1);
    } else {
        assert forall|i: int| 0 <= i < found implies (#[trigger] now[i]).0 != key by {
            assert(now[i] == before[i]);
        }
        if found < before.len() {
            assert(now[found] == before[found]);
            lemma_member_index_is(now, key, found);
        } else {
            lemma_member_index_is(now, key, count);
        }
    }
}

/// Reading the first members of an object into a node keeps its
/// identifier, graph and types, and puts under each key what is read
/// from the member with that key.
pub proof fn lemma_members_read(
    start: NodeView,
    members: Seq<(Seq<char>, JsonView)>,
    count: int,
)
    requires
        strictly_sorted(keys(start.properties)),
        strictly_sorted(member_keys(members)),
        0 <= count <= members.len(),
        forall|i: int|
            0 <= i < members.len() && !is_reserved((#[trigger] members[i]).0) ==> property_value(
                members[i].1,
                None,
                false,
            ) is Ok,
    ensures
        try_fold(start, members.take(count), member_stepper(None)) matches Ok(node) && node.id
            == start.id && node.graph == start.graph && node.types == start.types
            && strictly_sorted(keys(node.properties)) && forall|key: Seq<char>|
            #[trigger] lookup(node.properties, key) == read_under(
                start,
                members.take(count),
                key,
            ),
    decreases count,
{
    let step = member_stepper(None);
    if count == 0 {
        let none = members.take(0);
        assert(none =~= Seq::<(Seq<char>, JsonView)>::empty());
        assert forall|key: Seq<char>| #[trigger]
            lookup(start.properties, key) == read_under(start, none, key) by {
            lemma_member_index_is(none, key, 0);
        }
    } else {
        lemma_members_read(start, members, count - 1);
        let before = try_fold(start, members.take(count - 1), step)->Ok_0;
        let member = members[count - 1];
        assert(members.take(count).drop_last() =~= members.take(count - 1));
        assert(members.take(count).last() == member);
        let node = step(before, member)->Ok_0;
        if is_reserved(member.0) {
            assert forall|key: Seq<char>| #[trigger]
                lookup(node.properties, key) == read_under(start, members.take(count), key) by {
                lemma_held_take(members, count, key);
                assert(lookup(before.properties, key) == read_under(
                    start,
                    members.take(count - 1),
                    key,
                ));
            }
        } else {
            let value = property_value(member.1, None, false)->Ok_0;
            assert(term_expansion(None, member.0) == member.0);
            lemma_insert_entry_sorted(before.properties, member.0, value);
            assert forall|key: Seq<char>| #[trigger]
                lookup(node.properties, key) == read_under(start, members.take(count), key) by {
                lemma_held_take(members, count, key);
                lemma_lookup_insert(before.properties, member.0, value, key);
                assert(lookup(before.properties, key) == read_under(
                    start,
                    members.take(count - 1),
                    key,
                ));
            }
        }
    }
}

/// Reading the first entries of the array of the types of a node into a
/// node without types gives it those types.
pub proof fn lemma_types_added(start: NodeView, types: Seq<Seq<char>>, count: int)
    requires
        start.types == Seq::<Seq<char>>::empty(),
        strictly_sorted(types),
        0 <= count <= types.len(),
    ensures
        types_added(
            start,
            None,
            types.map_values(|name: Seq<char>| JsonView::String(name)).take(count),
        ) == (NodeView { types: types.take(count), ..start }),
    decreases count,
{
    let entries = types.map_values(|name: Seq<char>| JsonView::String(name));
    if count == 0 {
        assert(entries.take(0) =~= Seq::<JsonView>::empty());
        assert(types.take(0) =~= Seq::<Seq<char>>::empty());
    } else {
        lemma_types_added(start, types, count - 1);
        assert(entries.take(count).drop_last() =~= entries.take(count - 1));
        assert(entries.take(count).last() == JsonView::String(types[count - 1]));
        assert(term_expansion(None, types[count - 1]) == types[count - 1]);
        lemma_insert_text_next(types, count - 1);
    }
}

/// Reading the object of a node that the codec gives back into a fresh
/// node gives the node.
pub proof fn lemma_node_read(node: NodeView)
    requires
        node_kept(node),
    ensures
        node_filled(fresh(key_of(node)), None, node_json(node)->Object_0) == Ok::<
            NodeView,
            ErrorKind,
        >(node),
{
    let start = fresh(key_of(node));
    let members = node_json(node)->Object_0;
    lemma_keywords();
    lemma_node_members(node, "@type"@);
    lemma_lookup_is_entry(node.properties, "@type"@);
    let typed = NodeView { types: node.types, ..start };
    assert(typed_node(start, None, members) == Ok::<NodeView, ErrorKind>(typed)) by {
        if node.types.len() == 0 {
            assert(node.types =~= Seq::<Seq<char>>::empty());
        } else if node.types.len() == 1 {
            assert(term_expansion(None, node.types[0]) == node.types[0]);
            lemma_insert_text_next(node.types, 0);
            assert(node.types.take(0) =~= Seq::<Seq<char>>::empty());
            assert(node.types.take(1) =~= node.types);
        } else {
            let entries = node.types.map_values(|name: Seq<char>| JsonView::String(name));
            lemma_types_added(start, node.types, node.types.len() as int);
            assert(entries.take(node.types.len() as int) =~= entries);
            assert(node.types.take(node.types.len() as int) =~= node.types);
        }
    }
    assert(keys(typed.properties) =~= Seq::<Seq<char>>::empty());
    assert forall|i: int|
        0 <= i < members.len() && !is_reserved((#[trigger] members[i]).0) implies property_value(
        members[i].1,
        None,
        false,
    ) is Ok by {
        let key = members[i].0;
        lemma_node_members(node, key);
        assert forall|j: int| 0 <= j < i implies (#[trigger] members[j]).0 != key by {
            assert(member_keys(members)[j] == members[j].0);
            assert(member_keys(members)[i] == key);
            assert(text_lt(member_keys(members)[j], member_keys(members)[i]));
            lemma_text_lt_irreflexive(key);
        }
        lemma_member_index_is(members, key, i);
        lemma_lookup_is_entry(node.properties, key);
        let value = lookup(node.properties, key)->Some_0;
        lemma_value_read(value);
    }
    lemma_node_members(node, "@id"@);
    lemma_members_read(typed, members, members.len() as int);
    assert(members.take(members.len() as int) =~= members);
    let read = try_fold(typed, members, member_stepper(None))->Ok_0;
    lemma_rank(keys(typed.properties), "@id"@);
    assert forall|key: Seq<char>| lookup(read.properties, key) == lookup(
        node.properties,
        key,
    ) by {
        lemma_node_members(node, key);
        lemma_lookup_is_entry(node.properties, key);
        lemma_rank(keys(typed.properties), key);
        if lookup(node.properties, key) is Some {
            lemma_value_read(lookup(node.properties, key)->Some_0);
        }
    }
    lemma_entries_equal(read.properties, node.properties);
}

/// Reading the object of a node that the codec gives back, in the graph of
/// the node and behind nodes whose keys stand before its key, puts the
/// node behind those nodes.
pub proof fn lemma_entry_read(read: Seq<NodeView>, node: NodeView)
    requires
        node_kept(node),
        forall|i: int| 0 <= i < read.len() ==> key_lt()(key_of(#[trigger] read[i]), key_of(node)),
    ensures
        entry_nodes(node_json(node), node.graph, None, read) == Ok::<Seq<NodeView>, ErrorKind>(
            read.push(node),
        ),
{
    let value = node_json(node);
    let members = value->Object_0;
    lemma_keywords();
    lemma_node_members(node, "@context"@);
    lemma_node_members(node, "@graph"@);
    lemma_node_members(node, "@id"@);
    lemma_lookup_is_entry(node.properties, "@context"@);
    lemma_lookup_is_entry(node.properties, "@graph"@);
    lemma_lookup_is_entry(node.properties, "@id"@);
    lemma_member_index(members, "@graph"@);
    lemma_member_index(members, "@context"@);
    assert(!has_member(value, "@graph"@));
    let key = key_of(node);
    lemma_position_end(read, key);
    lemma_node_read(node);
    let there = read.push(fresh(key));
    assert(there[read.len() as int] == fresh(key));
    assert(there.update(read.len() as int, node) =~= read.push(node));
}

/// The nodes of one graph among nodes, in order.
pub open spec fn of_graph(nodes: Seq<NodeView>, graph: Option<Seq<char>>) -> Seq<NodeView>
    decreases nodes.len(),
{
    if nodes.len() == 0 {
        seq![]
    } else {
        let rest = of_graph(nodes.drop_last(), graph);
        if nodes.last().graph == graph {
            rest.push(nodes.last())
        } else {
            rest
        }
    }
}

/// The nodes of the named graphs with the given names, graph by graph.
pub open spec fn grouped(nodes: Seq<NodeView>, names: Seq<Seq<char>>) -> Seq<NodeView>
    decreases names.len(),
{
    if names.len() == 0 {
        seq![]
    } else {
        grouped(nodes, names.drop_last()) + of_graph(nodes, Some(names.last()))
    }
}

/// Whether one of the nodes belongs to the graph with the name `name`.
pub open spec fn has_graph(nodes: Seq<NodeView>, name: Seq<char>) -> bool {
    exists|i: int| 0 <= i < nodes.len() && (#[trigger] nodes[i]).graph == Some(name)
}

/// The objects of the nodes of a graph are those of its nodes, in order;
/// each of its nodes is one of the nodes and belongs to the graph.
pub proof fn lemma_of_graph(nodes: Seq<NodeView>, graph: Option<Seq<char>>)
    ensures
        graph_entries(nodes, graph) == of_graph(nodes, graph).map_values(
            |node: NodeView| node_json(node),
        ),
        forall|k: int|
            0 <= k < of_graph(nodes, graph).len() ==> (#[trigger] of_graph(nodes, graph)[k]).graph
                == graph && nodes.contains(of_graph(nodes, graph)[k]),
        (forall|i: int| 0 <= i < nodes.len() ==> (#[trigger] nodes[i]).graph != graph)
            ==> of_graph(nodes, graph) == Seq::<NodeView>::empty(),
        (forall|i: int| 0 <= i < nodes.len() ==> (#[trigger] nodes[i]).graph == graph)
            ==> of_graph(nodes, graph) == nodes,
    decreases nodes.len(),
{
    let own = of_graph(nodes, graph);
    let wanted = own.map_values(|node: NodeView| node_json(node));
    if nodes.len() == 0 {
        assert(wanted =~= Seq::<JsonView>::empty());
        assert(own =~= nodes);
    } else {
        let rest = nodes.drop_last();
        let last = nodes.last();
        lemma_of_graph(rest, graph);
        let before = of_graph(rest, graph);
        assert(last == nodes[nodes.len() - 1]);
        if last.graph == graph {
            assert(before.map_values(|node: NodeView| node_json(node)).push(node_json(last))
                =~= wanted);
        }
        assert forall|k: int| 0 <= k < own.len() implies (#[trigger] own[k]).graph == graph
            && nodes.contains(own[k]) by {
            if k < before.len() {
                assert(own[k] == before[k]);
                let i = choose|i: int| 0 <= i < rest.len() && rest[i] == before[k];
                assert(nodes[i] == own[k]);
            }
        }
        if forall|i: int| 0 <= i < nodes.len() ==> (#[trigger] nodes[i]).graph != graph {
            assert forall|i: int| 0 <= i < rest.len() implies (#[trigger] rest[i]).graph
                != graph by {
                assert(rest[i] == nodes[i]);
            }
        }
        if forall|i: int| 0 <= i < nodes.len() ==> (#[trigger] nodes[i]).graph == graph {
            assert forall|i: int| 0 <= i < rest.len() implies (#[trigger] rest[i]).graph
                == graph by {
                assert(rest[i] == nodes[i]);
            }
            assert(rest.push(last) =~= nodes);
        }
    }
}

/// The names of the named graphs stand in rising order; each is the graph
/// of a node, and the graph of each node is among them.
pub proof fn lemma_graph_names(nodes: Seq<NodeView>)
    ensures
        strictly_sorted(graph_names(nodes)),
        forall|k: int|
            0 <= k < graph_names(nodes).len() ==> has_graph(nodes, #[trigger] graph_names(nodes)[k]),
        forall|i: int|
            0 <= i < nodes.len() && (#[trigger] nodes[i]).graph is Some ==> graph_names(
                nodes,
            ).contains(nodes[i].graph->Some_0),
    decreases nodes.len(),
{
    let names = graph_names(nodes);
    if nodes.len() > 0 {
        let rest = nodes.drop_last();
        let last = nodes.last();
        let before = graph_names(rest);
        lemma_graph_names(rest);
        assert(last == nodes[nodes.len() - 1]);
        if last.graph is Some {
            lemma_insert_text_sorted(before, last.graph->Some_0);
        }
        assert forall|k: int| 0 <= k < names.len() implies has_graph(nodes, #[trigger] names[k]) by {
            let name = names[k];
            if last.graph is Some {
                lemma_insert_text_holds(before, last.graph->Some_0, name);
            }
            if before.contains(name) {
                let j = choose|j: int| 0 <= j < before.len() && before[j] == name;
                assert(has_graph(rest, before[j]));
                let i = choose|i: int| 0 <= i < rest.len() && (#[trigger] rest[i]).graph == Some(
                    name,
                );
                assert(nodes[i].graph == Some(name));
            } else {
                assert(nodes[nodes.len() - 1].graph == Some(name));
            }
        }
        assert forall|i: int| 0 <= i < nodes.len() && (#[trigger] nodes[i]).graph is Some implies names.contains(
            nodes[i].graph->Some_0,
        ) by {
            let name = nodes[i].graph->Some_0;
            if last.graph is Some {
                lemma_insert_text_holds(before, last.graph->Some_0, name);
            }
            if i < rest.len() {
                assert(rest[i] == nodes[i]);
            }
        }
    }
}

/// The nodes of graphs other than that of the last node are the same
/// without the last node.
pub proof fn lemma_grouped_rest(nodes: Seq<NodeView>, names: Seq<Seq<char>>)
    requires
        nodes.len() > 0,
        forall|k: int| 0 <= k < names.len() ==> nodes.last().graph != Some(#[trigger] names[k]),
    ensures
        grouped(nodes, names) == grouped(nodes.drop_last(), names),
    decreases names.len(),
{
    if names.len() > 0 {
        let fewer = names.drop_last();
        assert forall|k: int| 0 <= k < fewer.len() implies nodes.last().graph != Some(
            #[trigger] fewer[k],
        ) by {
            assert(fewer[k] == names[k]);
        }
        lemma_grouped_rest(nodes, fewer);
        assert(names.last() == names[names.len() - 1]);
    }
}

/// Nodes in rising order are the nodes of the default graph and then
/// those of the named graphs, graph by graph in the order of their names.
pub proof fn lemma_arrival(nodes: Seq<NodeView>)
    requires
        sorted_nodes(nodes),
    ensures
        of_graph(nodes, None) + grouped(nodes, graph_names(nodes)) == nodes,
    decreases nodes.len(),
{
    let names = graph_names(nodes);
    if nodes.len() == 0 {
        assert(of_graph(nodes, None) + grouped(nodes, names) =~= nodes);
    } else {
        let rest = nodes.drop_last();
        let last = nodes.last();
        let at = nodes.len() - 1;
        assert(last == nodes[at]);
        lemma_sorted_rest(nodes);
        lemma_arrival(rest);
        lemma_graph_names(rest);
        let before = graph_names(rest);
        assert forall|i: int| 0 <= i < rest.len() implies key_lt()(
            key_of(#[trigger] rest[i]),
            key_of(last),
        ) by {
            assert(keys_of(nodes)[i] == key_of(nodes[i]));
            assert(keys_of(nodes)[at] == key_of(last));
            assert(key_lt()(keys_of(nodes)[i], keys_of(nodes)[at]));
        }
        match last.graph {
            None => {
                assert forall|i: int| 0 <= i < nodes.len() implies (#[trigger] nodes[i]).graph
                    == None::<Seq<char>> by {
                    if i < rest.len() {
                        assert(rest[i] == nodes[i]);
                        assert(key_lt()(key_of(rest[i]), key_of(last)));
                    }
                }
                lemma_of_graph(nodes, None);
                if before.len() > 0 {
                    assert(has_graph(rest, before[0]));
                    let i = choose|i: int| 0 <= i < rest.len() && (#[trigger] rest[i]).graph
                        == Some(before[0]);
                    assert(nodes[i] == rest[i]);
                }
                assert(names =~= Seq::<Seq<char>>::empty());
                assert(of_graph(nodes, None) + grouped(nodes, names) =~= nodes);
            },
            Some(g) => {
                assert forall|k: int| 0 <= k < before.len() implies #[trigger] before[k] == g
                    || text_lt(before[k], g) by {
                    assert(has_graph(rest, before[k]));
                    let i = choose|i: int| 0 <= i < rest.len() && (#[trigger] rest[i]).graph
                        == Some(before[k]);
                    assert(key_lt()(key_of(rest[i]), key_of(last)));
                }
                lemma_of_graph(rest, Some(g));
                if before.contains(g) {
                    let k = choose|k: int| 0 <= k < before.len() && before[k] == g;
                    if k < before.len() - 1 {
                        assert(text_lt(before[k], before[before.len() - 1]));
                        lemma_text_lt_asymmetric(before[k], before[before.len() - 1]);
                    }
                    assert(before.last() == g);
                    lemma_insert_text_present(before, g);
                    let fewer = before.drop_last();
                    assert forall|j: int| 0 <= j < fewer.len() implies last.graph != Some(
                        #[trigger] fewer[j],
                    ) by {
                        assert(fewer[j] == before[j]);
                        assert(text_lt(before[j], before[before.len() - 1]));
                        lemma_text_lt_asymmetric(before[j], before[before.len() - 1]);
                    }
                    lemma_grouped_rest(nodes, fewer);
                    assert(grouped(nodes, names) =~= grouped(rest, before).push(last));
                    assert(of_graph(nodes, None) + grouped(nodes, names) =~= (of_graph(rest, None)
                        + grouped(rest, before)).push(last));
                } else {
                    assert forall|k: int| 0 <= k < before.len() implies text_lt(
                        #[trigger] before[k],
                        g,
                    ) by {}
                    lemma_rank_is(before, g, before.len() as int);
                    assert(before.insert(before.len() as int, g) =~= before.push(g));
                    assert(names == before.push(g));
                    assert(names.drop_last() =~= before);
                    assert forall|j: int| 0 <= j < before.len() implies last.graph != Some(
                        #[trigger] before[j],
                    ) by {}
                    lemma_grouped_rest(nodes, before);
                    assert forall|i: int| 0 <= i < rest.len() implies (#[trigger] rest[i]).graph
                        != Some(g) by {
                        if rest[i].graph == Some(g) {
                            assert(before.contains(rest[i].graph->Some_0));
                        }
                    }
                    assert(of_graph(rest, Some(g)) =~= Seq::<NodeView>::empty());
                    assert(of_graph(nodes, Some(g)) =~= seq![last]);
                    assert(of_graph(nodes, None) + grouped(nodes, names) =~= (of_graph(rest, None)
                        + grouped(rest, before)).push(last));
                }
                assert(rest.push(last) =~= nodes);
            },
        }
    }
}

/// Whether the JSON-LD codec gives nodes back: they stand in rising order
/// of graph and identifier, and it gives each of them back.
pub open spec fn nodes_kept(nodes: Seq<NodeView>) -> bool {
    &&& sorted_nodes(nodes)
    &&& forall|i: int| 0 <= i < nodes.len() ==> node_kept(#[trigger] nodes[i])
}

/// The first of nodes in rising order stand in rising order.
pub proof fn lemma_sorted_take(nodes: Seq<NodeView>, count: int)
    requires
        sorted_nodes(nodes),
        0 <= count <= nodes.len(),
    ensures
        sorted_nodes(nodes.take(count)),
{
    let first = nodes.take(count);
    assert forall|i: int, j: int| 0 <= i < j < first.len() implies key_lt()(
        #[trigger] keys_of(first)[i],
        #[trigger] keys_of(first)[j],
    ) by {
        assert(keys_of(first)[i] == keys_of(nodes)[i]);
        assert(keys_of(first)[j] == keys_of(nodes)[j]);
    }
}

/// Reading the first objects of a block of nodes of one graph, behind
/// nodes whose keys stand before theirs, puts the first nodes of the block
/// behind those nodes.
pub proof fn lemma_block_read(
    value: JsonView,
    read: Seq<NodeView>,
    block: Seq<NodeView>,
    graph: Option<Seq<char>>,
    count: nat,
)
    requires
        value is Array,
        block.len() <= value->Array_0.len(),
        forall|k: int|
            0 <= k < block.len() ==> #[trigger] value->Array_0[k] == node_json(block[k]),
        sorted_nodes(read + block),
        forall|k: int|
            0 <= k < block.len() ==> (#[trigger] block[k]).graph == graph && node_kept(block[k]),
        count <= block.len(),
    ensures
        entries_nodes(value, count, graph, None, read) == Ok::<Seq<NodeView>, ErrorKind>(
            read + block.take(count as int),
        ),
    decreases count,
{
    if count == 0 {
        assert(read + block.take(0) =~= read);
    } else {
        lemma_block_read(value, read, block, graph, (count - 1) as nat);
        let state = read + block.take(count - 1);
        let node = block[count - 1];
        let whole = read + block;
        assert(value->Array_0[count - 1] == node_json(node));
        assert forall|i: int| 0 <= i < state.len() implies key_lt()(
            key_of(#[trigger] state[i]),
            key_of(node),
        ) by {
            let at = read.len() + count - 1;
            assert(whole[i] == state[i]);
            assert(whole[at] == node);
            assert(keys_of(whole)[i] == key_of(whole[i]));
            assert(keys_of(whole)[at] == key_of(whole[at]));
            assert(key_lt()(keys_of(whole)[i], keys_of(whole)[at]));
        }
        lemma_entry_read(state, node);
        assert(state.push(node) =~= read + block.take(count as int));
    }
}

/// Reading the object of a named graph, behind nodes whose keys stand
/// before those of its nodes, puts its nodes behind those nodes.
pub proof fn lemma_graph_read(nodes: Seq<NodeView>, name: Seq<char>, read: Seq<NodeView>)
    requires
        sorted_nodes(read + of_graph(nodes, Some(name))),
        forall|i: int| 0 <= i < nodes.len() ==> node_kept(#[trigger] nodes[i]),
    ensures
        entry_nodes(graph_json(nodes, name), None, None, read) == Ok::<
            Seq<NodeView>,
            ErrorKind,
        >(read + of_graph(nodes, Some(name))),
{
    lemma_keywords();
    let block = of_graph(nodes, Some(name));
    let listed = JsonView::Array(graph_entries(nodes, Some(name)));
    let value = graph_json(nodes, name);
    let members = value->Object_0;
    let empty = Seq::<(Seq<char>, JsonView)>::empty();
    let named = put_member(empty, "@id"@, JsonView::String(name));
    assert(member_keys(empty) =~= Seq::<Seq<char>>::empty());
    assert forall|key: Seq<char>| #[trigger]
        held(members, key) == (if key == "@graph"@ {
            Some(listed)
        } else if key == "@id"@ {
            Some(JsonView::String(name))
        } else {
            None
        }) by {
        lemma_member_index_is(empty, key, 0);
        lemma_put_get(empty, "@id"@, JsonView::String(name), key);
        lemma_put_get(named, "@graph"@, listed, key);
    }
    lemma_put_get(empty, "@id"@, JsonView::String(name), "@id"@);
    lemma_put_get(named, "@graph"@, listed, "@id"@);
    assert(held(members, "@context"@) is None);
    assert(held(members, "@graph"@) == Some(listed));
    assert(held(members, "@id"@) == Some(JsonView::String(name)));
    lemma_member_index(members, "@graph"@);
    assert(has_member(value, "@graph"@));
    assert(!holds_node(members)) by {
        assert forall|i: int| 0 <= i < members.len() implies (#[trigger] members[i]).0 == "@id"@
            || members[i].0 == "@graph"@ by {
            let key = members[i].0;
            assert forall|j: int| 0 <= j < i implies (#[trigger] members[j]).0 != key by {
                assert(member_keys(members)[j] == members[j].0);
                assert(member_keys(members)[i] == key);
                assert(text_lt(member_keys(members)[j], member_keys(members)[i]));
                lemma_text_lt_irreflexive(key);
            }
            lemma_member_index_is(members, key, i);
            assert(held(members, key) is Some);
        }
    }
    lemma_of_graph(nodes, Some(name));
    assert forall|k: int| 0 <= k < block.len() implies (#[trigger] block[k]).graph == Some(name)
        && node_kept(block[k]) by {
        let i = choose|i: int| 0 <= i < nodes.len() && nodes[i] == block[k];
        assert(node_kept(nodes[i]));
    }
    lemma_block_read(listed, read, block, Some(name), block.len());
    assert(block.take(block.len() as int) =~= block);
}

/// The nodes of the first named graphs come first among those of all.
pub proof fn lemma_grouped_take(nodes: Seq<NodeView>, names: Seq<Seq<char>>, count: int)
    requires
        0 <= count <= names.len(),
    ensures
        grouped(nodes, names.take(count)).len() <= grouped(nodes, names).len(),
        grouped(nodes, names).take(grouped(nodes, names.take(count)).len() as int) == grouped(
            nodes,
            names.take(count),
        ),
    decreases names.len(),
{
    let all = grouped(nodes, names);
    if count == names.len() {
        assert(names.take(count) =~= names);
        assert(all.take(all.len() as int) =~= all);
    } else {
        let fewer = names.drop_last();
        lemma_grouped_take(nodes, fewer, count);
        assert(fewer.take(count) =~= names.take(count));
        let first = grouped(nodes, names.take(count));
        assert(all.take(first.len() as int) =~= grouped(nodes, fewer).take(first.len() as int));
    }
}

/// What has been read of a document once the first `count` entries of its
/// graph are read: as many nodes of the default graph, and then the nodes
/// of as many named graphs as entries are left.
pub open spec fn read_so_far(nodes: Seq<NodeView>, count: int) -> Seq<NodeView> {
    let plain = of_graph(nodes, None);
    if count <= plain.len() {
        plain.take(count)
    } else {
        plain + grouped(nodes, graph_names(nodes).take(count - plain.len()))
    }
}

/// The entries of the graph of a document: the objects of the nodes of the
/// default graph, and then those of the named graphs.
pub open spec fn top_entries(nodes: Seq<NodeView>) -> Seq<JsonView> {
    graph_entries(nodes, None) + graph_names(nodes).map_values(
        |name: Seq<char>| graph_json(nodes, name),
    )
}

/// Reading the first entries of the graph of a document gives the first
/// nodes.
pub proof fn lemma_top_read(nodes: Seq<NodeView>, count: nat)
    requires
        nodes_kept(nodes),
        count <= top_entries(nodes).len(),
    ensures
        entries_nodes(
            JsonView::Array(top_entries(nodes)),
            count,
            None,
            None,
            Seq::<NodeView>::empty(),
        ) == Ok::<Seq<NodeView>, ErrorKind>(read_so_far(nodes, count as int)),
        read_so_far(nodes, count as int).len() <= nodes.len(),
        nodes.take(read_so_far(nodes, count as int).len() as int) == read_so_far(
            nodes,
            count as int,
        ),
    decreases count,
{
    let empty = Seq::<NodeView>::empty();
    let plain = of_graph(nodes, None);
    let names = graph_names(nodes);
    let entries = top_entries(nodes);
    let value = JsonView::Array(entries);
    let all = grouped(nodes, names);
    lemma_arrival(nodes);
    lemma_of_graph(nodes, None);
    assert(nodes.take(plain.len() as int) =~= plain);
    assert forall|k: int| 0 <= k < plain.len() implies (#[trigger] plain[k]).graph == None::<
        Seq<char>,
    > && node_kept(plain[k]) by {
        let i = choose|i: int| 0 <= i < nodes.len() && nodes[i] == plain[k];
        assert(node_kept(nodes[i]));
    }
    if count <= plain.len() {
        lemma_sorted_take(nodes, plain.len() as int);
        assert(empty + plain =~= plain);
        assert forall|k: int| 0 <= k < plain.len() implies #[trigger] value->Array_0[k]
            == node_json(plain[k]) by {
            assert(entries[k] == graph_entries(nodes, None)[k]);
        }
        lemma_block_read(value, empty, plain, None, count);
        assert(empty + plain.take(count as int) =~= plain.take(count as int));
        assert(nodes.take(count as int) =~= plain.take(count as int));
    } else {
        lemma_top_read(nodes, (count - 1) as nat);
        let done = count - 1 - plain.len();
        let name = names[done];
        let state = plain + grouped(nodes, names.take(done));
        assert(read_so_far(nodes, count - 1) =~= state) by {
            if done == 0 {
                assert(names.take(0) =~= Seq::<Seq<char>>::empty());
                assert(plain.take(plain.len() as int) =~= plain);
                assert(state =~= plain);
            }
        }
        assert(entries[count - 1] == graph_json(nodes, name));
        assert(names.take(done + 1).drop_last() =~= names.take(done));
        assert(names.take(done + 1).last() == name);
        let next = plain + grouped(nodes, names.take(done + 1));
        assert(next =~= state + of_graph(nodes, Some(name)));
        lemma_grouped_take(nodes, names, done + 1);
        let reach = grouped(nodes, names.take(done + 1)).len() as int;
        assert(nodes.take(plain.len() + reach) =~= next) by {
            assert(all.take(reach) == grouped(nodes, names.take(done + 1)));
            assert(nodes =~= plain + all);
        }
        lemma_sorted_take(nodes, plain.len() + reach);
        lemma_graph_read(nodes, name, state);
    }
}

/// Writing nodes as a document in expanded form and reading the document
/// gives the nodes back, for nodes that the codec gives back: nodes in
/// rising order of graph and identifier, with identifiers that are not
/// empty, without predicates that have a meaning of their own in a
/// document, whose texts are no IRIs, whose numbers JSON can hold, and
/// whose lists of references are not empty.
pub proof fn write_then_read(nodes: Seq<NodeView>)
    requires
        nodes_kept(nodes),
    ensures
        document_nodes(document_json(nodes)) == Ok::<Seq<NodeView>, ErrorKind>(nodes),
{
    lemma_keywords();
    let entries = top_entries(nodes);
    let document = document_json(nodes);
    let members = seq![("@graph"@, JsonView::Array(entries))];
    assert(document == JsonView::Object(members));
    lemma_member_index_is(members, "@context"@, 1);
    lemma_member_index_is(members, "@id"@, 1);
    lemma_member_index_is(members, "@graph"@, 0);
    assert(has_member(document, "@graph"@));
    assert(!holds_node(members));
    lemma_top_read(nodes, entries.len());
    lemma_arrival(nodes);
    lemma_of_graph(nodes, None);
    let plain = of_graph(nodes, None);
    let names = graph_names(nodes);
    assert(entries.len() == plain.len() + names.len());
    assert(names.take(names.len() as int) =~= names);
    if names.len() == 0 {
        assert(plain.take(plain.len() as int) =~= plain);
        assert(plain + grouped(nodes, names) =~= plain);
    }
    assert(read_so_far(nodes, entries.len() as int) =~= nodes);
}

/// Whether a literal is written into a document and read back as itself.
pub fn returns_scalar(scalar: &ScalarValue) -> (r: bool)
    ensures
        r == scalar_kept(scalar@),
{
    match scalar {
        ScalarValue::String(text) => !looks_like_iri(text.as_str()),
        ScalarValue::Number(number) => match number.json() {
            Some(held) => match NumberValue::from_json(&held) {
                Some(read) => {
                    let read = ScalarValue::Number(read);
                    same_scalar(&read, scalar)
                },
                None => false,
            },
            None => false,
        },
        _ => true,
    }
}

/// A list with a literal that is not kept is not kept.
proof fn lemma_not_kept(items: Seq<ScalarView>, at: int)
    requires
        0 <= at < items.len(),
        !scalar_kept(items[at]),
    ensures
        !value_kept(PropertyView::Scalars(items)),
{
    let value = PropertyView::Scalars(items);
    assert(value is Scalars);
    assert(value->Scalars_0 == items);
    if value_kept(value) {
        assert(scalar_kept(value->Scalars_0[at]));
    }
}

/// Whether a value is written into a document and read back as itself.
pub fn returns_value(value: &PropertyValue) -> (r: bool)
    ensures
        r == value_kept(value@),
{
    match value {
        PropertyValue::Scalar(scalar) => returns_scalar(scalar),
        PropertyValue::ObjectRef(_) => true,
        PropertyValue::Array(ArrayValue::Scalars(items)) => {
            let ghost all = scalars(items@);
            let mut i: usize = 0;
            while i < items.len()
                invariant
                    i <= items.len(),
                    all == scalars(items@),
                    value@ == PropertyView::Scalars(all),
                    forall|k: int| 0 <= k < i ==> scalar_kept(#[trigger] all[k]),
                decreases items.len() - i,
            {
                assert(all[i as int] == items@[i as int]@);
                if !returns_scalar(&items[i]) {
                    assert(all.len() == items@.len());
                    assert(!scalar_kept(all[i as int]));
                    proof {
                        lemma_not_kept(all, i as int);
                    }
                    return false;
                }
                i += 1;
            }
            true
        },
        PropertyValue::Array(ArrayValue::ObjectRefs(targets)) => targets.len() > 0,
    }
}

/// Whether the JSON-LD codec gives a node back.
pub fn returns_node(node: &Node) -> (r: bool)
    ensures
        r == node_kept(node@),
{
    if node.id().as_str().unicode_len() == 0 {
        return false;
    }
    let properties = node.properties();
    let ghost all = entries(properties@);
    let mut j: usize = 0;
    while j < properties.len()
        invariant
            j <= properties.len(),
            all == entries(properties@),
            all == node@.properties,
            forall|k: int|
                0 <= k < j ==> !is_reserved((#[trigger] all[k]).0) && value_kept(all[k].1),
        decreases properties.len() - j,
    {
        assert(all[j as int] == (properties@[j as int].0@, properties@[j as int].1@));
        let predicate = properties[j].0.as_str();
        let reserved = str_eq(predicate, "@id") || str_eq(predicate, "@type") || str_eq(
            predicate,
            "@context",
        ) || str_eq(predicate, "@graph");
        if reserved || !returns_value(&properties[j].1) {
            return false;
        }
        j += 1;
    }
    true
}

/// Whether writing the nodes as a document in expanded form and reading
/// the document is sure to give the nodes back.
pub fn returns_nodes(nodes: &[Node]) -> (r: bool)
    ensures
        r == nodes_kept(nodes_view(nodes@)),
        r ==> document_nodes(document_json(nodes_view(nodes@))) == Ok::<
            Seq<NodeView>,
            ErrorKind,
        >(nodes_view(nodes@)),
{
    let ghost views = nodes_view(nodes@);
    let mut i: usize = 0;
    while i < nodes.len()
        invariant
            i <= nodes.len(),
            views == nodes_view(nodes@),
            forall|k: int| 0 <= k < i ==> node_kept(#[trigger] views[k]),
            forall|k: int|
                0 < k < i ==> key_lt()(keys_of(views)[k - 1], #[trigger] keys_of(views)[k]),
        decreases nodes.len() - i,
    {
        assert(views[i as int] == nodes@[i as int]@);
        if !returns_node(&nodes[i]) {
            return false;
        }
        if i > 0 {
            assert(views[i - 1] == nodes@[i - 1]@);
            assert(keys_of(views)[i as int] == key_of(views[i as int]));
            assert(keys_of(views)[i - 1] == key_of(views[i - 1]));
            if !key_less(
                nodes[i - 1].graph(),
                nodes[i - 1].id().as_str(),
                nodes[i].graph(),
                nodes[i].id().as_str(),
            ) {
                assert(!sorted_nodes(views));
                return false;
            }
        }
        i += 1;
    }
    proof {
        lemma_key_lt_total();
        lemma_steps_rising(keys_of(views), key_lt());
        write_then_read(views);
    }
    true
}

} // verus!
