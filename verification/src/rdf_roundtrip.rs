//! What the RDF codec gives back: writing nodes as quads and reading the
//! quads again.

use vstd::prelude::*;
use crate::error::ErrorKind;
use crate::fold::{lemma_try_fold_concat, try_fold};
use crate::model::{
    ArrayValue, entries, insert_entry, keys, lemma_insert_text_next, lookup, Node, nodes_view,
    NodeView, NumberValue, PropertyValue, PropertyView, scalars, ScalarValue, ScalarView, texts,
};
use crate::nodes::{
    fresh, key_less, key_lt, key_of, keys_of, lemma_key_lt_total, lemma_position_at,
    lemma_position_end, NodeKey, sorted_nodes, with_property, with_type,
};
use crate::order::lemma_steps_rising;
use crate::rdf::{
    check_iri, graph_ref, graph_to_name, id_to_subject, is_rdf_iri, lemma_node_ref, merged,
    node_quads, node_ref, nodes_of_quads, property_stepper, quad_key, quad_step, quad_stepper,
    quads_for, quads_of_nodes, QuadView, RDF_TYPE, ref_stepper, ResourceView, scalar_term,
    scalar_terms, term_property, TermView, type_stepper, value_terms, XSD_BOOLEAN, XSD_DECIMAL,
    XSD_DOUBLE, XSD_INTEGER, XSD_STRING,
};
use crate::roundtrip::{lemma_sorted_push, lemma_sorted_rest, same_scalar};
use crate::text::{
    lemma_rank_is, lemma_text_lt_irreflexive, str_eq, strictly_sorted, text_lt,
};

verus! {

/// A node after one more quad that speaks of it: a quad with the predicate
/// `rdf:type` gives it the type that its object names, and says nothing
/// where its object is no named node; any other quad has its object merged
/// into what the node holds under its predicate.
pub open spec fn absorbed(node: NodeView, quad: QuadView) -> Result<NodeView, ErrorKind> {
    if quad.predicate == RDF_TYPE@ {
        match quad.object {
            TermView::Resource(ResourceView::Named(class)) => Ok(with_type(node, class)),
            _ => Ok(node),
        }
    } else {
        match term_property(quad.object) {
            Some(value) => Ok(
                with_property(node, quad.predicate, merged(node.get(quad.predicate), value)),
            ),
            None => Err(ErrorKind::Rdf),
        }
    }
}

/// The step that takes one more quad into a node.
pub open spec fn absorber() -> spec_fn(NodeView, QuadView) -> Result<NodeView, ErrorKind> {
    |node: NodeView, quad: QuadView| absorbed(node, quad)
}

/// Reading quads that all speak of one node, whose key stands behind the
/// keys of the nodes read before, puts the node behind those nodes: the
/// node that a fresh node becomes by taking in the quads.
pub proof fn lemma_read_one(done: Seq<NodeView>, key: NodeKey, quads: Seq<QuadView>)
    requires
        sorted_nodes(done),
        forall|i: int| 0 <= i < done.len() ==> key_lt()(key_of(#[trigger] done[i]), key),
        quads.len() > 0,
        forall|k: int| 0 <= k < quads.len() ==> quad_key(#[trigger] quads[k]) == key,
    ensures
        try_fold(done, quads, quad_stepper()) == (match try_fold(fresh(key), quads, absorber()) {
            Ok(node) => Ok::<Seq<NodeView>, ErrorKind>(done.push(node)),
            Err(kind) => Err(kind),
        }),
        try_fold(fresh(key), quads, absorber()) matches Ok(node) ==> key_of(node) == key,
    decreases quads.len(),
{
    let rest = quads.drop_last();
    let last = quads.last();
    let at = done.len() as int;
    assert(quad_key(last) == key);
    if rest.len() == 0 {
        lemma_position_end(done, key);
        let there = done.push(fresh(key));
        assert(try_fold(done, rest, quad_stepper()) == Ok::<Seq<NodeView>, ErrorKind>(done));
        assert(try_fold(fresh(key), rest, absorber()) == Ok::<NodeView, ErrorKind>(fresh(key)));
        assert(there[at] == fresh(key));
        match absorbed(fresh(key), last) {
            Ok(node) => {
                assert(there.update(at, node) =~= done.push(node));
                assert(there =~= done.push(fresh(key)));
                assert(quad_step(done, last) == Ok::<Seq<NodeView>, ErrorKind>(done.push(node)));
            },
            Err(_) => {},
        }
    } else {
        assert forall|k: int| 0 <= k < rest.len() implies quad_key(#[trigger] rest[k]) == key by {
            assert(rest[k] == quads[k]);
        }
        lemma_read_one(done, key, rest);
        match try_fold(fresh(key), rest, absorber()) {
            Ok(held) => {
                let state = done.push(held);
                lemma_sorted_push(done, held);
                assert(state[at] == held);
                lemma_position_at(state, at);
                match absorbed(held, last) {
                    Ok(node) => {
                        assert(state.update(at, node) =~= done.push(node));
                        assert(state.update(at, held) =~= state);
                        assert(quad_step(state, last) == Ok::<Seq<NodeView>, ErrorKind>(
                            done.push(node),
                        ));
                    },
                    Err(_) => {},
                }
            },
            Err(_) => {},
        }
    }
}

/// The quads that give a subject its types.
pub open spec fn type_quads(
    subject: ResourceView,
    graph: Option<ResourceView>,
    types: Seq<Seq<char>>,
) -> Seq<QuadView> {
    types.map_values(
        |class: Seq<char>|
            QuadView {
                subject,
                predicate: RDF_TYPE@,
                object: TermView::Resource(ResourceView::Named(class)),
                graph,
            },
    )
}

/// Writing types that are IRIs puts one quad for each behind the quads.
pub proof fn lemma_types_quads(
    quads: Seq<QuadView>,
    subject: ResourceView,
    graph: Option<ResourceView>,
    types: Seq<Seq<char>>,
)
    requires
        forall|i: int| 0 <= i < types.len() ==> is_rdf_iri(#[trigger] types[i]),
    ensures
        try_fold(quads, types, type_stepper(subject, graph)) == Ok::<Seq<QuadView>, ErrorKind>(
            quads + type_quads(subject, graph, types),
        ),
    decreases types.len(),
{
    if types.len() == 0 {
        assert(quads + type_quads(subject, graph, types) =~= quads);
    } else {
        let rest = types.drop_last();
        assert forall|i: int| 0 <= i < rest.len() implies is_rdf_iri(#[trigger] rest[i]) by {
            assert(rest[i] == types[i]);
        }
        lemma_types_quads(quads, subject, graph, rest);
        assert(is_rdf_iri(types[types.len() - 1]));
        let quad = QuadView {
            subject,
            predicate: RDF_TYPE@,
            object: TermView::Resource(ResourceView::Named(types.last())),
            graph,
        };
        assert((quads + type_quads(subject, graph, rest)).push(quad) =~= quads + type_quads(
            subject,
            graph,
            types,
        ));
    }
}

/// Whether a literal is written, and is read back as itself.
pub open spec fn scalar_survives(scalar: ScalarView) -> bool {
    scalar_term(scalar) matches Some(term) && term_property(term) == Some(
        PropertyView::Scalar(scalar),
    )
}

/// Whether a value is read back as itself: a literal is written and read
/// back as itself; a reference stands for a resource; a list has two
/// members or more, each of which does so.
pub open spec fn value_survives(value: PropertyView) -> bool {
    match value {
        PropertyView::Scalar(scalar) => scalar_survives(scalar),
        PropertyView::ObjectRef(target) => node_ref(target) is Ok,
        PropertyView::Scalars(items) => items.len() >= 2 && forall|i: int|
            0 <= i < items.len() ==> scalar_survives(#[trigger] items[i]),
        PropertyView::ObjectRefs(targets) => targets.len() >= 2 && forall|i: int|
            0 <= i < targets.len() ==> node_ref(#[trigger] targets[i]) is Ok,
    }
}

/// The single values that a value is made of, in order.
pub open spec fn elements(value: PropertyView) -> Seq<PropertyView> {
    match value {
        PropertyView::Scalars(items) => items.map_values(
            |scalar: ScalarView| PropertyView::Scalar(scalar),
        ),
        PropertyView::ObjectRefs(targets) => targets.map_values(
            |target: Seq<char>| PropertyView::ObjectRef(target),
        ),
        _ => seq![value],
    }
}

/// What a predicate holds once the first `count` of the single values of
/// `value` have been seen for it: the first alone, or a list of them.
pub open spec fn held_after(value: PropertyView, count: int) -> PropertyView {
    match value {
        PropertyView::Scalars(items) => if count <= 1 {
            PropertyView::Scalar(items[0])
        } else {
            PropertyView::Scalars(items.take(count))
        },
        PropertyView::ObjectRefs(targets) => if count <= 1 {
            PropertyView::ObjectRef(targets[0])
        } else {
            PropertyView::ObjectRefs(targets.take(count))
        },
        _ => value,
    }
}

/// Literals that are all written have one term each, in order.
pub proof fn lemma_scalar_terms(items: Seq<ScalarView>)
    requires
        forall|i: int| 0 <= i < items.len() ==> scalar_term(#[trigger] items[i]) is Some,
    ensures
        scalar_terms(items).len() == items.len(),
        forall|i: int|
            0 <= i < items.len() ==> #[trigger] scalar_terms(items)[i] == scalar_term(
                items[i],
            )->Some_0,
    decreases items.len(),
{
    if items.len() > 0 {
        let rest = items.drop_last();
        assert forall|i: int| 0 <= i < rest.len() implies scalar_term(
            #[trigger] rest[i],
        ) is Some by {
            assert(rest[i] == items[i]);
        }
        lemma_scalar_terms(rest);
        assert(scalar_term(items[items.len() - 1]) is Some);
        assert forall|i: int| 0 <= i < items.len() implies #[trigger] scalar_terms(items)[i]
            == scalar_term(items[i])->Some_0 by {
            if i < rest.len() {
                assert(scalar_terms(items)[i] == scalar_terms(rest)[i]);
                assert(rest[i] == items[i]);
            }
        }
    }
}

/// References that all stand for resources have one term each, in order.
pub proof fn lemma_ref_terms(targets: Seq<Seq<char>>)
    requires
        forall|i: int| 0 <= i < targets.len() ==> node_ref(#[trigger] targets[i]) is Ok,
    ensures
        try_fold(Seq::<TermView>::empty(), targets, ref_stepper()) matches Ok(terms)
            && terms.len() == targets.len() && forall|i: int|
            0 <= i < targets.len() ==> #[trigger] terms[i] == TermView::Resource(
                node_ref(targets[i])->Ok_0,
            ),
    decreases targets.len(),
{
    if targets.len() > 0 {
        let rest = targets.drop_last();
        assert forall|i: int| 0 <= i < rest.len() implies node_ref(#[trigger] rest[i]) is Ok by {
            assert(rest[i] == targets[i]);
        }
        lemma_ref_terms(rest);
        assert(node_ref(targets[targets.len() - 1]) is Ok);
        let before = try_fold(Seq::<TermView>::empty(), rest, ref_stepper())->Ok_0;
        let terms = try_fold(Seq::<TermView>::empty(), targets, ref_stepper())->Ok_0;
        assert(terms == before.push(TermView::Resource(node_ref(targets.last())->Ok_0)));
        assert forall|i: int| 0 <= i < targets.len() implies #[trigger] terms[i]
            == TermView::Resource(node_ref(targets[i])->Ok_0) by {
            if i < rest.len() {
                assert(terms[i] == before[i]);
                assert(rest[i] == targets[i]);
            }
        }
    }
}

/// A value that is read back as itself has one term for each of its
/// single values, and each term is read as that value.
pub proof fn lemma_value_terms(value: PropertyView)
    requires
        value_survives(value),
    ensures
        value_terms(value) matches Ok(terms) && terms.len() == elements(value).len()
            && terms.len() >= 1 && forall|k: int|
            0 <= k < terms.len() ==> term_property(#[trigger] terms[k]) == Some(
                elements(value)[k],
            ),
{
    match value {
        PropertyView::Scalar(scalar) => {
            lemma_scalar_terms(seq![scalar]);
        },
        PropertyView::Scalars(items) => {
            lemma_scalar_terms(items);
        },
        PropertyView::ObjectRef(target) => {
            lemma_ref_terms(seq![target]);
            lemma_node_ref(target);
        },
        PropertyView::ObjectRefs(targets) => {
            lemma_ref_terms(targets);
            assert forall|k: int| 0 <= k < targets.len() implies term_property(
                #[trigger] value_terms(value)->Ok_0[k],
            ) == Some(elements(value)[k]) by {
                lemma_node_ref(targets[k]);
            }
        },
    }
}

/// What is held after one more single value is what was held, merged with
/// that value; the first is held as it is, and all of them are the value.
pub proof fn lemma_held_after(value: PropertyView, count: int)
    requires
        value_survives(value),
        1 <= count <= elements(value).len(),
    ensures
        merged(None, elements(value)[0]) == held_after(value, 1),
        count < elements(value).len() ==> merged(
            Some(held_after(value, count)),
            elements(value)[count],
        ) == held_after(value, count + 1),
        held_after(value, elements(value).len() as int) == value,
{
    match value {
        PropertyView::Scalars(items) => {
            assert(items.take(items.len() as int) =~= items);
            if count < items.len() {
                if count == 1 {
                    assert(seq![items[0], items[1]] =~= items.take(2));
                } else {
                    assert(items.take(count).push(items[count]) =~= items.take(count + 1));
                }
            }
        },
        PropertyView::ObjectRefs(targets) => {
            assert(targets.take(targets.len() as int) =~= targets);
            if count < targets.len() {
                if count == 1 {
                    assert(seq![targets[0], targets[1]] =~= targets.take(2));
                } else {
                    assert(targets.take(count).push(targets[count]) =~= targets.take(count + 1));
                }
            }
        },
        _ => {},
    }
}

/// Entries under keys that all stand before `key`: they hold nothing under
/// the key, and a value for the key is put behind them; once it is there,
/// it is what they hold under the key, and another value takes its place.
pub proof fn lemma_put_last(
    m: Seq<(Seq<char>, PropertyView)>,
    key: Seq<char>,
    first: PropertyView,
    second: PropertyView,
)
    requires
        forall|i: int| 0 <= i < m.len() ==> text_lt(#[trigger] keys(m)[i], key),
    ensures
        lookup(m, key) is None,
        insert_entry(m, key, first) == m.push((key, first)),
        lookup(m.push((key, first)), key) == Some(first),
        insert_entry(m.push((key, first)), key, second) == m.push((key, second)),
{
    let at = m.len() as int;
    lemma_rank_is(keys(m), key, at);
    assert(m.insert(at, (key, first)) =~= m.push((key, first)));
    let held = m.push((key, first));
    lemma_text_lt_irreflexive(key);
    assert forall|i: int| 0 <= i < at implies text_lt(#[trigger] keys(held)[i], key) by {
        assert(keys(held)[i] == keys(m)[i]);
    }
    assert(keys(held)[at] == key);
    lemma_rank_is(keys(held), key, at);
    assert(held.update(at, (key, second)) =~= m.push((key, second)));
}

/// Reading the first quads of a property into a node whose predicates all
/// stand before that of the property puts under the predicate what is
/// held after as many single values.
pub proof fn lemma_property_read(
    node: NodeView,
    subject: ResourceView,
    graph: Option<ResourceView>,
    predicate: Seq<char>,
    value: PropertyView,
    count: int,
)
    requires
        forall|i: int|
            0 <= i < node.properties.len() ==> text_lt(
                #[trigger] keys(node.properties)[i],
                predicate,
            ),
        predicate != RDF_TYPE@,
        value_survives(value),
        1 <= count <= elements(value).len(),
    ensures
        try_fold(
            node,
            quads_for(subject, graph, predicate, value_terms(value)->Ok_0).take(count),
            absorber(),
        ) == Ok::<NodeView, ErrorKind>(
            NodeView {
                properties: node.properties.push((predicate, held_after(value, count))),
                ..node
            },
        ),
    decreases count,
{
    lemma_value_terms(value);
    let terms = value_terms(value)->Ok_0;
    let quads = quads_for(subject, graph, predicate, terms);
    let quad = quads[count - 1];
    assert(quad.predicate == predicate && quad.object == terms[count - 1]);
    assert(term_property(terms[count - 1]) == Some(elements(value)[count - 1]));
    assert(quads.take(count).drop_last() =~= quads.take(count - 1));
    assert(quads.take(count).last() == quad);
    lemma_held_after(value, count);
    if count == 1 {
        assert(quads.take(0) =~= Seq::<QuadView>::empty());
        lemma_put_last(node.properties, predicate, held_after(value, 1), held_after(value, 1));
    } else {
        lemma_property_read(node, subject, graph, predicate, value, count - 1);
        lemma_held_after(value, count - 1);
        lemma_put_last(
            node.properties,
            predicate,
            held_after(value, count - 1),
            held_after(value, count),
        );
    }
}

/// The quads that give a subject its properties, property by property.
pub open spec fn property_quads(
    subject: ResourceView,
    graph: Option<ResourceView>,
    properties: Seq<(Seq<char>, PropertyView)>,
) -> Seq<QuadView>
    decreases properties.len(),
{
    if properties.len() == 0 {
        seq![]
    } else {
        property_quads(subject, graph, properties.drop_last()) + quads_for(
            subject,
            graph,
            properties.last().0,
            value_terms(properties.last().1)->Ok_0,
        )
    }
}

/// Writing properties whose predicates are IRIs and whose values are read
/// back as themselves puts their quads behind the quads.
pub proof fn lemma_properties_quads(
    quads: Seq<QuadView>,
    subject: ResourceView,
    graph: Option<ResourceView>,
    properties: Seq<(Seq<char>, PropertyView)>,
)
    requires
        forall|i: int|
            0 <= i < properties.len() ==> is_rdf_iri((#[trigger] properties[i]).0)
                && value_survives(properties[i].1),
    ensures
        try_fold(quads, properties, property_stepper(subject, graph)) == Ok::<
            Seq<QuadView>,
            ErrorKind,
        >(quads + property_quads(subject, graph, properties)),
    decreases properties.len(),
{
    if properties.len() == 0 {
        assert(quads + property_quads(subject, graph, properties) =~= quads);
    } else {
        let rest = properties.drop_last();
        let last = properties.last();
        assert forall|i: int| 0 <= i < rest.len() implies is_rdf_iri((#[trigger] rest[i]).0)
            && value_survives(rest[i].1) by {
            assert(rest[i] == properties[i]);
        }
        lemma_properties_quads(quads, subject, graph, rest);
        assert(last == properties[properties.len() - 1]);
        lemma_value_terms(last.1);
        assert((quads + property_quads(subject, graph, rest)) + quads_for(
            subject,
            graph,
            last.0,
            value_terms(last.1)->Ok_0,
        ) =~= quads + property_quads(subject, graph, properties));
    }
}

/// The quads of properties all have the subject and the graph that they
/// were written with; there is one at least where there is a property
/// whose value is read back as itself.
pub proof fn lemma_property_quads_speak(
    subject: ResourceView,
    graph: Option<ResourceView>,
    properties: Seq<(Seq<char>, PropertyView)>,
)
    requires
        forall|i: int| 0 <= i < properties.len() ==> value_survives((#[trigger] properties[i]).1),
    ensures
        forall|k: int|
            0 <= k < property_quads(subject, graph, properties).len() ==> (
            #[trigger] property_quads(subject, graph, properties)[k]).subject == subject
                && property_quads(subject, graph, properties)[k].graph == graph,
        properties.len() > 0 ==> property_quads(subject, graph, properties).len() > 0,
    decreases properties.len(),
{
    if properties.len() > 0 {
        let rest = properties.drop_last();
        let last = properties.last();
        assert forall|i: int| 0 <= i < rest.len() implies value_survives((#[trigger] rest[i]).1) by {
            assert(rest[i] == properties[i]);
        }
        lemma_property_quads_speak(subject, graph, rest);
        assert(last == properties[properties.len() - 1]);
        lemma_value_terms(last.1);
        let before = property_quads(subject, graph, rest);
        let own = quads_for(subject, graph, last.0, value_terms(last.1)->Ok_0);
        let all = property_quads(subject, graph, properties);
        assert forall|k: int| 0 <= k < all.len() implies (#[trigger] all[k]).subject == subject
            && all[k].graph == graph by {
            if k < before.len() {
                assert(all[k] == before[k]);
            } else {
                assert(all[k] == own[k - before.len()]);
            }
        }
    }
}

/// Whether the RDF codec gives a node back: its identifier and its graph
/// stand for resources, its types and predicates are IRIs, no predicate is
/// `rdf:type`, each value is read back as itself, and it has a type or a
/// property, so that a quad speaks of it.
pub open spec fn node_survives(node: NodeView) -> bool {
    &&& node.wf()
    &&& node_ref(node.id) is Ok
    &&& graph_ref(node.graph) is Ok
    &&& node.types.len() + node.properties.len() > 0
    &&& forall|i: int| 0 <= i < node.types.len() ==> is_rdf_iri(#[trigger] node.types[i])
    &&& forall|i: int|
        0 <= i < node.properties.len() ==> is_rdf_iri((#[trigger] node.properties[i]).0)
            && node.properties[i].0 != RDF_TYPE@ && value_survives(node.properties[i].1)
}

/// The quads that are written for a node: those of its types, then those
/// of its properties.
pub open spec fn own_quads(node: NodeView) -> Seq<QuadView> {
    let subject = node_ref(node.id)->Ok_0;
    let graph = graph_ref(node.graph)->Ok_0;
    type_quads(subject, graph, node.types) + property_quads(subject, graph, node.properties)
}

/// Writing a node that the codec gives back puts its quads behind the
/// quads; there is one at least, and each speaks of the node.
pub proof fn lemma_node_quads(quads: Seq<QuadView>, node: NodeView)
    requires
        node_survives(node),
    ensures
        node_quads(quads, node) == Ok::<Seq<QuadView>, ErrorKind>(quads + own_quads(node)),
        own_quads(node).len() > 0,
        forall|k: int|
            0 <= k < own_quads(node).len() ==> quad_key(#[trigger] own_quads(node)[k]) == key_of(
                node,
            ),
{
    let subject = node_ref(node.id)->Ok_0;
    let graph = graph_ref(node.graph)->Ok_0;
    let types = type_quads(subject, graph, node.types);
    let properties = property_quads(subject, graph, node.properties);
    lemma_types_quads(quads, subject, graph, node.types);
    lemma_properties_quads(quads + types, subject, graph, node.properties);
    assert((quads + types) + properties =~= quads + own_quads(node));
    lemma_property_quads_speak(subject, graph, node.properties);
    lemma_node_ref(node.id);
    if node.graph is Some {
        lemma_node_ref(node.graph->Some_0);
    }
    let own = own_quads(node);
    assert forall|k: int| 0 <= k < own.len() implies quad_key(#[trigger] own[k]) == key_of(
        node,
    ) by {
        if k < types.len() {
            assert(own[k] == types[k]);
        } else {
            assert(own[k] == properties[k - types.len()]);
        }
    }
}

/// Reading the quads of the first types of a node into a node without
/// types gives it those types.
pub proof fn lemma_types_read(
    node: NodeView,
    subject: ResourceView,
    graph: Option<ResourceView>,
    types: Seq<Seq<char>>,
    count: int,
)
    requires
        node.types == Seq::<Seq<char>>::empty(),
        strictly_sorted(types),
        0 <= count <= types.len(),
    ensures
        try_fold(node, type_quads(subject, graph, types).take(count), absorber()) == Ok::<
            NodeView,
            ErrorKind,
        >(NodeView { types: types.take(count), ..node }),
    decreases count,
{
    let quads = type_quads(subject, graph, types);
    if count == 0 {
        assert(quads.take(0) =~= Seq::<QuadView>::empty());
        assert(types.take(0) =~= Seq::<Seq<char>>::empty());
    } else {
        lemma_types_read(node, subject, graph, types, count - 1);
        assert(quads.take(count).drop_last() =~= quads.take(count - 1));
        assert(quads.take(count).last() == quads[count - 1]);
        lemma_insert_text_next(types, count - 1);
    }
}

/// Reading the quads of the first properties of a node into a node without
/// properties gives it those properties.
pub proof fn lemma_properties_read(
    node: NodeView,
    subject: ResourceView,
    graph: Option<ResourceView>,
    properties: Seq<(Seq<char>, PropertyView)>,
    count: int,
)
    requires
        node.properties == Seq::<(Seq<char>, PropertyView)>::empty(),
        strictly_sorted(keys(properties)),
        forall|i: int|
            0 <= i < properties.len() ==> (#[trigger] properties[i]).0 != RDF_TYPE@
                && value_survives(properties[i].1),
        0 <= count <= properties.len(),
    ensures
        try_fold(node, property_quads(subject, graph, properties.take(count)), absorber()) == Ok::<
            NodeView,
            ErrorKind,
        >(NodeView { properties: properties.take(count), ..node }),
    decreases count,
{
    let first = properties.take(count);
    if count == 0 {
        assert(first =~= Seq::<(Seq<char>, PropertyView)>::empty());
    } else {
        let rest = properties.take(count - 1);
        let entry = properties[count - 1];
        assert(first.drop_last() =~= rest);
        assert(first.last() == entry);
        lemma_properties_read(node, subject, graph, properties, count - 1);
        let held = NodeView { properties: rest, ..node };
        lemma_value_terms(entry.1);
        let terms = value_terms(entry.1)->Ok_0;
        let own = quads_for(subject, graph, entry.0, terms);
        lemma_try_fold_concat(node, property_quads(subject, graph, rest), own, absorber());
        assert forall|i: int| 0 <= i < rest.len() implies text_lt(
            #[trigger] keys(held.properties)[i],
            entry.0,
        ) by {
            assert(keys(rest)[i] == keys(properties)[i]);
            assert(keys(properties)[count - 1] == entry.0);
        }
        assert(own.take(own.len() as int) =~= own);
        lemma_property_read(held, subject, graph, entry.0, entry.1, terms.len() as int);
        lemma_held_after(entry.1, 1);
        assert(rest.push(entry) =~= first);
    }
}

/// Reading the quads of a node that the codec gives back into a fresh node
/// gives the node.
pub proof fn lemma_node_read(node: NodeView)
    requires
        node_survives(node),
    ensures
        try_fold(fresh(key_of(node)), own_quads(node), absorber()) == Ok::<NodeView, ErrorKind>(
            node,
        ),
{
    let subject = node_ref(node.id)->Ok_0;
    let graph = graph_ref(node.graph)->Ok_0;
    let start = fresh(key_of(node));
    let types = type_quads(subject, graph, node.types);
    lemma_try_fold_concat(
        start,
        types,
        property_quads(subject, graph, node.properties),
        absorber(),
    );
    lemma_types_read(start, subject, graph, node.types, node.types.len() as int);
    assert(types.take(node.types.len() as int) =~= types);
    assert(node.types.take(node.types.len() as int) =~= node.types);
    let typed = NodeView { types: node.types, ..start };
    lemma_properties_read(
        typed,
        subject,
        graph,
        node.properties,
        node.properties.len() as int,
    );
    assert(node.properties.take(node.properties.len() as int) =~= node.properties);
}

/// The quads that are written for nodes, node by node.
pub open spec fn all_quads(nodes: Seq<NodeView>) -> Seq<QuadView>
    decreases nodes.len(),
{
    if nodes.len() == 0 {
        seq![]
    } else {
        all_quads(nodes.drop_last()) + own_quads(nodes.last())
    }
}

/// Whether the RDF codec gives nodes back: they stand in rising order of
/// graph and identifier, and it gives each of them back.
pub open spec fn nodes_survive(nodes: Seq<NodeView>) -> bool {
    &&& sorted_nodes(nodes)
    &&& forall|i: int| 0 <= i < nodes.len() ==> node_survives(#[trigger] nodes[i])
}

/// Writing nodes that the codec gives back writes their quads, and reading
/// those quads gives the nodes.
pub proof fn lemma_nodes_return(nodes: Seq<NodeView>)
    requires
        nodes_survive(nodes),
    ensures
        quads_of_nodes(nodes) == Ok::<Seq<QuadView>, ErrorKind>(all_quads(nodes)),
        nodes_of_quads(all_quads(nodes)) == Ok::<Seq<NodeView>, ErrorKind>(nodes),
    decreases nodes.len(),
{
    let empty = Seq::<NodeView>::empty();
    if nodes.len() == 0 {
        assert(nodes =~= empty);
    } else {
        let rest = nodes.drop_last();
        let node = nodes.last();
        let last = nodes.len() - 1;
        lemma_sorted_rest(nodes);
        assert forall|i: int| 0 <= i < rest.len() implies node_survives(#[trigger] rest[i]) by {
            assert(rest[i] == nodes[i]);
        }
        lemma_nodes_return(rest);
        assert(node == nodes[last]);
        lemma_node_quads(all_quads(rest), node);
        lemma_try_fold_concat(empty, all_quads(rest), own_quads(node), quad_stepper());
        assert forall|i: int| 0 <= i < rest.len() implies key_lt()(
            key_of(#[trigger] rest[i]),
            key_of(node),
        ) by {
            assert(keys_of(nodes)[i] == key_of(nodes[i]));
            assert(keys_of(nodes)[last] == key_of(nodes[last]));
            assert(key_lt()(keys_of(nodes)[i], keys_of(nodes)[last]));
        }
        lemma_read_one(rest, key_of(node), own_quads(node));
        lemma_node_read(node);
        assert(rest.push(node) =~= nodes);
    }
}

/// Writing nodes as quads and reading the quads gives the nodes back, for
/// nodes that the codec gives back: nodes in rising order of graph and
/// identifier, each with a type or a property, whose identifiers, graphs
/// and references stand for resources, whose types and predicates are
/// IRIs other than `rdf:type`, whose literals are written and read back as
/// themselves, and whose lists have two members or more.
pub proof fn write_then_read(nodes: Seq<NodeView>)
    requires
        nodes_survive(nodes),
    ensures
        quads_of_nodes(nodes) matches Ok(quads) && nodes_of_quads(quads) == Ok::<
            Seq<NodeView>,
            ErrorKind,
        >(nodes),
{
    lemma_nodes_return(nodes);
}

/// The datatypes are told apart, and so are the texts of truth values.
pub proof fn lemma_datatypes()
    ensures
        XSD_STRING@ != XSD_BOOLEAN@,
        XSD_STRING@ != XSD_INTEGER@,
        XSD_STRING@ != XSD_DECIMAL@,
        XSD_STRING@ != XSD_DOUBLE@,
        XSD_DOUBLE@ != XSD_BOOLEAN@,
        "false"@ != "true"@,
        "false"@ != "1"@,
{
    reveal_strlit("http://www.w3.org/2001/XMLSchema#boolean");
    reveal_strlit("http://www.w3.org/2001/XMLSchema#integer");
    reveal_strlit("http://www.w3.org/2001/XMLSchema#decimal");
    reveal_strlit("http://www.w3.org/2001/XMLSchema#double");
    reveal_strlit("http://www.w3.org/2001/XMLSchema#string");
    reveal_strlit("true");
    reveal_strlit("false");
    reveal_strlit("1");
    assert(XSD_STRING@.len() == 39);
    assert(XSD_DOUBLE@.len() == 39);
    assert(XSD_BOOLEAN@.len() == 40);
    assert(XSD_INTEGER@.len() == 40);
    assert(XSD_DECIMAL@.len() == 40);
    assert(XSD_STRING@[33] == 's');
    assert(XSD_DOUBLE@[33] == 'd');
    assert("false"@.len() == 5);
    assert("true"@.len() == 4);
    assert("1"@.len() == 1);
}

/// Whether a literal is written, and is read back as itself: a text and a
/// truth value always, a number where its decimal notation is read as the
/// number, a null never.
pub fn keeps_scalar(scalar: &ScalarValue) -> (r: bool)
    ensures
        r == scalar_survives(scalar@),
{
    proof {
        lemma_datatypes();
    }
    match scalar {
        ScalarValue::Null => false,
        ScalarValue::String(_) => true,
        ScalarValue::Boolean(_) => true,
        ScalarValue::Number(number) => match NumberValue::parse(number.decimal().as_str()) {
            Some(read) => {
                let read = ScalarValue::Number(read);
                same_scalar(&read, scalar)
            },
            None => false,
        },
    }
}

/// Whether a value is read back as itself.
pub fn keeps_value(value: &PropertyValue) -> (r: bool)
    ensures
        r == value_survives(value@),
{
    match value {
        PropertyValue::Scalar(scalar) => keeps_scalar(scalar),
        PropertyValue::ObjectRef(target) => id_to_subject(target.as_str()).is_ok(),
        PropertyValue::Array(ArrayValue::Scalars(items)) => {
            if items.len() < 2 {
                return false;
            }
            let ghost all = scalars(items@);
            let mut i: usize = 0;
            while i < items.len()
                invariant
                    i <= items.len(),
                    all == scalars(items@),
                    value@ == PropertyView::Scalars(all),
                    forall|k: int| 0 <= k < i ==> scalar_survives(#[trigger] all[k]),
                decreases items.len() - i,
            {
                assert(all[i as int] == items@[i as int]@);
                if !keeps_scalar(&items[i]) {
                    return false;
                }
                i += 1;
            }
            true
        },
        PropertyValue::Array(ArrayValue::ObjectRefs(targets)) => {
            if targets.len() < 2 {
                return false;
            }
            let ghost all = texts(targets@);
            let mut i: usize = 0;
            while i < targets.len()
                invariant
                    i <= targets.len(),
                    all == texts(targets@),
                    value@ == PropertyView::ObjectRefs(all),
                    forall|k: int| 0 <= k < i ==> node_ref(#[trigger] all[k]) is Ok,
                decreases targets.len() - i,
            {
                assert(all[i as int] == targets@[i as int]@);
                if id_to_subject(targets[i].as_str()).is_err() {
                    return false;
                }
                i += 1;
            }
            true
        },
    }
}

/// Whether the RDF codec gives a node back.
pub fn keeps_node(node: &Node) -> (r: bool)
    ensures
        r == node_survives(node@),
{
    if id_to_subject(node.id().as_str()).is_err() || graph_to_name(node.graph()).is_err() {
        return false;
    }
    let types = node.types();
    let properties = node.properties();
    if types.len() == 0 && properties.len() == 0 {
        return false;
    }
    let ghost all_types = texts(types@);
    let mut i: usize = 0;
    while i < types.len()
        invariant
            i <= types.len(),
            all_types == texts(types@),
            all_types == node@.types,
            forall|k: int| 0 <= k < i ==> is_rdf_iri(#[trigger] all_types[k]),
        decreases types.len() - i,
    {
        assert(all_types[i as int] == types@[i as int]@);
        if !check_iri(types[i].as_str()) {
            return false;
        }
        i += 1;
    }
    let ghost all = entries(properties@);
    let mut j: usize = 0;
    while j < properties.len()
        invariant
            j <= properties.len(),
            all == entries(properties@),
            all == node@.properties,
            forall|k: int|
                0 <= k < j ==> is_rdf_iri((#[trigger] all[k]).0) && all[k].0 != RDF_TYPE@
                    && value_survives(all[k].1),
        decreases properties.len() - j,
    {
        assert(all[j as int] == (properties@[j as int].0@, properties@[j as int].1@));
        let predicate = properties[j].0.as_str();
        if !check_iri(predicate) || str_eq(predicate, RDF_TYPE) || !keeps_value(&properties[j].1) {
            return false;
        }
        j += 1;
    }
    true
}

/// Whether writing the nodes as quads and reading the quads is sure to
/// give the nodes back.
pub fn keeps_nodes(nodes: &[Node]) -> (r: bool)
    ensures
        r == nodes_survive(nodes_view(nodes@)),
        r ==> (quads_of_nodes(nodes_view(nodes@)) matches Ok(quads) && nodes_of_quads(quads)
            == Ok::<Seq<NodeView>, ErrorKind>(nodes_view(nodes@))),
{
    let ghost views = nodes_view(nodes@);
    let mut i: usize = 0;
    while i < nodes.len()
        invariant
            i <= nodes.len(),
            views == nodes_view(nodes@),
            forall|k: int| 0 <= k < i ==> node_survives(#[trigger] views[k]),
            forall|k: int|
                0 < k < i ==> key_lt()(keys_of(views)[k - 1], #[trigger] keys_of(views)[k]),
        decreases nodes.len() - i,
    {
        assert(views[i as int] == nodes@[i as int]@);
        if !keeps_node(&nodes[i]) {
            return false;
        }
        if i > 0 {
            assert(views[i - 1] == nodes@[i - 1]@);
            assert(keys_of(views)[i as int] == key_of(views[i as int]));
            assert(keys_of(views)[i - 1] == key_of(views[i - 1]));
            if !key_less(
                nodes[i - 1].graph(),
                nodes[i - 1].id().as_str(),
                nodes[i].graph(),
                nodes[i].id().as_str(),
            ) {
                assert(!sorted_nodes(views));
                return false;
            }
        }
        i += 1;
    }
    proof {
        lemma_key_lt_total();
        lemma_steps_rising(keys_of(views), key_lt());
        write_then_read(views);
    }
    true
}

} // verus!
