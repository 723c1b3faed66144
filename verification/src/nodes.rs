//! Nodes while a codec reads them: kept in rising order of graph and
//! identifier, one node for each pair of them.

use vstd::prelude::*;
use crate::model::{
    insert_entry, insert_text, Node, nodes_view, NodeView, PropertyValue, PropertyView,
    text_option,
};
use crate::order::{lemma_lower, lemma_lower_is, lemma_lower_rising, lower, rising, strict_total};
use crate::text::{
    lemma_text_lt_irreflexive, lemma_text_lt_total, lemma_text_lt_transitive, str_eq, str_lt,
    text_lt,
};

verus! {

/// What tells one node from another: its graph and its identifier.
pub type NodeKey = (Option<Seq<char>>, Seq<char>);

/// The key of a node.
pub open spec fn key_of(node: NodeView) -> NodeKey {
    (node.graph, node.id)
}

/// The order of keys: the default graph first, then the named graphs in
/// the order of their names; within one graph, the order of identifiers.
pub open spec fn key_lt() -> spec_fn(NodeKey, NodeKey) -> bool {
    |a: NodeKey, b: NodeKey|
        match (a.0, b.0) {
            (None, None) => text_lt(a.1, b.1),
            (None, Some(_)) => true,
            (Some(_), None) => false,
            (Some(x), Some(y)) => text_lt(x, y) || (x == y && text_lt(a.1, b.1)),
        }
}

/// The order of keys is a strict total order.
pub proof fn lemma_key_lt_total()
    ensures
        strict_total(key_lt()),
{
    let lt = key_lt();
    assert forall|a: NodeKey| !#[trigger] lt(a, a) by {
        lemma_text_lt_irreflexive(a.1);
        if a.0 is Some {
            lemma_text_lt_irreflexive(a.0->0);
        }
    }
    assert forall|a: NodeKey, b: NodeKey, c: NodeKey| #[trigger]
        lt(a, b) && #[trigger] lt(b, c) implies lt(a, c) by {
        if text_lt(a.1, b.1) && text_lt(b.1, c.1) {
            lemma_text_lt_transitive(a.1, b.1, c.1);
        }
        if a.0 is Some && b.0 is Some && c.0 is Some {
            if text_lt(a.0->0, b.0->0) && text_lt(b.0->0, c.0->0) {
                lemma_text_lt_transitive(a.0->0, b.0->0, c.0->0);
            }
        }
    }
    assert forall|a: NodeKey, b: NodeKey| a == b || #[trigger] lt(a, b) || lt(b, a) by {
        lemma_text_lt_total(a.1, b.1);
        if a.0 is Some && b.0 is Some {
            lemma_text_lt_total(a.0->0, b.0->0);
        }
    }
}

/// The keys of a sequence of nodes.
pub open spec fn keys_of(nodes: Seq<NodeView>) -> Seq<NodeKey> {
    nodes.map_values(|node: NodeView| key_of(node))
}

/// The nodes stand in strictly rising order of their keys.
pub open spec fn sorted_nodes(nodes: Seq<NodeView>) -> bool {
    rising(keys_of(nodes), key_lt())
}

/// Where the node with the key `key` stands among sorted nodes, or would
/// have to be put in.
pub open spec fn position(nodes: Seq<NodeView>, key: NodeKey) -> int {
    lower(keys_of(nodes), key, key_lt())
}

/// Whether sorted nodes hold a node with the key `key`.
pub open spec fn has_key(nodes: Seq<NodeView>, key: NodeKey) -> bool {
    position(nodes, key) < nodes.len() && key_of(nodes[position(nodes, key)]) == key
}

/// A node with the key `key`, without types or properties.
pub open spec fn fresh(key: NodeKey) -> NodeView {
    NodeView { id: key.1, graph: key.0, types: seq![], properties: seq![] }
}

/// Sorted nodes with a fresh node for `key` put in, unless they hold a node
/// with that key already.
pub open spec fn ensured(nodes: Seq<NodeView>, key: NodeKey) -> Seq<NodeView> {
    if has_key(nodes, key) {
        nodes
    } else {
        nodes.insert(position(nodes, key), fresh(key))
    }
}

/// `node` with one more type.
pub open spec fn with_type(node: NodeView, class: Seq<char>) -> NodeView {
    NodeView { types: insert_text(node.types, class), ..node }
}

/// `node` with `value` under `predicate`.
pub open spec fn with_property(
    node: NodeView,
    predicate: Seq<char>,
    value: PropertyView,
) -> NodeView {
    NodeView { properties: insert_entry(node.properties, predicate, value), ..node }
}

/// Sorted nodes with a node for a key put in are sorted, and hold a node
/// with that key at the place of the key: the node that was there, or a
/// fresh one.
pub proof fn lemma_ensured(nodes: Seq<NodeView>, key: NodeKey)
    requires
        sorted_nodes(nodes),
    ensures
        sorted_nodes(ensured(nodes, key)),
        0 <= position(nodes, key) < ensured(nodes, key).len(),
        key_of(ensured(nodes, key)[position(nodes, key)]) == key,
        has_key(nodes, key) ==> ensured(nodes, key) == nodes,
        !has_key(nodes, key) ==> ensured(nodes, key)[position(nodes, key)] == fresh(key),
{
    lemma_key_lt_total();
    let keys = keys_of(nodes);
    lemma_lower(keys, key, key_lt());
    lemma_lower_rising(keys, key, key_lt());
    if !has_key(nodes, key) {
        let at = position(nodes, key);
        if keys.contains(key) {
            let i = choose|i: int| 0 <= i < keys.len() && keys[i] == key;
            assert(keys[i] == key);
        }
        crate::order::lemma_insert_rising(keys, key, key_lt());
        assert(keys_of(nodes.insert(at, fresh(key))) =~= keys.insert(at, key));
    }
}

/// Replacing a node by one with the same key keeps the order.
pub proof fn lemma_update_sorted(nodes: Seq<NodeView>, at: int, node: NodeView)
    requires
        sorted_nodes(nodes),
        0 <= at < nodes.len(),
        key_of(node) == key_of(nodes[at]),
    ensures
        sorted_nodes(nodes.update(at, node)),
        keys_of(nodes.update(at, node)) == keys_of(nodes),
{
    assert(keys_of(nodes.update(at, node)) =~= keys_of(nodes));
}

/// Whether one key stands before another.
pub fn key_less(
    graph_a: &Option<String>,
    id_a: &str,
    graph_b: &Option<String>,
    id_b: &str,
) -> (r: bool)
    ensures
        r == key_lt()((text_option(*graph_a), id_a@), (text_option(*graph_b), id_b@)),
{
    match (graph_a, graph_b) {
        (None, None) => str_lt(id_a, id_b),
        (None, Some(_)) => true,
        (Some(_), None) => false,
        (Some(x), Some(y)) => {
            if str_lt(x.as_str(), y.as_str()) {
                true
            } else if str_eq(x.as_str(), y.as_str()) {
                str_lt(id_a, id_b)
            } else {
                false
            }
        },
    }
}

/// Whether two keys are the same.
fn key_equal(
    graph_a: &Option<String>,
    id_a: &str,
    graph_b: &Option<String>,
    id_b: &str,
) -> (r: bool)
    ensures
        r == ((text_option(*graph_a), id_a@) == (text_option(*graph_b), id_b@)),
{
    let same_graph = match (graph_a, graph_b) {
        (None, None) => true,
        (Some(x), Some(y)) => str_eq(x.as_str(), y.as_str()),
        _ => false,
    };
    same_graph && str_eq(id_a, id_b)
}

/// Nodes in rising order of graph and identifier, one for each key.
pub struct NodeSet {
    nodes: Vec<Node>,
}

impl View for NodeSet {
    type V = Seq<NodeView>;

    closed spec fn view(&self) -> Seq<NodeView> {
        nodes_view(self.nodes@)
    }
}

impl NodeSet {
    #[verifier::type_invariant]
    spec fn well_formed(&self) -> bool {
        sorted_nodes(nodes_view(self.nodes@))
    }

    /// No nodes.
    pub fn new() -> (set: NodeSet)
        ensures
            set@ == Seq::<NodeView>::empty(),
    {
        let set = NodeSet { nodes: Vec::new() };
        assert(nodes_view(set.nodes@) =~= Seq::<NodeView>::empty());
        assert(keys_of(nodes_view(set.nodes@)) =~= Seq::<NodeKey>::empty());
        set
    }

    /// How many nodes there are.
    pub fn len(&self) -> (n: usize)
        ensures
            n == self@.len(),
            sorted_nodes(self@),
    {
        proof {
            use_type_invariant(self);
        }
        self.nodes.len()
    }

    /// The place of the node of the graph `graph` with the identifier `id`;
    /// a node without types or properties is put in if there is none yet.
    pub fn ensure_node(&mut self, graph: Option<String>, id: &str) -> (at: usize)
        ensures
            final(self)@ == ensured(old(self)@, (text_option(graph), id@)),
            at == position(old(self)@, (text_option(graph), id@)),
            at < final(self)@.len(),
            key_of(final(self)@[at as int]) == (text_option(graph), id@),
            sorted_nodes(old(self)@),
            sorted_nodes(final(self)@),
    {
        proof {
            use_type_invariant(&*self);
        }
        let mut nodes: Vec<Node> = Vec::new();
        assert(keys_of(nodes_view(nodes@)) =~= Seq::<NodeKey>::empty());
        core::mem::swap(&mut self.nodes, &mut nodes);
        let ghost before = nodes_view(nodes@);
        let ghost key = (text_option(graph), id@);
        let ghost keys = keys_of(before);
        let mut at: usize = 0;
        while at < nodes.len() && key_less(nodes[at].graph(), nodes[at].id().as_str(), &graph, id)
            invariant
                at <= nodes.len(),
                before == nodes_view(nodes@),
                keys == keys_of(before),
                key == (text_option(graph), id@),
                forall|k: int| 0 <= k < at ==> key_lt()(#[trigger] keys[k], key),
            decreases nodes.len() - at,
        {
            assert(keys[at as int] == key_of(nodes@[at as int]@));
            at += 1;
        }
        proof {
            if at < nodes.len() {
                assert(keys[at as int] == key_of(nodes@[at as int]@));
            }
            lemma_lower_is(keys, key, key_lt(), at as int);
            lemma_ensured(before, key);
        }
        let found = at < nodes.len() && key_equal(
            nodes[at].graph(),
            nodes[at].id().as_str(),
            &graph,
            id,
        );
        if !found {
            let node = Node::with_graph(id, graph);
            nodes.insert(at, node);
            assert(nodes_view(nodes@) =~= before.insert(at as int, fresh(key)));
        }
        self.nodes = nodes;
        at
    }

    /// The place of the node of the graph `graph` with the identifier `id`,
    /// if there is such a node.
    pub fn find(&self, graph: &Option<String>, id: &str) -> (r: Option<usize>)
        ensures
            match r {
                Some(at) => has_key(self@, (text_option(*graph), id@)) && at == position(
                    self@,
                    (text_option(*graph), id@),
                ),
                None => !has_key(self@, (text_option(*graph), id@)),
            },
            sorted_nodes(self@),
    {
        proof {
            use_type_invariant(self);
        }
        let ghost key = (text_option(*graph), id@);
        let ghost keys = keys_of(self@);
        let mut at: usize = 0;
        while at < self.nodes.len() && key_less(
            self.nodes[at].graph(),
            self.nodes[at].id().as_str(),
            graph,
            id,
        )
            invariant
                at <= self.nodes.len(),
                keys == keys_of(nodes_view(self.nodes@)),
                key == (text_option(*graph), id@),
                forall|k: int| 0 <= k < at ==> key_lt()(#[trigger] keys[k], key),
            decreases self.nodes.len() - at,
        {
            assert(keys[at as int] == key_of(self.nodes@[at as int]@));
            at += 1;
        }
        proof {
            if at < self.nodes.len() {
                assert(keys[at as int] == key_of(self.nodes@[at as int]@));
            }
            lemma_lower_is(keys, key, key_lt(), at as int);
        }
        if at < self.nodes.len() && key_equal(
            self.nodes[at].graph(),
            self.nodes[at].id().as_str(),
            graph,
            id,
        ) {
            Some(at)
        } else {
            None
        }
    }

    /// The node at the place `at`.
    pub fn node(&self, at: usize) -> (node: &Node)
        requires
            at < self@.len(),
        ensures
            node@ == self@[at as int],
    {
        &self.nodes[at]
    }

    /// Gives the node at the place `at` one more type.
    pub fn add_type(&mut self, at: usize, class: String)
        requires
            at < old(self)@.len(),
        ensures
            final(self)@ == old(self)@.update(at as int, with_type(old(self)@[at as int], class@)),
    {
        proof {
            use_type_invariant(&*self);
        }
        let mut nodes: Vec<Node> = Vec::new();
        assert(keys_of(nodes_view(nodes@)) =~= Seq::<NodeKey>::empty());
        core::mem::swap(&mut self.nodes, &mut nodes);
        let ghost before = nodes_view(nodes@);
        let mut node = nodes.remove(at);
        node.add_type(class);
        proof {
            lemma_update_sorted(before, at as int, node@);
        }
        nodes.insert(at, node);
        assert(nodes_view(nodes@) =~= before.update(at as int, node@));
        self.nodes = nodes;
    }

    /// Puts `value` under `predicate` in the node at the place `at`.
    pub fn insert_property(&mut self, at: usize, predicate: String, value: PropertyValue)
        requires
            at < old(self)@.len(),
        ensures
            final(self)@ == old(self)@.update(
                at as int,
                with_property(old(self)@[at as int], predicate@, value@),
            ),
    {
        proof {
            use_type_invariant(&*self);
        }
        let mut nodes: Vec<Node> = Vec::new();
        assert(keys_of(nodes_view(nodes@)) =~= Seq::<NodeKey>::empty());
        core::mem::swap(&mut self.nodes, &mut nodes);
        let ghost before = nodes_view(nodes@);
        let mut node = nodes.remove(at);
        node.insert_property(predicate, value);
        proof {
            lemma_update_sorted(before, at as int, node@);
        }
        nodes.insert(at, node);
        assert(nodes_view(nodes@) =~= before.update(at as int, node@));
        self.nodes = nodes;
    }

    /// Puts `node` in the place of the node at `at`, which has the same
    /// graph and identifier.
    pub fn replace(&mut self, at: usize, node: Node)
        requires
            at < old(self)@.len(),
            key_of(node@) == key_of(old(self)@[at as int]),
        ensures
            final(self)@ == old(self)@.update(at as int, node@),
    {
        proof {
            use_type_invariant(&*self);
        }
        let mut nodes: Vec<Node> = Vec::new();
        assert(keys_of(nodes_view(nodes@)) =~= Seq::<NodeKey>::empty());
        core::mem::swap(&mut self.nodes, &mut nodes);
        let ghost before = nodes_view(nodes@);
        proof {
            lemma_update_sorted(before, at as int, node@);
        }
        nodes.set(at, node);
        assert(nodes_view(nodes@) =~= before.update(at as int, node@));
        self.nodes = nodes;
    }

    /// The nodes, in rising order of graph and identifier.
    pub fn into_nodes(self) -> (nodes: Vec<Node>)
        ensures
            nodes_view(nodes@) == self@,
            sorted_nodes(self@),
    {
        proof {
            use_type_invariant(&self);
        }
        self.nodes
    }
}

/// A node of sorted nodes stands at the place of its key.
pub proof fn lemma_position_at(nodes: Seq<NodeView>, at: int)
    requires
        sorted_nodes(nodes),
        0 <= at < nodes.len(),
    ensures
        position(nodes, key_of(nodes[at])) == at,
        has_key(nodes, key_of(nodes[at])),
        ensured(nodes, key_of(nodes[at])) == nodes,
{
    lemma_key_lt_total();
    lemma_lower_rising(keys_of(nodes), key_of(nodes[at]), key_lt());
    assert(keys_of(nodes)[at] == key_of(nodes[at]));
}

/// A key behind the keys of all nodes has its place behind the nodes.
pub proof fn lemma_position_end(nodes: Seq<NodeView>, key: NodeKey)
    requires
        forall|i: int| 0 <= i < nodes.len() ==> key_lt()(key_of(#[trigger] nodes[i]), key),
    ensures
        position(nodes, key) == nodes.len(),
        !has_key(nodes, key),
        ensured(nodes, key) == nodes.push(fresh(key)),
{
    let keys = keys_of(nodes);
    assert forall|i: int| 0 <= i < keys.len() implies key_lt()(#[trigger] keys[i], key) by {
        assert(keys[i] == key_of(nodes[i]));
    }
    lemma_lower_is(keys, key, key_lt(), keys.len() as int);
    assert(nodes.insert(nodes.len() as int, fresh(key)) =~= nodes.push(fresh(key)));
}

} // verus!
