//! The graph model shared by every codec: nodes, their types and the values
//! of their properties.

use vstd::prelude::*;
use crate::text::{
    lemma_rank, lemma_rank_is, lemma_rank_sorted, rank, str_eq, str_lt, strictly_sorted, text_lt,
};

verus! {

/// `serde_json::Number`, carried as it is; what is known of one is the
/// text that it is written as.
#[verifier::external_type_specification]
#[verifier::external_body]
pub struct ExJsonNumber(serde_json::Number);

/// The text that `Display` writes for a `serde_json::Number`.
pub uninterp spec fn number_text(number: serde_json::Number) -> Seq<char>;

/// What [`parse_double`] makes of a text: the double that the text denotes,
/// in its two renderings, or `None` where it denotes none.
pub uninterp spec fn double_of_text(text: Seq<char>) -> Option<NumberView>;

/// What [`double_of_number`] makes of the JSON number with the given text:
/// the double nearest to it, in its two renderings.
pub uninterp spec fn double_of_json(number: Seq<char>) -> Option<NumberView>;

/// The mathematical value of a [`NumberValue`]: the number in plain decimal
/// notation, and as JSON writes it (`None` for a number that is not finite).
pub struct NumberView {
    pub decimal: Seq<char>,
    pub json: Option<Seq<char>>,
}

/// A double-precision number. The library never computes with it: it keeps
/// the two renderings that the codecs write out.
#[derive(Debug, PartialEq, Eq)]
pub struct NumberValue {
    decimal: String,
    json: Option<serde_json::Number>,
}

impl View for NumberValue {
    type V = NumberView;

    closed spec fn view(&self) -> NumberView {
        NumberView {
            decimal: self.decimal@,
            json: match self.json {
                Some(j) => Some(number_text(j)),
                None => None,
            },
        }
    }
}

/// The value of an optional number.
pub open spec fn number_option_view(n: Option<NumberValue>) -> Option<NumberView> {
    match n {
        Some(n) => Some(n@),
        None => None,
    }
}

/// `str::parse` for a double, with the result rendered twice: in decimal by
/// `Display` of the double, and as a JSON number by
/// `serde_json::Number::from_f64` (`None` where the double is not finite).
/// The whole is `None` where the text does not parse.
#[verifier::external_body]
fn parse_double(text: &str) -> (r: Option<NumberValue>)
    ensures
        number_option_view(r) == double_of_text(text@),
{
    let value = text.parse().ok()?;
    let json = serde_json::Number::from_f64(value);
    Some(NumberValue { decimal: value.to_string(), json })
}

/// `serde_json::Number::as_f64`, with the result rendered as in
/// [`parse_double`]. `None` where `as_f64` gives none.
#[verifier::external_body]
fn double_of_number(number: &serde_json::Number) -> (r: Option<NumberValue>)
    ensures
        number_option_view(r) == double_of_json(number_text(*number)),
{
    let value = number.as_f64()?;
    let json = serde_json::Number::from_f64(value);
    Some(NumberValue { decimal: value.to_string(), json })
}

/// `Clone` of a `serde_json::Number`: the same number.
pub assume_specification[ <serde_json::Number as Clone>::clone ](
    number: &serde_json::Number,
) -> (r: serde_json::Number)
    ensures
        r == *number,
;

/// `Display` of a `serde_json::Number`.
#[verifier::external_body]
fn show_number(number: &serde_json::Number) -> (r: String)
    ensures
        r@ == number_text(*number),
{
    number.to_string()
}

impl NumberValue {
    /// Reads a number from decimal text such as `30`, `-0.5`, `1e3` or `NaN`.
    pub fn parse(text: &str) -> (r: Option<NumberValue>)
        ensures
            number_option_view(r) == double_of_text(text@),
    {
        parse_double(text)
    }

    /// The double nearest to a JSON number.
    pub fn from_json(number: &serde_json::Number) -> (r: Option<NumberValue>)
        ensures
            number_option_view(r) == double_of_json(number_text(*number)),
    {
        double_of_number(number)
    }

    /// The number in plain decimal notation.
    pub fn decimal(&self) -> (r: &String)
        ensures
            r@ == self@.decimal,
    {
        &self.decimal
    }

    /// The number as a JSON number; `None` for a number that is not finite.
    pub fn json(&self) -> (r: Option<serde_json::Number>)
        ensures
            match r {
                Some(j) => self@.json == Some(number_text(j)),
                None => self@.json is None,
            },
    {
        match &self.json {
            Some(j) => Some(j.clone()),
            None => None,
        }
    }

    /// The number as JSON writes it; `None` for a number that is not finite.
    pub fn json_text(&self) -> (r: Option<String>)
        ensures
            match r {
                Some(t) => self@.json == Some(t@),
                None => self@.json is None,
            },
    {
        match &self.json {
            Some(j) => Some(show_number(j)),
            None => None,
        }
    }
}

impl Clone for NumberValue {
    fn clone(&self) -> (r: NumberValue)
        ensures
            r@ == self@,
    {
        NumberValue {
            decimal: self.decimal.clone(),
            json: match &self.json {
                Some(j) => Some(j.clone()),
                None => None,
            },
        }
    }
}

/// The views of a sequence of strings.
pub open spec fn texts(v: Seq<String>) -> Seq<Seq<char>> {
    v.map_values(|s: String| s@)
}

/// A copy of a list of strings.
pub fn clone_strings(v: &Vec<String>) -> (r: Vec<String>)
    ensures
        texts(r@) == texts(v@),
{
    let mut r: Vec<String> = Vec::new();
    let mut i: usize = 0;
    while i < v.len()
        invariant
            i <= v.len(),
            r.len() == i,
            forall|k: int| 0 <= k < i ==> r@[k]@ == v@[k]@,
        decreases v.len() - i,
    {
        r.push(v[i].clone());
        i += 1;
    }
    assert(texts(r@) =~= texts(v@));
    r
}

/// The mathematical value of a [`ScalarValue`].
pub enum ScalarView {
    String(Seq<char>),
    Number(NumberView),
    Boolean(bool),
    Null,
}

/// A literal value.
#[derive(Debug, PartialEq, Eq)]
pub enum ScalarValue {
    /// Plain text.
    String(String),
    /// A double-precision number.
    Number(NumberValue),
    /// A truth value.
    Boolean(bool),
    /// An explicit null.
    Null,
}

impl View for ScalarValue {
    type V = ScalarView;

    open spec fn view(&self) -> ScalarView {
        match self {
            ScalarValue::String(s) => ScalarView::String(s@),
            ScalarValue::Number(n) => ScalarView::Number(n@),
            ScalarValue::Boolean(b) => ScalarView::Boolean(*b),
            ScalarValue::Null => ScalarView::Null,
        }
    }
}

impl Clone for ScalarValue {
    fn clone(&self) -> (r: ScalarValue)
        ensures
            r@ == self@,
    {
        match self {
            ScalarValue::String(s) => ScalarValue::String(s.clone()),
            ScalarValue::Number(n) => ScalarValue::Number(n.clone()),
            ScalarValue::Boolean(b) => ScalarValue::Boolean(*b),
            ScalarValue::Null => ScalarValue::Null,
        }
    }
}

/// The views of a sequence of scalars.
pub open spec fn scalars(v: Seq<ScalarValue>) -> Seq<ScalarView> {
    v.map_values(|s: ScalarValue| s@)
}

/// A copy of a list of scalars.
pub fn clone_scalars(v: &Vec<ScalarValue>) -> (r: Vec<ScalarValue>)
    ensures
        scalars(r@) == scalars(v@),
{
    let mut r: Vec<ScalarValue> = Vec::new();
    let mut i: usize = 0;
    while i < v.len()
        invariant
            i <= v.len(),
            r.len() == i,
            forall|k: int| 0 <= k < i ==> r@[k]@ == v@[k]@,
        decreases v.len() - i,
    {
        r.push(v[i].clone());
        i += 1;
    }
    assert(scalars(r@) =~= scalars(v@));
    r
}

/// A value with several members, all literals or all references.
#[derive(Debug, PartialEq, Eq)]
pub enum ArrayValue {
    /// Literals, in the order given.
    Scalars(Vec<ScalarValue>),
    /// Identifiers of the nodes referred to, in the order given.
    ObjectRefs(Vec<String>),
}

/// The mathematical value of a [`PropertyValue`].
pub enum PropertyView {
    Scalar(ScalarView),
    ObjectRef(Seq<char>),
    Scalars(Seq<ScalarView>),
    ObjectRefs(Seq<Seq<char>>),
}

/// The value that a node holds for one predicate.
#[derive(Debug, PartialEq, Eq)]
pub enum PropertyValue {
    /// One literal.
    Scalar(ScalarValue),
    /// A reference to another node, by its identifier.
    ObjectRef(String),
    /// Several literals, or several references.
    Array(ArrayValue),
}

impl View for PropertyValue {
    type V = PropertyView;

    open spec fn view(&self) -> PropertyView {
        match self {
            PropertyValue::Scalar(s) => PropertyView::Scalar(s@),
            PropertyValue::ObjectRef(t) => PropertyView::ObjectRef(t@),
            PropertyValue::Array(ArrayValue::Scalars(v)) => PropertyView::Scalars(scalars(v@)),
            PropertyValue::Array(ArrayValue::ObjectRefs(v)) => PropertyView::ObjectRefs(texts(v@)),
        }
    }
}

impl Clone for PropertyValue {
    fn clone(&self) -> (r: PropertyValue)
        ensures
            r@ == self@,
    {
        match self {
            PropertyValue::Scalar(s) => PropertyValue::Scalar(s.clone()),
            PropertyValue::ObjectRef(t) => PropertyValue::ObjectRef(t.clone()),
            PropertyValue::Array(ArrayValue::Scalars(v)) => PropertyValue::Array(
                ArrayValue::Scalars(clone_scalars(v)),
            ),
            PropertyValue::Array(ArrayValue::ObjectRefs(v)) => PropertyValue::Array(
                ArrayValue::ObjectRefs(clone_strings(v)),
            ),
        }
    }
}

/// The views of a list of property entries.
pub open spec fn entries(v: Seq<(String, PropertyValue)>) -> Seq<(Seq<char>, PropertyView)> {
    v.map_values(|e: (String, PropertyValue)| (e.0@, e.1@))
}

/// The predicates of a list of property entries.
pub open spec fn keys(m: Seq<(Seq<char>, PropertyView)>) -> Seq<Seq<char>> {
    m.map_values(|e: (Seq<char>, PropertyView)| e.0)
}

/// A sorted sequence of texts with `x` put in, unless it is there already.
pub open spec fn insert_text(s: Seq<Seq<char>>, x: Seq<char>) -> Seq<Seq<char>> {
    let r = rank(s, x);
    if r < s.len() && s[r] == x {
        s
    } else {
        s.insert(r, x)
    }
}

/// Property entries sorted by predicate, with `value` put under `key`: in
/// place of the value that `key` had, if it had one.
pub open spec fn insert_entry(
    m: Seq<(Seq<char>, PropertyView)>,
    key: Seq<char>,
    value: PropertyView,
) -> Seq<(Seq<char>, PropertyView)> {
    let r = rank(keys(m), key);
    if r < m.len() && m[r].0 == key {
        m.update(r, (key, value))
    } else {
        m.insert(r, (key, value))
    }
}

/// The value that sorted property entries hold under `key`.
pub open spec fn lookup(m: Seq<(Seq<char>, PropertyView)>, key: Seq<char>) -> Option<
    PropertyView,
> {
    let r = rank(keys(m), key);
    if r < m.len() && m[r].0 == key {
        Some(m[r].1)
    } else {
        None
    }
}

/// A sorted sequence with a text put in is sorted.
pub proof fn lemma_insert_text_sorted(s: Seq<Seq<char>>, x: Seq<char>)
    requires
        strictly_sorted(s),
    ensures
        strictly_sorted(insert_text(s, x)),
{
    lemma_rank(s, x);
    lemma_rank_sorted(s, x);
    let r = rank(s, x);
    let t = insert_text(s, x);
    if !(r < s.len() && s[r] == x) {
        assert forall|i: int, j: int| 0 <= i < j < t.len() implies text_lt(
            #[trigger] t[i],
            #[trigger] t[j],
        ) by {
            if j < r {
                assert(t[i] == s[i] && t[j] == s[j]);
            } else if j == r {
                assert(t[i] == s[i]);
            } else if i < r {
                assert(t[i] == s[i] && t[j] == s[j - 1]);
                if j - 1 == r {
                    crate::text::lemma_text_lt_transitive(s[i], x, s[j - 1]);
                }
            } else if i == r {
                assert(t[j] == s[j - 1]);
            } else {
                assert(t[i] == s[i - 1] && t[j] == s[j - 1]);
            }
        }
    }
}

/// Entries sorted by key, with a value put in, are sorted by key; their keys
/// are the keys that were there with the key put in.
pub proof fn lemma_insert_entry_sorted(
    m: Seq<(Seq<char>, PropertyView)>,
    key: Seq<char>,
    value: PropertyView,
)
    requires
        strictly_sorted(keys(m)),
    ensures
        strictly_sorted(keys(insert_entry(m, key, value))),
        keys(insert_entry(m, key, value)) == insert_text(keys(m), key),
{
    let r = rank(keys(m), key);
    lemma_rank(keys(m), key);
    if r < m.len() && m[r].0 == key {
        assert(keys(m.update(r, (key, value))) =~= keys(m));
    } else {
        assert(keys(m.insert(r, (key, value))) =~= keys(m).insert(r, key));
    }
    lemma_insert_text_sorted(keys(m), key);
}

/// The place at which `x` stands in the sorted list `v`, or at which it
/// would have to be put in.
pub fn find_text(v: &Vec<String>, x: &str) -> (r: usize)
    ensures
        r == rank(texts(v@), x@),
{
    let mut i: usize = 0;
    while i < v.len() && str_lt(v[i].as_str(), x)
        invariant
            i <= v.len(),
            forall|k: int| 0 <= k < i ==> text_lt(#[trigger] texts(v@)[k], x@),
        decreases v.len() - i,
    {
        i += 1;
    }
    proof {
        lemma_rank_is(texts(v@), x@, i as int);
    }
    i
}

/// Whether the sorted list `v` holds `x`.
pub fn contains_text(v: &Vec<String>, x: &str) -> (r: bool)
    requires
        strictly_sorted(texts(v@)),
    ensures
        r == texts(v@).contains(x@),
{
    let at = find_text(v, x);
    proof {
        lemma_rank(texts(v@), x@);
        lemma_rank_sorted(texts(v@), x@);
    }
    if at < v.len() && str_eq(v[at].as_str(), x) {
        assert(texts(v@)[at as int] == x@);
        true
    } else {
        false
    }
}

/// Puts `x` into the sorted list `v`, unless it is there already.
pub fn insert_sorted(v: &mut Vec<String>, x: String)
    requires
        strictly_sorted(texts(old(v)@)),
    ensures
        texts(final(v)@) == insert_text(texts(old(v)@), x@),
        strictly_sorted(texts(final(v)@)),
{
    let r = find_text(v, x.as_str());
    proof {
        lemma_rank(texts(v@), x@);
        lemma_insert_text_sorted(texts(v@), x@);
    }
    if r < v.len() && str_eq(v[r].as_str(), x.as_str()) {
    } else {
        let ghost before = texts(v@);
        v.insert(r, x);
        assert(texts(v@) =~= before.insert(r as int, x@));
    }
}

/// The place at which `key` stands in the sorted entries `v`, or at which
/// it would have to be put in.
pub fn find_entry(v: &Vec<(String, PropertyValue)>, key: &str) -> (r: usize)
    ensures
        r == rank(keys(entries(v@)), key@),
{
    let mut i: usize = 0;
    while i < v.len() && str_lt(v[i].0.as_str(), key)
        invariant
            i <= v.len(),
            forall|k: int| 0 <= k < i ==> text_lt(#[trigger] keys(entries(v@))[k], key@),
        decreases v.len() - i,
    {
        i += 1;
    }
    proof {
        lemma_rank_is(keys(entries(v@)), key@, i as int);
    }
    i
}

/// Puts `value` under `key` in the sorted entries `v`, in place of the
/// value that `key` had, if it had one.
pub fn insert_into(v: &mut Vec<(String, PropertyValue)>, key: String, value: PropertyValue)
    requires
        strictly_sorted(keys(entries(old(v)@))),
    ensures
        entries(final(v)@) == insert_entry(entries(old(v)@), key@, value@),
        strictly_sorted(keys(entries(final(v)@))),
{
    let r = find_entry(v, key.as_str());
    let ghost before = entries(v@);
    proof {
        lemma_rank(keys(before), key@);
        lemma_insert_entry_sorted(before, key@, value@);
    }
    if r < v.len() && str_eq(v[r].0.as_str(), key.as_str()) {
        v.set(r, (key, value));
        assert(entries(v@) =~= before.update(r as int, (key@, value@)));
    } else {
        v.insert(r, (key, value));
        assert(entries(v@) =~= before.insert(r as int, (key@, value@)));
    }
}

/// The view of an optional string.
pub open spec fn text_option(o: Option<String>) -> Option<Seq<char>> {
    match o {
        Some(s) => Some(s@),
        None => None,
    }
}

/// A copy of an optional string.
pub fn clone_text_option(o: &Option<String>) -> (r: Option<String>)
    ensures
        text_option(r) == text_option(*o),
{
    match o {
        Some(s) => Some(s.clone()),
        None => None,
    }
}

/// The mathematical value of a [`Node`].
pub struct NodeView {
    pub id: Seq<char>,
    pub graph: Option<Seq<char>>,
    pub types: Seq<Seq<char>>,
    pub properties: Seq<(Seq<char>, PropertyView)>,
}

impl NodeView {
    /// Types and predicates each stand in strictly rising order, so none
    /// occurs twice.
    pub open spec fn wf(self) -> bool {
        strictly_sorted(self.types) && strictly_sorted(keys(self.properties))
    }

    /// The value held under `predicate`.
    pub open spec fn get(self, predicate: Seq<char>) -> Option<PropertyView> {
        lookup(self.properties, predicate)
    }
}

/// An entity of the graph: an identifier, the graph it belongs to (`None`
/// for the default graph), its types, and one value for each predicate.
/// Types and properties are kept sorted, each name once.
#[derive(Debug, PartialEq, Eq)]
pub struct Node {
    id: String,
    graph: Option<String>,
    types: Vec<String>,
    properties: Vec<(String, PropertyValue)>,
}

impl View for Node {
    type V = NodeView;

    closed spec fn view(&self) -> NodeView {
        NodeView {
            id: self.id@,
            graph: text_option(self.graph),
            types: texts(self.types@),
            properties: entries(self.properties@),
        }
    }
}

impl Node {
    #[verifier::type_invariant]
    spec fn well_formed(&self) -> bool {
        self@.wf()
    }

    /// A node of the default graph, without types or properties.
    pub fn new(id: &str) -> (node: Node)
        ensures
            node@ == (NodeView { id: id@, graph: None, types: seq![], properties: seq![] }),
    {
        let node = Node {
            id: id.to_owned(),
            graph: None,
            types: Vec::new(),
            properties: Vec::new(),
        };
        assert(texts(node.types@) =~= seq![]);
        assert(entries(node.properties@) =~= seq![]);
        node
    }

    /// A node of the given graph, without types or properties.
    pub fn with_graph(id: &str, graph: Option<String>) -> (node: Node)
        ensures
            node@ == (NodeView {
                id: id@,
                graph: text_option(graph),
                types: seq![],
                properties: seq![],
            }),
    {
        let node = Node { id: id.to_owned(), graph, types: Vec::new(), properties: Vec::new() };
        assert(texts(node.types@) =~= seq![]);
        assert(entries(node.properties@) =~= seq![]);
        node
    }

    /// Moves the node to another graph.
    pub fn set_graph(&mut self, graph: Option<String>)
        ensures
            final(self)@ == (NodeView { graph: text_option(graph), ..old(self)@ }),
    {
        proof {
            use_type_invariant(&*self);
        }
        self.graph = graph;
    }

    /// Gives the node one more type; a type that it has already stays once.
    pub fn add_type(&mut self, class: String)
        ensures
            final(self)@ == (NodeView {
                types: insert_text(old(self)@.types, class@),
                ..old(self)@
            }),
    {
        proof {
            use_type_invariant(&*self);
        }
        let mut types: Vec<String> = Vec::new();
        assert(texts(types@) =~= seq![]);
        core::mem::swap(&mut self.types, &mut types);
        insert_sorted(&mut types, class);
        self.types = types;
    }

    /// Puts `value` under `predicate`, in place of the value that the
    /// predicate had, if it had one.
    pub fn insert_property(&mut self, predicate: String, value: PropertyValue)
        ensures
            final(self)@ == (NodeView {
                properties: insert_entry(old(self)@.properties, predicate@, value@),
                ..old(self)@
            }),
    {
        proof {
            use_type_invariant(&*self);
        }
        let mut properties: Vec<(String, PropertyValue)> = Vec::new();
        assert(keys(entries(properties@)) =~= seq![]);
        core::mem::swap(&mut self.properties, &mut properties);
        insert_into(&mut properties, predicate, value);
        self.properties = properties;
    }

    /// The identifier.
    pub fn id(&self) -> (r: &String)
        ensures
            r@ == self@.id,
    {
        &self.id
    }

    /// The graph that the node belongs to; `None` for the default graph.
    pub fn graph(&self) -> (r: &Option<String>)
        ensures
            text_option(*r) == self@.graph,
    {
        &self.graph
    }

    /// The types, in rising order.
    pub fn types(&self) -> (r: &Vec<String>)
        ensures
            texts(r@) == self@.types,
            self@.wf(),
    {
        proof {
            use_type_invariant(self);
        }
        &self.types
    }

    /// The properties, in rising order of their predicates.
    pub fn properties(&self) -> (r: &Vec<(String, PropertyValue)>)
        ensures
            entries(r@) == self@.properties,
            self@.wf(),
    {
        proof {
            use_type_invariant(self);
        }
        &self.properties
    }

    /// The value held under `predicate`.
    pub fn get(&self, predicate: &str) -> (r: Option<&PropertyValue>)
        ensures
            match r {
                Some(value) => self@.get(predicate@) == Some(value@),
                None => self@.get(predicate@) is None,
            },
    {
        let at = find_entry(&self.properties, predicate);
        if at < self.properties.len() && str_eq(self.properties[at].0.as_str(), predicate) {
            Some(&self.properties[at].1)
        } else {
            None
        }
    }
}

/// A copy of a list of property entries.
pub fn clone_entries(v: &Vec<(String, PropertyValue)>) -> (r: Vec<(String, PropertyValue)>)
    ensures
        entries(r@) == entries(v@),
{
    let mut r: Vec<(String, PropertyValue)> = Vec::new();
    let mut i: usize = 0;
    while i < v.len()
        invariant
            i <= v.len(),
            r.len() == i,
            forall|k: int| 0 <= k < i ==> r@[k].0@ == v@[k].0@ && r@[k].1@ == v@[k].1@,
        decreases v.len() - i,
    {
        r.push((v[i].0.clone(), v[i].1.clone()));
        i += 1;
    }
    assert(entries(r@) =~= entries(v@));
    r
}

impl Clone for Node {
    fn clone(&self) -> (r: Node)
        ensures
            r@ == self@,
    {
        proof {
            use_type_invariant(self);
        }
        Node {
            id: self.id.clone(),
            graph: clone_text_option(&self.graph),
            types: clone_strings(&self.types),
            properties: clone_entries(&self.properties),
        }
    }
}

/// The views of a list of nodes.
pub open spec fn nodes_view(v: Seq<Node>) -> Seq<NodeView> {
    v.map_values(|n: Node| n@)
}

/// Under its own key, a sorted list of entries holds the value of each of
/// its entries.
pub proof fn lemma_lookup_entry(m: Seq<(Seq<char>, PropertyView)>, at: int)
    requires
        strictly_sorted(keys(m)),
        0 <= at < m.len(),
    ensures
        rank(keys(m), m[at].0) == at,
        lookup(m, m[at].0) == Some(m[at].1),
{
    lemma_rank_sorted(keys(m), m[at].0);
    assert(keys(m)[at] == m[at].0);
}

/// What a sorted list of entries holds once a value is put in: the value
/// under its key, and what it held under every other key.
pub proof fn lemma_lookup_insert(
    m: Seq<(Seq<char>, PropertyView)>,
    key: Seq<char>,
    value: PropertyView,
    other: Seq<char>,
)
    requires
        strictly_sorted(keys(m)),
    ensures
        lookup(insert_entry(m, key, value), other) == (if other == key {
            Some(value)
        } else {
            lookup(m, other)
        }),
{
    let put = insert_entry(m, key, value);
    lemma_insert_entry_sorted(m, key, value);
    lemma_rank(keys(m), key);
    lemma_rank(keys(m), other);
    lemma_rank(keys(put), other);
    lemma_rank_sorted(keys(m), key);
    lemma_rank_sorted(keys(m), other);
    lemma_rank_sorted(keys(put), other);
    let at = rank(keys(m), key);
    let was = rank(keys(m), other);
    let is = rank(keys(put), other);
    if at < m.len() && m[at].0 == key {
        assert(keys(put) =~= keys(m));
        if other == key {
        } else if was < m.len() && m[was].0 == other {
            assert(put[was] == m[was]);
        }
    } else {
        assert(put == m.insert(at, (key, value)));
        assert(keys(put)[at] == key);
        if other == key {
            assert(keys(put)[at] == other);
        } else {
            if was < m.len() && m[was].0 == other {
                assert(keys(m)[was] == other);
                if was < at {
                    assert(keys(put)[was] == other);
                    assert(put[was] == m[was]);
                } else {
                    assert(keys(put)[was + 1] == other);
                    assert(put[was + 1] == m[was]);
                }
            } else {
                if is < put.len() && put[is].0 == other {
                    assert(keys(put)[is] == other);
                    if is < at {
                        assert(keys(m)[is] == other);
                    } else if is > at {
                        assert(keys(m)[is - 1] == other);
                    }
                }
            }
        }
    }
}

/// Sorted lists of entries that hold the same under every key are the
/// same list.
pub proof fn lemma_entries_equal(
    a: Seq<(Seq<char>, PropertyView)>,
    b: Seq<(Seq<char>, PropertyView)>,
)
    requires
        strictly_sorted(keys(a)),
        strictly_sorted(keys(b)),
        forall|key: Seq<char>| lookup(a, key) == lookup(b, key),
    ensures
        a == b,
    decreases a.len(),
{
    if a.len() == 0 {
        if b.len() > 0 {
            lemma_lookup_entry(b, 0);
            assert(lookup(a, b[0].0) is None);
        }
        assert(a =~= b);
    } else if b.len() == 0 {
        lemma_lookup_entry(a, 0);
        assert(lookup(b, a[0].0) is None);
    } else {
        let last_a = a.len() - 1;
        let last_b = b.len() - 1;
        lemma_lookup_entry(a, last_a);
        lemma_lookup_entry(b, last_b);
        assert(lookup(b, a[last_a].0) == Some(a[last_a].1));
        assert(lookup(a, b[last_b].0) == Some(b[last_b].1));
        lemma_rank(keys(b), a[last_a].0);
        lemma_rank(keys(a), b[last_b].0);
        let ia = rank(keys(a), b[last_b].0);
        let ib = rank(keys(b), a[last_a].0);
        assert(keys(a)[ia] == b[last_b].0);
        assert(keys(b)[ib] == a[last_a].0);
        assert(keys(a)[last_a] == a[last_a].0);
        assert(keys(b)[last_b] == b[last_b].0);
        if ia < last_a {
            assert(text_lt(keys(a)[ia], keys(a)[last_a]));
            if ib < last_b {
                assert(text_lt(keys(b)[ib], keys(b)[last_b]));
                crate::text::lemma_text_lt_asymmetric(keys(a)[ia], keys(a)[last_a]);
            }
        }
        assert(a[last_a] == b[last_b]) by {
            if ia < last_a {
                if ib == last_b {
                    crate::text::lemma_text_lt_irreflexive(keys(a)[last_a]);
                }
            }
        }
        let rest_a = a.drop_last();
        let rest_b = b.drop_last();
        assert(keys(rest_a) =~= keys(a).drop_last());
        assert(keys(rest_b) =~= keys(b).drop_last());
        assert forall|key: Seq<char>| lookup(rest_a, key) == lookup(rest_b, key) by {
            lemma_lookup_drop_last(a, key);
            lemma_lookup_drop_last(b, key);
        }
        lemma_entries_equal(rest_a, rest_b);
        assert(a =~= rest_a.push(a[last_a]));
        assert(b =~= rest_b.push(b[last_b]));
    }
}

/// Without its last entry, a sorted list of entries holds what it held,
/// but nothing under the key of that entry.
pub proof fn lemma_lookup_drop_last(m: Seq<(Seq<char>, PropertyView)>, key: Seq<char>)
    requires
        strictly_sorted(keys(m)),
        m.len() > 0,
    ensures
        strictly_sorted(keys(m.drop_last())),
        lookup(m.drop_last(), key) == (if key == m.last().0 {
            None
        } else {
            lookup(m, key)
        }),
{
    let rest = m.drop_last();
    assert(keys(rest) =~= keys(m).drop_last());
    assert forall|i: int, j: int| 0 <= i < j < rest.len() implies text_lt(
        #[trigger] keys(rest)[i],
        #[trigger] keys(rest)[j],
    ) by {
        assert(keys(rest)[i] == keys(m)[i] && keys(rest)[j] == keys(m)[j]);
    }
    lemma_rank(keys(m), key);
    lemma_rank(keys(rest), key);
    lemma_rank_sorted(keys(m), key);
    lemma_rank_sorted(keys(rest), key);
    let was = rank(keys(m), key);
    let is = rank(keys(rest), key);
    let last = m.len() - 1;
    assert(keys(m)[last] == m.last().0);
    if was < m.len() && m[was].0 == key {
        assert(keys(m)[was] == key);
        if was < last {
            assert(keys(rest)[was] == key);
            assert(rest[was] == m[was]);
        } else {
            if is < rest.len() && rest[is].0 == key {
                assert(keys(rest)[is] == key);
                assert(keys(m)[is] == key);
            }
        }
    } else {
        if is < rest.len() && rest[is].0 == key {
            assert(keys(rest)[is] == key);
            assert(keys(m)[is] == key);
        }
    }
}

/// Putting into a sorted sequence a text that it holds leaves it as it is.
pub proof fn lemma_insert_text_present(s: Seq<Seq<char>>, x: Seq<char>)
    requires
        strictly_sorted(s),
        s.contains(x),
    ensures
        insert_text(s, x) == s,
{
    lemma_rank_sorted(s, x);
    let at = choose|at: int| 0 <= at < s.len() && s[at] == x;
    assert(s[at] == x);
}

/// Putting the next text of a sorted sequence behind those before it gives
/// the sequence up to and with that text.
pub proof fn lemma_insert_text_next(s: Seq<Seq<char>>, upto: int)
    requires
        strictly_sorted(s),
        0 <= upto < s.len(),
    ensures
        insert_text(s.take(upto), s[upto]) == s.take(upto + 1),
{
    let head = s.take(upto);
    assert forall|i: int| 0 <= i < upto implies text_lt(#[trigger] head[i], s[upto]) by {
        assert(head[i] == s[i]);
    }
    lemma_rank_is(head, s[upto], upto);
    assert(head.insert(upto, s[upto]) =~= s.take(upto + 1));
}

} // verus!
