//! JSON values as the codecs read and write them, and their text.

use vstd::prelude::*;
use crate::error::ToolError;
use crate::model::{double_of_json, number_text, NumberValue, ScalarValue, ScalarView};
use crate::text::{lemma_rank, lemma_rank_is, rank, str_eq, str_lt, strictly_sorted, text_lt};

verus! {

/// `serde_json::Value`, handled only on the way to and from JSON text.
#[verifier::external_type_specification]
#[verifier::external_body]
pub struct ExJsonTree(serde_json::Value);

/// What a `serde_json::Value` holds.
pub uninterp spec fn tree_model(tree: serde_json::Value) -> JsonView;

/// The compact text that `serde_json::to_string` writes for a value; `None`
/// where it writes none, which is so for no value that has been written.
pub uninterp spec fn text_of_json(value: JsonView) -> Option<Seq<char>>;

/// The indented text that `serde_json::to_string_pretty` writes for a
/// value; `None` where it writes none, which is so for no value that has
/// been written.
pub uninterp spec fn pretty_text_of_json(value: JsonView) -> Option<Seq<char>>;

/// The value that `serde_json::from_str` reads from a text; `None` where
/// the text is not JSON.
pub uninterp spec fn json_of_text(text: Seq<char>) -> Option<JsonView>;

/// The mathematical value of a [`JsonValue`].
pub enum JsonView {
    Null,
    Bool(bool),
    Number(Seq<char>),
    String(Seq<char>),
    Array(Seq<JsonView>),
    Object(Seq<(Seq<char>, JsonView)>),
}

/// A JSON value. The members of an object stand in the order in which they
/// are read.
#[derive(Debug, PartialEq, Eq)]
pub enum JsonValue {
    Null,
    Bool(bool),
    Number(serde_json::Number),
    String(String),
    Array(Vec<JsonValue>),
    Object(Vec<(String, JsonValue)>),
}

/// The values of a list of JSON values.
pub open spec fn items_view(items: Seq<JsonValue>) -> Seq<JsonView>
    decreases items,
{
    Seq::new(
        items.len(),
        |i: int|
            if 0 <= i < items.len() {
                items[i].view()
            } else {
                JsonView::Null
            },
    )
}

/// The values of the members of an object.
pub open spec fn members_view(members: Seq<(String, JsonValue)>) -> Seq<(Seq<char>, JsonView)>
    decreases members,
{
    Seq::new(
        members.len(),
        |i: int|
            if 0 <= i < members.len() {
                (members[i].0@, members[i].1.view())
            } else {
                (Seq::empty(), JsonView::Null)
            },
    )
}

impl View for JsonValue {
    type V = JsonView;

    open spec fn view(&self) -> JsonView
        decreases self,
    {
        match self {
            JsonValue::Null => JsonView::Null,
            JsonValue::Bool(b) => JsonView::Bool(*b),
            JsonValue::Number(n) => JsonView::Number(number_text(*n)),
            JsonValue::String(s) => JsonView::String(s@),
            JsonValue::Array(items) => JsonView::Array(items_view(items@)),
            JsonValue::Object(members) => JsonView::Object(members_view(members@)),
        }
    }
}

/// The keys of the members of an object.
pub open spec fn member_keys(members: Seq<(Seq<char>, JsonView)>) -> Seq<Seq<char>> {
    members.map_values(|member: (Seq<char>, JsonView)| member.0)
}

/// Whether in every object of the value the members stand in strictly
/// rising order of their keys, so that no key occurs twice.
pub open spec fn json_wf(value: JsonView) -> bool
    decreases value,
{
    match value {
        JsonView::Array(items) => forall|i: int|
            0 <= i < items.len() ==> json_wf(#[trigger] items[i]),
        JsonView::Object(members) => strictly_sorted(member_keys(members)) && forall|i: int|
            0 <= i < members.len() ==> json_wf((#[trigger] members[i]).1),
        _ => true,
    }
}

/// Builds the `serde_json::Value` that holds what `value` holds, variant by
/// variant. The members of an object have to stand in rising order of
/// their keys, as the map of a `serde_json::Value` keeps them.
#[verifier::external_body]
pub(crate) fn to_tree(value: &JsonValue) -> (tree: serde_json::Value)
    requires
        json_wf(value@),
    ensures
        tree_model(tree) == value@,
{
    match value {
        JsonValue::Null => serde_json::Value::Null,
        JsonValue::Bool(b) => serde_json::Value::Bool(*b),
        JsonValue::Number(n) => serde_json::Value::Number(n.clone()),
        JsonValue::String(s) => serde_json::Value::String(s.clone()),
        JsonValue::Array(items) => serde_json::Value::Array(items.iter().map(to_tree).collect()),
        JsonValue::Object(members) => serde_json::Value::Object(
            members.iter().map(|(k, v)| (k.clone(), to_tree(v))).collect(),
        ),
    }
}

/// Reads a `serde_json::Value` into a [`JsonValue`], variant by variant; the
/// members of an object come in the order in which its map walks them,
/// which is the rising order of their keys.
#[verifier::external_body]
pub(crate) fn from_tree(tree: serde_json::Value) -> (value: JsonValue)
    ensures
        value@ == tree_model(tree),
        json_wf(value@),
{
    match tree {
        serde_json::Value::Null => JsonValue::Null,
        serde_json::Value::Bool(b) => JsonValue::Bool(b),
        serde_json::Value::Number(n) => JsonValue::Number(n),
        serde_json::Value::String(s) => JsonValue::String(s),
        serde_json::Value::Array(items) => JsonValue::Array(
            items.into_iter().map(from_tree).collect(),
        ),
        serde_json::Value::Object(members) => JsonValue::Object(
            members.into_iter().map(|(k, v)| (k, from_tree(v))).collect(),
        ),
    }
}

/// `serde_json::to_string` on a `serde_json::Value`: its compact text. The
/// call is claimed to succeed: the writer fails where a value's own writer
/// fails, where a map has a key that is no string, or where the sink
/// refuses bytes; a `serde_json::Value` writes its own parts without a
/// failure of its own, its keys are strings, and the sink is a byte vector.
#[verifier::external_body]
fn tree_to_text(tree: &serde_json::Value) -> (r: Result<String, String>)
    ensures
        r is Ok,
        match r {
            Ok(text) => text_of_json(tree_model(*tree)) == Some(text@),
            Err(_) => text_of_json(tree_model(*tree)) is None,
        },
{
    serde_json::to_string(tree).map_err(|error| error.to_string())
}

/// `serde_json::to_string_pretty` on a `serde_json::Value`: its indented
/// text. The call is claimed to succeed, for the reasons given for the
/// compact text.
#[verifier::external_body]
fn tree_to_pretty_text(tree: &serde_json::Value) -> (r: Result<String, String>)
    ensures
        r is Ok,
        match r {
            Ok(text) => pretty_text_of_json(tree_model(*tree)) == Some(text@),
            Err(_) => pretty_text_of_json(tree_model(*tree)) is None,
        },
{
    serde_json::to_string_pretty(tree).map_err(|error| error.to_string())
}

/// `serde_json::from_str` for a `serde_json::Value`: the value read, or the
/// parser's message.
#[verifier::external_body]
fn text_to_tree(text: &str) -> (r: Result<serde_json::Value, String>)
    ensures
        match r {
            Ok(tree) => json_of_text(text@) == Some(tree_model(tree)),
            Err(_) => json_of_text(text@) is None,
        },
{
    serde_json::from_str(text).map_err(|error| error.to_string())
}

/// The place of the first member of `members` with the key `key`, or the
/// number of members if none has it.
pub open spec fn member_index(members: Seq<(Seq<char>, JsonView)>, key: Seq<char>) -> int
    decreases members.len(),
{
    if members.len() == 0 || members[0].0 == key {
        0
    } else {
        1 + member_index(members.drop_first(), key)
    }
}

/// Where `member_index` points: behind the members with other keys, at
/// the first member with the key.
pub proof fn lemma_member_index(members: Seq<(Seq<char>, JsonView)>, key: Seq<char>)
    ensures
        0 <= member_index(members, key) <= members.len(),
        forall|i: int| 0 <= i < member_index(members, key) ==> (#[trigger] members[i]).0 != key,
        member_index(members, key) < members.len() ==> members[member_index(members, key)].0
            == key,
    decreases members.len(),
{
    if members.len() == 0 || members[0].0 == key {
    } else {
        let rest = members.drop_first();
        lemma_member_index(rest, key);
        assert forall|i: int| 0 <= i < member_index(members, key) implies (
        #[trigger] members[i]).0 != key by {
            if i > 0 {
                assert(rest[i - 1] == members[i]);
            }
        }
    }
}

/// A place behind members with other keys, at which the members end or
/// the key stands, is where `member_index` points.
pub proof fn lemma_member_index_is(members: Seq<(Seq<char>, JsonView)>, key: Seq<char>, k: int)
    requires
        0 <= k <= members.len(),
        forall|i: int| 0 <= i < k ==> (#[trigger] members[i]).0 != key,
        k < members.len() ==> members[k].0 == key,
    ensures
        member_index(members, key) == k,
{
    lemma_member_index(members, key);
    let f = member_index(members, key);
    if f < k {
        assert(members[f].0 != key);
    } else if k < f {
        assert(members[k].0 != key);
    }
}

impl JsonView {
    /// The value under `key`, where this is an object that has the key.
    pub open spec fn get(self, key: Seq<char>) -> Option<JsonView> {
        match self {
            JsonView::Object(members) => {
                let at = member_index(members, key);
                if at < members.len() {
                    Some(members[at].1)
                } else {
                    None
                }
            },
            _ => None,
        }
    }

    /// The text, where this is a string.
    pub open spec fn as_text(self) -> Option<Seq<char>> {
        match self {
            JsonView::String(s) => Some(s),
            _ => None,
        }
    }
}

/// The value under `key` among the members of an object.
pub fn find_member<'a>(members: &'a Vec<(String, JsonValue)>, key: &str) -> (r: Option<
    &'a JsonValue,
>)
    ensures
        match r {
            Some(value) => JsonView::Object(members_view(members@)).get(key@) == Some(value@),
            None => JsonView::Object(members_view(members@)).get(key@) is None,
        },
{
    let mut i: usize = 0;
    while i < members.len()
        invariant
            i <= members.len(),
            forall|k: int| 0 <= k < i ==> (#[trigger] members_view(members@)[k]).0 != key@,
        decreases members.len() - i,
    {
        if str_eq(members[i].0.as_str(), key) {
            proof {
                lemma_member_index_is(members_view(members@), key@, i as int);
            }
            return Some(&members[i].1);
        }
        i += 1;
    }
    proof {
        lemma_member_index_is(members_view(members@), key@, i as int);
    }
    None
}

/// The place of the first member with the key `key` among the members of
/// an object.
pub fn member_position(members: &Vec<(String, JsonValue)>, key: &str) -> (r: Option<usize>)
    ensures
        match r {
            Some(at) => at == member_index(members_view(members@), key@) && at < members.len(),
            None => member_index(members_view(members@), key@) == members.len(),
        },
{
    let mut i: usize = 0;
    while i < members.len()
        invariant
            i <= members.len(),
            forall|k: int| 0 <= k < i ==> (#[trigger] members_view(members@)[k]).0 != key@,
        decreases members.len() - i,
    {
        if str_eq(members[i].0.as_str(), key) {
            proof {
                lemma_member_index_is(members_view(members@), key@, i as int);
            }
            return Some(i);
        }
        i += 1;
    }
    proof {
        lemma_member_index_is(members_view(members@), key@, i as int);
    }
    None
}

impl JsonValue {
    /// Reads JSON text.
    pub fn parse(text: &str) -> (r: Result<JsonValue, ToolError>)
        ensures
            match r {
                Ok(value) => json_of_text(text@) == Some(value@) && json_wf(value@),
                Err(e) => json_of_text(text@) is None && e is Json,
            },
    {
        match text_to_tree(text) {
            Ok(tree) => Ok(from_tree(tree)),
            Err(message) => Err(ToolError::Json(message)),
        }
    }

    /// Writes the value as compact JSON text; every value has one.
    pub fn to_text(&self) -> (r: Result<String, ToolError>)
        requires
            json_wf(self@),
        ensures
            r matches Ok(text) && text_of_json(self@) == Some(text@),
    {
        let tree = to_tree(self);
        match tree_to_text(&tree) {
            Ok(text) => Ok(text),
            Err(message) => Err(ToolError::Json(message)),
        }
    }

    /// Writes the value as indented JSON text; every value has one.
    pub fn to_pretty_text(&self) -> (r: Result<String, ToolError>)
        requires
            json_wf(self@),
        ensures
            r matches Ok(text) && pretty_text_of_json(self@) == Some(text@),
    {
        let tree = to_tree(self);
        match tree_to_pretty_text(&tree) {
            Ok(text) => Ok(text),
            Err(message) => Err(ToolError::Json(message)),
        }
    }

    /// The value under `key`, where this is an object that has the key.
    pub fn get(&self, key: &str) -> (r: Option<&JsonValue>)
        ensures
            match r {
                Some(value) => self@.get(key@) == Some(value@),
                None => self@.get(key@) is None,
            },
    {
        match self {
            JsonValue::Object(members) => find_member(members, key),
            _ => None,
        }
    }

    /// The text, where this is a string.
    pub fn as_text(&self) -> (r: Option<&String>)
        ensures
            match r {
                Some(text) => self@.as_text() == Some(text@),
                None => self@.as_text() is None,
            },
    {
        match self {
            JsonValue::String(s) => Some(s),
            _ => None,
        }
    }
}

/// The JSON value that stands for a literal: a number that is not finite
/// becomes `null`.
pub open spec fn scalar_json(scalar: ScalarView) -> JsonView {
    match scalar {
        ScalarView::String(text) => JsonView::String(text),
        ScalarView::Number(number) => match number.json {
            Some(text) => JsonView::Number(text),
            None => JsonView::Null,
        },
        ScalarView::Boolean(b) => JsonView::Bool(b),
        ScalarView::Null => JsonView::Null,
    }
}

impl ScalarValue {
    /// The JSON value that stands for this literal.
    pub fn to_json(&self) -> (r: JsonValue)
        ensures
            r@ == scalar_json(self@),
            json_wf(r@),
    {
        match self {
            ScalarValue::String(text) => JsonValue::String(text.clone()),
            ScalarValue::Number(number) => match number.json() {
                Some(json) => JsonValue::Number(json),
                None => JsonValue::Null,
            },
            ScalarValue::Boolean(b) => JsonValue::Bool(*b),
            ScalarValue::Null => JsonValue::Null,
        }
    }
}

/// The literal that a JSON value stands for: a string, number, truth value
/// or null is itself, an array or object is its own JSON text. `None` where
/// a number has no double, or an array or object no text.
pub open spec fn json_scalar(value: JsonView) -> Option<ScalarView> {
    match value {
        JsonView::Null => Some(ScalarView::Null),
        JsonView::Bool(b) => Some(ScalarView::Boolean(b)),
        JsonView::Number(text) => match double_of_json(text) {
            Some(number) => Some(ScalarView::Number(number)),
            None => None,
        },
        JsonView::String(text) => Some(ScalarView::String(text)),
        other => match text_of_json(other) {
            Some(text) => Some(ScalarView::String(text)),
            None => None,
        },
    }
}

/// What went wrong where [`json_scalar`] gives nothing.
pub enum ScalarFault {
    /// A number has no double.
    Number,
    /// An array or object has no text.
    Text(String),
}

/// The literal that a JSON value stands for.
pub fn scalar_of_json(value: &JsonValue) -> (r: Result<ScalarValue, ScalarFault>)
    requires
        json_wf(value@),
    ensures
        match r {
            Ok(scalar) => json_scalar(value@) == Some(scalar@),
            Err(fault) => json_scalar(value@) is None && (fault is Number <==> value@ is Number),
        },
{
    match value {
        JsonValue::Null => Ok(ScalarValue::Null),
        JsonValue::Bool(b) => Ok(ScalarValue::Boolean(*b)),
        JsonValue::Number(number) => match NumberValue::from_json(number) {
            Some(n) => Ok(ScalarValue::Number(n)),
            None => Err(ScalarFault::Number),
        },
        JsonValue::String(text) => Ok(ScalarValue::String(text.clone())),
        _ => match value.to_text() {
            Ok(text) => Ok(ScalarValue::String(text)),
            Err(e) => Err(ScalarFault::Text(e.message())),
        },
    }
}

/// Whether in every object of the value the members stand in strictly
/// rising order of their keys.
pub fn is_well_formed(value: &JsonValue) -> (r: bool)
    ensures
        r == json_wf(value@),
    decreases value,
{
    match value {
        JsonValue::Array(items) => {
            let ghost all = items_view(items@);
            assert(value@ == JsonView::Array(all));
            proof {
                lemma_wf_array(all);
            }
            let mut i: usize = 0;
            while i < items.len()
                invariant
                    i <= items.len(),
                    value == JsonValue::Array(*items),
                    value@ == JsonView::Array(all),
                    all == items_view(items@),
                    json_wf(JsonView::Array(all)) <==> forall|i: int|
                        0 <= i < all.len() ==> json_wf(#[trigger] all[i]),
                    forall|k: int| 0 <= k < i ==> json_wf(#[trigger] all[k]),
                decreases items.len() - i,
            {
                proof {
                    assert(decreases_to!(value => value->Array_0@[i as int]));
                    assert(all[i as int] == items@[i as int]@);
                }
                if !is_well_formed(&items[i]) {
                    assert(!json_wf(all[i as int]));
                    return false;
                }
                i += 1;
            }
            assert(all.len() == items@.len());
            true
        },
        JsonValue::Object(members) => {
            let ghost keys = member_keys(members_view(members@));
            let ghost all = members_view(members@);
            assert(value@ == JsonView::Object(all));
            proof {
                lemma_wf_object(all);
            }
            let mut i: usize = 0;
            while i < members.len()
                invariant
                    i <= members.len(),
                    value == JsonValue::Object(*members),
                    value@ == JsonView::Object(all),
                    all == members_view(members@),
                    json_wf(JsonView::Object(all)) <==> strictly_sorted(member_keys(all))
                        && forall|i: int| 0 <= i < all.len() ==> json_wf((#[trigger] all[i]).1),
                    keys == member_keys(members_view(members@)),
                    forall|k: int|
                        0 <= k < i ==> json_wf((#[trigger] members_view(members@)[k]).1),
                    forall|k: int| 0 < k < i ==> text_lt(keys[k - 1], #[trigger] keys[k]),
                decreases members.len() - i,
            {
                proof {
                    assert(decreases_to!(value => value->Object_0@[i as int].1));
                    assert(members_view(members@)[i as int] == (
                        members@[i as int].0@,
                        members@[i as int].1@,
                    ));
                    assert(keys[i as int] == members@[i as int].0@);
                    if i > 0 {
                        assert(keys[i - 1] == members@[i - 1].0@);
                    }
                }
                if i > 0 && !str_lt(members[i - 1].0.as_str(), members[i].0.as_str()) {
                    assert(!strictly_sorted(keys));
                    return false;
                }
                if !is_well_formed(&members[i].1) {
                    assert(!json_wf(all[i as int].1));
                    return false;
                }
                i += 1;
            }
            proof {
                lemma_steps_sorted(keys);
                assert(all.len() == members@.len());
            }
            true
        },
        _ => true,
    }
}

/// A sequence in which each text stands before the next is strictly
/// sorted.
pub proof fn lemma_steps_sorted(keys: Seq<Seq<char>>)
    requires
        forall|k: int| 0 < k < keys.len() ==> text_lt(keys[k - 1], #[trigger] keys[k]),
    ensures
        strictly_sorted(keys),
{
    assert forall|i: int, j: int| 0 <= i < j < keys.len() implies text_lt(
        #[trigger] keys[i],
        #[trigger] keys[j],
    ) by {
        lemma_step_chain(keys, i, j);
    }
}

/// In a sequence in which each text stands before the next, each stands
/// before every later one.
proof fn lemma_step_chain(keys: Seq<Seq<char>>, i: int, j: int)
    requires
        forall|k: int| 0 < k < keys.len() ==> text_lt(keys[k - 1], #[trigger] keys[k]),
        0 <= i < j < keys.len(),
    ensures
        text_lt(keys[i], keys[j]),
    decreases j - i,
{
    if j == i + 1 {
        assert(text_lt(keys[j - 1], keys[j]));
    } else {
        lemma_step_chain(keys, i, j - 1);
        assert(text_lt(keys[j - 1], keys[j]));
        crate::text::lemma_text_lt_transitive(keys[i], keys[j - 1], keys[j]);
    }
}

/// An array is well formed where its items are.
pub proof fn lemma_wf_array(items: Seq<JsonView>)
    ensures
        json_wf(JsonView::Array(items)) <==> forall|i: int|
            0 <= i < items.len() ==> json_wf(#[trigger] items[i]),
{
    let v = JsonView::Array(items);
    if json_wf(v) {
        assert forall|i: int| 0 <= i < items.len() implies json_wf(#[trigger] items[i]) by {
            assert(decreases_to!(v => v->Array_0[i]));
        }
    }
    if forall|i: int| 0 <= i < items.len() ==> json_wf(#[trigger] items[i]) {
        assert forall|i: int| 0 <= i < v->Array_0.len() implies json_wf(
            #[trigger] v->Array_0[i],
        ) by {
            assert(decreases_to!(v => v->Array_0[i]));
        }
    }
}

/// An object is well formed where its keys rise and its values are well
/// formed.
pub proof fn lemma_wf_object(members: Seq<(Seq<char>, JsonView)>)
    ensures
        json_wf(JsonView::Object(members)) <==> strictly_sorted(member_keys(members))
            && forall|i: int| 0 <= i < members.len() ==> json_wf((#[trigger] members[i]).1),
{
    let v = JsonView::Object(members);
    assert forall|i: int| 0 <= i < members.len() implies decreases_to!(v => (
    #[trigger] members[i]).1) by {
        assert(decreases_to!(v => v->Object_0[i].1));
    }
}

/// A copy of a JSON value.
pub fn copy_json(value: &JsonValue) -> (r: JsonValue)
    ensures
        r@ == value@,
    decreases value,
{
    match value {
        JsonValue::Null => JsonValue::Null,
        JsonValue::Bool(flag) => JsonValue::Bool(*flag),
        JsonValue::Number(number) => JsonValue::Number(number.clone()),
        JsonValue::String(text) => JsonValue::String(text.clone()),
        JsonValue::Array(items) => {
            let mut copies: Vec<JsonValue> = Vec::new();
            let mut i: usize = 0;
            while i < items.len()
                invariant
                    i <= items.len(),
                    value == JsonValue::Array(*items),
                    copies.len() == i,
                    forall|k: int| 0 <= k < i ==> (#[trigger] copies@[k])@ == items@[k]@,
                decreases items.len() - i,
            {
                proof {
                    assert(decreases_to!(value => value->Array_0@[i as int]));
                }
                copies.push(copy_json(&items[i]));
                i += 1;
            }
            assert(items_view(copies@) =~= items_view(items@));
            JsonValue::Array(copies)
        },
        JsonValue::Object(members) => {
            let mut copies: Vec<(String, JsonValue)> = Vec::new();
            let mut i: usize = 0;
            while i < members.len()
                invariant
                    i <= members.len(),
                    value == JsonValue::Object(*members),
                    copies.len() == i,
                    forall|k: int|
                        0 <= k < i ==> (#[trigger] copies@[k]).0@ == members@[k].0@
                            && copies@[k].1@ == members@[k].1@,
                decreases members.len() - i,
            {
                proof {
                    assert(decreases_to!(value => value->Object_0@[i as int].1));
                }
                copies.push((members[i].0.clone(), copy_json(&members[i].1)));
                i += 1;
            }
            assert(members_view(copies@) =~= members_view(members@));
            JsonValue::Object(copies)
        },
    }
}

/// The members of an object with `value` under `key`: in place of what
/// `key` had, or at the place that keeps the keys in rising order.
pub open spec fn put_member(
    members: Seq<(Seq<char>, JsonView)>,
    key: Seq<char>,
    value: JsonView,
) -> Seq<(Seq<char>, JsonView)> {
    let at = rank(member_keys(members), key);
    if at < members.len() && members[at].0 == key {
        members.update(at, (key, value))
    } else {
        members.insert(at, (key, value))
    }
}

/// Putting a well-formed value into a well-formed object leaves it well
/// formed.
pub proof fn lemma_put_member(members: Seq<(Seq<char>, JsonView)>, key: Seq<char>, value: JsonView)
    requires
        json_wf(JsonView::Object(members)),
        json_wf(value),
    ensures
        json_wf(JsonView::Object(put_member(members, key, value))),
{
    lemma_wf_object(members);
    let keys = member_keys(members);
    lemma_rank(keys, key);
    let at = rank(keys, key);
    let put = put_member(members, key, value);
    lemma_wf_object(put);
    crate::model::lemma_insert_text_sorted(keys, key);
    if at < members.len() && members[at].0 == key {
        assert(member_keys(put) =~= keys);
        assert forall|i: int| 0 <= i < put.len() implies json_wf((#[trigger] put[i]).1) by {
            if i != at {
                assert(put[i] == members[i]);
            }
        }
    } else {
        assert(member_keys(put) =~= keys.insert(at, key));
        assert forall|i: int| 0 <= i < put.len() implies json_wf((#[trigger] put[i]).1) by {
            if i < at {
                assert(put[i] == members[i]);
            } else if i > at {
                assert(put[i] == members[i - 1]);
            }
        }
    }
}

/// Puts `value` under `key` among the members of an object.
pub fn insert_member(members: &mut Vec<(String, JsonValue)>, key: String, value: JsonValue)
    requires
        json_wf(JsonView::Object(members_view(old(members)@))),
        json_wf(value@),
    ensures
        members_view(final(members)@) == put_member(members_view(old(members)@), key@, value@),
        json_wf(JsonView::Object(members_view(final(members)@))),
{
    let ghost before = members_view(members@);
    let ghost keys = member_keys(before);
    proof {
        lemma_put_member(before, key@, value@);
    }
    let mut at: usize = 0;
    while at < members.len() && str_lt(members[at].0.as_str(), key.as_str())
        invariant
            at <= members.len(),
            before == members_view(members@),
            keys == member_keys(before),
            forall|k: int| 0 <= k < at ==> text_lt(#[trigger] keys[k], key@),
        decreases members.len() - at,
    {
        assert(keys[at as int] == members@[at as int].0@);
        at += 1;
    }
    proof {
        if at < members.len() {
            assert(keys[at as int] == members@[at as int].0@);
            assert(before[at as int] == (members@[at as int].0@, members@[at as int].1@));
        }
        lemma_rank_is(keys, key@, at as int);
    }
    if at < members.len() && str_eq(members[at].0.as_str(), key.as_str()) {
        members.set(at, (key, value));
        assert(members_view(members@) =~= before.update(at as int, (key@, value@)));
    } else {
        members.insert(at, (key, value));
        assert(members_view(members@) =~= before.insert(at as int, (key@, value@)));
    }
}

} // verus!
