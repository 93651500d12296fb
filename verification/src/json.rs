//! The JSON object map and value of `serde_json`, as the document store.
//!
//! Verus does not look inside these two types. What they hold is named by
//! `entries` and `node`, and each function below states, over those names,
//! what one call into `serde_json` does. None of these statements is proved.

use vstd::prelude::*;
use crate::tree::Node;

verus! {

/// `serde_json::Map`, as a type whose inside is not looked at.
#[verifier::external_type_specification]
#[verifier::external_body]
#[verifier::reject_recursive_types(K)]
#[verifier::reject_recursive_types(V)]
pub struct ExJsonMap<K, V>(serde_json::Map<K, V>);

/// `serde_json::Value`, as a type whose inside is not looked at.
#[verifier::external_type_specification]
#[verifier::external_body]
pub struct ExJsonValue(serde_json::Value);

/// The object map that documents are stored in.
pub type JsonMap = serde_json::Map<String, serde_json::Value>;

/// What a JSON object map holds: for each key, the node that its value
/// stands for.
pub uninterp spec fn entries(m: serde_json::Map<String, serde_json::Value>) -> Map<
    Seq<char>,
    Node,
>;

/// The node that a JSON value stands for: `Text` for a string, `Nested` for
/// an object, `Other` for null, a boolean, a number or an array.
pub uninterp spec fn node(v: serde_json::Value) -> Node;

/// `serde_json::Map::new`: a map without entries.
#[verifier::external_body]
pub(crate) fn new_map() -> (m: JsonMap)
    ensures
        entries(m) == (Map::<Seq<char>, Node>::empty()),
{
    serde_json::Map::new()
}

/// `serde_json::Map::insert`: afterwards `key` holds `value` and every other
/// key holds what it held. Returns the value that `key` held before, if any.
#[verifier::external_body]
pub(crate) fn map_insert(m: &mut JsonMap, key: String, value: serde_json::Value) -> (previous:
    Option<serde_json::Value>)
    ensures
        entries(*final(m)) == entries(*old(m)).insert(key@, node(value)),
        previous is Some <==> entries(*old(m)).contains_key(key@),
        previous matches Some(p) ==> node(p) == entries(*old(m))[key@],
{
    m.insert(key, value)
}

/// `serde_json::Map::get_mut`: a mutable reference to the value under `key`,
/// or `None` if the key is absent. Whatever the value is when the reference
/// is given up, the map then holds it under `key`, and nothing else in the map
/// has changed.
#[verifier::external_body]
pub(crate) fn map_get_mut<'a>(m: &'a mut JsonMap, key: &str) -> (slot: Option<
    &'a mut serde_json::Value,
>)
    ensures
        slot is Some <==> entries(*old(m)).contains_key(key@),
        slot matches Some(v) ==> node(*v) == entries(*old(m))[key@],
        slot matches Some(v) ==> entries(*final(m)) == entries(*old(m)).insert(
            key@,
            node(*final(v)),
        ),
        slot is None ==> *final(m) == *old(m),
{
    m.get_mut(key)
}

/// `serde_json::Value::as_object_mut`: a mutable reference to the map of an
/// object, or `None` for any other value. Whatever that map is when the
/// reference is given up, the value is then the object that holds it.
#[verifier::external_body]
pub(crate) fn value_as_object_mut<'a>(v: &'a mut serde_json::Value) -> (object: Option<
    &'a mut JsonMap,
>)
    ensures
        object is Some <==> node(*old(v)) is Nested,
        object matches Some(m) ==> node(*old(v)) == Node::Nested(entries(*m)),
        object matches Some(m) ==> node(*final(v)) == Node::Nested(entries(*final(m))),
        object is None ==> *final(v) == *old(v),
{
    v.as_object_mut()
}

/// The variant `serde_json::Value::String`: the JSON string with the
/// characters of `s`.
#[verifier::external_body]
pub(crate) fn string_value(s: String) -> (v: serde_json::Value)
    ensures
        node(v) == Node::Text(s@),
{
    serde_json::Value::String(s)
}

/// The variant `serde_json::Value::Object`: the JSON object with the entries
/// of `m`.
#[verifier::external_body]
pub(crate) fn object_value(m: JsonMap) -> (v: serde_json::Value)
    ensures
        node(v) == Node::Nested(entries(m)),
{
    serde_json::Value::Object(m)
}

} // verus!
