//! JSON documents as `serde_json` holds them, and what they say.
use vstd::prelude::*;

verus! {

/// What a JSON document says, as far as it is made of texts, counts, lists and records.
pub enum Json {
    Text(Seq<char>),
    Count(nat),
    List(Seq<Json>),
    Record(Map<Seq<char>, Json>),
}

/// A JSON value of `serde_json`.
#[verifier::external_type_specification]
#[verifier::external_body]
pub struct ExValue(serde_json::Value);

/// The map behind a JSON object of `serde_json`.
#[verifier::external_type_specification]
#[verifier::external_body]
#[verifier::reject_recursive_types(K)]
#[verifier::reject_recursive_types(V)]
pub struct ExMap<K, V>(serde_json::Map<K, V>);

/// What a JSON value holds.
pub uninterp spec fn json(value: serde_json::Value) -> Json;

/// What the map behind a JSON object holds.
pub uninterp spec fn entries(object: serde_json::Map<String, serde_json::Value>) -> Map<Seq<char>, Json>;

/// The record without fields.
pub open spec fn blank() -> Map<Seq<char>, Json> {
    Map::empty()
}

/// What several JSON values hold.
pub open spec fn json_list(values: Seq<serde_json::Value>) -> Seq<Json> {
    Seq::new(values.len(), |i: int| json(values[i]))
}

/// `Value::from` on a `String`: the JSON string with this text.
#[verifier::external_body]
pub(crate) fn text_value(text: String) -> (value: serde_json::Value)
    ensures
        json(value) == Json::Text(text@),
{
    serde_json::Value::from(text)
}

/// `Value::from` on a `usize`: the JSON number that it is.
#[verifier::external_body]
pub(crate) fn count_value(count: usize) -> (value: serde_json::Value)
    ensures
        json(value) == Json::Count(count as nat),
{
    serde_json::Value::from(count)
}

/// `Value::from` on a `Vec` of values: the JSON array of them, in their order.
#[verifier::external_body]
pub(crate) fn list_value(items: Vec<serde_json::Value>) -> (value: serde_json::Value)
    ensures
        json(value) == Json::List(json_list(items@)),
{
    serde_json::Value::from(items)
}

/// `Map::new`: the map without entries.
#[verifier::external_body]
pub(crate) fn no_entries() -> (object: serde_json::Map<String, serde_json::Value>)
    ensures
        entries(object) == blank(),
{
    serde_json::Map::new()
}

/// `Map::insert`: sets the entry under the key, in place of one that was there.
#[verifier::external_body]
pub(crate) fn set_entry(object: &mut serde_json::Map<String, serde_json::Value>, key: String, value: serde_json::Value)
    ensures
        entries(*final(object)) == entries(*old(object)).insert(key@, json(value)),
{
    object.insert(key, value);
}

/// `Value::from` on a `Map`: the JSON object with its entries.
#[verifier::external_body]
pub(crate) fn record_value(object: serde_json::Map<String, serde_json::Value>) -> (value: serde_json::Value)
    ensures
        json(value) == Json::Record(entries(object)),
{
    serde_json::Value::from(object)
}

} // verus!
