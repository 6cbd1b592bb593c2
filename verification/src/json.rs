//! JSON text and bytes, read with an outside parser.
use crate::value::{array_model, item_models, member_models, object_model, JsonModel, Member, Value};
use serde_json::Value as Json;
use vstd::prelude::*;

verus! {

/// A JSON value as the parser holds it.
#[verifier::external_type_specification]
#[verifier::external_body]
pub struct ParsedValue(Json);

/// What a parsed JSON value holds: numbers by their spelling, members in key order.
pub uninterp spec fn json_content(json: Json) -> JsonModel;

/// The outermost layer of a parsed JSON value.
pub enum JsonLayer {
    Null,
    Bool(bool),
    Number(String),
    Text(String),
    Array(Vec<Json>),
    Object(Vec<(String, Json)>),
}

/// The contents of parsed values.
pub open spec fn json_contents(items: Seq<Json>) -> Seq<JsonModel> {
    Seq::new(items.len(), |i: int| json_content(items[i]))
}

/// The contents of named parsed values.
pub open spec fn member_contents(members: Seq<(String, Json)>) -> Seq<(Seq<char>, JsonModel)> {
    Seq::new(members.len(), |i: int| (members[i].0@, json_content(members[i].1)))
}

/// The content of a layer.
pub open spec fn layer_content(layer: JsonLayer) -> JsonModel {
    match layer {
        JsonLayer::Null => JsonModel::Null,
        JsonLayer::Bool(flag) => JsonModel::Bool(flag),
        JsonLayer::Number(spelling) => JsonModel::Number(spelling@),
        JsonLayer::Text(text) => JsonModel::Text(text@),
        JsonLayer::Array(items) => JsonModel::Array(json_contents(items@)),
        JsonLayer::Object(members) => JsonModel::Object(member_contents(members@)),
    }
}

/// Takes a `serde_json::Value` apart: its variants are told from one another, a number is
/// spelled with `serde_json::Number::to_string`, and a `serde_json::Map` is walked in key order.
#[verifier::external_body]
fn open_json(json: Json) -> (r: JsonLayer)
    ensures
        layer_content(r) == json_content(json),
{
    match json {
        Json::Null => JsonLayer::Null,
        Json::Bool(flag) => JsonLayer::Bool(flag),
        Json::Number(number) => JsonLayer::Number(number.to_string()),
        Json::String(text) => JsonLayer::Text(text),
        Json::Array(items) => JsonLayer::Array(items),
        Json::Object(members) => JsonLayer::Object(members.into_iter().collect()),
    }
}

/// The value that a parsed JSON value holds.
pub(crate) fn value_of(json: Json) -> (r: Value)
    ensures
        r@ == json_content(json),
    decreases json_content(json), 1nat,
{
    let ghost content = json_content(json);
    match open_json(json) {
        JsonLayer::Null => Value::Null,
        JsonLayer::Bool(flag) => Value::Bool(flag),
        JsonLayer::Number(spelling) => Value::Number(spelling),
        JsonLayer::Text(text) => Value::Text(text),
        JsonLayer::Array(items) => {
            let ghost inner = content->Array_0;
            let values = values_of(items, Ghost(content));
            proof {
                array_model(values);
                assert(item_models(values@) =~= inner);
            }
            Value::Array(values)
        },
        JsonLayer::Object(members) => {
            let ghost inner = content->Object_0;
            let values = members_of(members, Ghost(content));
            proof {
                object_model(values);
                assert(member_models(values@) =~= inner);
            }
            Value::Object(values)
        },
    }
}

fn values_of(items: Vec<Json>, Ghost(whole): Ghost<JsonModel>) -> (r: Vec<Value>)
    requires
        whole == JsonModel::Array(json_contents(items@)),
    ensures
        r@.len() == items@.len(),
        forall|i: int| 0 <= i < r@.len() ==> (#[trigger] r@[i])@ == json_content(items@[i]),
    decreases whole, 0nat,
{
    let ghost all = items@;
    let mut out: Vec<Value> = Vec::new();
    for item in iter: items
        invariant
            iter.seq() == all,
            whole == JsonModel::Array(json_contents(all)),
            out@.len() == iter.index(),
            forall|i: int| 0 <= i < out@.len() ==> (#[trigger] out@[i])@ == json_content(all[i]),
    {
        proof {
            let k = iter.index() as int;
            assert(all[k] == item);
            assert(whole->Array_0[k] == json_content(item));
            assert(decreases_to!(whole => whole->Array_0));
            assert(decreases_to!(whole->Array_0 => whole->Array_0[k]));
        }
        out.push(value_of(item));
    }
    out
}

fn members_of(members: Vec<(String, Json)>, Ghost(whole): Ghost<JsonModel>) -> (r: Vec<Member>)
    requires
        whole == JsonModel::Object(member_contents(members@)),
    ensures
        r@.len() == members@.len(),
        forall|i: int|
            0 <= i < r@.len() ==> (#[trigger] r@[i])@ == (
                members@[i].0@,
                json_content(members@[i].1),
            ),
    decreases whole, 0nat,
{
    let ghost all = members@;
    let mut out: Vec<Member> = Vec::new();
    for member in iter: members
        invariant
            iter.seq() == all,
            whole == JsonModel::Object(member_contents(all)),
            out@.len() == iter.index(),
            forall|i: int|
                0 <= i < out@.len() ==> (#[trigger] out@[i])@ == (
                    all[i].0@,
                    json_content(all[i].1),
                ),
    {
        let (key, json) = member;
        proof {
            let k = iter.index() as int;
            assert(all[k] == member);
            assert(whole->Object_0[k] == (key@, json_content(json)));
            assert(decreases_to!(whole => whole->Object_0));
            assert(decreases_to!(whole->Object_0 => whole->Object_0[k]));
            assert(decreases_to!(whole->Object_0[k] => whole->Object_0[k].1));
        }
        out.push(Member { key, value: value_of(json) });
    }
    out
}

/// The value that a JSON text spells, or what is wrong with the text.
pub uninterp spec fn parsed_json(text: Seq<char>) -> Result<JsonModel, Seq<char>>;

/// `serde_json::from_str` into a `serde_json::Value`: a function of the text alone. A text nested
/// 128 deep or more is refused.
#[verifier::external_body]
pub(crate) fn parse_text(text: &str) -> (r: Result<Json, String>)
    ensures
        match (r, parsed_json(text@)) {
            (Ok(json), Ok(content)) => json_content(json) == content,
            (Err(message), Err(expected)) => message@ == expected,
            _ => false,
        },
{
    serde_json::from_str(text).map_err(|error| error.to_string())
}

/// The value that bytes of JSON spell, or what is wrong with them.
pub uninterp spec fn parsed_json_bytes(bytes: Seq<u8>) -> Result<JsonModel, Seq<char>>;

/// `serde_json::from_slice` into a `serde_json::Value`: a function of the bytes alone.
#[verifier::external_body]
fn parse_bytes(bytes: &[u8]) -> (r: Result<Json, String>)
    ensures
        match (r, parsed_json_bytes(bytes@)) {
            (Ok(json), Ok(content)) => json_content(json) == content,
            (Err(message), Err(expected)) => message@ == expected,
            _ => false,
        },
{
    serde_json::from_slice(bytes).map_err(|error| error.to_string())
}

/// The content of what was read.
pub open spec fn read_model(r: Result<Value, String>) -> Result<JsonModel, Seq<char>> {
    match r {
        Ok(value) => Ok(value@),
        Err(message) => Err(message@),
    }
}

/// Reads a JSON text.
pub fn parse_json(text: &str) -> (r: Result<Value, String>)
    ensures
        read_model(r) == parsed_json(text@),
{
    match parse_text(text) {
        Ok(json) => Ok(value_of(json)),
        Err(message) => Err(message),
    }
}

/// Reads bytes of JSON.
pub fn parse_json_bytes(bytes: &[u8]) -> (r: Result<Value, String>)
    ensures
        read_model(r) == parsed_json_bytes(bytes@),
{
    match parse_bytes(bytes) {
        Ok(json) => Ok(value_of(json)),
        Err(message) => Err(message),
    }
}

} // verus!
