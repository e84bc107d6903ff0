use vstd::prelude::*;

use serde_json::Value;

verus! {

/// What a JSON document holds, as the contracts see it. A number is seen only through
/// its value as a 64-bit unsigned integer, when it is one.
pub enum JsonTree {
    Null,
    Bool(bool),
    Number(Option<u64>),
    Str(Seq<char>),
    Array(Seq<JsonTree>),
    Object(Map<Seq<char>, JsonTree>),
}

/// serde_json's document type; proofs see it only through `json_model`.
#[verifier::external_type_specification]
#[verifier::external_body]
pub struct ExValue(serde_json::Value);

/// The document that a `serde_json::Value` holds.
pub uninterp spec fn json_model(v: Value) -> JsonTree;

/// The document that serde_json reads from a text, or `None` where the text is not JSON.
pub uninterp spec fn json_text_model(text: Seq<char>) -> Option<JsonTree>;

pub open spec fn models(items: Seq<Value>) -> Seq<JsonTree> {
    items.map_values(|v: Value| json_model(v))
}

/// The member `key` of an object; `None` for a missing key or a value of another kind.
pub open spec fn member(t: JsonTree, key: Seq<char>) -> Option<JsonTree> {
    match t {
        JsonTree::Object(m) => if m.contains_key(key) {
            Some(m[key])
        } else {
            None
        },
        _ => None,
    }
}

/// A pointer `/key` whose key is lower-case ASCII letters only: it names an object
/// member and can never be read as an array index.
pub open spec fn is_key_pointer(p: Seq<char>) -> bool {
    &&& p.len() > 1
    &&& p[0] == '/'
    &&& forall|i: int| 1 <= i < p.len() ==> 'a' <= #[trigger] p[i] && p[i] <= 'z'
}

/// Relies on serde_json::from_str: reads a text as a JSON document, or fails.
#[verifier::external_body]
pub(crate) fn parse_json(text: &str) -> (r: Option<Value>)
    ensures
        match json_text_model(text@) {
            Some(t) => r matches Some(v) && json_model(v) == t,
            None => r is None,
        },
{
    serde_json::from_str::<Value>(text).ok()
}

/// Relies on Value::pointer: on a one-token pointer `/key`, an object's member `key`;
/// anything else has no such member.
pub assume_specification<'a, 'b>[ serde_json::Value::pointer ](
    v: &'a Value,
    pointer: &'b str,
) -> (r: Option<&'a Value>)
    ensures
        is_key_pointer(pointer@) ==> match member(json_model(*v), pointer@.skip(1)) {
            Some(t) => r matches Some(x) && json_model(*x) == t,
            None => r is None,
        },
;

/// Relies on Value::as_array: the elements of an array, `None` for other values.
pub assume_specification[ serde_json::Value::as_array ](v: &Value) -> (r: Option<&Vec<Value>>)
    ensures
        match json_model(*v) {
            JsonTree::Array(items) => r matches Some(a) && models(a@) == items,
            _ => r is None,
        },
;

/// Relies on Value::as_str: the text of a string, `None` for other values.
pub assume_specification[ serde_json::Value::as_str ](v: &Value) -> (r: Option<&str>)
    ensures
        match json_model(*v) {
            JsonTree::Str(s) => r matches Some(x) && x@ == s,
            _ => r is None,
        },
;

/// Relies on Value::as_u64: a number's value as `u64` where it is one.
pub assume_specification[ serde_json::Value::as_u64 ](v: &Value) -> (r: Option<u64>)
    ensures
        match json_model(*v) {
            JsonTree::Number(n) => r == n,
            _ => r is None,
        },
;

/// Relies on Value::is_object: whether the value is an object.
pub assume_specification[ serde_json::Value::is_object ](v: &Value) -> (r: bool)
    ensures
        r == json_model(*v) is Object,
;

/// Relies on Value::is_null: whether the value is `null`.
pub assume_specification[ serde_json::Value::is_null ](v: &Value) -> (r: bool)
    ensures
        r == json_model(*v) is Null,
;

} // verus!
