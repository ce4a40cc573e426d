//! JSON documents exchanged with ComfyUI, held as `serde_json::Value` and
//! described by the plain tree `JsonView`.

use serde_json::Value;
use vstd::prelude::*;

use crate::tags::lookup;

verus! {

#[verifier::external_type_specification]
#[verifier::external_body]
pub struct ExJsonValue(serde_json::Value);

/// A JSON value as plain data. Numbers are held by their text.
pub enum JsonView {
    Null,
    Bool(bool),
    Num(Seq<char>),
    Str(Seq<char>),
    Arr(Seq<JsonView>),
    Obj(Seq<(Seq<char>, JsonView)>),
}

/// What a `serde_json::Value` holds; the members of an object are listed in
/// the order its map yields them, ascending by key.
pub uninterp spec fn json_view(v: Value) -> JsonView;

/// What `serde_json::from_str::<Value>` gives for a text, when it parses.
pub uninterp spec fn json_parsed(text: Seq<char>) -> Option<JsonView>;

/// The compact text that `serde_json::to_string` writes for a value.
pub uninterp spec fn json_compact(v: JsonView) -> Seq<char>;

/// Code-point lexicographic order of texts (for UTF-8 the same as the byte
/// order by which `String` keys are sorted).
pub open spec fn str_lt(a: Seq<char>, b: Seq<char>) -> bool
    decreases a.len(),
{
    if a.len() == 0 {
        b.len() > 0
    } else if b.len() == 0 {
        false
    } else if a[0] != b[0] {
        (a[0] as u32) < (b[0] as u32)
    } else {
        str_lt(a.drop_first(), b.drop_first())
    }
}

/// Keys in strictly ascending order.
pub open spec fn keys_ascending(ms: Seq<(Seq<char>, JsonView)>) -> bool {
    forall|i: int, j: int| 0 <= i < j < ms.len() ==> str_lt(#[trigger] ms[i].0, #[trigger] ms[j].0)
}

/// Plain view of object members.
pub open spec fn members_view(m: Seq<(String, Value)>) -> Seq<(Seq<char>, JsonView)> {
    m.map_values(|e: (String, Value)| (e.0@, json_view(e.1)))
}

/// The member `k` of an object view.
pub open spec fn obj_get(v: JsonView, k: Seq<char>) -> Option<JsonView> {
    match v {
        JsonView::Obj(ms) => lookup(ms, k),
        _ => None,
    }
}

/// `serde_json::from_str::<Value>`: the parsed value when the text is JSON.
#[verifier::external_body]
pub(crate) fn json_parse(text: &str) -> (r: Option<Value>)
    ensures
        r is Some == json_parsed(text@) is Some,
        r matches Some(v) ==> json_parsed(text@) == Some(json_view(v)),
{
    serde_json::from_str::<Value>(text).ok()
}

/// `serde_json::to_string` of a value. Writing a `Value` into memory cannot
/// fail (its map keys are strings and a `Vec` accepts every write), so a
/// text always comes back.
#[verifier::external_body]
pub(crate) fn json_to_text(v: &Value) -> (r: Option<String>)
    ensures
        r is Some,
        r matches Some(s) ==> s@ == json_compact(json_view(*v)),
{
    serde_json::to_string(v).ok()
}

/// The members of an object, taken out in the map's (ascending key) order;
/// any other value is handed back.
#[verifier::external_body]
pub(crate) fn json_into_members(v: Value) -> (r: Result<Vec<(String, Value)>, Value>)
    ensures
        match json_view(v) {
            JsonView::Obj(ms) => r matches Ok(m) && members_view(m@) == ms && keys_ascending(ms),
            _ => r matches Err(w) && w == v,
        },
{
    match v {
        Value::Object(m) => Ok(m.into_iter().collect()),
        other => Err(other),
    }
}

/// An object made of `m`: with keys in ascending order, its members are `m`.
#[verifier::external_body]
pub(crate) fn json_from_members(m: Vec<(String, Value)>) -> (r: Value)
    ensures
        keys_ascending(members_view(m@)) ==> json_view(r) == JsonView::Obj(members_view(m@)),
{
    Value::Object(m.into_iter().collect())
}

/// `Value::String`.
#[verifier::external_body]
pub(crate) fn json_string(s: String) -> (r: Value)
    ensures
        json_view(r) == JsonView::Str(s@),
{
    Value::String(s)
}

/// `Value::as_str`: the text of a string value.
#[verifier::external_body]
pub(crate) fn json_as_str(v: &Value) -> (r: Option<&str>)
    ensures
        match json_view(*v) {
            JsonView::Str(s) => r matches Some(t) && t@ == s,
            _ => r is None,
        },
{
    v.as_str()
}

/// `Value::get` with a key: the member of an object.
#[verifier::external_body]
pub(crate) fn json_get<'a>(v: &'a Value, key: &str) -> (r: Option<&'a Value>)
    ensures
        match obj_get(json_view(*v), key@) {
            Some(x) => r matches Some(y) && json_view(*y) == x,
            None => r is None,
        },
{
    v.get(key)
}

/// `Value::as_object`, its members listed in the map's order.
#[verifier::external_body]
pub(crate) fn json_members<'a>(v: &'a Value) -> (r: Option<Vec<(&'a String, &'a Value)>>)
    ensures
        match json_view(*v) {
            JsonView::Obj(ms) => r matches Some(m) && m@.map_values(|e: (&String, &Value)| (e.0@, json_view(*e.1)))
                == ms,
            _ => r is None,
        },
{
    v.as_object().map(|m| m.iter().collect())
}

/// `Value::as_array`.
#[verifier::external_body]
pub(crate) fn json_items<'a>(v: &'a Value) -> (r: Option<&'a Vec<Value>>)
    ensures
        match json_view(*v) {
            JsonView::Arr(items) => r matches Some(a) && a@.map_values(|x: Value| json_view(x)) == items,
            _ => r is None,
        },
{
    v.as_array()
}

/// `Value::clone`.
#[verifier::external_body]
pub(crate) fn json_clone(v: &Value) -> (r: Value)
    ensures
        json_view(r) == json_view(*v),
{
    v.clone()
}

} // verus!
