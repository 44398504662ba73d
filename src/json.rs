//! A JSON document as a tree of the library's own, and the paths the decoder reads in it.
use vstd::prelude::*;
use crate::text::same_text;

verus! {

/// A JSON value. A number keeps its text, and an array or an object its compact
/// JSON text beside its items; an object keeps its members in the order the
/// parser hands them out, each key once.
#[derive(Debug)]
pub enum JsonValue {
    Null,
    Bool(bool),
    Number(String),
    Str(String),
    Array(Vec<JsonValue>, String),
    Object(Vec<(String, JsonValue)>, String),
}

/// The document that a text holds, if it is exactly one JSON value.
pub uninterp spec fn json_document_of(s: Seq<char>) -> Option<JsonValue>;

#[verifier::external_type_specification]
#[verifier::external_body]
pub struct ExSerdeValue(serde_json::Value);

/// Carries a value of serde_json over into `JsonValue`, variant for variant; the
/// text of an array or an object is what serde_json's `Display` writes for it.
#[verifier::external_body]
fn from_serde(v: serde_json::Value) -> JsonValue {
    let text = v.to_string();
    match v {
        serde_json::Value::Null => JsonValue::Null,
        serde_json::Value::Bool(b) => JsonValue::Bool(b),
        serde_json::Value::Number(n) => JsonValue::Number(n.to_string()),
        serde_json::Value::String(s) => JsonValue::Str(s),
        serde_json::Value::Array(a) => JsonValue::Array(a.into_iter().map(from_serde).collect(), text),
        serde_json::Value::Object(m) => JsonValue::Object(
            m.into_iter().map(|(k, x)| (k, from_serde(x))).collect(),
            text,
        ),
    }
}

/// Relies on `serde_json::from_str::<serde_json::Value>`: the result depends on the
/// text alone, and is a value exactly when the text is one JSON document.
#[verifier::external_body]
pub(crate) fn parse_json(s: &str) -> (r: Option<JsonValue>)
    ensures
        r == json_document_of(s@),
{
    serde_json::from_str::<serde_json::Value>(s).ok().map(from_serde)
}

/// The value of the first member named `key`.
pub open spec fn lookup(es: Seq<(String, JsonValue)>, key: Seq<char>) -> Option<JsonValue>
    decreases es.len(),
{
    if es.len() == 0 {
        None
    } else if es[0].0@ == key {
        Some(es[0].1)
    } else {
        lookup(es.drop_first(), key)
    }
}

/// The member `key` of an object; nothing for other values.
pub open spec fn member(v: Option<JsonValue>, key: Seq<char>) -> Option<JsonValue> {
    match v {
        Some(JsonValue::Object(es, _)) => lookup(es@, key),
        _ => None,
    }
}

/// The first element of an array; nothing for other values.
pub open spec fn first(v: Option<JsonValue>) -> Option<JsonValue> {
    match v {
        Some(JsonValue::Array(a, _)) => if a@.len() > 0 {
            Some(a@[0])
        } else {
            None
        },
        _ => None,
    }
}

/// The text of a string value.
pub open spec fn text_of(v: Option<JsonValue>) -> Option<Seq<char>> {
    match v {
        Some(JsonValue::Str(s)) => Some(s@),
        _ => None,
    }
}

pub open spec fn deref(v: Option<&JsonValue>) -> Option<JsonValue> {
    match v {
        Some(x) => Some(*x),
        None => None,
    }
}

pub fn get_member<'a>(v: Option<&'a JsonValue>, key: &str) -> (r: Option<&'a JsonValue>)
    ensures
        deref(r) == member(deref(v), key@),
{
    let es = match v {
        Some(JsonValue::Object(es, _)) => es,
        _ => return None,
    };
    let ghost whole = deref(v);
    let mut i: usize = 0;
    assert(es@.subrange(0, es@.len() as int) =~= es@);
    while i < es.len()
        invariant
            i <= es@.len(),
            lookup(es@, key@) == lookup(es@.subrange(i as int, es@.len() as int), key@),
            whole == deref(v),
            member(whole, key@) == lookup(es@, key@),
        decreases es@.len() - i,
    {
        let ghost rest = es@.subrange(i as int, es@.len() as int);
        assert(rest.drop_first() =~= es@.subrange(i + 1, es@.len() as int));
        assert(rest[0] == es@[i as int]);
        let k = &es[i].0;
        if same_text(k.as_str(), key) {
            return Some(&es[i].1);
        }
        i = i + 1;
    }
    None
}

pub fn get_first<'a>(v: Option<&'a JsonValue>) -> (r: Option<&'a JsonValue>)
    ensures
        deref(r) == first(deref(v)),
{
    match v {
        Some(JsonValue::Array(a, _)) => if a.len() > 0 {
            Some(&a[0])
        } else {
            None
        },
        _ => None,
    }
}

} // verus!
