//! The one place where JSON text is parsed: a trusted boundary around
//! serde_json.

use vstd::prelude::*;

verus! {

#[verifier::external_type_specification]
#[verifier::external_body]
pub struct ExJsonValue(serde_json::Value);

/// What serde_json parses the text to when it is one JSON document; the
/// result depends on the text alone.
pub uninterp spec fn json_parse(s: Seq<char>) -> Option<crate::value::SpecValue>;

/// Relies on `serde_json::from_str`: decides whether the text is one JSON
/// document and returns its parsed form. Objects of a parsed document bind
/// each key at most once, because serde_json collects them into a keyed map.
#[verifier::external_body]
pub fn parse_json(s: &str) -> (r: Option<crate::value::DocValue>)
    ensures
        r is Some <==> json_parse(s@) is Some,
        r matches Some(v) ==> json_parse(s@) == Some(v@) && crate::value::wf(v@),
{
    match serde_json::from_str::<serde_json::Value>(s) {
        Ok(v) => Some(value_of_json(&v)),
        Err(_) => None,
    }
}

/// Relies on `serde_json::Value`: maps each variant of a parsed document
/// one-for-one onto the library's value type. A number that is an `i64`
/// becomes `Int`; any other number keeps serde_json's canonical text.
#[verifier::external_body]
fn value_of_json(v: &serde_json::Value) -> crate::value::DocValue {
    match v {
        serde_json::Value::Null => crate::value::DocValue::Null,
        serde_json::Value::Bool(b) => crate::value::DocValue::Bool(*b),
        serde_json::Value::Number(n) => match n.as_i64() {
            Some(i) => crate::value::DocValue::Int(i),
            None => crate::value::DocValue::Num(n.to_string()),
        },
        serde_json::Value::String(s) => crate::value::DocValue::Text(s.clone()),
        serde_json::Value::Array(a) => crate::value::DocValue::Array(a.iter().map(value_of_json).collect()),
        serde_json::Value::Object(o) => crate::value::DocValue::Object(
            o.iter().map(|(k, x)| (k.clone(), value_of_json(x))).collect(),
        ),
    }
}

} // verus!
