//! Trusted bindings to the JSON parser that decodes worker event lines and
//! the startup helper's interface listing. Each binding hands back plain
//! values, and what it reads out of a text is named as a function of that
//! text's characters, so that callers' contracts can speak of it.

use vstd::prelude::*;

verus! {

/// The characters of an optional string.
pub open spec fn opt_chars(s: Option<String>) -> Option<Seq<char>> {
    match s {
        Some(x) => Some(x@),
        None => None,
    }
}

/// What `serde_json::from_str::<Value>` makes of a text, reduced to its
/// shape: `Err(())` when the text is not a JSON document, `Ok(Some(content))`
/// when it is a JSON string with that content, `Ok(None)` for any other
/// JSON document.
pub uninterp spec fn json_doc(s: Seq<char>) -> Result<Option<Seq<char>>, ()>;

/// The `iface`, `is_anomaly` and `label` fields that the JSON parser reads
/// out of a document text: string, boolean and string, each absent when
/// missing or of another type.
pub uninterp spec fn event_fields_of(s: Seq<char>) -> (
    Option<Seq<char>>,
    Option<bool>,
    Option<Seq<char>>,
);

/// The `iface` field of a document text.
pub open spec fn event_iface_of(s: Seq<char>) -> Option<Seq<char>> {
    event_fields_of(s).0
}

/// The `is_anomaly` field of a document text.
pub open spec fn event_flag_of(s: Seq<char>) -> Option<bool> {
    event_fields_of(s).1
}

/// The `label` field of a document text.
pub open spec fn event_label_of(s: Seq<char>) -> Option<Seq<char>> {
    event_fields_of(s).2
}

/// One decoded event line.
pub enum DecodedEvent {
    /// not a JSON document
    Invalid,
    /// a JSON string, holding this text
    Text(String),
    /// any other JSON document, reduced to the three event fields
    Fields { iface: Option<String>, label: Option<String>, is_anomaly: Option<bool> },
}

/// Relies on `serde_json::from_str::<Value>`, `Value::get`, `Value::as_str`
/// and `Value::as_bool`: whether a text parses, the content of a JSON
/// string, and the event fields of any other document are all functions of
/// the text's characters alone.
#[verifier::external_body]
pub(crate) fn decode_event(line: &str) -> (r: DecodedEvent)
    ensures
        (r is Invalid <==> json_doc(line@) is Err),
        (r is Fields <==> json_doc(line@) == Ok::<Option<Seq<char>>, ()>(None)),
        (r matches DecodedEvent::Text(t) ==> json_doc(line@) == Ok::<Option<Seq<char>>, ()>(
            Some(t@),
        )),
        (r matches DecodedEvent::Fields { iface, label, is_anomaly } ==> event_fields_of(line@)
            == (opt_chars(iface), is_anomaly, opt_chars(label))),
{
    let v = match serde_json::from_str::<serde_json::Value>(line) {
        Err(_) => return DecodedEvent::Invalid,
        Ok(serde_json::Value::String(s)) => return DecodedEvent::Text(s),
        Ok(v) => v,
    };
    DecodedEvent::Fields {
        iface: v.get("iface").and_then(serde_json::Value::as_str).map(String::from),
        label: v.get("label").and_then(serde_json::Value::as_str).map(String::from),
        is_anomaly: v.get("is_anomaly").and_then(serde_json::Value::as_bool),
    }
}

/// The characters of one listing pair.
pub open spec fn pair_chars(p: (Option<String>, Option<String>)) -> (
    Option<Seq<char>>,
    Option<Seq<char>>,
) {
    (opt_chars(p.0), opt_chars(p.1))
}

/// The characters of a vector of listing pairs.
pub open spec fn pairs_chars(v: Seq<(Option<String>, Option<String>)>) -> Seq<
    (Option<Seq<char>>, Option<Seq<char>>),
> {
    v.map_values(|p: (Option<String>, Option<String>)| pair_chars(p))
}

/// The `name` and `ipv4` fields of each item that the JSON parser reads
/// out of a listing text, in item order; `None` when the text is not a
/// JSON array.
pub uninterp spec fn listing_fields_of(s: Seq<char>) -> Option<
    Seq<(Option<Seq<char>>, Option<Seq<char>>)>,
>;

/// Relies on `serde_json::from_str::<Vec<Value>>`, `Value::get` and
/// `Value::as_str`: whether a text parses as a JSON array, and the `name`
/// and `ipv4` fields of each of its items, are functions of the text's
/// characters alone.
#[verifier::external_body]
pub(crate) fn decode_listing(text: &str) -> (r: Option<Vec<(Option<String>, Option<String>)>>)
    ensures
        (r is Some <==> listing_fields_of(text@) is Some),
        (r matches Some(v) ==> listing_fields_of(text@) == Some(pairs_chars(v@))),
{
    let items = match serde_json::from_str::<Vec<serde_json::Value>>(text) {
        Ok(v) => v,
        Err(_) => return None,
    };
    let pairs = items
        .iter()
        .map(|item| (
            item.get("name").and_then(serde_json::Value::as_str).map(String::from),
            item.get("ipv4").and_then(serde_json::Value::as_str).map(String::from),
        ))
        .collect();
    Some(pairs)
}

} // verus!
