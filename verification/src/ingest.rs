//! The anomaly event ingestion path: decodes one newline-delimited JSON
//! event from a worker's output, unwraps one level of double encoding,
//! validates the fields, resolves the reported interface name back to an
//! address, and applies the label to the state store. Streaming noise is
//! discarded, never fatal.

use vstd::prelude::*;

use crate::clock::now_millis;
use crate::helpers::upper_of;
use crate::json::{decode_event, event_flag_of, event_iface_of, event_label_of, json_doc,
    DecodedEvent};
use crate::store::{apply_spec, key_matches, StateStore};
use crate::supervisor::{rev_lookup_spec, NameIndex};

verus! {

/// The validated fields of one classification event.
pub struct EventData {
    pub iface: String,
    pub label: String,
    pub is_anomalous: bool,
}

/// Model of a validated event: the interface name, the flag, and the label
/// with its default already filled in.
pub struct EventModel {
    pub iface: Seq<char>,
    pub flag: bool,
    pub label: Seq<char>,
}

/// The structured document an ingested line reads its event from: the line
/// itself when it is a JSON document other than a string, the wrapped text
/// when the line is a JSON string holding such a document, and nothing
/// otherwise.
pub open spec fn event_source(line: Seq<char>) -> Option<Seq<char>> {
    match json_doc(line) {
        Ok(None) => Some(line),
        Ok(Some(t)) => if json_doc(t) == Ok::<Option<Seq<char>>, ()>(None) {
            Some(t)
        } else {
            None
        },
        Err(_) => None,
    }
}

/// The event a structured document text carries: present exactly when both
/// the interface field and the anomaly flag are, with the label defaulting
/// to `unknown`.
pub open spec fn event_of(doc: Seq<char>) -> Option<EventModel> {
    match (event_iface_of(doc), event_flag_of(doc)) {
        (Some(i), Some(f)) => Some(
            EventModel {
                iface: i,
                flag: f,
                label: match event_label_of(doc) {
                    Some(l) => l,
                    None => "unknown"@,
                },
            },
        ),
        _ => None,
    }
}

/// What became of one line of worker output.
pub enum IngestOutcome {
    /// The event was applied: the resolved address, the flag, the raw
    /// label, the timestamp written, and whether any stored record was
    /// addressed.
    Applied { addr: String, is_anomalous: bool, label: String, applied_at: i64, matched: bool },
    /// The line, or the text inside a double-encoded line, is not a JSON
    /// document other than a string.
    DiscardedMalformed,
    /// The document lacks the interface field or the anomaly flag.
    DiscardedIncomplete,
    /// The reported interface name resolves to no address.
    DiscardedUnresolved,
}

/// Decides whether extracted fields form a valid event: the interface name
/// and the anomaly flag are both required, if and only if; a missing label
/// defaults to `unknown`.
pub fn interpret_event(iface: Option<String>, label: Option<String>, is_anomaly: Option<bool>)
    -> (r: Option<EventData>)
    ensures
        (r is Some <==> (iface is Some && is_anomaly is Some)),
        r matches Some(e) ==> (iface matches Some(i) && e.iface@ == i@),
        r matches Some(e) ==> (is_anomaly matches Some(f) && e.is_anomalous == f),
        r matches Some(e) ==> e.label@ == (match label {
            Some(l) => l@,
            None => "unknown"@,
        }),
{
    match (iface, is_anomaly) {
        (Some(i), Some(f)) => {
            let lbl = match label {
                Some(l) => l,
                None => "unknown".to_owned(),
            };
            Some(EventData { iface: i, label: lbl, is_anomalous: f })
        },
        _ => None,
    }
}

/// Applies the event held in one document's extracted fields, or discards
/// it; the outcome is fixed by the fields and the index.
fn apply_fields(
    store: &mut StateStore,
    index: &NameIndex,
    iface: Option<String>,
    label: Option<String>,
    is_anomaly: Option<bool>,
) -> (r: IngestOutcome)
    ensures
        !(r is Applied) ==> final(store)@ == old(store)@,
        !(r is DiscardedMalformed),
        (r is DiscardedIncomplete <==> (iface is None || is_anomaly is None)),
        iface matches Some(i) ==> (is_anomaly is Some ==> (r is DiscardedUnresolved
            <==> rev_lookup_spec(index@, i@) is None)),
        iface matches Some(i) ==> (is_anomaly matches Some(f) ==> (rev_lookup_spec(index@, i@)
            matches Some(a) ==> (r matches IngestOutcome::Applied {
            addr,
            is_anomalous,
            label: lb,
            applied_at,
            matched,
        } && addr@ == a && is_anomalous == f && lb@ == (match label {
            Some(l) => l@,
            None => "unknown"@,
        })))),
        r matches IngestOutcome::Applied { addr, is_anomalous, label: lb, applied_at, matched }
            ==> final(store)@ == apply_spec(
            old(store)@,
            addr@,
            is_anomalous,
            upper_of(lb@),
            applied_at,
        ),
        r matches IngestOutcome::Applied { addr, is_anomalous, label: lb, applied_at, matched }
            ==> matched == exists|i: int|
            0 <= i < old(store)@.len() && key_matches(#[trigger] old(store)@[i], addr@),
{
    match interpret_event(iface, label, is_anomaly) {
        None => IngestOutcome::DiscardedIncomplete,
        Some(ev) => {
            match index.reverse_lookup(&ev.iface) {
                None => IngestOutcome::DiscardedUnresolved,
                Some(addr) => {
                    let now = now_millis();
                    let matched = store.apply_anomaly(&addr, ev.is_anomalous, &ev.label, now);
                    IngestOutcome::Applied {
                        addr,
                        is_anomalous: ev.is_anomalous,
                        label: ev.label,
                        applied_at: now,
                        matched,
                    }
                },
            }
        },
    }
}

/// Consumes one line of worker output: parses it as JSON, unwraps one
/// level of double encoding, validates the fields, resolves the interface
/// name, applies the label to the store, and reports what happened. For a
/// line carrying a structured document the outcome is fixed by that
/// document's named fields and the index; a line that is not usable leaves
/// the store exactly as it was.
pub fn ingest_line(store: &mut StateStore, index: &NameIndex, line: &str) -> (r: IngestOutcome)
    ensures
        !(r is Applied) ==> final(store)@ == old(store)@,
        (r is DiscardedMalformed <==> (line@.len() == 0 || event_source(line@) is None)),
        event_source(line@) matches Some(doc) ==> (line@.len() != 0 ==> (r
            is DiscardedIncomplete <==> event_of(doc) is None)),
        event_source(line@) matches Some(doc) ==> (line@.len() != 0 ==> (event_of(doc)
            matches Some(ev) ==> (r is DiscardedUnresolved <==> rev_lookup_spec(
            index@,
            ev.iface,
        ) is None))),
        event_source(line@) matches Some(doc) ==> (line@.len() != 0 ==> (event_of(doc)
            matches Some(ev) ==> (rev_lookup_spec(index@, ev.iface) matches Some(a) ==> (r
            matches IngestOutcome::Applied { addr, is_anomalous, label, applied_at, matched }
            && addr@ == a && is_anomalous == ev.flag && label@ == ev.label)))),
        r matches IngestOutcome::Applied { addr, is_anomalous, label, applied_at, matched }
            ==> final(store)@ == apply_spec(
            old(store)@,
            addr@,
            is_anomalous,
            upper_of(label@),
            applied_at,
        ),
        r matches IngestOutcome::Applied { addr, is_anomalous, label, applied_at, matched }
            ==> matched == exists|i: int|
            0 <= i < old(store)@.len() && key_matches(#[trigger] old(store)@[i], addr@),
{
    if line.is_empty() {
        return IngestOutcome::DiscardedMalformed;
    }
    match decode_event(line) {
        DecodedEvent::Invalid => IngestOutcome::DiscardedMalformed,
        DecodedEvent::Text(inner) => match decode_event(inner.as_str()) {
            DecodedEvent::Fields { iface, label, is_anomaly } => apply_fields(
                store,
                index,
                iface,
                label,
                is_anomaly,
            ),
            _ => IngestOutcome::DiscardedMalformed,
        },
        DecodedEvent::Fields { iface, label, is_anomaly } => apply_fields(
            store,
            index,
            iface,
            label,
            is_anomaly,
        ),
    }
}

/// Double-encoded equivalence: a JSON string line wrapping a structured
/// document reads its event from exactly the document text that the direct
/// line is, so the ingestion contract fixes the same outcome, and the same
/// store effect up to the clock value, for both encodings.
pub proof fn lemma_double_encoding_same_source(outer: Seq<char>, doc: Seq<char>)
    requires
        json_doc(outer) == Ok::<Option<Seq<char>>, ()>(Some(doc)),
        json_doc(doc) == Ok::<Option<Seq<char>>, ()>(None),
    ensures
        event_source(outer) == Some(doc),
        event_source(doc) == Some(doc),
        event_source(outer) == event_source(doc),
{
}

} // verus!
