//! The event relay's per-line decision: parse a line of engine stdout as
//! JSON through serde_json, route it under its `event` kind, flag the
//! reserved trigger kind, and drop malformed lines without disturbing the
//! lines around them.

use vstd::prelude::*;
use vstd::string::StringExecFns;
use crate::shell::str_eq;

verus! {

/// Declares `serde_json::Value`, the parsed form of one engine event, so
/// that it can be carried through signatures; the value is opaque here and
/// is read only through the trusted accessors below.
#[verifier::external_type_specification]
#[verifier::external_body]
pub struct ExJsonValue(serde_json::Value);

/// Whether a line of engine output is a JSON document that serde_json
/// accepts. The library does not restate serde_json's grammar; the
/// acceptance is a function of the line alone.
pub uninterp spec fn is_json_doc(s: Seq<char>) -> bool;

/// Relies on `serde_json::from_str::<serde_json::Value>`: parsing succeeds
/// exactly on the lines that are JSON documents; the outcome depends on the
/// line alone and the call never panics.
#[verifier::external_body]
fn parse_json_line(line: &str) -> (r: Option<serde_json::Value>)
    ensures
        r is Some <==> is_json_doc(line@),
{
    serde_json::from_str::<serde_json::Value>(line).ok()
}

/// The `event` field of a line of engine output, when the line is a JSON
/// object holding that field as a string; `None` otherwise. A function of
/// the line alone; the library does not restate how serde_json reads it.
pub uninterp spec fn event_kind_of(s: Seq<char>) -> Option<Seq<char>>;

/// Relies on `serde_json::from_str::<Value>`, `Value::get` and
/// `Value::as_str`: the line's `event` field as an owned string, exactly
/// when the line parses to an object holding that field as a string. The
/// outcome depends on the line alone and none of the calls panics.
#[verifier::external_body]
fn parse_event_kind(line: &str) -> (r: Option<String>)
    ensures
        r is Some <==> event_kind_of(line@) is Some,
        r matches Some(k) ==> event_kind_of(line@) matches Some(kk) && k@ == kk,
{
    serde_json::from_str::<serde_json::Value>(line).ok().and_then(
        |v| v.get("event").and_then(|f| f.as_str()).map(|s| s.to_owned()),
    )
}

pub open spec fn default_kind() -> Seq<char> {
    "unknown"@
}

pub open spec fn reserved_kind() -> Seq<char> {
    "scratch_detected"@
}

/// The event kind an extracted `event` field yields: the field's string
/// content, or `unknown` when the field was absent or not a string.
pub fn kind_of_field(field: Option<String>) -> (k: String)
    ensures
        field matches Some(s) ==> k@ == s@,
        field is None ==> k@ == default_kind(),
{
    match field {
        Some(s) => s,
        None => String::from_str("unknown"),
    }
}

/// What the relay does with one line of engine stdout.
pub enum RelayAction {
    /// The line is not a JSON document: it is logged and dropped, and the
    /// relay moves on; malformed output never stops the reader.
    Discard,
    /// The parsed object goes to every subscriber under `kind` as an opaque
    /// routing key; `alert` is set exactly on the reserved trigger kind,
    /// which additionally and unconditionally invokes the alert
    /// coordinator.
    Dispatch { kind: String, alert: bool, payload: serde_json::Value },
}

/// Classify one line of engine stdout: parse it as JSON, read its `event`
/// field as the routing kind with `unknown` standing in for a missing or
/// non-string field, and flag the reserved trigger kind.
pub fn classify_line(line: &str) -> (r: RelayAction)
    ensures
        r is Discard <==> !is_json_doc(line@),
        r matches RelayAction::Dispatch { kind, alert, payload } ==> {
            &&& alert == (kind@ == reserved_kind())
            &&& (event_kind_of(line@) matches Some(k) ==> kind@ == k)
            &&& (event_kind_of(line@) is None ==> kind@ == default_kind())
        },
{
    match parse_json_line(line) {
        None => RelayAction::Discard,
        Some(v) => {
            let field = parse_event_kind(line);
            let kind = kind_of_field(field);
            let alert = str_eq(kind.as_str(), "scratch_detected");
            RelayAction::Dispatch { kind, alert, payload: v }
        }
    }
}

/// Classify a batch of lines in stream order. Each line is classified on
/// its own, so a malformed line affects nothing but its own slot: every
/// later line still dispatches exactly as it would alone.
pub fn classify_lines(lines: &Vec<String>) -> (r: Vec<RelayAction>)
    ensures
        r@.len() == lines@.len(),
        forall|i: int|
            0 <= i < lines@.len() ==> ((#[trigger] r@[i]) is Discard <==> !is_json_doc(
                lines@[i]@,
            )),
{
    let mut out: Vec<RelayAction> = Vec::new();
    let mut i: usize = 0;
    while i < lines.len()
        invariant
            i <= lines@.len(),
            out@.len() == i,
            forall|j: int|
                0 <= j < i ==> ((#[trigger] out@[j]) is Discard <==> !is_json_doc(lines@[j]@)),
        decreases lines@.len() - i,
    {
        out.push(classify_line(lines[i].as_str()));
        i = i + 1;
    }
    out
}

} // verus!
