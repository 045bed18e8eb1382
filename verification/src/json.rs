//! The one outside capability the core logic leans on: deciding whether a
//! captured body is valid JSON, and keeping the parsed value for query
//! responses.

use vstd::prelude::*;

verus! {

#[verifier::external_type_specification]
#[verifier::external_body]
pub struct ExValue(serde_json::Value);

/// Whether `serde_json` accepts this text as JSON. The answer depends on
/// the characters alone, so it carries a name rather than a restatement of
/// the JSON grammar.
pub uninterp spec fn json_accepts(s: Seq<char>) -> bool;

/// Relies on serde_json::from_str::<Value>: parses text as JSON, a pure
/// function of the characters; succeeds exactly on text JSON accepts.
#[verifier::external_body]
pub(crate) fn parse_json_value(s: &str) -> (r: Option<serde_json::Value>)
    ensures
        r is Some <==> json_accepts(s@),
{
    match serde_json::from_str::<serde_json::Value>(s) {
        Ok(v) => Some(v),
        Err(_) => None,
    }
}

/// Whether a body is valid JSON.
pub fn json_is_valid(s: &str) -> (r: bool)
    ensures
        r == json_accepts(s@),
{
    parse_json_value(s).is_some()
}

} // verus!
