//! The trusted boundary: the clock and the JSON validity check, each
//! a thin wrapper around an outside crate whose contract Verus
//! believes without proof.

use vstd::prelude::*;

verus! {

/// Whether a text is well-formed JSON. Parsing depends on the text
/// alone, so the result carries a name; nothing here says what holds
/// of which text.
pub uninterp spec fn json_ok(s: Seq<char>) -> bool;

/// Relies on serde_json::from_str::<Value>: whether a text parses as
/// JSON depends on the text alone.
#[verifier::external_body]
pub fn json_is_valid(s: &str) -> (r: bool)
    ensures
        r == json_ok(s@),
{
    serde_json::from_str::<serde_json::Value>(s).is_ok()
}

/// Relies on chrono: `Utc::now().to_rfc3339()` always renders a full
/// RFC 3339 timestamp, never an empty string.
#[verifier::external_body]
pub fn now_rfc3339() -> (r: String)
    ensures
        r@.len() > 0,
{
    chrono::Utc::now().to_rfc3339()
}

/// Relies on chrono: formatting `Utc::now()` with a year-month-day
/// pattern always renders a date, never an empty string.
#[verifier::external_body]
pub fn today_utc() -> (r: String)
    ensures
        r@.len() > 0,
{
    chrono::Utc::now().format("%Y-%m-%d").to_string()
}

/// Relies on chrono: `Utc::now().timestamp_millis()` is the
/// clock reading in milliseconds since the epoch. Nothing is promised
/// of it; callers treat every value as possible.
#[verifier::external_body]
pub fn now_millis() -> (r: i64)
{
    chrono::Utc::now().timestamp_millis()
}

} // verus!
