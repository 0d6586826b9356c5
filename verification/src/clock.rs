//! Wall-clock time and its fixed calendar rendering.
use vstd::prelude::*;

verus! {

/// Relies on `chrono::Utc::now`: the current Unix timestamp in seconds.
/// Nothing is assumed of the value; callers must hold for every outcome.
#[verifier::external_body]
pub fn current_timestamp() -> i64 {
    chrono::Utc::now().timestamp()
}

/// The calendar rendering of a Unix timestamp in UTC. Named only: the
/// rendering is a function of the timestamp alone, computed by an outside
/// library.
pub uninterp spec fn timestamp_text(ts: i64) -> Seq<char>;

/// Relies on `chrono::DateTime::from_timestamp` and `DateTime::format`:
/// renders the timestamp as, for example, `Fri Feb 13 23:31:30 2009 +0000`;
/// a timestamp outside chrono's calendar range renders as the empty string.
/// The text depends on the timestamp alone.
#[verifier::external_body]
pub fn format_timestamp(ts: i64) -> (r: String)
    ensures
        r@ == timestamp_text(ts),
{
    match chrono::DateTime::from_timestamp(ts, 0) {
        Some(dt) => dt.format("%a %b %e %T %Y %z").to_string(),
        None => String::new(),
    }
}

} // verus!
