//! Instants and their RFC 3339 form (chrono).
use vstd::prelude::*;

verus! {

/// The offset of China Standard Time (UTC+8) in seconds east of UTC, at which
/// the university's calendar times are read.
pub open spec fn china_offset_seconds() -> int {
    28800
}

/// Unix timestamp of the earliest instant chrono holds (`DateTime::<Utc>::MIN_UTC`).
pub open spec fn first_timestamp() -> int {
    -8334601228800
}

/// Unix timestamp of the last whole second chrono holds (`DateTime::<Utc>::MAX_UTC`).
pub open spec fn last_timestamp() -> int {
    8210266876799
}

/// What `DateTime::<Utc>::from_timestamp(seconds, 0)` followed by `to_rfc3339`
/// gives; `None` when chrono cannot hold the instant.
pub uninterp spec fn utc_rfc3339(seconds: int) -> Option<Seq<char>>;

/// Whether `DateTime::parse_from_rfc3339` accepts a text.
pub uninterp spec fn rfc3339_accepts(text: Seq<char>) -> bool;

/// Calls `chrono::DateTime::from_timestamp(seconds, 0)` and writes the instant
/// with `to_rfc3339`. The result is named `utc_rfc3339`; chrono's source
/// accepts every timestamp from `first_timestamp` to `last_timestamp`.
#[verifier::external_body]
fn timestamp_rfc3339(seconds: i64) -> (r: Option<String>)
    ensures
        r matches Some(t) ==> utc_rfc3339(seconds as int) == Some(t@),
        r is None ==> utc_rfc3339(seconds as int) is None,
        first_timestamp() <= seconds <= last_timestamp() ==> r is Some,
{
    match chrono::DateTime::from_timestamp(seconds, 0) {
        Some(instant) => Some(instant.to_rfc3339()),
        None => None,
    }
}

/// Calls `chrono::DateTime::parse_from_rfc3339` and tells whether it succeeded;
/// named `rfc3339_accepts` of the text.
#[verifier::external_body]
fn parses_as_rfc3339(text: &str) -> (r: bool)
    ensures
        r == rfc3339_accepts(text@),
{
    chrono::DateTime::parse_from_rfc3339(text).is_ok()
}

/// The RFC 3339 text of a Unix timestamp, when chrono can hold it.
pub fn rfc3339_of_timestamp(seconds: i64) -> (r: Option<String>)
    ensures
        r matches Some(t) ==> utc_rfc3339(seconds as int) == Some(t@),
        r is None ==> utc_rfc3339(seconds as int) is None,
        first_timestamp() <= seconds <= last_timestamp() ==> r is Some,
{
    timestamp_rfc3339(seconds)
}

/// Whether `text` is an RFC 3339 date and time.
pub fn is_rfc3339(text: &str) -> (r: bool)
    ensures
        r == rfc3339_accepts(text@),
{
    parses_as_rfc3339(text)
}

} // verus!
