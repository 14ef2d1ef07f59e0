//! Points in time. The `chrono` crate reads and writes their text and tells
//! the time of day.

use vstd::prelude::*;

verus! {

/// A point in time: seconds since 1970-01-01T00:00:00Z, and the nanoseconds
/// into that second.
#[derive(Debug, Clone, Copy, PartialEq, Eq, Structural)]
pub struct Timestamp {
    pub secs: i64,
    pub nanos: u32,
}

/// What `chrono::DateTime::parse_from_rfc3339` makes of a text: the seconds
/// since 1970 and the nanoseconds of the time it denotes, or nothing where it
/// refuses the text.
pub uninterp spec fn rfc3339_time(text: Seq<char>) -> Option<(i64, u32)>;

/// What `chrono::DateTime::to_rfc3339` writes for the time that lies `secs`
/// whole seconds after 1970 in UTC, or nothing where `chrono` cannot hold
/// that time.
pub uninterp spec fn rfc3339_text(secs: i64) -> Option<Seq<char>>;

/// Calls `chrono::DateTime::parse_from_rfc3339`. Trusted: the result is what
/// that function gives for this text, read by `timestamp` and
/// `timestamp_subsec_nanos`.
#[verifier::external_body]
pub(crate) fn parse_rfc3339(text: &str) -> (r: Option<Timestamp>)
    ensures
        match r {
            Some(t) => rfc3339_time(text@) == Some((t.secs, t.nanos)),
            None => rfc3339_time(text@) is None,
        },
{
    match chrono::DateTime::parse_from_rfc3339(text) {
        Ok(d) => Some(Timestamp { secs: d.timestamp(), nanos: d.timestamp_subsec_nanos() }),
        Err(_) => None,
    }
}

/// Calls `chrono::DateTime::to_rfc3339` on the time made by
/// `chrono::DateTime::from_timestamp` with no nanoseconds. Trusted: the
/// result is what these give for `secs`, and nothing where `from_timestamp`
/// gives nothing.
#[verifier::external_body]
pub(crate) fn format_rfc3339(secs: i64) -> (r: Option<String>)
    ensures
        match r {
            Some(s) => rfc3339_text(secs) == Some(s@),
            None => rfc3339_text(secs) is None,
        },
{
    match chrono::DateTime::from_timestamp(secs, 0) {
        Some(d) => Some(d.to_rfc3339()),
        None => None,
    }
}

/// Calls `chrono::Utc::now`. Trusted, with nothing claimed of the result: it
/// is the time of the machine's clock, which `chrono` takes to stand after
/// 1970.
#[verifier::external_body]
pub(crate) fn now() -> (r: Timestamp)
{
    let t = chrono::Utc::now();
    Timestamp { secs: t.timestamp(), nanos: t.timestamp_subsec_nanos() }
}

} // verus!
