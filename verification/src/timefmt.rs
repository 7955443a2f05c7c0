//! Timestamp conversions through the `time` crate.
//!
//! The store keeps timestamps as seconds since the Unix epoch; the
//! remote API speaks RFC 3339. Both conversions are pure functions of
//! their input, so their results are named by uninterpreted spec
//! functions and everything downstream is stated over those names.

use vstd::prelude::*;

verus! {

/// The epoch second that an RFC 3339 string denotes, or `None` when the
/// string is not well-formed RFC 3339.
pub uninterp spec fn rfc3339_epoch(s: Seq<char>) -> Option<int>;

/// The RFC 3339 rendering of an epoch second at UTC.
pub uninterp spec fn rfc3339_text(secs: int) -> Seq<char>;

/// Relies on `time::OffsetDateTime::parse` with the RFC 3339 format:
/// whether the string parses, and the timestamp it denotes, depend on
/// the characters alone.
#[verifier::external_body]
pub fn parse_rfc3339(s: &str) -> (res: Option<i64>)
    ensures
        res is Some <==> rfc3339_epoch(s@) is Some,
        res matches Some(v) ==> rfc3339_epoch(s@) == Some(v as int),
{
    match time::OffsetDateTime::parse(s, &time::format_description::well_known::Rfc3339) {
        Ok(t) => Some(t.unix_timestamp()),
        Err(_) => None,
    }
}

/// Relies on `time::OffsetDateTime::from_unix_timestamp` and RFC 3339
/// formatting: rendering a UTC timestamp is a pure function of the
/// timestamp, and succeeds exactly for calendar years 0 through 9999,
/// which the bounds on `secs` enforce.
#[verifier::external_body]
pub fn display_offset_datetime(secs: i64) -> (res: String)
    requires
        -62167219200 <= secs <= 253402300799,
    ensures
        res@ == rfc3339_text(secs as int),
{
    let t = time::OffsetDateTime::from_unix_timestamp(secs).expect("timestamp in range");
    t.format(&time::format_description::well_known::Rfc3339).expect("year in range")
}

} // verus!
