//! Update times as plain instants: non-leap seconds and subsecond
//! nanoseconds since the Unix epoch, in UTC.

use vstd::prelude::*;

verus! {

/// The instant that an RFC 3339 date-time string with explicit offset
/// denotes, as (seconds, subsecond nanoseconds) since the Unix epoch, or
/// `None` if the string is not a valid RFC 3339 date-time.
pub uninterp spec fn rfc3339_instant(s: Seq<char>) -> Option<(i64, u32)>;

/// Relies on chrono's `DateTime::parse_from_rfc3339` together with its
/// `timestamp` and `timestamp_subsec_nanos` accessors: the parsed instant
/// depends on the string alone, and the accessors return its non-leap
/// seconds since the Unix epoch and its subsecond nanoseconds.
#[verifier::external_body]
pub(crate) fn parse_rfc3339(s: &str) -> (r: Option<(i64, u32)>)
    ensures
        r == rfc3339_instant(s@),
{
    match chrono::DateTime::parse_from_rfc3339(s) {
        Ok(dt) => Some((dt.timestamp(), dt.timestamp_subsec_nanos())),
        Err(_) => None,
    }
}

/// A point in time, normalized to UTC.
#[derive(Clone, Copy, Debug, PartialEq, Eq, Structural, Hash)]
pub struct Timestamp {
    pub secs: i64,
    pub nanos: u32,
}

impl Timestamp {
    pub fn new(secs: i64, nanos: u32) -> (t: Timestamp)
        ensures
            t == (Timestamp { secs, nanos }),
    {
        Timestamp { secs, nanos }
    }

    /// Strict instant order: seconds first, nanoseconds as tie-break.
    pub open spec fn lt_spec(self, other: Timestamp) -> bool {
        self.secs < other.secs || (self.secs == other.secs && self.nanos < other.nanos)
    }

    pub fn lt(self, other: Timestamp) -> (r: bool)
        ensures
            r == self.lt_spec(other),
    {
        self.secs < other.secs || (self.secs == other.secs && self.nanos < other.nanos)
    }
}

} // verus!
