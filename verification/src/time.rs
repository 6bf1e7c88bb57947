//! Instants as the gloss format writes them: RFC 3339 in UTC, through chrono.

use vstd::prelude::*;
use chrono::{DateTime, SecondsFormat, Utc};
use crate::text::{is_token, no_ws};

verus! {

/// An instant: whole seconds since the Unix epoch and the nanoseconds past
/// them (one second more for a leap second), as chrono counts them.
#[derive(Clone, Copy, Debug, PartialEq, Eq, Structural)]
pub struct Timestamp {
    pub secs: i64,
    pub nanos: u32,
}

/// What chrono prints for the instant with `to_rfc3339_opts(SecondsFormat::AutoSi, true)`,
/// or the empty text when chrono has no `DateTime<Utc>` for `secs`/`nanos`.
pub uninterp spec fn rfc3339_text(secs: i64, nanos: u32) -> Seq<char>;

/// The instant that `str::parse::<DateTime<Utc>>` reads from `s`, if any.
pub uninterp spec fn rfc3339_parse(s: Seq<char>) -> Option<(i64, u32)>;

/// An instant that chrono holds as a `DateTime<Utc>` (its text is not empty).
pub open spec fn chrono_instant(t: Timestamp) -> bool {
    timestamp_text(t).len() > 0
}

/// An instant in the years 0 to 9999 that is not a leap second.
pub open spec fn plain_instant(t: Timestamp) -> bool {
    &&& -62167219200 <= t.secs <= 253402300799
    &&& t.nanos < 1_000_000_000
}

/// The text of an instant.
pub open spec fn timestamp_text(t: Timestamp) -> Seq<char> {
    rfc3339_text(t.secs, t.nanos)
}

/// The instant a text spells, if any.
pub open spec fn timestamp_parse(s: Seq<char>) -> Option<Timestamp> {
    match rfc3339_parse(s) {
        Some((secs, nanos)) => Some(Timestamp { secs, nanos }),
        None => None,
    }
}

/// Formats with chrono: `DateTime::from_timestamp` then
/// `to_rfc3339_opts(SecondsFormat::AutoSi, true)`, the empty string where
/// chrono has no such instant. Claimed: the result is the named text; for
/// every instant chrono holds it is one non-empty run without whitespace
/// (`YYYY-MM-DDTHH:MM:SS[.fraction]Z`, with a sign and more digits for years
/// outside 0 to 9999, and second `60` for a leap second), which chrono's
/// relaxed parser reads back as the same instant; an instant in the years 0
/// to 9999 that is not a leap second is one that chrono holds.
#[verifier::external_body]
fn format_rfc3339(secs: i64, nanos: u32) -> (s: String)
    ensures
        s@ == rfc3339_text(secs, nanos),
        s@.len() > 0 ==> is_token(s@) && rfc3339_parse(s@) == Some((secs, nanos)),
        plain_instant(Timestamp { secs, nanos }) ==> s@.len() > 0,
{
    match DateTime::from_timestamp(secs, nanos) {
        Some(d) => d.to_rfc3339_opts(SecondsFormat::AutoSi, true),
        None => String::new(),
    }
}

/// Parses with chrono's `FromStr for DateTime<Utc>` (relaxed RFC 3339) and
/// reads back `timestamp()` and `timestamp_subsec_nanos()`. Claimed: the
/// result is the named parse; and the non-empty text that `format_rfc3339`
/// printed for an instant reads back as that instant.
#[verifier::external_body]
fn parse_rfc3339(s: &str) -> (r: Option<(i64, u32)>)
    ensures
        r == rfc3339_parse(s@),
        forall|secs: i64, nanos: u32|
            rfc3339_text(secs, nanos).len() > 0 && s@ == rfc3339_text(secs, nanos) ==> r == Some(
                (secs, nanos),
            ),
{
    match s.parse::<DateTime<Utc>>() {
        Ok(d) => Some((d.timestamp(), d.timestamp_subsec_nanos())),
        Err(_) => None,
    }
}

impl Timestamp {
    /// Reads an RFC 3339 instant.
    pub fn parse(s: &str) -> (r: Option<Timestamp>)
        ensures
            r == timestamp_parse(s@),
            forall|t: Timestamp| chrono_instant(t) && s@ == timestamp_text(t) ==> r == Some(t),
    {
        match parse_rfc3339(s) {
            Some((secs, nanos)) => Some(Timestamp { secs, nanos }),
            None => None,
        }
    }

    /// Whether `self` comes before `other`.
    pub fn is_before(&self, other: &Timestamp) -> (b: bool)
        ensures
            b == (self.secs < other.secs || (self.secs == other.secs && self.nanos < other.nanos)),
    {
        self.secs < other.secs || (self.secs == other.secs && self.nanos < other.nanos)
    }
}

/// The text of an instant: RFC 3339 in UTC with `Z`, and with as many
/// fraction digits (none, 3, 6 or 9) as the nanoseconds need.
pub fn timestamp(value: Timestamp) -> (s: String)
    ensures
        s@ == timestamp_text(value),
        chrono_instant(value) ==> is_token(s@) && timestamp_parse(s@) == Some(value),
        plain_instant(value) ==> chrono_instant(value),
{
    format_rfc3339(value.secs, value.nanos)
}

} // verus!
