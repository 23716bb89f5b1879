//! Instants in UTC, kept as seconds and nanoseconds since the Unix epoch and
//! written as RFC 3339 text.

use chrono::{DateTime, Utc};
use vstd::prelude::*;

verus! {

/// The first second of the year 0000, in seconds since the Unix epoch.
pub const MIN_SECS: i64 = -62_167_219_200;

/// The last second of the year 9999, in seconds since the Unix epoch.
pub const MAX_SECS: i64 = 253_402_300_799;

/// Whether RFC 3339 text can carry the instant: its year has four digits, and
/// its nanoseconds pass one second only within a leap second, which stands at
/// the end of a minute. `MIN_SECS` is the start of a minute, so the position
/// within the minute is counted from there.
pub open spec fn representable(secs: i64, nanos: u32) -> bool {
    &&& MIN_SECS <= secs <= MAX_SECS
    &&& nanos < 2_000_000_000
    &&& nanos >= 1_000_000_000 ==> (secs - MIN_SECS) % 60 == 59
}

/// The instant that `DateTime::parse_from_rfc3339` reads from a text, as
/// seconds and nanoseconds since the Unix epoch in UTC; `None` where the text
/// is not an RFC 3339 date and time.
pub uninterp spec fn rfc3339_instant(text: Seq<char>) -> Option<(i64, u32)>;

/// The text that `DateTime::<Utc>::to_rfc3339` writes for an instant.
pub uninterp spec fn rfc3339_text(secs: i64, nanos: u32) -> Seq<char>;

/// An instant in UTC that RFC 3339 text can carry.
#[derive(Debug, Clone, Copy, PartialEq, Eq, Structural)]
pub struct Timestamp {
    secs: i64,
    nanos: u32,
}

/// `DateTime::parse_from_rfc3339`, then `with_timezone(&Utc)`, `timestamp`
/// and `timestamp_subsec_nanos`: the instant that the text names.
#[verifier::external_body]
fn instant_from_rfc3339(text: &str) -> (res: Option<(i64, u32)>)
    ensures
        res == rfc3339_instant(text@),
{
    match DateTime::parse_from_rfc3339(text) {
        Ok(parsed) => {
            let utc = parsed.with_timezone(&Utc);
            Some((utc.timestamp(), utc.timestamp_subsec_nanos()))
        },
        Err(_) => None,
    }
}

/// `DateTime::from_timestamp`, then `to_rfc3339`. Every representable instant
/// has a text, and reading that text gives the instant back: the year is
/// written with four digits, a leap second as second 60, the fraction with
/// three, six or nine digits and the offset as `+00:00`, all of which the
/// parser takes. The text is never empty.
#[verifier::external_body]
fn rfc3339_from_instant(secs: i64, nanos: u32) -> (res: Option<String>)
    ensures
        representable(secs, nanos) ==> res is Some,
        res matches Some(text) ==> text@ == rfc3339_text(secs, nanos),
        res matches Some(text) ==> text@.len() > 0,
        res matches Some(text) ==> representable(secs, nanos) ==> rfc3339_instant(text@) == Some(
            (secs, nanos),
        ),
{
    match DateTime::from_timestamp(secs, nanos) {
        Some(instant) => Some(instant.to_rfc3339()),
        None => None,
    }
}

impl Timestamp {
    #[verifier::type_invariant]
    spec fn well_formed(&self) -> bool {
        representable(self.secs, self.nanos)
    }

    /// Seconds since the Unix epoch.
    pub closed spec fn seconds(&self) -> i64 {
        self.secs
    }

    /// Nanoseconds past the second.
    pub closed spec fn subsec_nanos(&self) -> u32 {
        self.nanos
    }

    /// Whether `self` is strictly earlier than `other`.
    pub open spec fn earlier_than(&self, other: &Timestamp) -> bool {
        self.seconds() < other.seconds() || (self.seconds() == other.seconds()
            && self.subsec_nanos() < other.subsec_nanos())
    }

    /// The instant that a text names, where it is RFC 3339 and representable.
    pub open spec fn of_text(text: Seq<char>) -> Option<Timestamp> {
        match rfc3339_instant(text) {
            Some((secs, nanos)) => if representable(secs, nanos) {
                Some(Timestamp::of_parts(secs, nanos))
            } else {
                None
            },
            None => None,
        }
    }

    /// The instant with the given parts.
    pub closed spec fn of_parts(secs: i64, nanos: u32) -> Timestamp {
        Timestamp { secs, nanos }
    }

    /// The RFC 3339 text of the instant.
    pub open spec fn text(&self) -> Seq<char> {
        rfc3339_text(self.seconds(), self.subsec_nanos())
    }

    /// Two instants with the same parts are the same instant.
    pub proof fn lemma_same_parts(a: Timestamp, b: Timestamp)
        requires
            a.seconds() == b.seconds(),
            a.subsec_nanos() == b.subsec_nanos(),
        ensures
            a == b,
    {
    }

    /// The parts of `of_parts` are the ones given.
    pub proof fn lemma_of_parts(secs: i64, nanos: u32)
        ensures
            Timestamp::of_parts(secs, nanos).seconds() == secs,
            Timestamp::of_parts(secs, nanos).subsec_nanos() == nanos,
    {
    }

    /// Makes an instant from its parts, where RFC 3339 text can carry it.
    pub fn new(secs: i64, nanos: u32) -> (res: Option<Timestamp>)
        ensures
            res is Some <==> representable(secs, nanos),
            res matches Some(t) ==> t == Timestamp::of_parts(secs, nanos) && t.seconds() == secs
                && t.subsec_nanos() == nanos,
    {
        if secs < MIN_SECS || secs > MAX_SECS || nanos >= 2_000_000_000 {
            return None;
        }
        if nanos >= 1_000_000_000 {
            let in_minute: i64 = (secs - MIN_SECS) % 60;
            if in_minute != 59 {
                return None;
            }
        }
        Some(Timestamp { secs, nanos })
    }

    /// Seconds since the Unix epoch.
    pub fn secs(&self) -> (secs: i64)
        ensures
            secs == self.seconds(),
            MIN_SECS <= secs <= MAX_SECS,
    {
        proof {
            use_type_invariant(self);
        }
        self.secs
    }

    /// Nanoseconds past the second; a billion or more within a leap second.
    pub fn nanos(&self) -> (nanos: u32)
        ensures
            nanos == self.subsec_nanos(),
            representable(self.seconds(), nanos),
    {
        proof {
            use_type_invariant(self);
        }
        self.nanos
    }

    /// Whether `self` is strictly earlier than `other`.
    pub fn is_before(&self, other: &Timestamp) -> (res: bool)
        ensures
            res == self.earlier_than(other),
    {
        self.secs < other.secs || (self.secs == other.secs && self.nanos < other.nanos)
    }

    /// The later of two instants; `self` where they are equal.
    pub fn later_of(self, other: Timestamp) -> (res: Timestamp)
        ensures
            res == if self.earlier_than(&other) { other } else { self },
    {
        if self.is_before(&other) {
            other
        } else {
            self
        }
    }

    /// Reads an instant from RFC 3339 text.
    pub fn parse(text: &str) -> (res: Option<Timestamp>)
        ensures
            res == Timestamp::of_text(text@),
    {
        match instant_from_rfc3339(text) {
            None => None,
            Some((secs, nanos)) => Timestamp::new(secs, nanos),
        }
    }

    /// Writes the instant as RFC 3339 text, which `parse` reads back.
    pub fn to_rfc3339(&self) -> (text: String)
        ensures
            text@ == self.text(),
            text@.len() > 0,
            Timestamp::of_text(text@) == Some(*self),
    {
        proof {
            use_type_invariant(self);
        }
        match rfc3339_from_instant(self.secs, self.nanos) {
            Some(text) => text,
            None => String::new(),
        }
    }
}

} // verus!
