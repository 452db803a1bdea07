//! Points in time and elapsed time, as whole seconds.

use vstd::prelude::*;

verus! {

pub const SECONDS_PER_MINUTE: u64 = 60;

pub const SECONDS_PER_HOUR: u64 = 3_600;

pub const SECONDS_PER_DAY: u64 = 86_400;

/// An elapsed time of whole seconds.
#[derive(Clone, Copy, Debug, PartialEq, Eq, Structural)]
pub struct Duration {
    pub secs: u64,
}

impl Duration {
    pub fn seconds(secs: u64) -> (r: Duration)
        ensures
            r.secs == secs,
    {
        Duration { secs }
    }

    pub fn whole_seconds(&self) -> (r: u64)
        ensures
            r == self.secs,
    {
        self.secs
    }

    pub fn whole_minutes(&self) -> (r: u64)
        ensures
            r == self.secs / 60,
    {
        self.secs / SECONDS_PER_MINUTE
    }

    pub fn whole_hours(&self) -> (r: u64)
        ensures
            r == self.secs / 3_600,
    {
        self.secs / SECONDS_PER_HOUR
    }

    pub fn whole_days(&self) -> (r: u64)
        ensures
            r == self.secs / 86_400,
    {
        self.secs / SECONDS_PER_DAY
    }
}

/// A point in time, as whole seconds since the Unix epoch (UTC).
#[derive(Clone, Copy, Debug, PartialEq, Eq, Structural)]
pub struct Timestamp {
    pub unix_seconds: i64,
}

/// The last second that a calendar date can name: 9999-12-31 23:59:59 UTC.
pub const LATEST_UNIX_SECONDS: i64 = 253_402_300_799;

/// `t` moved forward by `d`, held at `LATEST_UNIX_SECONDS` where it would
/// pass it (and kept where `t` already lies beyond it).
pub open spec fn advanced(t: Timestamp, d: Duration) -> Timestamp {
    if t.unix_seconds + d.secs <= LATEST_UNIX_SECONDS {
        Timestamp { unix_seconds: (t.unix_seconds + d.secs) as i64 }
    } else if t.unix_seconds <= LATEST_UNIX_SECONDS {
        Timestamp { unix_seconds: LATEST_UNIX_SECONDS }
    } else {
        t
    }
}

/// The distance between two points in time, in seconds.
pub open spec fn distance(a: Timestamp, b: Timestamp) -> nat {
    if a.unix_seconds >= b.unix_seconds {
        (a.unix_seconds - b.unix_seconds) as nat
    } else {
        (b.unix_seconds - a.unix_seconds) as nat
    }
}

impl Timestamp {
    pub fn from_unix_seconds(unix_seconds: i64) -> (r: Timestamp)
        ensures
            r.unix_seconds == unix_seconds,
    {
        Timestamp { unix_seconds }
    }

    /// This point moved forward by `d` (see `advanced`).
    pub fn saturating_add(self, d: Duration) -> (r: Timestamp)
        ensures
            r == advanced(self, d),
    {
        let sum: i128 = self.unix_seconds as i128 + d.secs as i128;
        if sum <= LATEST_UNIX_SECONDS as i128 {
            Timestamp { unix_seconds: sum as i64 }
        } else if self.unix_seconds <= LATEST_UNIX_SECONDS {
            Timestamp { unix_seconds: LATEST_UNIX_SECONDS }
        } else {
            self
        }
    }

    /// The elapsed time between this point and `other`, in either direction.
    pub fn abs_diff(self, other: Timestamp) -> (r: Duration)
        ensures
            r.secs == distance(self, other),
    {
        let diff: i128 = self.unix_seconds as i128 - other.unix_seconds as i128;
        if diff >= 0 {
            Duration { secs: diff as u64 }
        } else {
            Duration { secs: (-diff) as u64 }
        }
    }
}

/// Relies on time::OffsetDateTime::now_utc and unix_timestamp: the current
/// wall-clock time. Nothing is promised of its value.
#[verifier::external_body]
pub fn now() -> (r: Timestamp) {
    Timestamp { unix_seconds: time::OffsetDateTime::now_utc().unix_timestamp() }
}

/// The text that time's `Display` gives for the point `unix_seconds`.
pub uninterp spec fn rendered_timestamp(unix_seconds: int) -> Seq<char>;

/// Relies on time::OffsetDateTime::from_unix_timestamp and its `Display`:
/// the text form of a point in time, or `None` where time cannot represent
/// it.
#[verifier::external_body]
pub fn timestamp_text(t: Timestamp) -> (r: Option<String>)
    ensures
        r matches Some(s) ==> s@ == rendered_timestamp(t.unix_seconds as int) && s@.len() > 0,
{
    match time::OffsetDateTime::from_unix_timestamp(t.unix_seconds) {
        Ok(d) => Some(d.to_string()),
        Err(_) => None,
    }
}

} // verus!
