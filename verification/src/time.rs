//! Timestamps: an instant together with the fixed offset it was written in.

use vstd::prelude::*;
use vstd::std_specs::cmp::PartialEqSpecImpl;
use crate::ordered::Ordered;

verus! {

/// `chrono::ParseError`, the reason for which `chrono` rejects a text.
/// Nothing is claimed of what it holds.
#[verifier::external_type_specification]
#[verifier::external_body]
pub struct ExChronoParseError(chrono::ParseError);

/// What `chrono` reads out of a text as a date and time with a fixed offset:
/// whole seconds since the epoch, nanoseconds within the second, and the
/// offset east of UTC in seconds; `None` where it rejects the text.
pub uninterp spec fn parsed_timestamp(text: Seq<char>) -> Option<(int, int, int)>;

/// The RFC 3339 text that `chrono` writes for an instant in a fixed offset.
pub uninterp spec fn rfc3339_text(secs: int, nanos: int, offset: int) -> Seq<char>;

/// The seconds from the epoch to the first second of year 0.
pub const MIN_LOCAL_SECS: i64 = -62_167_219_200;

/// The seconds from the epoch to the last second of year 9999.
pub const MAX_LOCAL_SECS: i64 = 253_402_300_799;

/// The parts of a timestamp that this library works with: written under
/// its offset the year has four digits, the nanoseconds stand for a real
/// second or for a leap second at the end of a minute, and the offset is in
/// whole minutes and under a day.
pub open spec fn valid_parts(secs: int, nanos: int, offset: int) -> bool {
    &&& MIN_LOCAL_SECS <= secs + offset <= MAX_LOCAL_SECS
    &&& 0 <= nanos < 2_000_000_000
    &&& (nanos >= 1_000_000_000 ==> secs % 60 == 59)
    &&& -86_400 < offset < 86_400
    &&& offset % 60 == 0
}

/// The seconds from the epoch to the first second of a day, as `chrono`
/// counts them; `None` where it knows no such day.
pub uninterp spec fn midnight_of(year: int, month: int, day: int) -> Option<int>;

/// Makes the day with `chrono::NaiveDate::from_ymd_opt` and its first
/// second with `and_hms_opt(0, 0, 0)`, and counts the seconds with
/// `and_utc().timestamp()`. The contract claims only that the outcome is
/// the one named `midnight_of` for this day.
#[verifier::external_body]
pub(crate) fn chrono_midnight(year: i32, month: u32, day: u32) -> (r: Option<i64>)
    ensures
        match r {
            Some(secs) => midnight_of(year as int, month as int, day as int) == Some(secs as int),
            None => midnight_of(year as int, month as int, day as int) is None,
        },
{
    let first = chrono::NaiveDate::from_ymd_opt(year, month, day)?.and_hms_opt(0, 0, 0)?;
    Some(first.and_utc().timestamp())
}

/// `valid_parts`, of the three parts together.
pub open spec fn valid(parts: (int, int, int)) -> bool {
    valid_parts(parts.0, parts.1, parts.2)
}

/// Calls `str::parse::<chrono::DateTime<chrono::FixedOffset>>` and takes the
/// result apart with `timestamp`, `timestamp_subsec_nanos` and
/// `offset().local_minus_utc()`. The contract claims only that the outcome
/// is the one named `parsed_timestamp` for this text.
#[verifier::external_body]
fn chrono_parse(text: &str) -> (r: Result<(i64, u32, i32), chrono::ParseError>)
    ensures
        match r {
            Ok(p) => parsed_timestamp(text@) == Some((p.0 as int, p.1 as int, p.2 as int)),
            Err(_) => parsed_timestamp(text@) is None,
        },
{
    let dt = text.parse::<chrono::DateTime<chrono::FixedOffset>>()?;
    Ok((dt.timestamp(), dt.timestamp_subsec_nanos(), dt.offset().local_minus_utc()))
}

/// Builds the date and time with `chrono::DateTime::from_timestamp`,
/// `chrono::FixedOffset::east_opt` and `with_timezone`, and writes it with
/// `to_rfc3339`. The contract claims that valid parts are always written,
/// that the text is the one named `rfc3339_text`, and that `chrono` reads
/// the same parts back out of the text it wrote.
#[verifier::external_body]
fn chrono_rfc3339(secs: i64, nanos: u32, offset: i32) -> (out: Option<String>)
    ensures
        valid_parts(secs as int, nanos as int, offset as int) ==> out is Some,
        out is Some ==> out->0@ == rfc3339_text(secs as int, nanos as int, offset as int),
        out is Some && valid_parts(secs as int, nanos as int, offset as int) ==> parsed_timestamp(
            out->0@,
        ) == Some((secs as int, nanos as int, offset as int)),
{
    let utc = chrono::DateTime::from_timestamp(secs, nanos)?;
    let east = chrono::FixedOffset::east_opt(offset)?;
    Some(utc.with_timezone(&east).to_rfc3339())
}

/// Why a text is no timestamp.
#[derive(Debug)]
pub enum TimestampError {
    /// The text is not a date and time with an offset.
    Malformed(chrono::ParseError),
    /// The text is a date and time, but outside what this library stores.
    OutOfRange,
}

/// An instant, with the fixed offset from UTC under which it is written.
///
/// Two timestamps are equal, and neither is earlier than the other, where
/// they stand for one instant, whatever their offsets.
#[derive(Clone, Copy, Debug)]
pub struct Timestamp {
    secs: i64,
    nanos: u32,
    offset: i32,
}

/// Whether `secs` is the last second of a minute.
fn ends_a_minute(secs: i64) -> (r: bool)
    ensures
        r == (secs as int % 60 == 59),
{
    if secs >= 0 {
        secs % 60 == 59
    } else if secs == i64::MIN {
        false
    } else {
        (-(secs + 1)) % 60 == 0
    }
}

/// Whether `offset` is a whole number of minutes.
fn whole_minutes(offset: i32) -> (r: bool)
    requires
        -86_400 < offset < 86_400,
    ensures
        r == (offset as int % 60 == 0),
{
    if offset >= 0 {
        offset % 60 == 0
    } else {
        (-offset) % 60 == 0
    }
}

impl Timestamp {
    /// The parts are those of a timestamp that this library works with.
    pub closed spec fn wf(&self) -> bool {
        valid_parts(self.secs as int, self.nanos as int, self.offset as int)
    }

    /// Seconds since the epoch, nanoseconds, and offset east of UTC in seconds.
    pub closed spec fn parts(&self) -> (int, int, int) {
        (self.secs as int, self.nanos as int, self.offset as int)
    }

    /// The instant, without the offset: seconds since the epoch, and nanoseconds.
    pub open spec fn instant(&self) -> (int, int) {
        (self.parts().0, self.parts().1)
    }

    /// The RFC 3339 text of this timestamp, by which its leaf is named.
    pub open spec fn name(&self) -> Seq<char> {
        rfc3339_text(self.parts().0, self.parts().1, self.parts().2)
    }

    /// Whether this instant is earlier than that of `other`.
    pub open spec fn earlier(&self, other: &Timestamp) -> bool {
        self.instant().0 < other.instant().0 || (self.instant().0 == other.instant().0
            && self.instant().1 < other.instant().1)
    }

    pub proof fn lemma_parts_decide(a: Timestamp, b: Timestamp)
        requires
            a.parts() == b.parts(),
        ensures
            a == b,
    {
    }

    /// The timestamp of these parts, where they are valid.
    pub fn new(secs: i64, nanos: u32, offset: i32) -> (r: Option<Timestamp>)
        ensures
            r is Some == valid_parts(secs as int, nanos as int, offset as int),
            r is Some ==> r->0.wf() && r->0.parts() == (secs as int, nanos as int, offset as int),
    {
        if -86_400 < offset && offset < 86_400 && MIN_LOCAL_SECS - 86_400 <= secs && secs
            <= MAX_LOCAL_SECS + 86_400 && MIN_LOCAL_SECS <= secs + (offset as i64) && secs + (
        offset as i64) <= MAX_LOCAL_SECS && nanos < 2_000_000_000 && (nanos < 1_000_000_000
            || ends_a_minute(secs)) && whole_minutes(offset) {
            Some(Timestamp { secs, nanos, offset })
        } else {
            None
        }
    }

    /// The timestamp that `text` is read as, where it is read as one that
    /// this library works with.
    pub closed spec fn of_name(text: Seq<char>) -> Option<Timestamp> {
        match parsed_timestamp(text) {
            Some(p) => if valid(p) {
                Some(Timestamp { secs: p.0 as i64, nanos: p.1 as u32, offset: p.2 as i32 })
            } else {
                None
            },
            None => None,
        }
    }

    /// Whether reading the name of this timestamp gives it back.
    pub open spec fn round_trips(&self) -> bool {
        Timestamp::of_name(self.name()) == Some(*self)
    }

    /// What is read out of a text is a timestamp that this library works with.
    pub proof fn lemma_of_name_wf(text: Seq<char>)
        ensures
            Timestamp::of_name(text) is Some ==> Timestamp::of_name(text).unwrap().wf(),
    {
    }

    /// Reads a timestamp from its text.
    pub fn parse(text: &str) -> (r: Result<Timestamp, TimestampError>)
        ensures
            match r {
                Ok(t) => t.wf() && Timestamp::of_name(text@) == Some(t) && parsed_timestamp(text@)
                    == Some(t.parts()),
                Err(TimestampError::Malformed(_)) => parsed_timestamp(text@) is None
                    && Timestamp::of_name(text@) is None,
                Err(TimestampError::OutOfRange) => parsed_timestamp(text@) is Some && !valid(
                    parsed_timestamp(text@).unwrap(),
                ) && Timestamp::of_name(text@) is None,
            },
    {
        match chrono_parse(text) {
            Err(e) => Err(TimestampError::Malformed(e)),
            Ok((secs, nanos, offset)) => match Timestamp::new(secs, nanos, offset) {
                Some(t) => Ok(t),
                None => Err(TimestampError::OutOfRange),
            },
        }
    }

    /// Writes the timestamp as RFC 3339 text. Reading the text gives the
    /// timestamp back.
    pub fn to_rfc3339(&self) -> (out: String)
        requires
            self.wf(),
        ensures
            out@ == self.name(),
            self.round_trips(),
    {
        match chrono_rfc3339(self.secs, self.nanos, self.offset) {
            Some(text) => text,
            None => String::new(),
        }
    }

    pub fn secs(&self) -> (r: i64)
        ensures
            r == self.parts().0,
    {
        self.secs
    }

    pub fn nanos(&self) -> (r: u32)
        ensures
            r == self.parts().1,
    {
        self.nanos
    }

    /// The offset east of UTC, in seconds.
    pub fn offset(&self) -> (r: i32)
        ensures
            r == self.parts().2,
    {
        self.offset
    }

    /// The seconds from the epoch to the second that the timestamp names
    /// under its offset.
    pub fn local_secs(&self) -> (r: i64)
        requires
            self.wf(),
        ensures
            r == self.parts().0 + self.parts().2,
            MIN_LOCAL_SECS <= r <= MAX_LOCAL_SECS,
    {
        self.secs + (self.offset as i64)
    }

    /// Whether this instant is earlier than that of `other`.
    pub fn is_earlier(&self, other: &Timestamp) -> (r: bool)
        ensures
            r == self.earlier(other),
    {
        self.secs < other.secs || (self.secs == other.secs && self.nanos < other.nanos)
    }

    /// Whether both stand for one instant, whatever their offsets.
    pub fn same_instant(&self, other: &Timestamp) -> (r: bool)
        ensures
            r == (self.instant() == other.instant()),
    {
        self.secs == other.secs && self.nanos == other.nanos
    }
}

impl PartialEq for Timestamp {
    fn eq(&self, other: &Timestamp) -> (r: bool) {
        self.secs == other.secs && self.nanos == other.nanos
    }
}

impl Eq for Timestamp {

}

impl PartialEqSpecImpl for Timestamp {
    open spec fn obeys_eq_spec() -> bool {
        true
    }

    open spec fn eq_spec(&self, other: &Timestamp) -> bool {
        self.instant() == other.instant()
    }
}

/// Timestamps are ordered by instant alone.
impl Ordered for Timestamp {
    type Key = (int, int);

    open spec fn key(&self) -> (int, int) {
        self.instant()
    }

    open spec fn before(a: (int, int), b: (int, int)) -> bool {
        a.0 < b.0 || (a.0 == b.0 && a.1 < b.1)
    }

    proof fn lemma_irreflexive(a: (int, int)) {
    }

    proof fn lemma_transitive(a: (int, int), b: (int, int), c: (int, int)) {
    }

    proof fn lemma_connected(a: (int, int), b: (int, int)) {
    }

    fn precedes(&self, other: &Timestamp) -> (r: bool) {
        self.is_earlier(other)
    }
}

} // verus!
