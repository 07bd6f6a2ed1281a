//! Points in time as the log records them: an instant and the UTC offset in
//! effect where it was written. Reading and writing their text goes through
//! chrono.
use vstd::prelude::*;

use chrono::{DateTime, FixedOffset};
use std::str::FromStr;

verus! {

#[verifier::external_type_specification]
#[verifier::external_body]
pub struct ExParseError(chrono::format::ParseError);

/// Nanoseconds in a second.
pub const NANOS_PER_SEC: u32 = 1_000_000_000;

/// Local time of 0000-01-01T00:00:00, in seconds from the Unix epoch.
pub const MIN_LOCAL_SECS: i64 = -62_167_219_200;

/// Local time of 9999-12-31T23:59:59, in seconds from the Unix epoch.
pub const MAX_LOCAL_SECS: i64 = 253_402_300_799;

/// An instant (`secs` and `nanos` since the Unix epoch, UTC) together with the
/// offset from UTC, in seconds east, that the local clock had when it was taken.
#[derive(Clone, Copy, Debug, PartialEq, Eq, Structural)]
pub struct Timestamp {
    pub secs: i64,
    pub nanos: u32,
    pub offset: i32,
}

/// What chrono reads from an RFC 3339 text: seconds, nanoseconds and offset,
/// or nothing where it refuses the text.
pub uninterp spec fn rfc3339_reading(s: Seq<char>) -> Option<(int, int, int)>;

/// The RFC 3339 text that chrono writes for an instant at an offset.
pub uninterp spec fn rfc3339_text(secs: int, nanos: int, offset: int) -> Seq<char>;

/// The timestamp that chrono reads from `s`, if it reads one.
pub open spec fn timestamp_of(s: Seq<char>) -> Option<Timestamp> {
    match rfc3339_reading(s) {
        Some((secs, nanos, offset)) => Some(
            Timestamp { secs: secs as i64, nanos: nanos as u32, offset: offset as i32 },
        ),
        None => None,
    }
}

/// `r` is what `Timestamp::parse` owes for the text `s`.
pub open spec fn parse_fits(s: Seq<char>, r: Result<Timestamp, TimestampError>) -> bool {
    match r {
        Ok(t) => timestamp_of(s) == Some(t) && t.valid(),
        Err(TimestampError::Unreadable(_)) => timestamp_of(s) is None,
        Err(TimestampError::Unsupported) => timestamp_of(s) is Some && !timestamp_of(s)->0.valid(),
    }
}

/// Characters that never occur in a written timestamp.
pub open spec fn no_separators(s: Seq<char>) -> bool {
    forall|i: int| 0 <= i < s.len() ==> s[i] != '\t' && s[i] != '\n' && s[i] != '\r'
}

impl Timestamp {
    /// Nanoseconds since the Unix epoch.
    pub open spec fn instant(self) -> int {
        self.secs * 1_000_000_000 + self.nanos
    }

    /// The calendar day of the local clock, counted in days from 1970-01-01.
    pub open spec fn day(self) -> int {
        (self.secs + self.offset) / 86_400
    }

    /// The timestamp can be written as RFC 3339 text and read back: no leap
    /// second, an offset of whole minutes under a day, a local year from 0 to 9999.
    pub open spec fn valid(self) -> bool {
        &&& self.nanos < 1_000_000_000
        &&& self.offset % 60 == 0
        &&& -86_400 < self.offset < 86_400
        &&& MIN_LOCAL_SECS <= self.secs + self.offset <= MAX_LOCAL_SECS
    }

    /// Seconds, nanoseconds and offset, as the RFC 3339 reader gives them.
    pub open spec fn parts(self) -> (int, int, int) {
        (self.secs as int, self.nanos as int, self.offset as int)
    }

    pub open spec fn text(self) -> Seq<char> {
        rfc3339_text(self.secs as int, self.nanos as int, self.offset as int)
    }

    pub fn is_valid(&self) -> (r: bool)
        ensures
            r == self.valid(),
    {
        let local = self.secs as i128 + self.offset as i128;
        self.nanos < NANOS_PER_SEC && self.offset % 60 == 0 && -86_400 < self.offset
            && self.offset < 86_400 && MIN_LOCAL_SECS as i128 <= local && local
            <= MAX_LOCAL_SECS as i128
    }

    /// Nanoseconds since the Unix epoch.
    pub fn instant_nanos(&self) -> (r: i128)
        ensures
            r == self.instant(),
    {
        self.secs as i128 * 1_000_000_000 + self.nanos as i128
    }

    /// The calendar day of the local clock, in days from 1970-01-01.
    pub fn local_day(&self) -> (r: i64)
        ensures
            r == self.day(),
    {
        let local = self.secs as i128 + self.offset as i128;
        let shifted = (local + 86_400 * 0x1_0000_0000_0000) as u128;
        let d = (shifted / 86_400) as i128 - 0x1_0000_0000_0000;
        proof {
            let l = local as int;
            let k = 0x1_0000_0000_0000int;
            assert((l + 86_400 * k) / 86_400 == l / 86_400 + k) by (nonlinear_arith);
        }
        d as i64
    }

    /// Reads an RFC 3339 timestamp; refuses text that chrono refuses and times
    /// that could not be written back the same way.
    pub fn parse(s: &str) -> (r: Result<Timestamp, TimestampError>)
        ensures
            parse_fits(s@, r),
    {
        match read_rfc3339(s) {
            Err(e) => Err(TimestampError::Unreadable(e)),
            Ok(t) => {
                if t.is_valid() {
                    assert(rfc3339_reading(s@) == Some(t.parts()));
                    Ok(t)
                } else {
                    Err(TimestampError::Unsupported)
                }
            },
        }
    }

    /// Writes the timestamp as RFC 3339 text.
    pub fn format(&self) -> (r: String)
        requires
            self.valid(),
        ensures
            r@ == self.text(),
            rfc3339_reading(r@) == Some((self.secs as int, self.nanos as int, self.offset as int)),
            no_separators(r@),
    {
        write_rfc3339(self)
    }
}

/// Why a timestamp could not be read.
#[derive(Debug)]
pub enum TimestampError {
    /// chrono refused the text.
    Unreadable(chrono::format::ParseError),
    /// The text names a leap second, or a time that cannot be written back.
    Unsupported,
}

/// Relies on `FromStr for DateTime<FixedOffset>` (chrono's relaxed RFC 3339
/// reader), and on `timestamp`, `timestamp_subsec_nanos` and `local_minus_utc`
/// to take the value apart.
#[verifier::external_body]
fn read_rfc3339(s: &str) -> (r: Result<Timestamp, chrono::format::ParseError>)
    ensures
        match r {
            Ok(t) => rfc3339_reading(s@) == Some((t.secs as int, t.nanos as int, t.offset as int)),
            Err(_) => rfc3339_reading(s@) is None,
        },
{
    let dt = DateTime::<FixedOffset>::from_str(s)?;
    Ok(Timestamp {
        secs: dt.timestamp(),
        nanos: dt.timestamp_subsec_nanos(),
        offset: dt.offset().local_minus_utc(),
    })
}

/// Relies on chrono's `DateTime::to_rfc3339`: its text is made of digits,
/// `-`, `:`, `.`, `T` and `+`, and chrono's RFC 3339 reader gives back the same
/// instant and offset (the offset is written in whole minutes, the fraction
/// of the second in full). `DateTime::from_timestamp` and
/// `FixedOffset::east_opt` build the value; both succeed on a valid timestamp.
#[verifier::external_body]
fn write_rfc3339(t: &Timestamp) -> (r: String)
    requires
        t.valid(),
    ensures
        r@ == rfc3339_text(t.secs as int, t.nanos as int, t.offset as int),
        rfc3339_reading(r@) == Some((t.secs as int, t.nanos as int, t.offset as int)),
        no_separators(r@),
{
    let offset = FixedOffset::east_opt(t.offset).unwrap();
    DateTime::from_timestamp(t.secs, t.nanos).unwrap().with_timezone(&offset).to_rfc3339()
}

} // verus!
