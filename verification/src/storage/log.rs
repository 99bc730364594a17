//! What the envelope log records beside an envelope.

use vstd::prelude::*;

use crate::envelope::{Envelope, Letter};

verus! {

/// The first millisecond a datetime holds: the start of year -262143.
pub const MIN_MILLIS: i64 = -8_334_601_228_800_000;

/// The last millisecond a datetime holds: the end of year 262142.
pub const MAX_MILLIS: i64 = 8_210_266_876_799_999;

/// Whether `millis` since the unix epoch is a time a datetime holds.
pub open spec fn datetime_holds(millis: int) -> bool {
    MIN_MILLIS <= millis <= MAX_MILLIS
}

/// Calls `chrono::DateTime::from_timestamp_millis`: it yields a datetime
/// from January 1 of the year -262143 to December 31 of the year 262142,
/// and nothing outside of that.
#[verifier::external_body]
fn reads_as_datetime(millis: i64) -> (reads: bool)
    ensures
        reads == datetime_holds(millis as int),
{
    chrono::DateTime::from_timestamp_millis(millis).is_some()
}

/// A reading of a clock: so many seconds since the unix epoch, and
/// nanoseconds after those.
#[derive(Debug, Clone, Copy, PartialEq, Eq, Structural)]
pub struct Reading {
    pub secs: i64,
    /// The rest, in nanoseconds; less than a second.
    pub nanos: u32,
}

impl Reading {
    /// The reading in nanoseconds since the unix epoch.
    pub open spec fn total(&self) -> int {
        self.secs * 1_000_000_000 + self.nanos
    }

    /// The reading in milliseconds, what is shorter than one dropped.
    pub open spec fn millis(&self) -> int {
        self.total() / 1_000_000
    }

    /// Whether it is a time a datetime holds.
    pub open spec fn wf(&self) -> bool {
        self.nanos < 1_000_000_000 && datetime_holds(self.millis())
    }
}

/// Calls `chrono::Utc::now`: the machine's clock. What it reads is up to the
/// machine; it is a time a datetime holds, and not before the unix epoch. A
/// clock that stands before that is one it does not read: it panics.
#[verifier::external_body]
fn read_clock() -> (now: Reading)
    ensures
        now.wf(),
        now.secs >= 0,
{
    let now = chrono::Utc::now();
    Reading { secs: now.timestamp(), nanos: now.timestamp_subsec_nanos() }
}

/// Calls `chrono::NaiveDateTime::checked_sub_signed` on the datetime of a
/// reading, with the span that `chrono::TimeDelta::from_std` makes. Claimed:
/// it yields the datetime that much earlier, told here in milliseconds with
/// what is shorter dropped, where a datetime holds it, and nothing where none
/// does.
#[verifier::external_body]
fn datetime_before(now: Reading, secs: u64, nanos: u32) -> (millis: Option<i64>)
    requires
        now.wf(),
        nanos < 1_000_000_000,
    ensures
        match millis {
            Some(millis) => millis == (now.total() - (secs * 1_000_000_000 + nanos)) / 1_000_000
                && datetime_holds(millis as int),
            None => !datetime_holds(
                (now.total() - (secs * 1_000_000_000 + nanos)) / 1_000_000,
            ),
        },
{
    let now = chrono::DateTime::from_timestamp(now.secs, now.nanos)?.naive_utc();
    let ago = chrono::TimeDelta::from_std(std::time::Duration::new(secs, nanos)).ok()?;
    now.checked_sub_signed(ago).map(|at| at.and_utc().timestamp_millis())
}

/// How `chrono` writes the datetime `millis` after the unix epoch, in UTC,
/// as a date and a time of day to the millisecond.
pub uninterp spec fn datetime_text(millis: int) -> Seq<char>;

/// Calls `chrono::DateTime::from_timestamp_millis` and formats what it
/// yields with `%Y-%m-%d %H:%M:%S%.3f`.
#[verifier::external_body]
fn format_datetime(millis: i64) -> (text: String)
    requires
        datetime_holds(millis as int),
    ensures
        text@ == datetime_text(millis as int),
{
    let at = chrono::DateTime::from_timestamp_millis(millis).unwrap();
    at.naive_utc().format("%Y-%m-%d %H:%M:%S%.3f").to_string()
}

/// How `chrono` writes the datetime `millis` after the unix epoch, in UTC,
/// as RFC 3339 has it, to the millisecond.
pub uninterp spec fn rfc3339_text(millis: int) -> Seq<char>;

/// Calls `chrono::DateTime::from_timestamp_millis`, and `to_rfc3339_opts`
/// on what it yields, to the millisecond and with a `Z` for the zone.
#[verifier::external_body]
fn format_rfc3339(millis: i64) -> (text: String)
    requires
        datetime_holds(millis as int),
    ensures
        text@ == rfc3339_text(millis as int),
{
    let at = chrono::DateTime::from_timestamp_millis(millis).unwrap();
    at.to_rfc3339_opts(chrono::SecondsFormat::Millis, true)
}

/// A length of time.
#[derive(Debug, Clone, Copy, PartialEq, Eq, PartialOrd, Ord, Structural)]
pub struct Span {
    pub secs: u64,
    /// The rest, in nanoseconds; less than a second.
    pub nanos: u32,
}

impl Span {
    pub open spec fn wf(&self) -> bool {
        self.nanos < 1_000_000_000
    }

    /// The length in nanoseconds.
    pub open spec fn total(&self) -> int {
        self.secs * 1_000_000_000 + self.nanos
    }

    /// The length in milliseconds, what is shorter than one dropped.
    pub open spec fn millis(&self) -> int {
        self.secs * 1000 + self.nanos as int / 1_000_000
    }

    /// A span of `secs` seconds.
    pub fn from_secs(secs: u64) -> (span: Self)
        ensures
            span == (Span { secs, nanos: 0 }),
            span.wf(),
    {
        Span { secs, nanos: 0 }
    }

    /// A span of `millis` milliseconds.
    pub fn from_millis(millis: u64) -> (span: Self)
        ensures
            span.wf(),
            span.millis() == millis,
            span.nanos % 1_000_000 == 0,
    {
        let rest: u32 = (millis % 1000) as u32;
        Span { secs: millis / 1000, nanos: rest * 1_000_000 }
    }
}

/// When a node's log first stored an envelope, read off that node's own
/// clock, in milliseconds since the unix epoch.
///
/// Local bookkeeping and nothing else: it is in no envelope and no digest,
/// and is only ever compared with another reading of the same clock.
#[derive(Debug, Clone, Copy, PartialEq, Eq, PartialOrd, Ord, Structural)]
pub struct StoredAt {
    pub millis: i64,
}

/// The reading `ago` before `now`, down to the millisecond; `None` where no
/// datetime holds it.
pub open spec fn earlier(now: Reading, ago: Span) -> Option<StoredAt> {
    let millis = (now.total() - ago.total()) / 1_000_000;
    if datetime_holds(millis) {
        Some(StoredAt { millis: millis as i64 })
    } else {
        None
    }
}

impl StoredAt {
    /// Whether a datetime holds the reading.
    pub open spec fn wf(&self) -> bool {
        datetime_holds(self.millis as int)
    }

    /// A reading down to the millisecond.
    pub fn at(now: Reading) -> (at: Self)
        requires
            now.wf(),
        ensures
            at.millis == now.millis(),
            at.wf(),
    {
        let part: i64 = (now.nanos / 1_000_000) as i64;
        assert(now.millis() == now.secs * 1000 + part);
        StoredAt { millis: now.secs * 1000 + part }
    }

    /// The reading `ago` before `now`, or `None` when that lands outside the
    /// range a datetime holds.
    pub fn before(now: Reading, ago: Span) -> (at: Option<Self>)
        requires
            now.wf(),
            ago.wf(),
        ensures
            at == earlier(now, ago),
    {
        match datetime_before(now, ago.secs, ago.nanos) {
            Some(millis) => Self::from_timestamp_millis(millis),
            None => None,
        }
    }

    /// The clock as it reads now.
    pub fn now() -> (at: Self)
        ensures
            at.wf(),
            at.millis >= 0,
    {
        Self::at(read_clock())
    }

    /// The reading `ago` before now, or `None` when that lands outside the
    /// range a datetime holds. What the clock reads is up to the machine;
    /// whatever it is, it is not before the unix epoch, and what comes back
    /// is what [`StoredAt::before`] makes of it.
    pub fn ago(ago: Span) -> (at: Option<Self>)
        requires
            ago.wf(),
        ensures
            exists|now: Reading| now.wf() && now.secs >= 0 && at == #[trigger] earlier(now, ago),
            ago.millis() + 1 <= -MIN_MILLIS ==> at is Some,
            ago.millis() > MAX_MILLIS - MIN_MILLIS ==> at is None,
            at matches Some(at) ==> {
                &&& at.wf()
                &&& -(ago.millis() + 1) <= at.millis <= MAX_MILLIS - ago.millis()
            },
    {
        let now = read_clock();
        let at = Self::before(now, ago);
        assert(at == earlier(now, ago));
        assert(ago.millis() == ago.total() / 1_000_000);
        at
    }

    /// The reading as milliseconds since the unix epoch.
    pub fn timestamp_millis(&self) -> (millis: i64)
        ensures
            millis == self.millis,
    {
        self.millis
    }

    /// Reads back what [`StoredAt::timestamp_millis`] wrote, or `None` for
    /// a number no datetime can hold.
    pub fn from_timestamp_millis(millis: i64) -> (at: Option<Self>)
        ensures
            at == if datetime_holds(millis as int) {
                Some(StoredAt { millis })
            } else {
                None
            },
    {
        if reads_as_datetime(millis) {
            Some(StoredAt { millis })
        } else {
            None
        }
    }

    /// The reading as a date and a time of day, with no zone.
    pub fn text(&self) -> (text: String)
        requires
            self.wf(),
        ensures
            text@ == datetime_text(self.millis as int),
    {
        format_datetime(self.millis)
    }

    /// The reading as RFC 3339 has it, in UTC.
    pub fn rfc3339(&self) -> (text: String)
        requires
            self.wf(),
        ensures
            text@ == rfc3339_text(self.millis as int),
    {
        format_rfc3339(self.millis)
    }
}

/// An envelope as the log holds it.
#[derive(Debug, PartialEq, Eq)]
pub struct LogEntry {
    /// The envelope itself, verification status included.
    pub envelope: Envelope,
    /// When this node first stored it.
    pub stored_at: StoredAt,
}

/// What the log records of an envelope.
pub struct Logged {
    pub envelope: Letter,
    pub stored_at: StoredAt,
}

impl View for LogEntry {
    type V = Logged;

    open spec fn view(&self) -> Logged {
        Logged { envelope: self.envelope@, stored_at: self.stored_at }
    }
}

impl LogEntry {
    pub open spec fn wf(&self) -> bool {
        self.envelope.wf() && self.stored_at.wf()
    }
}

impl Clone for LogEntry {
    fn clone(&self) -> (copy: Self)
        ensures
            self.wf() ==> copy.wf() && copy@ == self@,
    {
        LogEntry { envelope: self.envelope.clone(), stored_at: self.stored_at }
    }
}

/// A reading some time before another lies that much before it, down to the
/// millisecond, where a datetime holds it; and the longer ago, the earlier.
pub proof fn longer_ago_is_earlier(now: Reading, ago: Span, more: Span)
    requires
        now.wf(),
        ago.wf(),
        more.wf(),
    ensures
        earlier(now, ago) matches Some(at) ==> at.wf() && at.millis * 1_000_000 <= now.total()
            - ago.total() < (at.millis + 1) * 1_000_000,
        earlier(now, ago) is None ==> now.total() - ago.total() < MIN_MILLIS * 1_000_000 || now.total()
            - ago.total() >= (MAX_MILLIS + 1) * 1_000_000,
        ago.total() <= more.total() && earlier(now, ago) is Some && earlier(now, more) is Some ==> (
        earlier(now, more)->0).millis <= (earlier(now, ago)->0).millis,
{
}

} // verus!
