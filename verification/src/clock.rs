//! Instants, their written form, and the time between them.

use chrono::format::ParseErrorKind;
use chrono::Datelike;
use chrono::TimeZone;
use vstd::prelude::*;
use crate::calendar::{
    date_at, days_before_month, first_day, last_day, period_dates, report_dates_for_period, Date,
};
use crate::error::{TimeFault, TrackerError};
use crate::number::padded;
use crate::text::opt_text;

verus! {

/// An instant: whole seconds since the start of 1970 in UTC, and nanoseconds on
/// top. During a leap second the nanoseconds run past one second.
#[derive(Debug, Clone, Copy, PartialEq, Eq, Structural)]
pub struct Timestamp {
    pub secs: i64,
    pub nanos: u32,
}

/// The instants from one, to another that is no longer among them.
#[derive(Debug, Clone, Copy, PartialEq, Eq, Structural)]
pub struct ReportRange {
    pub start: Timestamp,
    pub end: Timestamp,
}

impl Timestamp {
    /// The number of the UTC day that the instant lies in.
    pub open spec fn day_number(self) -> int {
        719163 + self.secs as int / 86400
    }

    /// The UTC day that the instant lies in.
    pub open spec fn date(self) -> Date {
        date_at(self.day_number())
    }

    /// Seconds since the UTC day began.
    pub open spec fn second_of_day(self) -> int {
        self.secs as int % 86400
    }

    /// Whether the instant falls in a leap second.
    pub open spec fn in_leap_second(self) -> bool {
        self.nanos >= 1_000_000_000
    }

    /// Whether the instant lies in the calendar, and in a leap second only where
    /// one can be: after the last second of a minute.
    pub open spec fn valid(self) -> bool {
        &&& first_day().number() <= self.day_number() <= last_day().number()
        &&& self.nanos < 2_000_000_000
        &&& self.in_leap_second() ==> self.secs as int % 60 == 59
    }

    /// Whether the instant is one that a clock shows.
    pub open spec fn from_clock(self) -> bool {
        &&& self.valid()
        &&& self.secs >= 0
        &&& self.nanos < 1_000_000_000
    }

    /// Whether the written form holds all of the instant: a whole second of a
    /// year with four digits.
    pub open spec fn storable(self) -> bool {
        &&& self.valid()
        &&& self.nanos == 0
        &&& 0 <= self.date().year <= 9999
    }

    /// Whether the instant comes before another.
    pub open spec fn before(self, other: Timestamp) -> bool {
        self.secs < other.secs || (self.secs == other.secs && self.nanos < other.nanos)
    }
}

// ---------------------------------------------------------------------------
// Written form
// ---------------------------------------------------------------------------

/// A year as it is written: four digits, or a sign and at least four digits.
pub open spec fn year_text(year: int) -> Seq<char> {
    if 0 <= year <= 9999 {
        padded(year as nat, 4)
    } else if year < 0 {
        seq!['-'] + padded((-year) as nat, 4)
    } else {
        seq!['+'] + padded(year as nat, 4)
    }
}

/// A number of two digits.
pub open spec fn two_digits(n: int) -> Seq<char> {
    padded(n as nat, 2)
}

/// The second of the minute, which a leap second takes to 60.
pub open spec fn written_second(t: Timestamp) -> int {
    t.second_of_day() % 60 + (if t.in_leap_second() {
        1int
    } else {
        0
    })
}

/// An instant in writing, to the second: `2026-01-31T09:30:00Z`.
pub open spec fn utc_text(t: Timestamp) -> Seq<char> {
    year_text(t.date().year as int) + seq!['-'] + two_digits(t.date().month as int) + seq!['-']
        + two_digits(t.date().day as int) + seq!['T'] + two_digits(t.second_of_day() / 3600)
        + seq![':'] + two_digits(t.second_of_day() / 60 % 60) + seq![':'] + two_digits(
        written_second(t),
    ) + seq!['Z']
}

/// An instant in writing without separators: `20260131T093000Z`.
pub open spec fn compact_utc_text(t: Timestamp) -> Seq<char> {
    year_text(t.date().year as int) + two_digits(t.date().month as int) + two_digits(
        t.date().day as int,
    ) + seq!['T'] + two_digits(t.second_of_day() / 3600) + two_digits(t.second_of_day() / 60 % 60)
        + two_digits(written_second(t)) + seq!['Z']
}

/// `chrono::DateTime::to_rfc3339_opts` to the second with `Z` for the offset: the
/// instant's UTC date and time of day.
#[verifier::external_body]
fn to_rfc3339(value: Timestamp) -> (result: String)
    requires
        value.valid(),
    ensures
        result@ == utc_text(value),
{
    chrono::DateTime::from_timestamp(value.secs, value.nanos)
        .unwrap()
        .to_rfc3339_opts(chrono::SecondsFormat::Secs, true)
}

/// An instant in writing, to the second.
pub fn format_utc(value: Timestamp) -> (result: String)
    requires
        value.valid(),
    ensures
        result@ == utc_text(value),
{
    to_rfc3339(value)
}

/// `chrono::DateTime::format` with `%Y%m%dT%H%M%SZ`: the instant's UTC date and
/// time of day without separators.
#[verifier::external_body]
pub(crate) fn compact_utc(value: Timestamp) -> (result: String)
    requires
        value.valid(),
    ensures
        result@ == compact_utc_text(value),
{
    chrono::DateTime::from_timestamp(value.secs, value.nanos)
        .unwrap()
        .format("%Y%m%dT%H%M%SZ")
        .to_string()
}

/// What `chrono::DateTime::parse_from_rfc3339` makes of a text that is not the
/// written form of a storable instant.
pub uninterp spec fn rfc3339_reading(text: Seq<char>) -> Result<Timestamp, TimeFault>;

/// Whether a text is the written form of a storable instant.
pub open spec fn is_written(text: Seq<char>) -> bool {
    exists|t: Timestamp| #[trigger] t.storable() && utc_text(t) == text
}

/// The instant that a text stands for.
pub open spec fn reading(text: Seq<char>) -> Result<Timestamp, TimeFault> {
    if is_written(text) {
        Ok(choose|t: Timestamp| #[trigger] t.storable() && utc_text(t) == text)
    } else {
        rfc3339_reading(text)
    }
}

/// `chrono::DateTime::parse_from_rfc3339`, taken to UTC: the instant that an
/// RFC 3339 text stands for. The written form of a storable instant gives that
/// instant back; of other texts the reading is only named.
#[verifier::external_body]
fn parse_from_rfc3339(text: &str) -> (result: Result<Timestamp, TimeFault>)
    ensures
        forall|t: Timestamp| #[trigger]
            t.storable() && utc_text(t) == text@ ==> result is Ok && result->Ok_0 == t,
        !is_written(text@) ==> result == rfc3339_reading(text@),
        result matches Ok(t) ==> t.valid(),
{
    match chrono::DateTime::parse_from_rfc3339(text) {
        Ok(t) => Ok(Timestamp { secs: t.timestamp(), nanos: t.timestamp_subsec_nanos() }),
        Err(error) => Err(match error.kind() {
            ParseErrorKind::OutOfRange => TimeFault::OutOfRange,
            ParseErrorKind::Impossible => TimeFault::Impossible,
            ParseErrorKind::NotEnough => TimeFault::NotEnough,
            ParseErrorKind::Invalid => TimeFault::Invalid,
            ParseErrorKind::TooShort => TimeFault::TooShort,
            ParseErrorKind::TooLong => TimeFault::TooLong,
            _ => TimeFault::BadFormat,
        }),
    }
}

/// Reads an instant.
pub fn parse_instant(text: &str) -> (result: Result<Timestamp, TimeFault>)
    ensures
        result == reading(text@),
        result matches Ok(t) ==> t.valid(),
{
    parse_from_rfc3339(text)
}

// ---------------------------------------------------------------------------
// Now
// ---------------------------------------------------------------------------

/// `chrono::Utc::now`: the instant that the machine's clock shows, which is not
/// before 1970 and never in a leap second.
#[verifier::external_body]
fn clock_reading() -> (result: Timestamp)
    ensures
        result.from_clock(),
{
    let now = chrono::Utc::now();
    Timestamp { secs: now.timestamp(), nanos: now.timestamp_subsec_nanos() }
}

/// The present instant.
pub fn utc_now() -> (result: Timestamp)
    ensures
        result.from_clock(),
{
    clock_reading()
}

/// The present instant in writing.
pub fn now_string() -> (result: String)
    ensures
        exists|now: Timestamp| #[trigger] now.from_clock() && result@ == utc_text(now),
{
    let now = utc_now();
    format_utc(now)
}

// ---------------------------------------------------------------------------
// Time between instants
// ---------------------------------------------------------------------------

/// A quotient rounded towards zero.
pub open spec fn truncated(total: int, unit: int) -> int {
    if total >= 0 {
        total / unit
    } else {
        -((-total) / unit)
    }
}

/// The leap second to be counted between two instants: that of one of them,
/// where the other's time of day lies beyond it.
pub open spec fn leap_between(start: Timestamp, end: Timestamp) -> int {
    if start.in_leap_second() && end.second_of_day() > start.second_of_day() {
        1
    } else if end.in_leap_second() && end.second_of_day() < start.second_of_day() {
        -1
    } else {
        0
    }
}

/// The whole seconds from one instant to another, rounded towards zero.
pub open spec fn seconds_from(start: Timestamp, end: Timestamp) -> int {
    truncated(
        (end.secs - start.secs + leap_between(start, end)) * 1_000_000_000 + (end.nanos
            - start.nanos),
        1_000_000_000,
    )
}

/// More seconds than lie between any two instants of the calendar.
pub const LONGEST_SPAN: i64 = 20_000_000_000_000;

/// No two instants of the calendar lie further apart than the longest span.
pub proof fn spans_are_bounded(start: Timestamp, end: Timestamp)
    requires
        start.valid(),
        end.valid(),
    ensures
        -LONGEST_SPAN <= seconds_from(start, end) <= LONGEST_SPAN,
{
    let days = last_day().number() - first_day().number();
    assert(0 <= days <= 200_000_000) by {
        reveal_with_fuel(days_before_month, 13);
    }
    assert(end.secs as int / 86400 - start.secs as int / 86400 <= days);
    assert(start.secs as int / 86400 - end.secs as int / 86400 <= days);
    assert(-18_000_000_000_000 <= end.secs - start.secs <= 18_000_000_000_000);
}

/// `chrono::DateTime` subtraction with `TimeDelta::num_seconds`: the whole
/// seconds from one instant to another.
#[verifier::external_body]
fn num_seconds_between(start: Timestamp, end: Timestamp) -> (result: i64)
    requires
        start.valid(),
        end.valid(),
    ensures
        result == seconds_from(start, end),
{
    let from = chrono::DateTime::from_timestamp(start.secs, start.nanos).unwrap();
    let to = chrono::DateTime::from_timestamp(end.secs, end.nanos).unwrap();
    (to - from).num_seconds()
}

/// `chrono::DateTime` minus `TimeDelta::minutes`: the instant that many minutes
/// earlier.
#[verifier::external_body]
fn minutes_before(now: Timestamp, minutes: i64) -> (result: Timestamp)
    requires
        now.from_clock(),
        0 <= minutes <= 1_000_000,
    ensures
        result.secs == now.secs - 60 * minutes,
        result.nanos == now.nanos,
{
    let now = chrono::DateTime::from_timestamp(now.secs, now.nanos).unwrap();
    let earlier = now - chrono::TimeDelta::minutes(minutes);
    Timestamp { secs: earlier.timestamp(), nanos: earlier.timestamp_subsec_nanos() }
}

/// Whether one instant comes before another.
pub fn is_earlier(a: Timestamp, b: Timestamp) -> (result: bool)
    ensures
        result == a.before(b),
{
    a.secs < b.secs || (a.secs == b.secs && a.nanos < b.nanos)
}

/// Whether an instant lies more than half an hour before another.
pub open spec fn is_stale(checked: Timestamp, now: Timestamp) -> bool {
    checked.secs < now.secs - 1800 || (checked.secs == now.secs - 1800 && checked.nanos < now.nanos)
}

/// Whether an instant lies more than half an hour before the present one.
pub fn older_than_half_an_hour(checked: Timestamp, now: Timestamp) -> (result: bool)
    requires
        now.from_clock(),
    ensures
        result == is_stale(checked, now),
{
    is_earlier(checked, minutes_before(now, 30))
}

/// The later of two instants.
pub open spec fn later(a: Timestamp, b: Timestamp) -> Timestamp {
    if a.before(b) {
        b
    } else {
        a
    }
}

/// The earlier of two instants.
pub open spec fn sooner(a: Timestamp, b: Timestamp) -> Timestamp {
    if b.before(a) {
        b
    } else {
        a
    }
}

/// Zero in place of a negative number.
pub open spec fn at_least_zero(n: int) -> int {
    if n < 0 {
        0
    } else {
        n
    }
}

/// The instants at which an entry began and ended; one that still runs ends now.
pub open spec fn entry_span(
    started_at: Seq<char>,
    ended_at: Option<Seq<char>>,
    now: Timestamp,
) -> Result<(Timestamp, Timestamp), TimeFault> {
    match reading(started_at) {
        Err(fault) => Err(fault),
        Ok(start) => match ended_at {
            Some(text) => match reading(text) {
                Err(fault) => Err(fault),
                Ok(end) => Ok((start, end)),
            },
            None => Ok((start, now)),
        },
    }
}

/// The seconds that an entry lasts.
pub open spec fn entry_seconds(
    started_at: Seq<char>,
    ended_at: Option<Seq<char>>,
    now: Timestamp,
) -> Result<int, TimeFault> {
    match entry_span(started_at, ended_at, now) {
        Err(fault) => Err(fault),
        Ok(span) => Ok(at_least_zero(seconds_from(span.0, span.1))),
    }
}

/// The seconds of an entry that fall in a range.
pub open spec fn entry_seconds_in(
    started_at: Seq<char>,
    ended_at: Option<Seq<char>>,
    range: ReportRange,
    now: Timestamp,
) -> Result<int, TimeFault> {
    match entry_span(started_at, ended_at, now) {
        Err(fault) => Err(fault),
        Ok(span) => Ok(
            at_least_zero(seconds_from(later(span.0, range.start), sooner(span.1, range.end))),
        ),
    }
}

/// An optional text in a contract.
pub open spec fn opt_str(value: Option<&str>) -> Option<Seq<char>> {
    match value {
        Some(text) => Some(text@),
        None => None,
    }
}

/// The instants at which an entry began and ended.
fn span_of(
    started_at: &str,
    ended_at: Option<&str>,
    now: Timestamp,
) -> (result: Result<(Timestamp, Timestamp), TimeFault>)
    requires
        now.valid(),
    ensures
        result == entry_span(started_at@, opt_str(ended_at), now),
        result matches Ok(span) ==> span.0.valid() && span.1.valid(),
{
    let start = match parse_instant(started_at) {
        Ok(start) => start,
        Err(fault) => return Err(fault),
    };
    match ended_at {
        Some(text) => match parse_instant(text) {
            Ok(end) => Ok((start, end)),
            Err(fault) => Err(fault),
        },
        None => Ok((start, now)),
    }
}

/// The seconds that an entry lasts, as of a given instant.
pub fn elapsed_seconds_at(
    started_at: &str,
    ended_at: Option<&str>,
    now: Timestamp,
) -> (result: Result<i64, TrackerError>)
    requires
        now.valid(),
    ensures
        match (result, entry_seconds(started_at@, opt_str(ended_at), now)) {
            (Ok(seconds), Ok(expected)) => seconds == expected,
            (Err(TrackerError::Time(fault)), Err(expected)) => fault == expected,
            _ => false,
        },
        result matches Ok(seconds) ==> 0 <= seconds <= LONGEST_SPAN,
{
    match span_of(started_at, ended_at, now) {
        Ok(span) => {
            proof {
                spans_are_bounded(span.0, span.1);
            }
            let seconds: i64 = num_seconds_between(span.0, span.1);
            Ok(if seconds < 0 { 0 } else { seconds })
        },
        Err(fault) => Err(TrackerError::Time(fault)),
    }
}

/// The seconds of an entry that fall in a range, as of a given instant.
pub fn elapsed_seconds_in_range_at(
    started_at: &str,
    ended_at: Option<&str>,
    range: &ReportRange,
    now: Timestamp,
) -> (result: Result<i64, TrackerError>)
    requires
        now.valid(),
        range.start.valid(),
        range.end.valid(),
    ensures
        match (result, entry_seconds_in(started_at@, opt_str(ended_at), *range, now)) {
            (Ok(seconds), Ok(expected)) => seconds == expected,
            (Err(TrackerError::Time(fault)), Err(expected)) => fault == expected,
            _ => false,
        },
        result matches Ok(seconds) ==> 0 <= seconds <= LONGEST_SPAN,
{
    match span_of(started_at, ended_at, now) {
        Ok(span) => {
            let start = if is_earlier(span.0, range.start) { range.start } else { span.0 };
            let end = if is_earlier(range.end, span.1) { range.end } else { span.1 };
            proof {
                spans_are_bounded(start, end);
            }
            let seconds: i64 = num_seconds_between(start, end);
            Ok(if seconds < 0 { 0 } else { seconds })
        },
        Err(fault) => Err(TrackerError::Time(fault)),
    }
}

/// The seconds that an entry lasts; one that still runs lasts until now.
pub fn elapsed_seconds(
    started_at: &str,
    ended_at: Option<&str>,
) -> (result: Result<i64, TrackerError>)
    ensures
        exists|now: Timestamp| #[trigger]
            now.from_clock() && match (result, entry_seconds(started_at@, opt_str(ended_at), now)) {
                (Ok(seconds), Ok(expected)) => seconds == expected,
                (Err(TrackerError::Time(fault)), Err(expected)) => fault == expected,
                _ => false,
            },
{
    let now = utc_now();
    elapsed_seconds_at(started_at, ended_at, now)
}

/// The seconds of an entry that fall in a range; one that still runs lasts until
/// now.
pub fn elapsed_seconds_in_range(
    started_at: &str,
    ended_at: Option<&str>,
    range: &ReportRange,
) -> (result: Result<i64, TrackerError>)
    requires
        range.start.valid(),
        range.end.valid(),
    ensures
        exists|now: Timestamp| #[trigger]
            now.from_clock() && match (
                result,
                entry_seconds_in(started_at@, opt_str(ended_at), *range, now),
            ) {
                (Ok(seconds), Ok(expected)) => seconds == expected,
                (Err(TrackerError::Time(fault)), Err(expected)) => fault == expected,
                _ => false,
            },
{
    let now = utc_now();
    elapsed_seconds_in_range_at(started_at, ended_at, range, now)
}

// ---------------------------------------------------------------------------
// Local days
// ---------------------------------------------------------------------------

/// When midnight is, in the machine's time zone, on some day.
#[derive(Debug, Clone, Copy, PartialEq, Eq, Structural)]
pub enum LocalMidnight {
    /// There is one midnight.
    Single(Timestamp),
    /// The clock shows midnight twice, in the order in which the zone reports them.
    Ambiguous(Timestamp, Timestamp),
    /// The clock skips midnight.
    Skipped,
}

impl LocalMidnight {
    /// Whether it can be the midnight of a day in some time zone.
    pub open spec fn possible(self, date: Date) -> bool {
        match self {
            LocalMidnight::Single(t) => near_midnight(t, date),
            LocalMidnight::Ambiguous(first, second) => near_midnight(first, date) && near_midnight(
                second,
                date,
            ),
            LocalMidnight::Skipped => true,
        }
    }
}

/// Whether an instant is a whole second less than a day away from a day's
/// midnight in UTC, as every time zone's midnight of that day is.
pub open spec fn near_midnight(t: Timestamp, date: Date) -> bool {
    let utc_midnight = (date.number() - 719163) * 86400;
    t.valid() && t.nanos == 0 && utc_midnight - 86400 < t.secs < utc_midnight + 86400
}

/// Whether a day can be the present one in some time zone, at some present: it is
/// the present day in UTC, or the one before or after.
pub open spec fn can_be_today(date: Date) -> bool {
    exists|now: Timestamp| #[trigger]
        now.from_clock() && now.day_number() - 1 <= date.number() <= now.day_number() + 1
}

/// `chrono::Local::now` and its `date_naive`: the day that the machine's clock
/// shows in its time zone. Every zone's offset is less than a day; which one the
/// machine has is not stated.
#[verifier::external_body]
fn local_today() -> (result: Date)
    ensures
        result.valid(),
        can_be_today(result),
{
    let today = chrono::Local::now().date_naive();
    Date { year: today.year(), month: today.month(), day: today.day() }
}

/// `chrono::Local.from_local_datetime` at midnight of a day: the instants at
/// which the machine's time zone has that midnight. Every zone's offset is less
/// than a day; which one the machine has is not stated.
#[verifier::external_body]
fn local_midnight(date: Date) -> (result: LocalMidnight)
    requires
        date.valid(),
    ensures
        result.possible(date),
{
    let at = |t: chrono::DateTime<chrono::Local>| Timestamp {
        secs: t.timestamp(),
        nanos: t.timestamp_subsec_nanos(),
    };
    let day = chrono::NaiveDate::from_ymd_opt(date.year, date.month, date.day).unwrap();
    match chrono::Local.from_local_datetime(&day.and_hms_opt(0, 0, 0).unwrap()) {
        chrono::LocalResult::Single(t) => LocalMidnight::Single(at(t)),
        chrono::LocalResult::Ambiguous(a, b) => LocalMidnight::Ambiguous(at(a), at(b)),
        chrono::LocalResult::None => LocalMidnight::Skipped,
    }
}

/// When a day starts: at its midnight, at the first one reported where there are
/// two, and now where there is none.
pub open spec fn day_start(midnight: LocalMidnight, now: Timestamp) -> Timestamp {
    match midnight {
        LocalMidnight::Single(t) => t,
        LocalMidnight::Ambiguous(first, second) => first,
        LocalMidnight::Skipped => now,
    }
}

/// When a day starts, given its midnight and the present instant.
pub fn day_start_at(midnight: LocalMidnight, now: Timestamp) -> (result: Timestamp)
    ensures
        result == day_start(midnight, now),
{
    match midnight {
        LocalMidnight::Single(t) => t,
        LocalMidnight::Ambiguous(first, _) => first,
        LocalMidnight::Skipped => now,
    }
}

/// The range from the start of one day to the start of another, given their
/// midnights and the present instant.
pub fn range_between(
    first: LocalMidnight,
    last: LocalMidnight,
    now: Timestamp,
) -> (result: ReportRange)
    ensures
        result.start == day_start(first, now),
        result.end == day_start(last, now),
{
    ReportRange { start: day_start_at(first, now), end: day_start_at(last, now) }
}

/// Whether a day can start at an instant: at a midnight that some time zone has of
/// that day, or now, where the clock skips midnight.
pub open spec fn starts_day(t: Timestamp, date: Date, now: Timestamp) -> bool {
    t.valid() && (t == now || near_midnight(t, date))
}

/// When a day starts in the machine's time zone, given the present instant.
pub fn local_day_start_at(date: Date, now: Timestamp) -> (result: Timestamp)
    requires
        date.valid(),
        now.from_clock(),
    ensures
        result.valid(),
        result == now || near_midnight(result, date),
{
    day_start_at(local_midnight(date), now)
}

/// When a day starts in the machine's time zone.
pub fn local_day_start(date: Date) -> (result: Timestamp)
    requires
        date.valid(),
    ensures
        result.valid(),
        exists|now: Timestamp| #[trigger]
            now.from_clock() && (result == now || near_midnight(result, date)),
{
    let now = utc_now();
    local_day_start_at(date, now)
}

/// Whether a range goes from the start of one day to the start of another.
pub open spec fn covers_days(range: ReportRange, dates: (Date, Date), now: Timestamp) -> bool {
    starts_day(range.start, dates.0, now) && starts_day(range.end, dates.1, now)
}

/// The range that a report period covers in the machine's time zone, given the
/// present day there and the present instant; `None` for a report over everything.
pub fn report_range_at(
    period: Option<&str>,
    today: Date,
    now: Timestamp,
) -> (result: Option<ReportRange>)
    requires
        today.valid(),
        now.from_clock(),
    ensures
        match (result, period_dates(opt_str(period), today)) {
            (Some(range), Some(dates)) => covers_days(range, dates, now),
            (None, None) => true,
            _ => false,
        },
{
    match report_dates_for_period(period, today) {
        Some((start, end)) => Some(
            range_between(local_midnight(start), local_midnight(end), now),
        ),
        None => None,
    }
}

/// The range that a report period covers in the machine's time zone; `None` for
/// a report over everything.
pub fn report_range_for_period(
    period: Option<String>,
) -> (result: Result<Option<ReportRange>, TrackerError>)
    ensures
        result is Ok,
        result matches Ok(Some(range)) ==> range.start.valid() && range.end.valid(),
        exists|today: Date, now: Timestamp|
            #![trigger today.valid(), now.from_clock()]
            today.valid() && can_be_today(today) && now.from_clock() && match (
                result->Ok_0,
                period_dates(opt_text(period), today),
            ) {
                (Some(range), Some(dates)) => covers_days(range, dates, now),
                (None, None) => true,
                _ => false,
            },
{
    let today = local_today();
    let now = utc_now();
    let name = match &period {
        Some(text) => Some(text.as_str()),
        None => None,
    };
    Ok(report_range_at(name, today, now))
}

// ---------------------------------------------------------------------------
// Laws
// ---------------------------------------------------------------------------

/// A check is stale exactly where more than half an hour lies between it and the
/// present, to the nanosecond.
pub proof fn stale_is_more_than_half_an_hour_ago(checked: Timestamp, now: Timestamp)
    requires
        checked.nanos < 1_000_000_000,
        now.nanos < 1_000_000_000,
    ensures
        is_stale(checked, now) <==> (now.secs - checked.secs) * 1_000_000_000 + now.nanos
            - checked.nanos > 1800 * 1_000_000_000,
{
}

/// One instant comes before another where its seconds are fewer, or its nanoseconds
/// in the same second; of two instants the later and the sooner are the two.
pub proof fn instants_are_ordered(a: Timestamp, b: Timestamp)
    requires
        a.nanos < 1_000_000_000,
        b.nanos < 1_000_000_000,
    ensures
        a.before(b) <==> a.secs * 1_000_000_000 + a.nanos < b.secs * 1_000_000_000 + b.nanos,
        later(a, b) == a || later(a, b) == b,
        !later(a, b).before(a) && !later(a, b).before(b),
        sooner(a, b) == a || sooner(a, b) == b,
        !a.before(sooner(a, b)) && !b.before(sooner(a, b)),
{
}

/// A day starts at its only midnight, at the first one reported of two, and now where
/// there is none.
pub proof fn a_day_starts_at_its_midnight(a: Timestamp, b: Timestamp, now: Timestamp)
    ensures
        day_start(LocalMidnight::Single(a), now) == a,
        day_start(LocalMidnight::Ambiguous(a, b), now) == a,
        day_start(LocalMidnight::Skipped, now) == now,
{
}

/// The seconds of an entry come from its start to its end, and to now where it runs;
/// where its start or its end cannot be read, neither can they.
pub proof fn entries_last_from_start_to_end(
    started_at: Seq<char>,
    ended_at: Seq<char>,
    range: ReportRange,
    now: Timestamp,
)
    ensures
        entry_seconds(started_at, None, now) is Ok <==> reading(started_at) is Ok,
        entry_seconds(started_at, Some(ended_at), now) is Ok <==> reading(started_at) is Ok
            && reading(ended_at) is Ok,
        entry_seconds_in(started_at, Some(ended_at), range, now) is Ok <==> reading(
            started_at,
        ) is Ok && reading(ended_at) is Ok,
        reading(started_at) matches Err(fault) ==> entry_seconds(started_at, None, now) == Err::<
            int,
            TimeFault,
        >(fault),
        (reading(started_at) is Ok && reading(ended_at) is Ok) ==> {
            let start = reading(started_at)->Ok_0;
            let end = reading(ended_at)->Ok_0;
            &&& seconds_from(start, end) >= 0 ==> entry_seconds(started_at, Some(ended_at), now)
                == Ok::<int, TimeFault>(seconds_from(start, end))
            &&& seconds_from(start, end) < 0 ==> entry_seconds(started_at, Some(ended_at), now)
                == Ok::<int, TimeFault>(0)
        },
        reading(started_at) is Ok ==> entry_seconds(started_at, None, now) == Ok::<int, TimeFault>(
            if seconds_from(reading(started_at)->Ok_0, now) < 0 {
                0
            } else {
                seconds_from(reading(started_at)->Ok_0, now)
            },
        ),
{
}

} // verus!
