//! Calendar days and the periods that reports cover.

use chrono::Datelike;
use vstd::prelude::*;
use crate::text::same_text;

verus! {

/// First year of the calendar.
pub const MIN_YEAR: i32 = -262143;

/// Last year of the calendar.
pub const MAX_YEAR: i32 = 262142;

/// A day of the proleptic Gregorian calendar.
#[derive(Debug, Clone, Copy, PartialEq, Eq, Structural)]
pub struct Date {
    pub year: i32,
    pub month: u32,
    pub day: u32,
}

/// Whether a year has a 29th of February.
pub open spec fn is_leap_year(year: int) -> bool {
    year % 4 == 0 && (year % 100 != 0 || year % 400 == 0)
}

/// How many days a month has.
pub open spec fn days_in_month(year: int, month: int) -> int {
    if month == 2 {
        if is_leap_year(year) {
            29
        } else {
            28
        }
    } else if month == 4 || month == 6 || month == 9 || month == 11 {
        30
    } else {
        31
    }
}

/// How many days of the year precede a month.
pub open spec fn days_before_month(year: int, month: int) -> int
    decreases month,
{
    if month <= 1 {
        0
    } else {
        days_before_month(year, month - 1) + days_in_month(year, month - 1)
    }
}

/// How many days precede a year, counted from the start of the year 1.
pub open spec fn days_before_year(year: int) -> int {
    365 * (year - 1) + (year - 1) / 4 - (year - 1) / 100 + (year - 1) / 400
}

impl Date {
    /// Whether the date names a day of the calendar.
    pub open spec fn valid(self) -> bool {
        &&& MIN_YEAR <= self.year <= MAX_YEAR
        &&& 1 <= self.month <= 12
        &&& 1 <= self.day <= days_in_month(self.year as int, self.month as int)
    }

    /// The day's number; the first day of the year 1 has number 1.
    pub open spec fn number(self) -> int {
        days_before_year(self.year as int) + days_before_month(self.year as int, self.month as int)
            + self.day
    }

    /// Days since the last Monday: 0 on a Monday, 6 on a Sunday.
    pub open spec fn days_since_monday(self) -> int {
        (self.number() - 1) % 7
    }

    /// The day some days later, or earlier where the count is negative, as far
    /// as the calendar reaches.
    pub open spec fn shifted(self, days: int) -> Option<Date> {
        if first_day().number() <= self.number() + days <= last_day().number() {
            Some(date_at(self.number() + days))
        } else {
            None
        }
    }
}

/// The first day of the calendar.
pub open spec fn first_day() -> Date {
    Date { year: MIN_YEAR, month: 1, day: 1 }
}

/// The last day of the calendar.
pub open spec fn last_day() -> Date {
    Date { year: MAX_YEAR, month: 12, day: 31 }
}

/// The day that has a number.
pub open spec fn date_at(number: int) -> Date {
    choose|date: Date| date.valid() && #[trigger] date.number() == number
}

// ---------------------------------------------------------------------------
// Day numbers
// ---------------------------------------------------------------------------

proof fn lemma_days_before_month(year: int, month: int)
    requires
        1 <= month <= 13,
    ensures
        days_before_month(year, month) == (if month == 1 {
            0int
        } else if month == 2 {
            31
        } else {
            (if is_leap_year(year) {
                1int
            } else {
                0
            }) + (if month == 3 {
                59int
            } else if month == 4 {
                90
            } else if month == 5 {
                120
            } else if month == 6 {
                151
            } else if month == 7 {
                181
            } else if month == 8 {
                212
            } else if month == 9 {
                243
            } else if month == 10 {
                273
            } else if month == 11 {
                304
            } else if month == 12 {
                334
            } else {
                365
            })
        }),
{
    reveal_with_fuel(days_before_month, 13);
}

proof fn lemma_days_before_year_step(year: int)
    ensures
        days_before_year(year + 1) == days_before_year(year) + 365 + (if is_leap_year(year) {
            1int
        } else {
            0
        }),
{
    let y = year - 1;
    assert((y + 1) / 4 - y / 4 == if year % 4 == 0 { 1int } else { 0int });
    assert((y + 1) / 100 - y / 100 == if year % 100 == 0 { 1int } else { 0int });
    assert((y + 1) / 400 - y / 400 == if year % 400 == 0 { 1int } else { 0int });
    assert(year % 400 == 0 ==> year % 100 == 0);
    assert(year % 100 == 0 ==> year % 4 == 0);
}

proof fn lemma_days_before_year_grows(a: int, b: int)
    requires
        a <= b,
    ensures
        days_before_year(b) - days_before_year(a) >= 365 * (b - a),
    decreases b - a,
{
    if a < b {
        lemma_days_before_year_grows(a, b - 1);
        lemma_days_before_year_step(b - 1);
    }
}

/// Whether one date is earlier than another, by year, month and day.
pub open spec fn earlier(a: Date, b: Date) -> bool {
    a.year < b.year || (a.year == b.year && (a.month < b.month || (a.month == b.month && a.day
        < b.day)))
}

/// Day numbers grow with the dates: an earlier day has a smaller number.
pub proof fn day_numbers_follow_dates(a: Date, b: Date)
    requires
        a.valid(),
        b.valid(),
    ensures
        earlier(a, b) <==> a.number() < b.number(),
        a.number() == b.number() ==> a == b,
{
    if earlier(a, b) {
        lemma_earlier_is_smaller(a, b);
    }
    if earlier(b, a) {
        lemma_earlier_is_smaller(b, a);
    }
}

proof fn lemma_earlier_is_smaller(a: Date, b: Date)
    requires
        a.valid(),
        b.valid(),
        earlier(a, b),
    ensures
        a.number() < b.number(),
{
    let ya = a.year as int;
    let yb = b.year as int;
    lemma_days_before_month(ya, a.month as int);
    lemma_days_before_month(ya, a.month + 1);
    lemma_days_before_month(ya, 13);
    lemma_days_before_month(yb, b.month as int);
    if ya < yb {
        lemma_days_before_year_grows(ya + 1, yb);
        lemma_days_before_year_step(ya);
    }
}

/// The day after.
spec fn next_day(date: Date) -> Date {
    if date.day < days_in_month(date.year as int, date.month as int) {
        Date { year: date.year, month: date.month, day: (date.day + 1) as u32 }
    } else if date.month < 12 {
        Date { year: date.year, month: (date.month + 1) as u32, day: 1 }
    } else {
        Date { year: (date.year + 1) as i32, month: 1, day: 1 }
    }
}

proof fn lemma_next_day(date: Date)
    requires
        date.valid(),
        date.number() < last_day().number(),
    ensures
        next_day(date).valid(),
        next_day(date).number() == date.number() + 1,
{
    let y = date.year as int;
    let m = date.month as int;
    if date.day < days_in_month(y, m) {
    } else if m < 12 {
        reveal_with_fuel(days_before_month, 2);
    } else {
        lemma_days_before_month(y, 12);
        lemma_days_before_month(y + 1, 1);
        lemma_days_before_year_step(y);
        if date.year == MAX_YEAR {
            assert(date == last_day());
        }
    }
}

/// Every number between those of the first and the last day belongs to exactly
/// one day.
pub proof fn every_day_has_its_number(number: int)
    requires
        first_day().number() <= number <= last_day().number(),
    ensures
        date_at(number).valid(),
        date_at(number).number() == number,
    decreases number - first_day().number(),
{
    if number == first_day().number() {
        assert(first_day().valid());
        let witness = first_day();
        assert(witness.valid() && witness.number() == number);
    } else {
        every_day_has_its_number(number - 1);
        let before = date_at(number - 1);
        lemma_next_day(before);
        let witness = next_day(before);
        assert(witness.valid() && witness.number() == number);
    }
}

/// A valid date is the day that has its number, and lies within the calendar.
pub proof fn dates_are_their_numbers(date: Date)
    requires
        date.valid(),
    ensures
        date_at(date.number()) == date,
        first_day().number() <= date.number() <= last_day().number(),
{
    assert(first_day().valid() && last_day().valid());
    day_numbers_follow_dates(first_day(), date);
    day_numbers_follow_dates(date, last_day());
    let other = date_at(date.number());
    assert(date.valid() && date.number() == date.number());
    day_numbers_follow_dates(other, date);
}

// ---------------------------------------------------------------------------
// The outside calendar
// ---------------------------------------------------------------------------

/// `chrono::NaiveDate::checked_add_days`: the day that many days later, or
/// nothing where that is past the last day of the calendar.
#[verifier::external_body]
fn checked_add_days(date: Date, days: u64) -> (result: Option<Date>)
    requires
        date.valid(),
    ensures
        result == date.shifted(days as int),
{
    chrono::NaiveDate::from_ymd_opt(date.year, date.month, date.day)
        .unwrap()
        .checked_add_days(chrono::Days::new(days))
        .map(|d| Date { year: d.year(), month: d.month(), day: d.day() })
}

/// `chrono::NaiveDate::checked_sub_days`: the day that many days earlier, or
/// nothing where that is before the first day of the calendar.
#[verifier::external_body]
fn checked_sub_days(date: Date, days: u64) -> (result: Option<Date>)
    requires
        date.valid(),
    ensures
        result == date.shifted(-(days as int)),
{
    chrono::NaiveDate::from_ymd_opt(date.year, date.month, date.day)
        .unwrap()
        .checked_sub_days(chrono::Days::new(days))
        .map(|d| Date { year: d.year(), month: d.month(), day: d.day() })
}

/// `chrono::NaiveDate::weekday` with `Weekday::num_days_from_monday`: the days
/// that have passed since the last Monday.
#[verifier::external_body]
fn num_days_from_monday(date: Date) -> (result: u32)
    requires
        date.valid(),
    ensures
        result == date.days_since_monday(),
{
    chrono::NaiveDate::from_ymd_opt(date.year, date.month, date.day)
        .unwrap()
        .weekday()
        .num_days_from_monday()
}

/// `chrono::NaiveDate::from_ymd_opt`: the date with that year, month and day,
/// where the calendar has it.
#[verifier::external_body]
fn from_ymd_opt(year: i32, month: u32, day: u32) -> (result: Option<Date>)
    ensures
        result == (if (Date { year, month, day }).valid() {
            Some(Date { year, month, day })
        } else {
            None
        }),
{
    chrono::NaiveDate::from_ymd_opt(year, month, day)
        .map(|d| Date { year: d.year(), month: d.month(), day: d.day() })
}

// ---------------------------------------------------------------------------
// Periods
// ---------------------------------------------------------------------------

/// The Monday of the week that a day lies in; the day itself where the calendar
/// does not reach back to that Monday.
pub open spec fn week_start(date: Date) -> Date {
    match date.shifted(-date.days_since_monday()) {
        Some(monday) => monday,
        None => date,
    }
}

/// A day shifted, or the day itself where the calendar ends before.
pub open spec fn shifted_or_same(date: Date, days: int) -> Date {
    match date.shifted(days) {
        Some(other) => other,
        None => date,
    }
}

/// The first day of a date's month.
pub open spec fn month_start(date: Date) -> Date {
    Date { year: date.year, month: date.month, day: 1 }
}

/// The first day of the month after a date's month.
pub open spec fn next_month_start(date: Date) -> Date {
    if date.month == 12 {
        Date { year: (date.year + 1) as i32, month: 1, day: 1 }
    } else {
        Date { year: date.year, month: (date.month + 1) as u32, day: 1 }
    }
}

/// The days that a named report period covers: the first, and the one after the
/// last. Any other name, and none, is no period.
pub open spec fn period_dates(period: Option<Seq<char>>, today: Date) -> Option<(Date, Date)> {
    if period == Some("today"@) {
        Some((today, shifted_or_same(today, 1)))
    } else if period == Some("this_week"@) {
        Some((week_start(today), shifted_or_same(week_start(today), 7)))
    } else if period == Some("last_week"@) {
        Some((shifted_or_same(week_start(today), -7), week_start(today)))
    } else if period == Some("this_month"@) {
        if next_month_start(today).valid() {
            Some((month_start(today), next_month_start(today)))
        } else {
            None
        }
    } else {
        None
    }
}

/// The Monday of the week that a day lies in.
pub fn iso_week_start(date: Date) -> (result: Date)
    requires
        date.valid(),
    ensures
        result == week_start(date),
        result.valid(),
{
    let since: u32 = num_days_from_monday(date);
    proof {
        lemma_shifted_is_valid(date, -date.days_since_monday());
    }
    match checked_sub_days(date, since as u64) {
        Some(monday) => monday,
        None => date,
    }
}

proof fn lemma_shifted_is_valid(date: Date, days: int)
    ensures
        date.shifted(days) matches Some(other) ==> other.valid() && other.number() == date.number()
            + days,
{
    if first_day().number() <= date.number() + days <= last_day().number() {
        every_day_has_its_number(date.number() + days);
    }
}

/// The days that a named report period covers: the first, and the one after the
/// last.
pub fn report_dates_for_period(period: Option<&str>, today: Date) -> (result: Option<(Date, Date)>)
    requires
        today.valid(),
    ensures
        result == period_dates(
            match period {
                Some(name) => Some(name@),
                None => None,
            },
            today,
        ),
        result matches Some(dates) ==> dates.0.valid() && dates.1.valid(),
{
    let period = match period {
        Some(period) => period,
        None => return None,
    };
    proof {
        reveal_strlit("today");
        reveal_strlit("this_week");
        reveal_strlit("last_week");
        reveal_strlit("this_month");
        lemma_shifted_is_valid(today, 1);
        lemma_shifted_is_valid(week_start(today), 7);
        lemma_shifted_is_valid(week_start(today), -7);
    }
    if same_text(period, "today") {
        let end = match checked_add_days(today, 1) {
            Some(end) => end,
            None => today,
        };
        Some((today, end))
    } else if same_text(period, "this_week") {
        let start = iso_week_start(today);
        let end = match checked_add_days(start, 7) {
            Some(end) => end,
            None => start,
        };
        Some((start, end))
    } else if same_text(period, "last_week") {
        let end = iso_week_start(today);
        let start = match checked_sub_days(end, 7) {
            Some(start) => start,
            None => end,
        };
        Some((start, end))
    } else if same_text(period, "this_month") {
        let start = match from_ymd_opt(today.year, today.month, 1) {
            Some(start) => start,
            None => return None,
        };
        let end = if today.month == 12 {
            from_ymd_opt(today.year + 1, 1, 1)
        } else {
            from_ymd_opt(today.year, today.month + 1, 1)
        };
        match end {
            Some(end) => Some((start, end)),
            None => None,
        }
    } else {
        None
    }
}

/// A week starts on a Monday and holds the day that it was asked for, wherever
/// the calendar reaches back to that Monday.
pub proof fn weeks_start_on_monday(date: Date)
    requires
        date.valid(),
        first_day().number() <= date.number() - date.days_since_monday(),
    ensures
        week_start(date).valid(),
        week_start(date).days_since_monday() == 0,
        week_start(date).number() <= date.number() < week_start(date).number() + 7,
{
    dates_are_their_numbers(date);
    lemma_shifted_is_valid(date, -date.days_since_monday());
    let n = date.number() - 1;
    assert((n - n % 7) % 7 == 0);
}

/// This week is the seven days from a Monday that hold today, and last week is
/// the seven days before them, away from the ends of the calendar.
pub proof fn week_periods_join(today: Date)
    requires
        today.valid(),
        first_day().number() <= today.number() - today.days_since_monday() - 7,
        today.number() - today.days_since_monday() + 7 <= last_day().number(),
    ensures
        period_dates(Some("this_week"@), today) matches Some(this_week) && {
            &&& this_week.0.number() == today.number() - today.days_since_monday()
            &&& this_week.1.number() == this_week.0.number() + 7
            &&& this_week.0.number() <= today.number() < this_week.1.number()
            &&& period_dates(Some("last_week"@), today) matches Some(last_week) && {
                &&& last_week.0.number() == this_week.0.number() - 7
                &&& last_week.1 == this_week.0
            }
        },
{
    reveal_strlit("today");
    reveal_strlit("this_week");
    reveal_strlit("last_week");
    weeks_start_on_monday(today);
    lemma_shifted_is_valid(week_start(today), 7);
    lemma_shifted_is_valid(week_start(today), -7);
    assert("this_week"@.len() != "today"@.len());
    assert("last_week"@.len() != "today"@.len());
    assert("last_week"@[0] != "this_week"@[0]);
}

/// This month runs from the first day of today's month to the first day of the
/// next one, and holds today; it is there in every month but the calendar's last.
pub proof fn month_period_holds_today(today: Date)
    requires
        today.valid(),
        today.year < MAX_YEAR || today.month < 12,
    ensures
        period_dates(Some("this_month"@), today) matches Some(month) && {
            &&& month.0.valid() && month.1.valid()
            &&& month.0.day == 1 && month.1.day == 1
            &&& month.0.year == today.year && month.0.month == today.month
            &&& month.0.number() <= today.number() < month.1.number()
            &&& month.1.number() - month.0.number() == days_in_month(
                today.year as int,
                today.month as int,
            )
        },
{
    reveal_strlit("today");
    reveal_strlit("this_week");
    reveal_strlit("last_week");
    reveal_strlit("this_month");
    assert("this_month"@.len() != "today"@.len());
    assert("this_month"@.len() != "this_week"@.len());
    assert("this_month"@.len() != "last_week"@.len());
    let y = today.year as int;
    let m = today.month as int;
    if m == 12 {
        lemma_days_before_month(y, 12);
        lemma_days_before_month(y + 1, 1);
        lemma_days_before_year_step(y);
    } else {
        reveal_with_fuel(days_before_month, 2);
    }
}

/// Today is one day long, except on the calendar's last day.
pub proof fn today_is_one_day(today: Date)
    requires
        today.valid(),
        today != last_day(),
    ensures
        period_dates(Some("today"@), today) matches Some(day) && day.0 == today && day.1.valid()
            && day.1.number() == today.number() + 1,
{
    dates_are_their_numbers(today);
    day_numbers_follow_dates(today, last_day());
    lemma_shifted_is_valid(today, 1);
}

/// Only four names are those of periods.
pub proof fn there_are_four_periods(name: Seq<char>, today: Date)
    ensures
        period_dates(None, today) is None,
        name != "today"@ && name != "this_week"@ && name != "last_week"@ && name != "this_month"@
            ==> period_dates(Some(name), today) is None,
        period_dates(Some("today"@), today) is Some,
        period_dates(Some("this_week"@), today) is Some,
        period_dates(Some("last_week"@), today) is Some,
{
}

} // verus!
