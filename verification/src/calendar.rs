//! Calendar days in the machine's time zone, and the local midnight of an
//! instant.
//!
//! What the time zone decides is asked of `chrono`; everything else is
//! computed here.

use crate::instant::{Timestamp, SECONDS_PER_DAY};
use vstd::prelude::*;
use vstd::string::*;

verus! {

/// A day of the civil calendar.
#[derive(Clone, Copy, Debug, PartialEq, Eq, Structural)]
pub struct CalendarDay {
    pub year: i32,
    pub month: u32,
    pub day: u32,
}

/// The decimal digit for `n`, for `n` from 0 to 9.
pub open spec fn digit(n: int) -> char {
    ((48 + n) as u8) as char
}

/// `n` in two decimal digits, for `n` from 0 to 99.
pub open spec fn two_digits(n: int) -> Seq<char> {
    seq![digit(n / 10), digit(n % 10)]
}

/// `n` in four decimal digits, for `n` from 0 to 9999.
pub open spec fn four_digits(n: int) -> Seq<char> {
    two_digits(n / 100) + two_digits(n % 100)
}

/// Whether the year has a 29th of February in the Gregorian calendar.
pub open spec fn is_leap_year(year: int) -> bool {
    year % 4 == 0 && (year % 100 != 0 || year % 400 == 0)
}

/// The number of days of the month in the Gregorian calendar, for months from
/// 1 to 12.
pub open spec fn days_in_month(year: int, month: int) -> int {
    if month == 2 {
        if is_leap_year(year) {
            29
        } else {
            28
        }
    } else if month == 4 || month == 6 || month == 9 || month == 11 {
        30
    } else {
        31
    }
}

/// The number of years from year 0 up to but excluding `year` that have a
/// 29th of February, for a year that is not negative.
pub open spec fn leap_years_before(year: int) -> int {
    (year + 3) / 4 - (year + 99) / 100 + (year + 399) / 400
}

/// The number of days of the year that lie ahead of the first of the month.
pub open spec fn days_before_month(year: int, month: int) -> int
    decreases month,
{
    if month <= 1 {
        0
    } else {
        days_before_month(year, month - 1) + days_in_month(year, month - 1)
    }
}

/// The number of days from 1970-01-01 to the date; negative for a date
/// before it.
pub open spec fn date_number(year: int, month: int, day: int) -> int {
    365 * year + leap_years_before(year) + days_before_month(year, month) + day - 1 - 719_528
}

/// Year, month and day name a day of the Gregorian calendar in a year of at
/// most four digits.
pub open spec fn is_date(year: int, month: int, day: int) -> bool {
    &&& 0 <= year <= 9999
    &&& 1 <= month <= 12
    &&& 1 <= day <= days_in_month(year, month)
}

/// The date written as `DD-MM-YYYY`.
pub open spec fn date_label(year: int, month: int, day: int) -> Seq<char> {
    two_digits(day) + seq!['-'] + two_digits(month) + seq!['-'] + four_digits(year)
}

impl CalendarDay {
    /// The day is a day of the Gregorian calendar in a year of at most four
    /// digits, so that it can be written as `DD-MM-YYYY`.
    pub open spec fn wf(self) -> bool {
        is_date(self.year as int, self.month as int, self.day as int)
    }

    /// The day written as `DD-MM-YYYY`.
    pub open spec fn label(self) -> Seq<char> {
        date_label(self.year as int, self.month as int, self.day as int)
    }

    /// The number of days from 1970-01-01 to this day.
    pub open spec fn number(self) -> int {
        date_number(self.year as int, self.month as int, self.day as int)
    }

    /// The day is the day of the instant in some time zone: it is the day
    /// that the instant has in UTC, the day before it or the day after.
    pub open spec fn fits(self, t: Timestamp) -> bool {
        -1 <= self.number() - t.secs as int / 86_400 <= 1
    }

    /// Whether the calendar has this day, in a year of at most four digits.
    pub fn is_valid(&self) -> (r: bool)
        ensures
            r == self.wf(),
    {
        if self.year < 0 || self.year > 9999 || self.month < 1 || self.month > 12 || self.day < 1 {
            return false;
        }
        self.day <= month_length(self.year as u32, self.month)
    }

    /// The number of days from 1970-01-01 to this day, if the calendar has
    /// it in a year of at most four digits.
    pub fn day_number(&self) -> (r: Option<i64>)
        ensures
            r is Some <==> self.wf(),
            r matches Some(n) ==> n == self.number(),
    {
        if !self.is_valid() {
            return None;
        }
        let year: u32 = self.year as u32;
        let mut ahead: u32 = 0;
        let mut month: u32 = 1;
        while month < self.month
            invariant
                1 <= month <= self.month <= 12,
                year <= 9999,
                ahead == days_before_month(year as int, month as int),
                ahead <= 31 * (month - 1),
            decreases self.month - month,
        {
            ahead = ahead + month_length(year, month);
            month = month + 1;
        }
        let leaps: u32 = (year + 3) / 4 - (year + 99) / 100 + (year + 399) / 400;
        let days: i64 = 365 * (year as i64) + (leaps as i64) + (ahead as i64) + (self.day as i64) - 1
            - 719_528;
        Some(days)
    }

    /// Whether this day can be the day of the instant in some time zone.
    pub fn fits_instant(&self, t: &Timestamp) -> (r: bool)
        ensures
            r == (self.wf() && self.fits(*t)),
    {
        match self.day_number() {
            Some(number) => {
                let secs: i128 = t.secs as i128;
                let from: i128 = (number as i128 - 1) * 86_400;
                let until: i128 = (number as i128 + 2) * 86_400;
                proof {
                    // The instant lies in the UTC day of number `whole`.
                    let whole = t.secs as int / 86_400;
                    let rest = t.secs as int % 86_400;
                    assert(t.secs as int == 86_400 * whole + rest);
                    assert(0 <= rest < 86_400);
                }
                from <= secs && secs < until
            },
            None => false,
        }
    }

    /// The day with the given fields, if the calendar has it.
    pub fn new(year: i32, month: u32, day: u32) -> (r: Option<CalendarDay>)
        ensures
            r == (if (CalendarDay { year, month, day }).wf() {
                Some(CalendarDay { year, month, day })
            } else {
                None
            }),
    {
        let candidate = CalendarDay { year, month, day };
        if candidate.is_valid() {
            Some(candidate)
        } else {
            None
        }
    }
}

/// The number of days of the month, for a month from 1 to 12.
fn month_length(year: u32, month: u32) -> (r: u32)
    requires
        1 <= month <= 12,
    ensures
        r == days_in_month(year as int, month as int),
        28 <= r <= 31,
{
    let leap = year % 4 == 0 && (year % 100 != 0 || year % 400 == 0);
    if month == 2 {
        if leap {
            29
        } else {
            28
        }
    } else if month == 4 || month == 6 || month == 9 || month == 11 {
        30
    } else {
        31
    }
}

/// Two days of the calendar that are written alike are the same day.
pub proof fn lemma_label_tells_days_apart(a: CalendarDay, b: CalendarDay)
    requires
        a.wf(),
        b.wf(),
        a.label() == b.label(),
    ensures
        a == b,
{
    let la = a.label();
    let lb = b.label();
    assert(la.len() == 10);
    assert(la[0] == lb[0] && la[1] == lb[1]);
    assert(la[3] == lb[3] && la[4] == lb[4]);
    assert(la[6] == lb[6] && la[7] == lb[7] && la[8] == lb[8] && la[9] == lb[9]);
    assert(la[0] == digit(a.day as int / 10) && la[1] == digit(a.day as int % 10));
    assert(lb[0] == digit(b.day as int / 10) && lb[1] == digit(b.day as int % 10));
    assert(la[3] == digit(a.month as int / 10) && la[4] == digit(a.month as int % 10));
    assert(lb[3] == digit(b.month as int / 10) && lb[4] == digit(b.month as int % 10));
    assert(la[6] == digit(a.year as int / 100 / 10) && la[7] == digit(a.year as int / 100 % 10));
    assert(lb[6] == digit(b.year as int / 100 / 10) && lb[7] == digit(b.year as int / 100 % 10));
    assert(la[8] == digit(a.year as int % 100 / 10) && la[9] == digit(a.year as int % 100 % 10));
    assert(lb[8] == digit(b.year as int % 100 / 10) && lb[9] == digit(b.year as int % 100 % 10));
}

/// Whether two days are the same day of the same month and year.
pub fn is_same_day(a: &CalendarDay, b: &CalendarDay) -> (r: bool)
    ensures
        r == (*a == *b),
{
    a.year == b.year && a.month == b.month && a.day == b.day
}

/// Year, month and day that `chrono::Local` reads off the instant, through
/// `TimeZone::timestamp_opt` and the `Datelike` getters. The answer depends on
/// the machine's time zone, so nothing is claimed of it.
#[verifier::external_body]
fn local_date(secs: i64, nanos: u32) -> (r: Option<(i32, u32, u32)>) {
    chrono::TimeZone::timestamp_opt(&chrono::Local, secs, nanos).single().map(
        |d| (chrono::Datelike::year(&d), chrono::Datelike::month(&d), chrono::Datelike::day(&d)),
    )
}

/// `chrono::Timelike::with_hour` on the instant as `chrono::Local` sees it.
/// Which instant comes back depends on the machine's time zone, so nothing is
/// claimed of it.
#[verifier::external_body]
fn with_hour(secs: i64, nanos: u32, hour: u32) -> (r: Option<(i64, u32)>) {
    let local = chrono::TimeZone::timestamp_opt(&chrono::Local, secs, nanos).single()?;
    chrono::Timelike::with_hour(&local, hour).map(|d| (d.timestamp(), d.timestamp_subsec_nanos()))
}

/// `chrono::Timelike::with_minute` on the instant as `chrono::Local` sees it.
/// Which instant comes back depends on the machine's time zone, so nothing is
/// claimed of it.
#[verifier::external_body]
fn with_minute(secs: i64, nanos: u32, minute: u32) -> (r: Option<(i64, u32)>) {
    let local = chrono::TimeZone::timestamp_opt(&chrono::Local, secs, nanos).single()?;
    chrono::Timelike::with_minute(&local, minute).map(
        |d| (d.timestamp(), d.timestamp_subsec_nanos()),
    )
}

/// `chrono::Timelike::with_second` on the instant as `chrono::Local` sees it.
/// Which instant comes back depends on the machine's time zone, so nothing is
/// claimed of it.
#[verifier::external_body]
fn with_second(secs: i64, nanos: u32, second: u32) -> (r: Option<(i64, u32)>) {
    let local = chrono::TimeZone::timestamp_opt(&chrono::Local, secs, nanos).single()?;
    chrono::Timelike::with_second(&local, second).map(
        |d| (d.timestamp(), d.timestamp_subsec_nanos()),
    )
}

/// `chrono::NaiveDate::from_ymd_opt` and `format("%d-%m-%Y")`, for a day of
/// the Gregorian calendar in a year of at most four digits. The first accepts
/// every such day; the second writes day, month and year, zero-padded to two,
/// two and four digits, with `-` between them.
#[verifier::external_body]
fn format_day(year: i32, month: u32, day: u32) -> (r: Option<String>)
    requires
        is_date(year as int, month as int, day as int),
    ensures
        r is Some,
        r matches Some(text) ==> text@ == date_label(year as int, month as int, day as int),
{
    chrono::NaiveDate::from_ymd_opt(year, month, day).map(|d| d.format("%d-%m-%Y").to_string())
}

/// What `local_day` makes of year, month and day that the time zone gave for
/// the instant: the day, if the calendar has it in a year of at most four
/// digits and it is the day of the instant in UTC or a neighbour of that day.
/// No time zone is a day or more away from UTC.
pub fn accept_day(t: &Timestamp, fields: Option<(i32, u32, u32)>) -> (r: Option<CalendarDay>)
    ensures
        r == (match fields {
            Some((year, month, day)) => if (CalendarDay { year, month, day }).wf() && (CalendarDay {
                year,
                month,
                day,
            }).fits(*t) {
                Some(CalendarDay { year, month, day })
            } else {
                None
            },
            None => None,
        }),
{
    match fields {
        Some((year, month, day)) => {
            let candidate = CalendarDay { year, month, day };
            if candidate.fits_instant(t) {
                Some(candidate)
            } else {
                None
            }
        },
        None => None,
    }
}

/// The calendar day on which the instant falls in the machine's time zone.
///
/// `None` where the time zone gives no answer or the year has more than four
/// digits. Which day it is, the time zone decides; an answer that is not the
/// day of the instant in UTC or a neighbour of it is not taken for one.
pub fn local_day(t: &Timestamp) -> (r: Option<CalendarDay>)
    ensures
        r matches Some(d) ==> d.wf() && d.fits(*t),
{
    accept_day(t, local_date(t.secs, t.nanos))
}

/// The day written as `DD-MM-YYYY`, if the calendar has it in a year of at
/// most four digits.
pub fn day_label(day: &CalendarDay) -> (r: Option<String>)
    ensures
        r is Some <==> day.wf(),
        r matches Some(text) ==> text@ == day.label(),
{
    if day.is_valid() {
        format_day(day.year, day.month, day.day)
    } else {
        None
    }
}

/// The instant can be the local midnight of the day of `date`: it is not
/// after `date` and less than three days of 86 400 seconds before it. No
/// local day is as long as that.
pub open spec fn can_be_midnight_of(midnight: Timestamp, date: Timestamp) -> bool {
    midnight.at_or_before(date) && date.secs - midnight.secs < 3 * SECONDS_PER_DAY
}

/// What `normalize_date` makes of the instant that the time zone gave for the
/// midnight of the day of `date`: the start of its second, if that can be
/// the midnight. A midnight has no fraction of a second, whatever fraction
/// the time zone's answer carries.
pub fn accept_midnight(date: &Timestamp, candidate: Option<(i64, u32)>) -> (r: Option<Timestamp>)
    ensures
        r == (match candidate {
            Some((secs, nanos)) => if can_be_midnight_of(Timestamp { secs, nanos: 0 }, *date) {
                Some(Timestamp { secs, nanos: 0 })
            } else {
                None
            },
            None => None,
        }),
{
    match candidate {
        Some((secs, _)) => {
            let midnight = Timestamp { secs, nanos: 0 };
            let gap: i128 = date.secs as i128 - secs as i128;
            if !date.is_before(&midnight) && gap < 259_200 {
                Some(midnight)
            } else {
                None
            }
        },
        None => None,
    }
}

/// The local midnight of the day of the instant: hour, minute, second and
/// fraction of a second of its local time are set to zero, its local date is
/// kept.
///
/// `None` where the time zone has no such local time, or has it twice. Which
/// instant the local midnight is, the time zone decides; an answer that lies
/// after `date`, or three days or more before it, is not taken for one.
pub fn normalize_date(date: &Timestamp) -> (r: Option<Timestamp>)
    ensures
        r matches Some(t) ==> t.nanos == 0 && can_be_midnight_of(t, *date),
{
    let at_hour = match with_hour(date.secs, date.nanos, 0) {
        Some(t) => t,
        None => {
            return None;
        },
    };
    let at_minute = match with_minute(at_hour.0, at_hour.1, 0) {
        Some(t) => t,
        None => {
            return None;
        },
    };
    accept_midnight(date, with_second(at_minute.0, at_minute.1, 0))
}

} // verus!
