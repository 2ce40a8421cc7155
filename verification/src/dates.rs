//! Plain calendar values, and the two clock/calendar questions the
//! library leaves to chrono: what day it is, and what day it will be.

use vstd::prelude::*;

use chrono::Datelike;

verus! {

/// A calendar date as plain fields.
#[derive(Debug, Clone, Copy, PartialEq, Eq)]
pub struct Date {
    pub year: i32,
    pub month: u8,
    pub day: u8,
}

/// A UTC timestamp as plain fields.
#[derive(Debug, Clone, Copy, PartialEq, Eq)]
pub struct UtcDateTime {
    pub date: Date,
    pub hour: u8,
    pub minute: u8,
    pub second: u8,
}

/// The ranges every calendar date of this library lies in; the year range
/// is the one chrono's `NaiveDate` documents.
pub open spec fn date_in_range(d: Date) -> bool {
    &&& 1 <= d.month <= 12
    &&& 1 <= d.day <= 31
    &&& -262144 <= d.year <= 262142
}

/// The date reached from a given date after a number of days. Stating the
/// calendar rules here would restate chrono; the name stands for its
/// answer, a pure function of its arguments.
pub uninterp spec fn date_after_days(year: int, month: int, day: int, days: int) -> (int, int, int);

/// Relies on `std::time::SystemTime` and chrono's `DateTime` and
/// `Datelike`: the current UTC calendar date and its day of the week,
/// numbered from Monday as 0. A clock before the Unix epoch, or past
/// chrono's last representable second, clamps to the epoch instead of
/// panicking. The result depends on the clock, so only its ranges are
/// stated.
#[verifier::external_body]
pub fn current_utc_date() -> (r: (Date, u8))
    ensures
        date_in_range(r.0),
        r.1 < 7,
{
    let seconds: i64 = match std::time::SystemTime::now().duration_since(std::time::UNIX_EPOCH) {
        Ok(elapsed) => i64::try_from(elapsed.as_secs()).unwrap_or(0),
        Err(_) => 0,
    };
    let now = chrono::DateTime::from_timestamp(seconds, 0)
        .unwrap_or(chrono::DateTime::UNIX_EPOCH)
        .date_naive();
    let d = Date { year: now.year(), month: now.month() as u8, day: now.day() as u8 };
    (d, now.weekday().num_days_from_monday() as u8)
}

/// Relies on chrono's `NaiveDate::checked_add_days`: walk the calendar
/// forward. `None` comes back only when the date is invalid or the result
/// falls outside chrono's representable years.
#[verifier::external_body]
pub fn date_plus_days(d: &Date, days: u8) -> (r: Option<Date>)
    ensures
        r matches Some(r2) ==> {
            let (y, m, dd) = date_after_days(d.year as int, d.month as int, d.day as int, days as int);
            &&& r2.year == y
            &&& r2.month == m
            &&& r2.day == dd
            &&& date_in_range(r2)
        },
{
    let nd = chrono::NaiveDate::from_ymd_opt(d.year, d.month as u32, d.day as u32)?;
    let r = nd.checked_add_days(chrono::Days::new(days as u64))?;
    Some(Date { year: r.year(), month: r.month() as u8, day: r.day() as u8 })
}

/// Number of days from a given day of the week (0 = Monday .. 6 = Sunday)
/// until the default competition end: the Monday after next for
/// competitions created early in the week, the one after that otherwise.
pub fn days_until_default_end(weekday: u8) -> (days: u8)
    requires
        weekday < 7,
    ensures
        days == spec_days_until_default_end(weekday as int),
{
    match weekday {
        0 => 14,
        1 => 13,
        2 => 12,
        3 => 18,
        4 => 17,
        5 => 16,
        _ => 15,
    }
}

/// The default-end table: Monday through Wednesday belong to the current
/// competition period, Thursday onward to the next one.
pub open spec fn spec_days_until_default_end(weekday: int) -> int {
    if weekday <= 2 {
        14 - weekday
    } else {
        21 - weekday
    }
}

} // verus!
