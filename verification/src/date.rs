//! Concrete dates of the proleptic Gregorian calendar, their weekdays and ISO
//! week numbers, and arithmetic in days.

use vstd::prelude::*;
use crate::types::{CalendarError, Day, Month};
use crate::utils::month_length;

verus! {

/// The days of the week.
#[derive(Debug, Copy, Clone, PartialEq, Eq, Structural, Hash)]
pub enum Weekday {
    Monday,
    Tuesday,
    Wednesday,
    Thursday,
    Friday,
    Saturday,
    Sunday,
}

impl Weekday {
    /// The number of the weekday, from 1 for Monday to 7 for Sunday.
    pub open spec fn number(self) -> int {
        match self {
            Weekday::Monday => 1,
            Weekday::Tuesday => 2,
            Weekday::Wednesday => 3,
            Weekday::Thursday => 4,
            Weekday::Friday => 5,
            Weekday::Saturday => 6,
            Weekday::Sunday => 7,
        }
    }
}

/// Whether a day exists in the calendar: the year within -9999..=9999 and
/// the day within the month.
pub open spec fn date_exists(year: int, month: Month, day: int) -> bool {
    -9999 <= year <= 9999 && 1 <= day <= month_length(year, month)
}

/// The position of a day on the time line: later days have greater
/// positions.
pub open spec fn day_position(year: int, month: Month, day: int) -> int {
    (year * 12 + month.index() - 1) * 32 + day
}

/// The number of the weekday (1 for Monday to 7 for Sunday) on which a
/// calendar day falls.
pub uninterp spec fn weekday_number(year: int, month: int, day: int) -> int;

/// The number of the ISO 8601 week in which a calendar day lies.
pub uninterp spec fn iso_week_number(year: int, month: int, day: int) -> int;

/// The calendar day (year, month, day) that lies `days` days after the
/// given one, or `None` where that is past the last representable day.
pub uninterp spec fn date_plus_days(year: int, month: int, day: int, days: int) -> Option<
    (int, int, int),
>;

/// The calendar day (year, month, day) that lies `days` days before the
/// given one, or `None` where that is before the first representable day.
pub uninterp spec fn date_minus_days(year: int, month: int, day: int, days: int) -> Option<
    (int, int, int),
>;

/// A day that exists in the calendar.
#[derive(Debug, Copy, Clone, PartialEq, Eq, Structural, PartialOrd, Ord, Hash)]
pub struct Date {
    year: i32,
    month: Month,
    day: Day,
}

impl View for Date {
    type V = (int, Month, int);

    closed spec fn view(&self) -> (int, Month, int) {
        (self.year as int, self.month, self.day as int)
    }
}

impl Date {
    /// The position of the date on the time line.
    pub open spec fn position(self) -> int {
        day_position(self@.0, self@.1, self@.2)
    }

    /// Whether the parts of the date name a day that exists. This holds of
    /// every date that a program holds.
    #[verifier::type_invariant]
    pub open spec fn well_formed(self) -> bool {
        date_exists(self@.0, self@.1, self@.2)
    }

    /// Returns the date with the given parts, or `InvalidDate` when no such
    /// day exists.
    pub fn from_calendar_date(year: i32, month: Month, day: Day) -> (r: Result<
        Date,
        CalendarError,
    >)
        ensures
            date_exists(year as int, month, day as int) <==> r is Ok,
            r matches Ok(d) ==> d@ == (year as int, month, day as int) && d.well_formed(),
            r matches Err(e) ==> e == CalendarError::InvalidDate,
    {
        if calendar_date_exists(year, month, day) {
            Ok(Date { year, month, day })
        } else {
            Err(CalendarError::InvalidDate)
        }
    }

    /// Returns the year of the date.
    pub fn year(&self) -> (r: i32)
        ensures
            r == self@.0,
            -9999 <= r <= 9999,
    {
        proof {
            use_type_invariant(self);
        }
        self.year
    }

    /// Returns the month of the date.
    pub fn month(&self) -> (r: Month)
        ensures
            r == self@.1,
    {
        self.month
    }

    /// Returns the day of the month of the date.
    pub fn day(&self) -> (r: Day)
        ensures
            r == self@.2,
            1 <= r <= month_length(self@.0, self@.1),
    {
        proof {
            use_type_invariant(self);
        }
        self.day
    }

    /// Whether this date lies before `other`.
    pub fn is_before(&self, other: &Date) -> (r: bool)
        ensures
            r == (self.position() < other.position()),
    {
        proof {
            use_type_invariant(self);
            use_type_invariant(other);
        }
        if self.year != other.year {
            self.year < other.year
        } else if self.month.to_index() != other.month.to_index() {
            self.month.to_index() < other.month.to_index()
        } else {
            self.day < other.day
        }
    }

    /// Returns the weekday on which the date falls.
    pub fn weekday(&self) -> (r: Weekday)
        ensures
            r.number() == weekday_number(self@.0, self@.1.index(), self@.2),
    {
        weekday_of(self)
    }

    /// Returns the number of the ISO week in which the date lies.
    pub fn iso_week(&self) -> (r: u8)
        ensures
            r == iso_week_number(self@.0, self@.1.index(), self@.2),
    {
        iso_week_of(self)
    }
}

/// Asks `time::Date::from_calendar_date` whether the parts name a date. It
/// accepts a year within -9999..=9999 and a day from 1 up to the length of
/// the month in that year, and nothing else.
#[verifier::external_body]
fn calendar_date_exists(year: i32, month: Month, day: Day) -> (r: bool)
    ensures
        r == date_exists(year as int, month, day as int),
{
    let month = time::Month::try_from(month.to_index()).unwrap();
    time::Date::from_calendar_date(year, month, day).is_ok()
}

/// Calls `time::Date::weekday` on the date. The weekday is a function of
/// the date alone.
#[verifier::external_body]
fn weekday_of(date: &Date) -> (r: Weekday)
    ensures
        r.number() == weekday_number(date@.0, date@.1.index(), date@.2),
{
    let month = time::Month::try_from(date.month.to_index()).unwrap();
    match time::Date::from_calendar_date(date.year, month, date.day).unwrap().weekday() {
        time::Weekday::Monday => Weekday::Monday,
        time::Weekday::Tuesday => Weekday::Tuesday,
        time::Weekday::Wednesday => Weekday::Wednesday,
        time::Weekday::Thursday => Weekday::Thursday,
        time::Weekday::Friday => Weekday::Friday,
        time::Weekday::Saturday => Weekday::Saturday,
        time::Weekday::Sunday => Weekday::Sunday,
    }
}

/// Calls `time::Date::iso_week` on the date. The week number is a function
/// of the date alone.
#[verifier::external_body]
fn iso_week_of(date: &Date) -> (r: u8)
    ensures
        r == iso_week_number(date@.0, date@.1.index(), date@.2),
{
    let month = time::Month::try_from(date.month.to_index()).unwrap();
    time::Date::from_calendar_date(date.year, month, date.day).unwrap().iso_week()
}

/// Calls `time::Date::checked_add` with a duration of `days` whole days.
/// The result is a function of the date and the count alone; `None` means
/// that the sum is past the last date that `time` represents. A date that
/// comes back exists in the calendar.
#[verifier::external_body]
fn checked_add_days(date: &Date, days: u32) -> (r: Option<Date>)
    ensures
        r is None <==> date_plus_days(date@.0, date@.1.index(), date@.2, days as int) is None,
        r matches Some(d) ==> d.well_formed() && date_plus_days(
            date@.0,
            date@.1.index(),
            date@.2,
            days as int,
        ) == Some((d@.0, d@.1.index(), d@.2)),
{
    let month = time::Month::try_from(date.month.to_index()).unwrap();
    let start = time::Date::from_calendar_date(date.year, month, date.day).unwrap();
    match start.checked_add(time::Duration::days(days as i64)) {
        Some(t) => Some(
            Date { year: t.year(), month: Month::from_index(t.month() as u8).unwrap(), day: t.day() },
        ),
        None => None,
    }
}

/// Calls `time::Date::checked_sub` with a duration of `days` whole days.
/// The result is a function of the date and the count alone; `None` means
/// that the difference is before the first date that `time` represents. A
/// date that comes back exists in the calendar.
#[verifier::external_body]
fn checked_sub_days(date: &Date, days: u32) -> (r: Option<Date>)
    ensures
        r is None <==> date_minus_days(date@.0, date@.1.index(), date@.2, days as int) is None,
        r matches Some(d) ==> d.well_formed() && date_minus_days(
            date@.0,
            date@.1.index(),
            date@.2,
            days as int,
        ) == Some((d@.0, d@.1.index(), d@.2)),
{
    let month = time::Month::try_from(date.month.to_index()).unwrap();
    let start = time::Date::from_calendar_date(date.year, month, date.day).unwrap();
    match start.checked_sub(time::Duration::days(days as i64)) {
        Some(t) => Some(
            Date { year: t.year(), month: Month::from_index(t.month() as u8).unwrap(), day: t.day() },
        ),
        None => None,
    }
}

impl Date {
    /// Returns the date `days` days after this one, or `None` where that is
    /// past the last representable date.
    pub fn checked_add_days(&self, days: u32) -> (r: Option<Date>)
        ensures
            r is None <==> date_plus_days(self@.0, self@.1.index(), self@.2, days as int) is None,
            r matches Some(d) ==> date_plus_days(self@.0, self@.1.index(), self@.2, days as int)
                == Some((d@.0, d@.1.index(), d@.2)),
    {
        checked_add_days(self, days)
    }

    /// Returns the date `days` days before this one, or `None` where that
    /// is before the first representable date.
    pub fn checked_sub_days(&self, days: u32) -> (r: Option<Date>)
        ensures
            r is None <==> date_minus_days(self@.0, self@.1.index(), self@.2, days as int) is None,
            r matches Some(d) ==> date_minus_days(self@.0, self@.1.index(), self@.2, days as int)
                == Some((d@.0, d@.1.index(), d@.2)),
    {
        checked_sub_days(self, days)
    }
}

/// The first date that shifted dates fall back to: 1 January of year 1.
pub fn min_date() -> (r: Date)
    ensures
        r@ == (1int, Month::January, 1int),
{
    Date { year: 1, month: Month::January, day: 1 }
}

/// The last date that shifted dates fall back to: 31 December of year 9999.
pub fn max_date() -> (r: Date)
    ensures
        r@ == (9999int, Month::December, 31int),
{
    Date { year: 9999, month: Month::December, day: 31 }
}

/// Returns the date that a shift produced, or `fallback` where the shift
/// left the representable dates.
pub fn shifted_or(shifted: Option<Date>, fallback: Date) -> (r: Date)
    ensures
        r == (match shifted {
            Some(d) => d,
            None => fallback,
        }),
{
    match shifted {
        Some(d) => d,
        None => fallback,
    }
}

/// Where a shift by `n` days takes a date: `n` days later for a positive
/// `n`, earlier for a negative one; 31 December 9999 where that is past the
/// last representable date, 1 January 1 where it is before the first.
pub open spec fn shifted_parts(date: (int, Month, int), n: int) -> (int, int, int) {
    if n >= 0 {
        match date_plus_days(date.0, date.1.index(), date.2, n) {
            Some(parts) => parts,
            None => (9999, 12, 31),
        }
    } else {
        match date_minus_days(date.0, date.1.index(), date.2, -n) {
            Some(parts) => parts,
            None => (1, 1, 1),
        }
    }
}

/// Moves every date by `n` days, forward for a positive `n` and backward
/// for a negative one. A date that would leave the representable dates
/// becomes 31 December 9999 going forward and 1 January 1 going backward.
pub fn add_days(dates: Vec<Date>, n: i32) -> (r: Vec<Date>)
    ensures
        r@.len() == dates@.len(),
        forall|i: int|
            0 <= i < dates@.len() ==> ((#[trigger] r@[i])@.0, r@[i]@.1.index(), r@[i]@.2)
                == shifted_parts(dates@[i]@, n as int),
{
    let mut out: Vec<Date> = Vec::with_capacity(dates.len());
    let count: u32 = if n >= 0 {
        n as u32
    } else {
        (-(n as i64)) as u32
    };
    let mut i: usize = 0;
    while i < dates.len()
        invariant
            i <= dates@.len(),
            out@.len() == i,
            n >= 0 ==> count == n,
            n < 0 ==> count == -n,
            forall|k: int|
                0 <= k < i ==> ((#[trigger] out@[k])@.0, out@[k]@.1.index(), out@[k]@.2)
                    == shifted_parts(dates@[k]@, n as int),
        decreases dates@.len() - i,
    {
        let date = dates[i];
        let moved = if n >= 0 {
            shifted_or(date.checked_add_days(count), max_date())
        } else {
            shifted_or(date.checked_sub_days(count), min_date())
        };
        out.push(moved);
        i += 1;
    }
    out
}

} // verus!
