//! Leap years, month lengths and constant flag vectors.

use vstd::prelude::*;
use crate::types::{BiDay, Month, Year};

verus! {

/// Whether a year of the proleptic Gregorian calendar has a 29th of February.
pub open spec fn leap_year(year: int) -> bool {
    (year % 4 == 0 && year % 100 != 0) || year % 400 == 0
}

/// The number of days of a month in a year of the Gregorian calendar.
pub open spec fn month_length(year: int, month: Month) -> int {
    match month {
        Month::February => if leap_year(year) { 29 } else { 28 },
        Month::April | Month::June | Month::September | Month::November => 30,
        _ => 31,
    }
}

/// The years for which this crate knows the length of a month.
pub open spec fn supported_year(year: int) -> bool {
    1 <= year <= 9999
}

/// The canonical number of flags of a month: its length in a supported
/// year, and nothing in any other year.
pub open spec fn canonical_days(year: int, month: Month) -> int {
    if supported_year(year) {
        month_length(year, month)
    } else {
        0
    }
}

/// A month has between 28 and 31 days.
pub proof fn lemma_month_length_bounds(year: int, month: Month)
    ensures
        28 <= month_length(year, month) <= 31,
{
}

/// Determines whether a year is a leap year.
pub fn is_leap(year: Year) -> (r: bool)
    ensures
        r == leap_year(year as int),
{
    (year % 4 == 0 && year % 100 != 0) || year % 400 == 0
}

/// Returns the number of days of a month, or `None` for a year outside
/// 1..=9999.
pub fn days_in_month(year: Year, month: Month) -> (r: Option<u8>)
    ensures
        supported_year(year as int) ==> r == Some(month_length(year as int, month) as u8),
        !supported_year(year as int) ==> r is None,
        r matches Some(n) ==> n == canonical_days(year as int, month) && 28 <= n <= 31,
{
    if year < 1 || year > 9999 {
        return None;
    }
    let n_days: u8 = match month {
        Month::February => if is_leap(year) { 29 } else { 28 },
        Month::April | Month::June | Month::September | Month::November => 30,
        _ => 31,
    };
    Some(n_days)
}

/// Returns a vector of `size` flags, all equal to `value`.
pub fn generate_vec_days(size: usize, value: BiDay) -> (r: Vec<BiDay>)
    ensures
        r@ == Seq::new(size as nat, |i: int| value),
{
    let mut vec: Vec<BiDay> = Vec::with_capacity(size);
    let mut i: usize = 0;
    while i < size
        invariant
            i <= size,
            vec@ == Seq::new(i as nat, |j: int| value),
        decreases size - i,
    {
        vec.push(value);
        i += 1;
        assert(vec@ =~= Seq::new(i as nat, |j: int| value));
    }
    vec
}

} // verus!
