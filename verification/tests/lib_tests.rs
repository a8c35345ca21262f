#![allow(unused_imports, unused_variables, unused_mut, dead_code)]

use std::collections::{HashMap, HashSet};
use std::iter::FromIterator;
use std::str::FromStr;

use dayendar::abstracto::{AbstractCalendar, CalendarOperation, CalendarPattern};
use dayendar::binary::{
    add_biday_operation, add_daycalendar, and_biday_operation, and_daycalendar, apply_operator,
    complete_biday, holes_biday_operation, holes_daycalendar, match_biday_operation,
    match_daycalendar, minus_biday_operation, minus_daycalendar, nomatch_biday_operation,
    nomatch_daycalendar, normalize_biday, or_biday_operation, or_daycalendar, replicate_pattern,
    DaysCalendarOperator,
};
use dayendar::calendar::{replicate, resume, DaysCalendar};
use dayendar::convert::{
    biday_to_vec_day, from_date, from_day, group_days_calendar, to_day,
};
use dayendar::date::{add_days, max_date, min_date, Date};
use dayendar::month_spec::{MonthSpec, SpecType};
use dayendar::navigation::to_date;
use dayendar::queries::{
    extract_day_month_calendar, extract_year_month_calendar, extract_years_calendar,
    query_year_consolidate,
};
use dayendar::span::{DateSpan, DateSpec, YearMonthSpec};
use dayendar::types::{BiDay, CalendarError, Day, Month, Year};
use dayendar::utils::{days_in_month, generate_vec_days, is_leap};
use dayendar::year_month::YearMonth;
use dayendar::year_spec::YearSpec;
use time::{Duration, Weekday};

fn ymd(year: i32, month: u8, day: u8) -> Date {
    Date::from_calendar_date(year, Month::from_index(month).unwrap(), day).unwrap()
}

fn time_month(month: Month) -> time::Month {
    time::Month::try_from(month.to_index()).unwrap()
}

fn listed(weekdays: &HashSet<Weekday>) -> Vec<dayendar::date::Weekday> {
    let mut out = Vec::new();
    for day in weekdays {
        out.push(match day {
            Weekday::Monday => dayendar::date::Weekday::Monday,
            Weekday::Tuesday => dayendar::date::Weekday::Tuesday,
            Weekday::Wednesday => dayendar::date::Weekday::Wednesday,
            Weekday::Thursday => dayendar::date::Weekday::Thursday,
            Weekday::Friday => dayendar::date::Weekday::Friday,
            Weekday::Saturday => dayendar::date::Weekday::Saturday,
            Weekday::Sunday => dayendar::date::Weekday::Sunday,
        });
    }
    out
}

fn pair_set(pairs: Vec<(Year, Month)>) -> HashSet<(Year, Month)> {
    let count = pairs.len();
    let set: HashSet<(Year, Month)> = pairs.into_iter().collect();
    assert_eq!(set.len(), count);
    set
}

#[test]
fn test_dummy_imports() { /* Dummy */ }

