#![allow(unused_imports, unused_variables, unused_mut, dead_code)]

use std::collections::{HashMap, HashSet};
use std::iter::FromIterator;
use std::str::FromStr;

use dayendar::abstracto::{AbstractCalendar, CalendarOperation, CalendarPattern};
use dayendar::binary::{
    add_biday_operation, add_daycalendar, and_biday_operation, and_daycalendar, apply_operator,
    complete_biday, holes_biday_operation, holes_daycalendar, match_biday_operation,
    match_daycalendar, minus_biday_operation, minus_daycalendar, nomatch_biday_operation,
    nomatch_daycalendar, normalize_biday, or_biday_operation, or_daycalendar, replicate_pattern,
    DaysCalendarOperator,
};
use dayendar::calendar::{replicate, resume, DaysCalendar};
use dayendar::convert::{
    biday_to_vec_day, from_date, from_day, group_days_calendar, to_day,
};
use dayendar::date::{add_days, max_date, min_date, Date};
use dayendar::month_spec::{MonthSpec, SpecType};
use dayendar::navigation::to_date;
use dayendar::queries::{
    extract_day_month_calendar, extract_year_month_calendar, extract_years_calendar,
    query_year_consolidate,
};
use dayendar::span::{DateSpan, DateSpec, YearMonthSpec};
use dayendar::types::{BiDay, CalendarError, Day, Month, Year};
use dayendar::utils::{days_in_month, generate_vec_days, is_leap};
use dayendar::year_month::YearMonth;
use dayendar::year_spec::YearSpec;
use time::{Duration, Weekday};

fn ymd(year: i32, month: u8, day: u8) -> Date {
    Date::from_calendar_date(year, Month::from_index(month).unwrap(), day).unwrap()
}

fn time_month(month: Month) -> time::Month {
    time::Month::try_from(month.to_index()).unwrap()
}

fn listed(weekdays: &HashSet<Weekday>) -> Vec<dayendar::date::Weekday> {
    let mut out = Vec::new();
    for day in weekdays {
        out.push(match day {
            Weekday::Monday => dayendar::date::Weekday::Monday,
            Weekday::Tuesday => dayendar::date::Weekday::Tuesday,
            Weekday::Wednesday => dayendar::date::Weekday::Wednesday,
            Weekday::Thursday => dayendar::date::Weekday::Thursday,
            Weekday::Friday => dayendar::date::Weekday::Friday,
            Weekday::Saturday => dayendar::date::Weekday::Saturday,
            Weekday::Sunday => dayendar::date::Weekday::Sunday,
        });
    }
    out
}

fn pair_set(pairs: Vec<(Year, Month)>) -> HashSet<(Year, Month)> {
    let count = pairs.len();
    let set: HashSet<(Year, Month)> = pairs.into_iter().collect();
    assert_eq!(set.len(), count);
    set
}

#[test]
fn test_is_leap() {
    assert_eq!(is_leap(2000), true);
    assert_eq!(is_leap(1900), false);
    assert_eq!(is_leap(2004), true);
    assert_eq!(is_leap(2005), false);
}

#[test]
fn operations_test_days_in_month() {
    assert_eq!(days_in_month(2000, Month::February), Some(29));
    assert_eq!(days_in_month(1900, Month::February), Some(28));
    assert_eq!(days_in_month(2004, Month::April), Some(30));
    assert_eq!(days_in_month(2005, Month::January), Some(31));
    assert_eq!(days_in_month(10000, Month::January), None);
    assert_eq!(days_in_month(2023, Month::January).unwrap(), 31);
    assert_eq!(days_in_month(2023, Month::February).unwrap(), 28);
    assert_eq!(days_in_month(2020, Month::February).unwrap(), 29);
    assert_eq!(days_in_month(2024, Month::February).unwrap(), 29);
    assert_eq!(days_in_month(2023, Month::April).unwrap(), 30);
    assert_eq!(days_in_month(2023, Month::December).unwrap(), 31);
    assert_eq!(days_in_month(2023, Month::May).unwrap(), 31);
    assert_eq!(days_in_month(2025, Month::August).unwrap(), 31);
    assert_eq!(days_in_month(2025, Month::February).unwrap(), 28);
}

#[test]
fn test_generate_vec_days() {
    assert_eq!(generate_vec_days(3, BiDay::One), vec![BiDay::One, BiDay::One, BiDay::One]);
    assert_eq!(generate_vec_days(0, BiDay::One), vec![]);
}

#[test]
fn test_or_biday_operation() {
    assert_eq!(or_biday_operation(BiDay::Zero, BiDay::Zero), BiDay::Zero);
    assert_eq!(or_biday_operation(BiDay::One, BiDay::Zero), BiDay::One);
    assert_eq!(or_biday_operation(BiDay::Zero, BiDay::One), BiDay::One);
    assert_eq!(or_biday_operation(BiDay::One, BiDay::One), BiDay::One);
}

#[test]
fn test_and_biday_operation() {
    assert_eq!(and_biday_operation(BiDay::Zero, BiDay::Zero), BiDay::Zero);
    assert_eq!(and_biday_operation(BiDay::One, BiDay::Zero), BiDay::Zero);
    assert_eq!(and_biday_operation(BiDay::Zero, BiDay::One), BiDay::Zero);
    assert_eq!(and_biday_operation(BiDay::One, BiDay::One), BiDay::One);
}

#[test]
fn test_minus_biday_operation() {
    assert_eq!(minus_biday_operation(BiDay::One, BiDay::One), BiDay::Zero);
    assert_eq!(minus_biday_operation(BiDay::One, BiDay::Zero), BiDay::One);
    assert_eq!(minus_biday_operation(BiDay::Zero, BiDay::One), BiDay::Zero);
    assert_eq!(minus_biday_operation(BiDay::Zero, BiDay::Zero), BiDay::Zero);
}

#[test]
fn test_add_biday_operation() {
    assert_eq!(add_biday_operation(BiDay::One, BiDay::One), BiDay::One);
    assert_eq!(add_biday_operation(BiDay::One, BiDay::Zero), BiDay::One);
    assert_eq!(add_biday_operation(BiDay::Zero, BiDay::One), BiDay::One);
    assert_eq!(add_biday_operation(BiDay::Zero, BiDay::Zero), BiDay::Zero);
}

#[test]
fn test_match_biday_operation() {
    assert_eq!(match_biday_operation(BiDay::One, BiDay::One), BiDay::One);
    assert_eq!(match_biday_operation(BiDay::Zero, BiDay::Zero), BiDay::One);
    assert_eq!(match_biday_operation(BiDay::One, BiDay::Zero), BiDay::Zero);
    assert_eq!(match_biday_operation(BiDay::Zero, BiDay::One), BiDay::Zero);
}

#[test]
fn test_nomatch_biday_operation() {
    assert_eq!(nomatch_biday_operation(BiDay::One, BiDay::One), BiDay::Zero);
    assert_eq!(nomatch_biday_operation(BiDay::Zero, BiDay::Zero), BiDay::Zero);
    assert_eq!(nomatch_biday_operation(BiDay::One, BiDay::Zero), BiDay::One);
    assert_eq!(nomatch_biday_operation(BiDay::Zero, BiDay::One), BiDay::One);
}

#[test]
fn test_complete_biday() {
    assert_eq!(complete_biday(5, BiDay::Zero, vec![BiDay::One, BiDay::One]), vec![BiDay::One, BiDay::One, BiDay::Zero, BiDay::Zero, BiDay::Zero]);
    assert_eq!(complete_biday(2, BiDay::Zero, vec![BiDay::One, BiDay::One, BiDay::Zero]), vec![BiDay::One, BiDay::One]);
}

#[test]
fn test_normalize_biday_short() {
    let result = normalize_biday(&vec![BiDay::One, BiDay::Zero], 2000, Month::February);
    assert_eq!(result.len(), 29);
    assert_eq!(result[0], BiDay::One);
    assert_eq!(result[1], BiDay::Zero);
    assert_eq!(result[28], BiDay::Zero);
}

#[test]
fn test_replicate_pattern() {
    let pattern = vec![BiDay::One, BiDay::Zero];
    let result = replicate_pattern(&pattern, 5);
    assert_eq!(result, vec![BiDay::One, BiDay::Zero, BiDay::One, BiDay::Zero, BiDay::One]);
}

#[test]
fn test_add_days() {
    let dates = vec![ymd(2022, 1, 1)];
    let result = add_days(dates.clone(), 30);
    assert_eq!(result, vec![ymd(2022, 1, 31)]);

    let result_neg = add_days(dates, -30);
    assert_eq!(result_neg, vec![ymd(2021, 12, 2)]);
}

#[test]
fn operations_test_add_daycalendar() {
    let v1 = vec![BiDay::Zero, BiDay::One, BiDay::Zero, BiDay::One];
    let v2 = vec![BiDay::One, BiDay::One, BiDay::Zero, BiDay::Zero];
    let expected_result = vec![BiDay::One, BiDay::One, BiDay::Zero, BiDay::One];
    assert_eq!(add_daycalendar(&v1, &v2), expected_result);

    let v3 = vec![
        BiDay::Zero,
        BiDay::Zero,
        BiDay::One,
        BiDay::One,
        BiDay::Zero,
        BiDay::Zero,
    ];
    let v4 = vec![
        BiDay::One,
        BiDay::One,
        BiDay::Zero,
        BiDay::Zero,
        BiDay::One,
        BiDay::One,
    ];
    let expected_result_2 = vec![
        BiDay::One,
        BiDay::One,
        BiDay::One,
        BiDay::One,
        BiDay::One,
        BiDay::One,
    ];
    assert_eq!(add_daycalendar(&v3, &v4), expected_result_2);

    let v5 = vec![BiDay::One, BiDay::One, BiDay::Zero, BiDay::Zero];
    let v6 = vec![BiDay::Zero, BiDay::Zero, BiDay::One, BiDay::One];
    let expected_result_3 = vec![BiDay::One, BiDay::One, BiDay::One, BiDay::One];
    assert_eq!(add_daycalendar(&v5, &v6), expected_result_3);

    let v7 = vec![BiDay::Zero, BiDay::One, BiDay::One, BiDay::Zero];
    let v8 = vec![BiDay::One, BiDay::Zero, BiDay::One, BiDay::Zero];
    let expected_result_4 = vec![BiDay::One, BiDay::One, BiDay::One, BiDay::Zero];
    assert_eq!(add_daycalendar(&v7, &v8), expected_result_4);
}

#[test]
fn operations_test_match_daycalendar() {
    let v1 = vec![BiDay::Zero, BiDay::One, BiDay::One, BiDay::Zero];
    let v2 = vec![BiDay::One, BiDay::Zero, BiDay::One, BiDay::Zero];
    let result = match_daycalendar(&v1, &v2);
    assert_eq!(
        result,
        vec![BiDay::Zero, BiDay::Zero, BiDay::One, BiDay::One]
    );

    let v1 = vec![BiDay::One, BiDay::One, BiDay::One, BiDay::One];
    let v2 = vec![BiDay::Zero, BiDay::Zero, BiDay::Zero, BiDay::Zero];
    let result = match_daycalendar(&v1, &v2);
    assert_eq!(
        result,
        vec![BiDay::Zero, BiDay::Zero, BiDay::Zero, BiDay::Zero]
    );

    let v1 = vec![BiDay::One, BiDay::One, BiDay::Zero, BiDay::Zero];
    let v2 = vec![BiDay::Zero, BiDay::One, BiDay::One, BiDay::Zero];
    let result = match_daycalendar(&v1, &v2);
    assert_eq!(
        result,
        vec![BiDay::Zero, BiDay::One, BiDay::Zero, BiDay::One]
    );
}

#[test]
fn operations_test_nomatch_daycalendar() {
    let v1 = vec![BiDay::Zero, BiDay::One, BiDay::Zero, BiDay::One];
    let v2 = vec![BiDay::One, BiDay::Zero, BiDay::Zero, BiDay::One];
    let expected = vec![BiDay::One, BiDay::One, BiDay::Zero, BiDay::Zero];
    assert_eq!(nomatch_daycalendar(&v1, &v2), expected);

    let v1 = vec![BiDay::One, BiDay::One, BiDay::Zero, BiDay::Zero];
    let v2 = vec![BiDay::One, BiDay::One, BiDay::Zero, BiDay::Zero];
    let expected = vec![BiDay::Zero, BiDay::Zero, BiDay::Zero, BiDay::Zero];
    assert_eq!(nomatch_daycalendar(&v1, &v2), expected);

    let v1 = vec![BiDay::One, BiDay::One, BiDay::One, BiDay::One];
    let v2 = vec![BiDay::Zero, BiDay::Zero, BiDay::Zero, BiDay::Zero];
    let expected = vec![BiDay::One, BiDay::One, BiDay::One, BiDay::One];
    assert_eq!(nomatch_daycalendar(&v1, &v2), expected);

    let v1 = vec![BiDay::Zero, BiDay::Zero, BiDay::Zero, BiDay::Zero];
    let v2 = vec![BiDay::Zero, BiDay::Zero, BiDay::Zero, BiDay::Zero];
    let expected = vec![BiDay::Zero, BiDay::Zero, BiDay::Zero, BiDay::Zero];
    assert_eq!(nomatch_daycalendar(&v1, &v2), expected);
}

#[test]
fn operations_test_complete_biday_empty_vector() {
    let v: Vec<BiDay> = Vec::new();
    let v_expected = vec![
        BiDay::Zero,
        BiDay::Zero,
        BiDay::Zero,
        BiDay::Zero,
        BiDay::Zero,
    ];
    assert_eq!(complete_biday(5, BiDay::Zero, v), v_expected);
}

#[test]
fn operations_test_complete_biday_n_greater_than_v() {
    let v = vec![BiDay::One, BiDay::Zero, BiDay::One];
    let v_expected = vec![
        BiDay::One,
        BiDay::Zero,
        BiDay::One,
        BiDay::Zero,
        BiDay::Zero,
        BiDay::Zero,
    ];
    assert_eq!(complete_biday(6, BiDay::Zero, v), v_expected);
}

#[test]
fn operations_test_complete_biday_n_smaller_than_v() {
    let v = vec![
        BiDay::Zero,
        BiDay::One,
        BiDay::Zero,
        BiDay::One,
        BiDay::Zero,
    ];
    let v_expected = vec![BiDay::Zero, BiDay::One, BiDay::Zero];
    assert_eq!(complete_biday(3, BiDay::Zero, v), v_expected);
}

#[test]
fn operations_test_complete_biday_n_equal_to_v() {
    let v = vec![
        BiDay::Zero,
        BiDay::One,
        BiDay::Zero,
        BiDay::One,
        BiDay::Zero,
    ];
    let v_expected = v.clone();
    assert_eq!(complete_biday(5, BiDay::Zero, v), v_expected);
}

