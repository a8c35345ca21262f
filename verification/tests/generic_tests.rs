#![allow(unused_imports, unused_variables, unused_mut, dead_code)]

use std::collections::{HashMap, HashSet};
use std::iter::FromIterator;
use std::str::FromStr;

use dayendar::abstracto::{AbstractCalendar, CalendarOperation, CalendarPattern};
use dayendar::binary::{
    add_biday_operation, add_daycalendar, and_biday_operation, and_daycalendar, apply_operator,
    complete_biday, holes_biday_operation, holes_daycalendar, match_biday_operation,
    match_daycalendar, minus_biday_operation, minus_daycalendar, nomatch_biday_operation,
    nomatch_daycalendar, normalize_biday, or_biday_operation, or_daycalendar, replicate_pattern,
    DaysCalendarOperator,
};
use dayendar::calendar::{replicate, resume, DaysCalendar};
use dayendar::convert::{
    biday_to_vec_day, from_date, from_day, group_days_calendar, to_day,
};
use dayendar::date::{add_days, max_date, min_date, Date};
use dayendar::month_spec::{MonthSpec, SpecType};
use dayendar::navigation::to_date;
use dayendar::queries::{
    extract_day_month_calendar, extract_year_month_calendar, extract_years_calendar,
    query_year_consolidate,
};
use dayendar::span::{DateSpan, DateSpec, YearMonthSpec};
use dayendar::types::{BiDay, CalendarError, Day, Month, Year};
use dayendar::utils::{days_in_month, generate_vec_days, is_leap};
use dayendar::year_month::YearMonth;
use dayendar::year_spec::YearSpec;
use time::{Duration, Weekday};

fn ymd(year: i32, month: u8, day: u8) -> Date {
    Date::from_calendar_date(year, Month::from_index(month).unwrap(), day).unwrap()
}

fn time_month(month: Month) -> time::Month {
    time::Month::try_from(month.to_index()).unwrap()
}

fn listed(weekdays: &HashSet<Weekday>) -> Vec<dayendar::date::Weekday> {
    let mut out = Vec::new();
    for day in weekdays {
        out.push(match day {
            Weekday::Monday => dayendar::date::Weekday::Monday,
            Weekday::Tuesday => dayendar::date::Weekday::Tuesday,
            Weekday::Wednesday => dayendar::date::Weekday::Wednesday,
            Weekday::Thursday => dayendar::date::Weekday::Thursday,
            Weekday::Friday => dayendar::date::Weekday::Friday,
            Weekday::Saturday => dayendar::date::Weekday::Saturday,
            Weekday::Sunday => dayendar::date::Weekday::Sunday,
        });
    }
    out
}

fn pair_set(pairs: Vec<(Year, Month)>) -> HashSet<(Year, Month)> {
    let count = pairs.len();
    let set: HashSet<(Year, Month)> = pairs.into_iter().collect();
    assert_eq!(set.len(), count);
    set
}

#[test]
fn month_to_index_test() {
    assert_eq!(Month::January.to_index(), 1);
    assert_eq!(Month::December.to_index(), 12);
}

#[test]
fn month_from_index_test() {
    assert_eq!(Month::from_index(1), Some(Month::January));
    assert_eq!(Month::from_index(12), Some(Month::December));
    assert_eq!(Month::from_index(13), None);
}

#[test]
fn month_from_index_outbound_no_panic_test() {
    assert_eq!(Month::from_index(13), None);
}

#[test]
fn month_next_prev() {
    assert_eq!(Month::January.next(), Some(Month::February));
    assert_eq!(Month::December.next(), None);
    assert_eq!(Month::December.prev(), Some(Month::November));
    assert_eq!(Month::January.prev(), None);
}

#[test]
fn month_forward_backward() {
    assert_eq!(Month::January.forward(2), Some(Month::March));
    assert_eq!(Month::December.forward(1), None);
    assert_eq!(Month::December.backward(2), Some(Month::October));
    assert_eq!(Month::January.backward(1), None);
}

#[test]
fn month_range_to() {
    let expected = vec![Month::February, Month::March, Month::April];
    assert_eq!(Month::February.range_to(&Month::April), expected);
}

#[test]
fn biday_to_u8_test() {
    assert_eq!(BiDay::Zero.to_u8(), 0);
    assert_eq!(BiDay::One.to_u8(), 1);
}

#[test]
fn biday_from_u8_test() {
    assert_eq!(BiDay::from_u8(0), Some(BiDay::Zero));
    assert_eq!(BiDay::from_u8(1), Some(BiDay::One));
    assert_eq!(BiDay::from_u8(2), None);
}

#[test]
fn test_from_index_valid_values() {
    assert_eq!(Month::from_index(1), Some(Month::January));
    assert_eq!(Month::from_index(2), Some(Month::February));
    assert_eq!(Month::from_index(3), Some(Month::March));
    assert_eq!(Month::from_index(4), Some(Month::April));
    assert_eq!(Month::from_index(5), Some(Month::May));
    assert_eq!(Month::from_index(6), Some(Month::June));
    assert_eq!(Month::from_index(7), Some(Month::July));
    assert_eq!(Month::from_index(8), Some(Month::August));
    assert_eq!(Month::from_index(9), Some(Month::September));
    assert_eq!(Month::from_index(10), Some(Month::October));
    assert_eq!(Month::from_index(11), Some(Month::November));
    assert_eq!(Month::from_index(12), Some(Month::December));
}

#[test]
fn test_from_index_invalid_values() {
    assert_eq!(Month::from_index(0), None);
    assert_eq!(Month::from_index(13), None);
    assert_eq!(Month::from_index(100), None);
}

#[test]
fn generic_test_month_to_index() {
    assert_eq!(Month::January.to_index(), 1);
    assert_eq!(Month::February.to_index(), 2);
    // ... similar assertions for all months ...
    assert_eq!(Month::December.to_index(), 12);
}

#[test]
fn test_month_from_index() {
    assert_eq!(Month::from_index(1), Some(Month::January));
    assert_eq!(Month::from_index(2), Some(Month::February));
    // ... similar assertions for all months ...
    assert_eq!(Month::from_index(12), Some(Month::December));
    assert_eq!(Month::from_index(0), None); // less than January
    assert_eq!(Month::from_index(13), None); // more than December
}

#[test]
fn test_biday_to_u8() {
    assert_eq!(BiDay::Zero.to_u8(), 0);
    assert_eq!(BiDay::One.to_u8(), 1);
}

#[test]
fn test_biday_from_u8() {
    assert_eq!(BiDay::from_u8(0), Some(BiDay::Zero));
    assert_eq!(BiDay::from_u8(1), Some(BiDay::One));
    assert_eq!(BiDay::from_u8(2), None); // invalid value
}

#[test]
fn test_year_month_new() {
    // Test with valid year and month
    assert_eq!(YearMonth::new(2023, Month::January), Ok(YearMonth { year: 2023, month: Month::January }));
    assert_eq!(YearMonth::new(2024, Month::December), Ok(YearMonth { year: 2024, month: Month::December }));
}

#[test]
fn test_year_month_new_invalid_month() {
    // Test with invalid month
    let invalid_month = Month::from_index(13);
    assert!(invalid_month.is_none());

    if let Some(month) = invalid_month {
        assert_eq!(YearMonth::new(2023, month), Err("Month should be between 1 and 12".to_string()));
    }
}

#[test]
fn test_year_month_next_month() {
    // Test with January, expecting February of the same year
    let jan = YearMonth { year: 2023, month: Month::January };
    assert_eq!(jan.next_month(), Some(YearMonth { year: 2023, month: Month::February }));

    // Test with December, expecting January of the next year
    let dec = YearMonth { year: 2023, month: Month::December };
    assert_eq!(dec.next_month(), Some(YearMonth { year: 2024, month: Month::January }));
}

#[test]
fn test_year_month_previous_month() {
    // Test with February, expecting January of the same year
    let feb = YearMonth { year: 2023, month: Month::February };
    assert_eq!(feb.previous_month(), Some(YearMonth { year: 2023, month: Month::January }));

    // Test with January, expecting December of the previous year
    let jan = YearMonth { year: 2023, month: Month::January };
    assert_eq!(jan.previous_month(), Some(YearMonth { year: 2022, month: Month::December }));
}

#[test]
fn test_yearmonth_next_prev() {
    assert_eq!(
        YearMonth { year: 2023, month: Month::December }.next(),
        YearMonth { year: 2024, month: Month::January }
    );
    assert_eq!(
        YearMonth { year: 2023, month: Month::January }.prev(),
        YearMonth { year: 2022, month: Month::December }
    );
    assert_eq!(
        YearMonth { year: 2023, month: Month::June }.next(),
        YearMonth { year: 2023, month: Month::July }
    );
    assert_eq!(
        YearMonth { year: 2023, month: Month::June }.prev(),
        YearMonth { year: 2023, month: Month::May }
    );
}

#[test]
fn test_yearmonth_forward_backward() {
    assert_eq!(
        YearMonth { year: 2023, month: Month::June }.forward(6),
        YearMonth { year: 2023, month: Month::December }
    );
    assert_eq!(
        YearMonth { year: 2023, month: Month::June }.forward(7),
        YearMonth { year: 2024, month: Month::January }
    );
    assert_eq!(
        YearMonth { year: 2023, month: Month::June }.backward(5),
        YearMonth { year: 2023, month: Month::January }
    );
    assert_eq!(
        YearMonth { year: 2023, month: Month::June }.backward(6),
        YearMonth { year: 2022, month: Month::December }
    );
}

#[test]
fn test_yearmonth_range_to() {
    let range = YearMonth { year: 2023, month: Month::January }.range_to(&YearMonth { year: 2023, month: Month::March });
    let expected = vec![
        YearMonth { year: 2023, month: Month::January },
        YearMonth { year: 2023, month: Month::February },
        YearMonth { year: 2023, month: Month::March }
    ];
    assert_eq!(range, expected);
}

#[test]
fn test_year_spec_to_year_month() {
    // Test Single variant
    let single = YearSpec::Single(2023);
    let mut expected = HashSet::new();
    for month_num in 1..=12 {
        expected.insert((2023, Month::from_index(month_num).unwrap()));
    }
    assert_eq!(pair_set(single.to_year_month()), expected);

    // Test Range variant
    let range = YearSpec::Range(2022..=2023);
    expected.clear();
    for year in 2022..=2023 {
        for month_num in 1..=12 {
            expected.insert((year, Month::from_index(month_num).unwrap()));
        }
    }
    assert_eq!(pair_set(range.to_year_month()), expected);

    // Test List variant
    let list = YearSpec::List(vec![2022, 2024].into_iter().collect());
    expected.clear();
    for &year in &[2022, 2024] {
        for month_num in 1..=12 {
            expected.insert((year, Month::from_index(month_num).unwrap()));
        }
    }
    assert_eq!(pair_set(list.to_year_month()), expected);
}

#[test]
fn test_month_spec_to_year_month() {
    // Test Single variant
    let single = MonthSpec::Single(Month::January);
    let expected = vec![(2023, Month::January)].into_iter().collect();
    assert_eq!(pair_set(single.to_year_month(2023)), expected);

    // Test Range variant
    let range: MonthSpec = MonthSpec::Range(Month::January..=Month::March);
    let expected: HashSet<(u16, Month)> = vec![
        (2023, Month::January),
        (2023, Month::February),
        (2023, Month::March)
    ].into_iter().collect();
    assert_eq!(pair_set(range.to_year_month(2023)), expected);

    // Test List variant
    let list: MonthSpec = MonthSpec::List(vec![Month::January, Month::March].into_iter().collect());
    let expected: HashSet<(u16, Month)> = vec![
        (2023, Month::January),
        (2023, Month::March)
    ].into_iter().collect();
    assert_eq!(pair_set(list.to_year_month(2023)), expected);
}

#[test]
fn test_date_spec_to_year_month_single() {
    // Test Single variant
    let single_date: Date = ymd(2023, 1, 15);
    let single: DateSpec = DateSpec::Single(single_date);
    let expected: HashSet<(u16, Month)> = vec![(2023, Month::January)].into_iter().collect();
    assert_eq!(pair_set(single.to_year_month()), expected);

}

#[test]
fn test_date_spec_to_year_month_range() {

    // Test Range variant
    let start_date: Date = ymd(2023, 1, 15);
    let end_date: Date = ymd(2023, 3, 15);
    let range: DateSpec = DateSpec::Range(start_date, end_date);
    let expected: HashSet<(u16, Month)> = vec![
        (2023, Month::January),
        (2023, Month::February),
        (2023, Month::March)
    ].into_iter().collect();
    assert_eq!(pair_set(range.to_year_month()), expected);
}

#[test]
fn test_date_spec_to_year_month_list() {

    // Test List variant
    let list_dates = vec![ymd(2023, 1, 15), ymd(2023, 3, 15)];
    let list = DateSpec::List(list_dates.into_iter().collect());
    let expected = vec![
        (2023, Month::January),
        (2023, Month::March)
    ].into_iter().collect();
    assert_eq!(pair_set(list.to_year_month()), expected);
}

#[test]
fn test_datespan_year_to_year_month() {
    // Test Single variant of YearSpec
    let single: YearSpec = YearSpec::Single(2023);
    let date_span: DateSpan = DateSpan::Year(single);
    let mut expected: HashSet<(u16, Month)> = HashSet::new();
    for month_num in 1..=12 {
        expected.insert((2023, Month::from_index(month_num).unwrap()));
    }
    assert_eq!(pair_set(date_span.to_year_month()), expected);
}

#[test]
fn test_datespan_year_month_to_year_month() {
    // Using a combination of YearSpec and MonthSpec
    let year_spec: YearSpec = YearSpec::Single(2023);
    let month_spec: MonthSpec = MonthSpec::List(vec![Month::January, Month::March].into_iter().collect());
    let year_month_spec: YearMonthSpec = YearMonthSpec(vec![(year_spec, month_spec)]);
    let date_span: DateSpan = DateSpan::YearMonth(year_month_spec);

    let expected: HashSet<(u16, Month)> = vec![
        (2023, Month::January),
        (2023, Month::March)
    ].into_iter().collect();

    assert_eq!(pair_set(date_span.to_year_month()), expected);
}

#[test]
fn test_datespan_date_to_year_month() {
    // Test Single variant of DateSpec
    let single_date: Date = ymd(2023, 1, 15);
    let single: DateSpec = DateSpec::Single(single_date);
    let date_span: DateSpan = DateSpan::Date(single);
    let expected: HashSet<(u16, Month)> = vec![(2023, Month::January)].into_iter().collect();
    assert_eq!(pair_set(date_span.to_year_month()), expected);

    // Test Range variant of DateSpec
    let start_date: Date = ymd(2023, 1, 15);
    let end_date: Date = ymd(2023, 3, 15);
    let range: DateSpec = DateSpec::Range(start_date, end_date);
    let date_span: DateSpan = DateSpan::Date(range);
    let expected: HashSet<(u16, Month)> = vec![
        (2023, Month::January),
        (2023, Month::February),
        (2023, Month::March)
    ].into_iter().collect();
    assert_eq!(pair_set(date_span.to_year_month()), expected);

    // Test List variant of DateSpec
    let list_dates: Vec<Date> = vec![ymd(2023, 1, 15), ymd(2023, 3, 15)];
    let list: DateSpec = DateSpec::List(list_dates.into_iter().collect());
    let date_span: DateSpan = DateSpan::Date(list);
    let expected: HashSet<(u16, Month)> = vec![
        (2023, Month::January),
        (2023, Month::March)
    ].into_iter().collect();
    assert_eq!(pair_set(date_span.to_year_month()), expected);
}

#[test]
fn test_month_from_str() {
    assert_eq!(Month::from_str("jan"), Ok(Month::January));
    assert_eq!(Month::from_str("december"), Ok(Month::December));
    assert_eq!(Month::from_str("13"), Err(()));
    assert_eq!(Month::from_str("invalid"), Err(()));
}

#[test]
fn test_yearmonth_new() {
    assert_eq!(YearMonth::new(2023, Month::January), Ok(YearMonth { year: 2023, month: Month::January }));
    assert_eq!(YearMonth::new(2023, Month::from_index(1).unwrap()), Ok(YearMonth { year: 2023, month: Month::January }));
}

#[test]
fn test_yearmonth_from_date() {
    let date = ymd(2023, 1, 15);
    assert_eq!(YearMonth::from_date(date), YearMonth { year: 2023, month: Month::January });
}

#[test]
fn test_yearmonth_next_month() {
    let january = YearMonth { year: 2023, month: Month::January };
    let february = YearMonth { year: 2023, month: Month::February };
    let december = YearMonth { year: 2023, month: Month::December };
    let next_january = YearMonth { year: 2024, month: Month::January };

    assert_eq!(january.next_month(), Some(february));
    assert_eq!(december.next_month(), Some(next_january));
}

#[test]
fn test_yearmonth_previous_month() {
    let january = YearMonth { year: 2023, month: Month::January };
    let previous_december = YearMonth { year: 2022, month: Month::December };
    let february = YearMonth { year: 2023, month: Month::February };
    let january_again = YearMonth { year: 2023, month: Month::January };

    assert_eq!(january.previous_month(), Some(previous_december));
    assert_eq!(february.previous_month(), Some(january_again));
}

#[test]
fn test_yearspec_parse() {
    assert_eq!(YearSpec::parse("2023"), Some(YearSpec::Single(2023)));

    assert_eq!(YearSpec::parse("2023-2025"), Some(YearSpec::Range(2023..=2025)));

    let mut set = HashSet::new();
    set.insert(2023);
    set.insert(2025);
    set.insert(2027);
    assert_eq!(YearSpec::parse("2023,2025,2027"), Some(YearSpec::List(set)));
}

#[test]
fn test_yearspec_is_valid() {
    assert!(YearSpec::is_valid("2023"));
    assert!(YearSpec::is_valid("2023-2025"));
    assert!(YearSpec::is_valid("2023,2025,2027"));
    assert!(!YearSpec::is_valid("invalid_input"));
}

#[test]
fn test_yearspec_to_year_month() {
    let year_spec_single = YearSpec::Single(2023);
    let mut expected_single = HashSet::new();
    for month_num in 1..=12 {
        let month = Month::from_index(month_num).unwrap();
        expected_single.insert((2023, month));
    }
    assert_eq!(pair_set(year_spec_single.to_year_month()), expected_single);

    let year_spec_range = YearSpec::Range(2023..=2024);
    let mut expected_range = HashSet::new();
    for year in 2023..=2024 {
        for month_num in 1..=12 {
            let month = Month::from_index(month_num).unwrap();
            expected_range.insert((year, month));
        }
    }
    assert_eq!(pair_set(year_spec_range.to_year_month()), expected_range);

    let mut set = HashSet::new();
    set.insert(2023);
    set.insert(2025);
    let year_spec_list = YearSpec::List(set);
    let mut expected_list = HashSet::new();
    for &year in &[2023, 2025] {
        for month_num in 1..=12 {
            let month = Month::from_index(month_num).unwrap();
            expected_list.insert((year, month));
        }
    }
    assert_eq!(pair_set(year_spec_list.to_year_month()), expected_list);
}

#[test]
fn test_monthspec_is_valid() {
    assert!(MonthSpec::is_valid("January"));
    assert!(MonthSpec::is_valid("Jan-Feb"));
    assert!(MonthSpec::is_valid("Jan,Feb,Mar"));
    assert!(!MonthSpec::is_valid("invalid_input"));
}

#[test]
fn test_monthspec_parse() {
    assert_eq!(MonthSpec::parse("January"), Ok(MonthSpec::Single(Month::January)));

    assert_eq!(MonthSpec::parse("Jan-Feb"), Ok(MonthSpec::Range(Month::January..=Month::February)));

    let mut set = HashSet::new();
    set.insert(Month::January);
    set.insert(Month::February);
    set.insert(Month::March);
    assert_eq!(MonthSpec::parse("Jan,Feb,Mar"), Ok(MonthSpec::List(set.into_iter().collect())));
}

#[test]
fn test_monthspec_to_year_month() {
    let year = 2023;
    let month_spec_single = MonthSpec::Single(Month::January);
    assert_eq!(pair_set(month_spec_single.to_year_month(year)), vec![(year, Month::January)].into_iter().collect());

    let month_spec_range = MonthSpec::Range(Month::January..=Month::March);
    let mut expected_range = HashSet::new();
    for month in &[Month::January, Month::February, Month::March] {
        expected_range.insert((year, *month));
    }
    assert_eq!(pair_set(month_spec_range.to_year_month(year)), expected_range);

    let mut set = HashSet::new();
    set.insert(Month::January);
    set.insert(Month::March);
    let month_spec_list = MonthSpec::List(set.into_iter().collect());
    let mut expected_list = HashSet::new();
    for &month in &[Month::January, Month::March] {
        expected_list.insert((year, month));
    }
    assert_eq!(pair_set(month_spec_list.to_year_month(year)), expected_list);
}

#[test]
fn test_yearmonthspec_is_valid() {
    assert!(YearMonthSpec::is_valid("2023-January"));
    assert!(!YearMonthSpec::is_valid("invalid_input"));
    assert!(!YearMonthSpec::is_valid("Jan-2023"));
}

#[test]
fn test_yearmonthspec_parse() {
    let year = 2023;
    let month = Month::January;
    let mut set = Vec::new();
    set.push((YearSpec::Single(year), MonthSpec::Single(month)));
    assert_eq!(YearMonthSpec::parse("2023-January"), Ok(YearMonthSpec(set)));
}

#[test]
fn test_yearmonthspec_to_year_month() {
    let year = 2023;
    let month = Month::January;
    let mut set = Vec::new();
    set.push((YearSpec::Single(year), MonthSpec::Single(month)));
    let year_month_spec = YearMonthSpec(set);
    assert_eq!(pair_set(year_month_spec.to_year_month()), vec![(year, month)].into_iter().collect());
}

#[test]
fn test_biday_conversion() {
    assert_eq!(BiDay::from_u8(0), Some(BiDay::Zero));
    assert_eq!(BiDay::from_u8(1), Some(BiDay::One));
    assert_eq!(BiDay::from_u8(2), None); // Invalid value
    assert_eq!(BiDay::Zero.to_u8(), 0);
    assert_eq!(BiDay::One.to_u8(), 1);
}

#[test]
fn test_datespec_to_year_month() {
    let single_date = DateSpec::Single(ymd(2023, 5, 15));
    let range_date = DateSpec::Range(ymd(2022, 5, 15), ymd(2024, 7, 15));
    let mut dates = HashSet::new();
    dates.insert(ymd(2021, 1, 1));
    dates.insert(ymd(2021, 12, 31));
    let list_date = DateSpec::List(dates.into_iter().collect());

    assert_eq!(pair_set(single_date.to_year_month()), vec![(2023, Month::May)].into_iter().collect());
    assert_eq!(pair_set(list_date.to_year_month()), vec![(2021, Month::January), (2021, Month::December)].into_iter().collect());

    let range_output = pair_set(range_date.to_year_month());
    assert!(range_output.contains(&(2022, Month::May)));
    assert!(range_output.contains(&(2024, Month::July)));
}

#[test]
fn test_datespan_to_year_month() {
    let single_year = DateSpan::Year(YearSpec::Single(2023));
    let mut year_month_set = Vec::new();
    year_month_set.push((YearSpec::Single(2023), MonthSpec::Single(Month::May)));
    let year_month = DateSpan::YearMonth(YearMonthSpec(year_month_set));
    let single_date = DateSpan::Date(DateSpec::Single(ymd(2023, 5, 15)));

    assert!(pair_set(single_year.to_year_month()).contains(&(2023, Month::May)));
    assert!(pair_set(year_month.to_year_month()).contains(&(2023, Month::May)));
    assert!(pair_set(single_date.to_year_month()).contains(&(2023, Month::May)));
}

#[test]
fn test_yearspec_is_valid_2() {
    assert!(YearSpec::is_valid("2023"));
    assert!(YearSpec::is_valid("2020-2025"));
    assert!(YearSpec::is_valid("2020,2022,2024"));

    // Casos no válidos
    assert!(!YearSpec::is_valid("20a3"));
    assert!(!YearSpec::is_valid("2020-20a5"));
    assert!(!YearSpec::is_valid("2020,20a2,2024"));
}

#[test]
fn test_yearspec_parse_2() {
    assert_eq!(YearSpec::parse("2023").unwrap(), YearSpec::Single(2023));

    let range = 2020..=2025;
    assert_eq!(YearSpec::parse("2020-2025").unwrap(), YearSpec::Range(range));

    let mut set = HashSet::new();
    set.insert(2020);
    set.insert(2022);
    set.insert(2024);
    assert_eq!(YearSpec::parse("2020,2022,2024").unwrap(), YearSpec::List(set));
}

#[test]
fn test_yearmonth_navigation() {
    let ym = YearMonth::new(2022, Month::December).unwrap();
    assert_eq!(ym.next_month().unwrap(), YearMonth::new(2023, Month::January).unwrap());


    let ym = YearMonth::new(2023, Month::January).unwrap();
    assert_eq!(ym.previous_month().unwrap(), YearMonth::new(2022, Month::December).unwrap());
}

#[test]
fn test_eq_single_single() {
    assert_eq!(YearSpec::Single(2023), YearSpec::Single(2023));
    assert_ne!(YearSpec::Single(2023), YearSpec::Single(2022));
}

#[test]
fn eq_single_range() {
    assert_eq!(YearSpec::Single(2023), YearSpec::Range(2023..=2023));
    assert_ne!(YearSpec::Single(2023), YearSpec::Range(2022..=2023));
    assert_ne!(YearSpec::Single(2023), YearSpec::Range(2023..=2024));
}

#[test]
fn eq_single_list() {
    let mut set: HashSet<u16> = HashSet::new();
    set.insert(2023);
    assert_eq!(YearSpec::Single(2023), YearSpec::List(set.clone()));

    set.insert(2024);
    assert_ne!(YearSpec::Single(2023), YearSpec::List(set));
}

#[test]
fn eq_range_range() {
    assert_eq!(YearSpec::Range(2023..=2023), YearSpec::Range(2023..=2023));
    assert_ne!(YearSpec::Range(2022..=2023), YearSpec::Range(2023..=2024));
}

#[test]
fn eq_range_list() {
    let mut set = HashSet::new();
    set.insert(2023);
    assert_eq!(YearSpec::Range(2023..=2023), YearSpec::List(set.clone()));

    set.insert(2024);
    assert_eq!(YearSpec::Range(2023..=2024), YearSpec::List(set.clone()));

    set.insert(2025);
    assert_ne!(YearSpec::Range(2023..=2024), YearSpec::List(set));
}

#[test]
fn eq_list_list() {
    let mut set1 = HashSet::new();
    set1.insert(2023);

    let mut set2 = HashSet::new();
    set2.insert(2023);

    assert_eq!(YearSpec::List(set1.clone()), YearSpec::List(set2.clone()));

    set2.insert(2024);
    assert_ne!(YearSpec::List(set1.clone()), YearSpec::List(set2.clone()));
}

#[test]
fn test_monthspec_single_single() {
    assert_eq!(MonthSpec::Single(Month::January), MonthSpec::Single(Month::January));
    assert_ne!(MonthSpec::Single(Month::January), MonthSpec::Single(Month::February));
}

#[test]
fn test_monthspec_single_range() {
    assert_eq!(MonthSpec::Single(Month::January), MonthSpec::Range(Month::January..=Month::January));
    assert_ne!(MonthSpec::Single(Month::January), MonthSpec::Range(Month::January..=Month::February));
}

#[test]
fn test_monthspec_single_list() {
    let mut set = HashSet::new();
    set.insert(Month::January);
    assert_eq!(MonthSpec::Single(Month::January), MonthSpec::List(set.clone().into_iter().collect()));

    set.insert(Month::February);
    assert_ne!(MonthSpec::Single(Month::January), MonthSpec::List(set.into_iter().collect()));
}

#[test]
fn test_monthspec_range_range() {
    assert_eq!(MonthSpec::Range(Month::January..=Month::February), MonthSpec::Range(Month::January..=Month::February));
    assert_ne!(MonthSpec::Range(Month::January..=Month::February), MonthSpec::Range(Month::February..=Month::March));
}

#[test]
fn test_monthspec_range_list() {
    let mut set = HashSet::new();
    set.insert(Month::January);
    set.insert(Month::February);
    assert_eq!(MonthSpec::Range(Month::January..=Month::February), MonthSpec::List(set.into_iter().collect()));
}

#[test]
fn test_yearmonthspec_equality() {
    let mut set1 = Vec::new();
    set1.push((YearSpec::Single(2023), MonthSpec::Single(Month::January)));

    let mut set2 = Vec::new();
    set2.push((YearSpec::Single(2023), MonthSpec::Single(Month::January)));

    assert_eq!(YearMonthSpec(set1.clone()), YearMonthSpec(set2.clone()));

    set2.push((YearSpec::Single(2024), MonthSpec::Single(Month::February)));
    assert_ne!(YearMonthSpec(set1.clone()), YearMonthSpec(set2.clone()));
}

#[test]
fn test_yearspec_next_prev() {
    assert_eq!(
        YearSpec::Single(2023).next(),
        YearSpec::Single(2024)
    );
    assert_eq!(
        YearSpec::Single(2023).prev(),
        YearSpec::Single(2022)
    );
    assert_eq!(
        YearSpec::Range(2020..=2023).next(),
        YearSpec::Range(2021..=2024)
    );
    assert_eq!(
        YearSpec::Range(2020..=2023).prev(),
        YearSpec::Range(2019..=2022)
    );
    let mut set = HashSet::new();
    set.insert(2021);
    set.insert(2022);
    let mut expected_set = HashSet::new();
    expected_set.insert(2022);
    expected_set.insert(2023);
    assert_eq!(
        YearSpec::List(set).next(),
        YearSpec::List(expected_set)
    );
}

#[test]
fn test_monthspec_next_prev() {
    assert_eq!(
        MonthSpec::Single(Month::June).next(),
        MonthSpec::Single(Month::July)
    );
    assert_eq!(
        MonthSpec::Single(Month::June).prev(),
        MonthSpec::Single(Month::May)
    );
    assert_eq!(
        MonthSpec::Range(Month::April..=Month::June).next(),
        MonthSpec::Range(Month::May..=Month::July)
    );
    assert_eq!(
        MonthSpec::Range(Month::April..=Month::June).prev(),
        MonthSpec::Range(Month::March..=Month::May)
    );
    let mut set = HashSet::new();
    set.insert(Month::April);
    set.insert(Month::May);
    let mut expected_set = HashSet::new();
    expected_set.insert(Month::May);
    expected_set.insert(Month::June);
    assert_eq!(
        MonthSpec::List(set.into_iter().collect()).next(),
        MonthSpec::List(expected_set.into_iter().collect())
    );
}

#[test]
fn test_yearspec_forward_backward() {
    assert_eq!(
        YearSpec::Single(2023).forward(2),
        YearSpec::Single(2025)
    );
    assert_eq!(
        YearSpec::Single(2023).backward(1),
        YearSpec::Single(2022)
    );
    assert_eq!(
        YearSpec::Range(2020..=2023).forward(1),
        YearSpec::Range(2021..=2024)
    );
    assert_eq!(
        YearSpec::Range(2020..=2023).backward(2),
        YearSpec::Range(2018..=2021)
    );
}

#[test]
fn test_yearspec_range_to() {
    assert_eq!(
        YearSpec::Single(2020).range_to(&YearSpec::Single(2023)),
        YearSpec::Range(2020..=2023)
    );
    assert_eq!(
        YearSpec::Single(2020).range_to(&YearSpec::Range(2021..=2023)),
        YearSpec::Range(2020..=2023)
    );
    let mut end_set = HashSet::new();
    end_set.insert(2021);
    end_set.insert(2022);
    let mut expected_set = HashSet::new();
    for year in 2020..=2022 {
        expected_set.insert(year);
    }
    assert_eq!(
        YearSpec::Single(2020).range_to(&YearSpec::List(end_set)),
        YearSpec::List(expected_set)
    );
}

#[test]
fn test_monthspec_forward_backward() {
    assert_eq!(
        MonthSpec::Single(Month::June).forward(2),
        MonthSpec::Single(Month::August)
    );
    assert_eq!(
        MonthSpec::Single(Month::June).backward(1),
        MonthSpec::Single(Month::May)
    );
    assert_eq!(
        MonthSpec::Range(Month::April..=Month::June).forward(1),
        MonthSpec::Range(Month::May..=Month::July)
    );
    assert_eq!(
        MonthSpec::Range(Month::April..=Month::June).backward(2),
        MonthSpec::Range(Month::February..=Month::April)
    );
}

#[test]
fn test_monthspec_range_to() {
    assert_eq!(
        MonthSpec::Single(Month::January).range_to(&MonthSpec::Single(Month::March)),
        MonthSpec::Range(Month::January..=Month::March)
    );
    assert_eq!(
        MonthSpec::Single(Month::January).range_to(&MonthSpec::Range(Month::February..=Month::April)),
        MonthSpec::Range(Month::January..=Month::April)
    );
    let mut end_set = HashSet::new();
    end_set.insert(Month::February);
    end_set.insert(Month::March);
    let mut expected_set = HashSet::new();
    expected_set.insert(Month::January);
    expected_set.insert(Month::February);
    expected_set.insert(Month::March);
    assert_eq!(
        MonthSpec::Single(Month::January).range_to(&MonthSpec::List(end_set.into_iter().collect())),
        MonthSpec::List(expected_set.into_iter().collect())
    );
}

