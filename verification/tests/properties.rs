use std::collections::hash_map::DefaultHasher;
use std::collections::HashSet;
use std::hash::{Hash, Hasher};

use dayendar::abstracto::{AbstractCalendar, CalendarOperation, CalendarPattern};
use dayendar::binary::{
    add_biday_operation, and_biday_operation, and_daycalendar, apply_operator, complete_biday,
    holes_biday_operation, holes_daycalendar, match_biday_operation, minus_biday_operation,
    minus_daycalendar, nomatch_biday_operation, normalize_biday, or_biday_operation,
    or_daycalendar, replicate_pattern,
};
use dayendar::calendar::{copy_items, find_month, replicate, resume, DaysCalendar};
use dayendar::convert::{from_date, from_day, group_days_calendar, lists_day, to_day};
use dayendar::date::{add_days, max_date, min_date, shifted_or, Date, Weekday};
use dayendar::keys::{contains_key, insert_key, lower_bound, same_keys};
use dayendar::month_spec::{spec_type_of, MonthSpec, SpecType};
use dayendar::navigation::{to_date, week_listed, weekday_listed, DayFilter};
use dayendar::order::{sort_by_month, sort_days};
use dayendar::queries::{
    extract_day_month_calendar, extract_year_month_calendar, extract_years_calendar,
    query_year_consolidate,
};
use dayendar::ranges::pairs_of_keys;
use dayendar::span::{DateSpan, DateSpec, YearMonthSpec};
use dayendar::text::{
    chars_of, find_char, is_space_char, lower_char, parse_month_chars, parse_year_chars,
    slice_chars, split_chars, trim_chars, word_is,
};
use dayendar::types::{BiDay, CalendarError, Month, Year};
use dayendar::utils::{days_in_month, generate_vec_days, is_leap};
use dayendar::year_month::YearMonth;
use dayendar::year_spec::{sorted_years, year_set, YearSpec};

const O: BiDay = BiDay::One;
const Z: BiDay = BiDay::Zero;

fn hash_of<T: Hash>(value: &T) -> u64 {
    let mut hasher = DefaultHasher::new();
    value.hash(&mut hasher);
    hasher.finish()
}

fn day(year: i32, month: u8, day: u8) -> Date {
    Date::from_calendar_date(year, Month::from_index(month).unwrap(), day).unwrap()
}

fn marking(year: Year, month: Month, days: &[usize], len: usize) -> DaysCalendar<BiDay> {
    let mut flags = vec![Z; len];
    for d in days {
        flags[d - 1] = O;
    }
    DaysCalendar::new(vec![(year, month, flags)])
}

#[test]
fn operator_table_is_exhaustive() {
    let pairs = [(Z, Z), (Z, O), (O, Z), (O, O)];
    let union = [Z, O, O, O];
    let intersection = [Z, Z, Z, O];
    let difference = [Z, Z, O, Z];
    let matching = [O, Z, Z, O];
    let mismatch = [Z, O, O, Z];
    let holes = [O, Z, Z, Z];
    for (i, (a, b)) in pairs.iter().enumerate() {
        assert_eq!(or_biday_operation(*a, *b), union[i]);
        assert_eq!(add_biday_operation(*a, *b), union[i]);
        assert_eq!(and_biday_operation(*a, *b), intersection[i]);
        assert_eq!(minus_biday_operation(*a, *b), difference[i]);
        assert_eq!(match_biday_operation(*a, *b), matching[i]);
        assert_eq!(nomatch_biday_operation(*a, *b), mismatch[i]);
        assert_eq!(holes_biday_operation(*a, *b), holes[i]);
    }
}

#[test]
fn apply_operator_zips_pointwise() {
    let a = vec![O, Z, O, Z];
    let b = vec![O, O, Z, Z];
    assert_eq!(apply_operator(&a, &b, |x, y| minus_biday_operation(x, y)), vec![Z, Z, O, Z]);
    assert_eq!(minus_daycalendar(&a, &b), vec![Z, Z, O, Z]);
    assert_eq!(holes_daycalendar(&a, &b), vec![Z, Z, Z, O]);
    assert_eq!(apply_operator(&[], &[], or_biday_operation), vec![]);
}

#[test]
fn normalization_gives_month_length_and_is_idempotent() {
    let short = vec![O, Z, O];
    let long = vec![O; 40];
    for (year, month, expected) in [
        (2023, Month::February, 28usize),
        (2024, Month::February, 29),
        (1900, Month::February, 28),
        (2000, Month::February, 29),
        (2023, Month::April, 30),
        (2023, Month::December, 31),
        (1, Month::January, 31),
        (9999, Month::November, 30),
    ] {
        for v in [&short, &long] {
            let once = normalize_biday(v, year, month);
            assert_eq!(once.len(), expected);
            assert_eq!(once.len(), days_in_month(year, month).unwrap() as usize);
            for i in 0..expected {
                assert_eq!(once[i], if i < v.len() { v[i] } else { Z });
            }
            assert_eq!(normalize_biday(&once, year, month), once);
        }
    }
}

#[test]
fn complete_biday_pads_and_cuts() {
    assert_eq!(complete_biday(4, O, vec![Z, Z]), vec![Z, Z, O, O]);
    assert_eq!(complete_biday(1, O, vec![Z, Z]), vec![Z]);
    assert_eq!(complete_biday(0, O, vec![Z, Z]), vec![]);
}

#[test]
fn merge_identity_for_a_single_fragment() {
    let calendar = DaysCalendar::new(vec![(2023, Month::February, vec![O, Z, O])]);
    let mut expected = vec![Z; 28];
    expected[0] = O;
    expected[2] = O;
    let want = DaysCalendar::new(vec![(2023, Month::February, expected)]);
    assert_eq!(resume(&calendar, and_biday_operation), want);
    assert_eq!(resume(&calendar, or_biday_operation), want);
    assert_eq!(resume(&calendar, minus_biday_operation), want);
    assert_eq!(resume(&calendar, nomatch_biday_operation), want);
    assert_eq!(calendar.and(&DaysCalendar::empty()), want);
    assert_eq!(DaysCalendar::empty().minus(&calendar), want);
}

#[test]
fn merge_of_two_fragments_is_pointwise() {
    let a = vec![O, O, Z, Z, O];
    let b = vec![O, Z, O, Z];
    let calendar = DaysCalendar::new(vec![
        (2024, Month::February, a.clone()),
        (2024, Month::February, b.clone()),
    ]);
    let na = normalize_biday(&a, 2024, Month::February);
    let nb = normalize_biday(&b, 2024, Month::February);
    let under_and = resume(&calendar, and_biday_operation);
    assert_eq!(under_and.days_calendar, vec![(2024, Month::February, and_daycalendar(&na, &nb))]);
    assert_eq!(under_and.days_calendar[0].2[..5], [O, Z, Z, Z, Z]);
    let under_or = resume(&calendar, or_biday_operation);
    assert_eq!(under_or.days_calendar, vec![(2024, Month::February, or_daycalendar(&na, &nb))]);
    assert_eq!(under_or.days_calendar[0].2[..5], [O, O, O, Z, O]);
    assert_eq!(under_or.days_calendar[0].2.len(), 29);
}

#[test]
fn merge_sorts_months_and_folds_in_order() {
    let calendar = DaysCalendar::new(vec![
        (2023, Month::March, vec![O, O]),
        (2022, Month::December, vec![O]),
        (2023, Month::March, vec![O, Z, O]),
        (2023, Month::January, vec![Z, O]),
        (2023, Month::March, vec![Z, Z, O]),
    ]);
    let merged = resume(&calendar, minus_biday_operation);
    let keys: Vec<(Year, Month)> =
        merged.days_calendar.iter().map(|f| (f.0, f.1)).collect();
    assert_eq!(
        keys,
        vec![(2022, Month::December), (2023, Month::January), (2023, Month::March)]
    );
    assert_eq!(merged.days_calendar[2].2[..3], [Z, O, Z]);
    for frag in &merged.days_calendar {
        assert_eq!(frag.2.len(), days_in_month(frag.0, frag.1).unwrap() as usize);
    }
}

#[test]
fn merge_leaves_out_unsupported_years() {
    let calendar = DaysCalendar::new(vec![
        (0, Month::January, vec![O, O]),
        (2023, Month::January, vec![O]),
        (10000, Month::January, vec![O]),
    ]);
    let merged = resume(&calendar, or_biday_operation);
    assert_eq!(merged.days_calendar.len(), 1);
    assert_eq!(merged.days_calendar[0].0, 2023);
    assert_eq!(DaysCalendar::singleton(0, Month::January), None);
    assert_eq!(DaysCalendar::singleton(10000, Month::January), None);
    assert_eq!(days_in_month(0, Month::January), None);
}

#[test]
fn combinators_do_not_merge_on_append() {
    let a = DaysCalendar::new(vec![(2023, Month::May, vec![O])]);
    let appended = a.append(&a);
    assert_eq!(appended.days_calendar.len(), 2);
    assert_eq!(a.or(&a).days_calendar.len(), 1);
    assert_eq!(a.match_(&a).days_calendar[0].2, vec![O; 31]);
    assert_eq!(a.nomatch(&a).days_calendar[0].2, vec![Z; 31]);
}

#[test]
fn inversion_is_an_involution() {
    let calendar = DaysCalendar::new(vec![
        (2023, Month::January, vec![O, Z, Z, O]),
        (2023, Month::January, vec![]),
        (0, Month::July, vec![Z]),
    ]);
    let once = calendar.invert_biday();
    assert_eq!(once.days_calendar[0].2, vec![Z, O, O, Z]);
    assert_eq!(once.invert_biday(), calendar);
}

#[test]
fn round_trip_through_dates() {
    let dates = vec![
        day(2019, 12, 31),
        day(2020, 1, 1),
        day(2020, 1, 15),
        day(2020, 2, 29),
        day(2021, 3, 1),
    ];
    let numbered = from_date(dates.clone());
    assert_eq!(
        numbered.days_calendar,
        vec![
            (2019, Month::December, vec![31]),
            (2020, Month::January, vec![1, 15]),
            (2020, Month::February, vec![29]),
            (2021, Month::March, vec![1]),
        ]
    );
    let flags = from_day(numbered.clone());
    assert_eq!(flags.days_calendar[2].2.len(), 29);
    assert_eq!(to_date(flags.clone()), dates);
    assert_eq!(to_day::<BiDay>(flags.clone()), numbered);
    assert_eq!(to_date(from_day(from_date(to_date(flags)))), dates);
}

#[test]
fn from_date_orders_and_removes_repeats() {
    let dates = vec![day(2021, 3, 9), day(2020, 1, 5), day(2021, 3, 2), day(2020, 1, 5)];
    assert_eq!(
        from_date(dates).days_calendar,
        vec![(2020, Month::January, vec![5]), (2021, Month::March, vec![2, 9])]
    );
}

#[test]
fn to_date_skips_days_that_do_not_exist() {
    let calendar = DaysCalendar::new(vec![
        (2023, Month::February, vec![O; 31]),
        (10000, Month::January, vec![O]),
    ]);
    let dates = to_date(calendar);
    assert_eq!(dates.len(), 28);
    assert_eq!(dates[27], day(2023, 2, 28));
    let long = DaysCalendar::new(vec![(2023, Month::January, vec![O; 300])]);
    assert_eq!(to_date(long).len(), 31);
}

#[test]
fn cyclic_tiling() {
    let pattern = vec![O, Z, Z];
    for n in [0usize, 1, 2, 3, 7, 31] {
        let tiled = replicate_pattern(&pattern, n);
        assert_eq!(tiled.len(), n);
        for i in 0..n {
            assert_eq!(tiled[i], pattern[i % pattern.len()]);
        }
    }
    assert_eq!(replicate_pattern(&[], 0), vec![]);
}

#[test]
fn replicate_keeps_the_length_of_each_fragment() {
    let calendar = DaysCalendar::new(vec![
        (2023, Month::January, vec![O; 5]),
        (2023, Month::February, vec![]),
    ]);
    let tiled = replicate::<BiDay>(&[Z, O], calendar.clone());
    assert_eq!(
        tiled.days_calendar,
        vec![(2023, Month::January, vec![Z, O, Z, O, Z]), (2023, Month::February, vec![])]
    );
    assert_eq!(calendar.clone().zeros().days_calendar[0].2, vec![Z; 5]);
    assert_eq!(calendar.clone().downward_step().days_calendar[0].2, vec![O, Z, O, Z, O]);
}

#[test]
fn take_n_counts_across_fragments() {
    let calendar = DaysCalendar::new(vec![
        (2023, Month::January, vec![O, Z]),
        (2023, Month::February, vec![]),
        (2023, Month::March, vec![Z, O, O]),
        (2023, Month::April, vec![O]),
    ]);
    assert_eq!(calendar.take_n_biday(0).days_calendar, vec![]);
    assert_eq!(calendar.take_n_biday(2).days_calendar, vec![(2023, Month::January, vec![O, Z])]);
    assert_eq!(
        calendar.take_n_biday(4).days_calendar,
        vec![
            (2023, Month::January, vec![O, Z]),
            (2023, Month::February, vec![]),
            (2023, Month::March, vec![Z, O]),
        ]
    );
    assert_eq!(calendar.take_n_biday(100), calendar);
}

#[test]
fn year_shapes_of_one_value_are_equal() {
    let list: HashSet<Year> = [2023].into_iter().collect();
    assert_eq!(YearSpec::Single(2023), YearSpec::Range(2023..=2023));
    assert_eq!(YearSpec::Range(2023..=2023), YearSpec::List(list.clone()));
    assert_eq!(YearSpec::List(list), YearSpec::Single(2023));
    let gap: HashSet<Year> = [2020, 2022].into_iter().collect();
    assert_ne!(YearSpec::Range(2020..=2022), YearSpec::List(gap));
    let full: HashSet<Year> = [2020, 2021, 2022].into_iter().collect();
    assert_eq!(YearSpec::Range(2020..=2022), YearSpec::List(full));
    assert_eq!(YearSpec::Range(5..=3), YearSpec::List(HashSet::new()));
    assert_eq!(YearSpec::Range(5..=3), YearSpec::Range(9..=1));
}

#[test]
fn month_shapes_of_one_value_are_equal() {
    assert_eq!(MonthSpec::Single(Month::May), MonthSpec::Range(Month::May..=Month::May));
    assert_eq!(MonthSpec::Single(Month::May), MonthSpec::List(vec![Month::May, Month::May]));
    assert_eq!(
        MonthSpec::Range(Month::March..=Month::May),
        MonthSpec::List(vec![Month::May, Month::March, Month::April])
    );
    assert_ne!(
        MonthSpec::Range(Month::March..=Month::May),
        MonthSpec::List(vec![Month::May, Month::March])
    );
    assert_eq!(MonthSpec::Range(Month::May..=Month::March), MonthSpec::List(vec![]));
}

#[test]
fn scenario_singleton_february() {
    let calendar = DaysCalendar::singleton(2023, Month::February).unwrap();
    assert_eq!(calendar.days_calendar, vec![(2023, Month::February, vec![O; 28])]);
    let leap = DaysCalendar::singleton(2024, Month::February).unwrap();
    assert_eq!(leap.days_calendar[0].2.len(), 29);
}

#[test]
fn scenario_flag_vectors() {
    assert_eq!(or_daycalendar(&[O, Z], &[Z, O]), vec![O, O]);
    assert_eq!(and_daycalendar(&[O, Z], &[Z, O]), vec![Z, Z]);
}

#[test]
fn scenario_intersection_of_two_calendars() {
    let first: Vec<usize> = (1..=15).collect();
    let second: Vec<usize> = (10..=31).collect();
    let a = marking(2023, Month::January, &first, 31);
    let b = marking(2023, Month::January, &second, 31);
    let both = a.and(&b);
    let expected: Vec<usize> = (10..=15).collect();
    assert_eq!(both, marking(2023, Month::January, &expected, 31));
    assert_eq!(to_day::<BiDay>(both).days_calendar[0].2, vec![10, 11, 12, 13, 14, 15]);
}

#[test]
fn scenario_year_range_expands_to_36_months() {
    let spec = YearSpec::parse("2023-2025").unwrap();
    let pairs = spec.to_year_month();
    assert_eq!(pairs.len(), 36);
    let mut expected = Vec::new();
    for year in 2023..=2025 {
        for m in 1..=12 {
            expected.push((year, Month::from_index(m).unwrap()));
        }
    }
    assert_eq!(pairs, expected);
}

#[test]
fn scenario_next_marked_date() {
    let calendar = marking(2020, Month::January, &[1, 15], 31);
    assert_eq!(calendar.next_day(2020, Month::January, 1), Some(day(2020, 1, 15)));
    assert_eq!(calendar.seek_nth_day(2020, Month::January, 1, 1), Ok(Some(day(2020, 1, 15))));
    assert_eq!(calendar.previous_day(2020, Month::January, 15), Some(day(2020, 1, 1)));
    assert_eq!(calendar.next_day(2020, Month::January, 15), None);
    assert_eq!(calendar.previous_day(2020, Month::January, 1), None);
}

#[test]
fn seek_nth_day_counts_in_both_directions() {
    let calendar = marking(2020, Month::January, &[1, 15, 20, 31], 31);
    assert_eq!(calendar.seek_nth_day(2020, Month::January, 2, 2), Ok(Some(day(2020, 1, 20))));
    assert_eq!(calendar.seek_nth_day(2020, Month::January, 2, 3), Ok(Some(day(2020, 1, 31))));
    assert_eq!(calendar.seek_nth_day(2020, Month::January, 2, 4), Ok(None));
    assert_eq!(calendar.seek_nth_day(2020, Month::January, 20, -2), Ok(Some(day(2020, 1, 1))));
    assert_eq!(calendar.seek_nth_day(2020, Month::January, 20, -3), Ok(None));
    assert_eq!(calendar.seek_nth_day(2020, Month::January, 7, 0), Ok(Some(day(2020, 1, 7))));
    assert_eq!(
        calendar.seek_nth_day(2021, Month::February, 29, 1),
        Err(CalendarError::InvalidDate)
    );
    assert_eq!(calendar.seek_nth_day(2021, Month::February, 0, 0), Err(CalendarError::InvalidDate));
    assert_eq!(calendar.next_day(2021, Month::February, 30), None);
}

#[test]
fn dates_exist_as_the_calendar_says() {
    assert!(Date::from_calendar_date(2024, Month::February, 29).is_ok());
    assert_eq!(
        Date::from_calendar_date(2023, Month::February, 29),
        Err(CalendarError::InvalidDate)
    );
    assert_eq!(Date::from_calendar_date(1900, Month::February, 29), Err(CalendarError::InvalidDate));
    assert!(Date::from_calendar_date(2000, Month::February, 29).is_ok());
    assert_eq!(Date::from_calendar_date(2023, Month::April, 31), Err(CalendarError::InvalidDate));
    assert_eq!(Date::from_calendar_date(2023, Month::April, 0), Err(CalendarError::InvalidDate));
    assert_eq!(Date::from_calendar_date(10000, Month::April, 1), Err(CalendarError::InvalidDate));
    assert_eq!(Date::from_calendar_date(-10000, Month::April, 1), Err(CalendarError::InvalidDate));
    assert!(Date::from_calendar_date(-9999, Month::January, 1).is_ok());
    assert!(Date::from_calendar_date(0, Month::February, 29).is_ok());
    assert!(Date::from_calendar_date(-4, Month::February, 29).is_ok());
    assert!(Date::from_calendar_date(-1, Month::February, 29).is_err());
    let d = day(2023, 7, 4);
    assert_eq!((d.year(), d.month(), d.day()), (2023, Month::July, 4));
    assert!(day(2023, 7, 4).is_before(&day(2023, 7, 5)));
    assert!(day(2022, 12, 31).is_before(&day(2023, 1, 1)));
    assert!(!day(2023, 7, 4).is_before(&day(2023, 7, 4)));
    assert!(day(-1, 12, 31).is_before(&day(0, 1, 1)));
}

#[test]
fn weekdays_and_weeks_of_known_dates() {
    assert_eq!(day(2024, 1, 1).weekday(), Weekday::Monday);
    assert_eq!(day(2019, 1, 1).weekday(), Weekday::Tuesday);
    assert_eq!(day(2019, 9, 1).weekday(), Weekday::Sunday);
    assert_eq!(day(2019, 6, 1).weekday(), Weekday::Saturday);
    assert_eq!(day(2019, 1, 1).iso_week(), 1);
    assert_eq!(day(2019, 10, 4).iso_week(), 40);
    assert_eq!(day(2020, 12, 31).iso_week(), 53);
    assert_eq!(day(2021, 1, 1).iso_week(), 53);
}

#[test]
fn shifting_dates() {
    assert_eq!(day(2020, 12, 31).checked_add_days(2), Some(day(2021, 1, 2)));
    assert_eq!(day(2020, 12, 31).checked_sub_days(2), Some(day(2020, 12, 29)));
    assert_eq!(day(2020, 12, 31).checked_add_days(0), Some(day(2020, 12, 31)));
    assert_eq!(day(9999, 12, 31).checked_add_days(1), None);
    assert_eq!(day(-9999, 1, 1).checked_sub_days(1), None);
    assert_eq!(day(1, 1, 1).checked_sub_days(1), Some(day(0, 12, 31)));
    assert_eq!(add_days(vec![day(2020, 2, 28)], 2), vec![day(2020, 3, 1)]);
    assert_eq!(add_days(vec![day(2020, 3, 1)], -1), vec![day(2020, 2, 29)]);
    assert_eq!(add_days(vec![day(1, 1, 1)], -1), vec![day(0, 12, 31)]);
    assert_eq!(add_days(vec![day(9999, 12, 30)], 5), vec![max_date()]);
    assert_eq!(add_days(vec![day(2020, 3, 1)], i32::MIN), vec![min_date()]);
    assert_eq!(add_days(vec![], 3), vec![]);
    assert_eq!(min_date(), day(1, 1, 1));
    assert_eq!(max_date(), day(9999, 12, 31));
    assert_eq!(shifted_or(None, min_date()), min_date());
    assert_eq!(shifted_or(Some(day(2020, 1, 1)), min_date()), day(2020, 1, 1));
}

#[test]
fn day_filters() {
    for flag in [Z, O] {
        for member in [false, true] {
            let marked = flag == O;
            let want = |keep: bool| if keep { O } else { Z };
            assert_eq!(DayFilter::Both.apply(flag, member), want(marked && member));
            assert_eq!(DayFilter::Either.apply(flag, member), want(marked || member));
            assert_eq!(DayFilter::Neither.apply(flag, member), want(marked && !member));
        }
    }
    assert!(weekday_listed(&vec![Weekday::Monday, Weekday::Friday], Weekday::Friday));
    assert!(!weekday_listed(&vec![Weekday::Monday, Weekday::Friday], Weekday::Sunday));
    assert!(!weekday_listed(&vec![], Weekday::Sunday));
    assert!(week_listed(&vec![1, 53], 53));
    assert!(!week_listed(&vec![1, 53], 2));
}

#[test]
fn weekday_filters_on_a_known_week() {
    // The first seven days of January 2024 run from Monday to Sunday.
    let calendar = DaysCalendar::new(vec![(2024, Month::January, vec![O, Z, O, Z, O, Z, O])]);
    let days = vec![Weekday::Monday, Weekday::Tuesday, Weekday::Sunday];
    assert_eq!(
        calendar.and_weekdays(days.clone()).unwrap().days_calendar[0].2,
        vec![O, Z, Z, Z, Z, Z, O]
    );
    assert_eq!(
        calendar.or_weekdays(days.clone()).unwrap().days_calendar[0].2,
        vec![O, O, O, Z, O, Z, O]
    );
    assert_eq!(
        calendar.not_weekdays(days).unwrap().days_calendar[0].2,
        vec![Z, Z, O, Z, O, Z, Z]
    );
}

#[test]
fn weekday_filters_fail_on_days_that_do_not_exist() {
    let too_long = DaysCalendar::new(vec![(2023, Month::February, vec![O; 29])]);
    assert_eq!(too_long.and_weekdays(vec![Weekday::Monday]), Err(CalendarError::InvalidDate));
    assert_eq!(too_long.or_weekdays(vec![]), Err(CalendarError::InvalidDate));
    assert_eq!(too_long.not_weekdays(vec![]), Err(CalendarError::InvalidDate));
    let late = DaysCalendar::new(vec![(10000, Month::January, vec![O])]);
    assert_eq!(late.and_weekdays(vec![]), Err(CalendarError::InvalidDate));
    let empty_late = DaysCalendar::new(vec![(10000, Month::January, vec![])]);
    assert_eq!(empty_late.and_weekdays(vec![]), Ok(empty_late.clone()));
    let year_zero = DaysCalendar::new(vec![(0, Month::February, vec![Z; 29])]);
    assert_eq!(year_zero.not_weekdays(vec![]), Ok(year_zero.clone()));
}

#[test]
fn week_filters_on_known_weeks() {
    // 1 January 2021 lies in week 53, 4 January 2021 starts week 1.
    let calendar = DaysCalendar::new(vec![(2021, Month::January, vec![O, Z, O, O, Z])]);
    assert_eq!(calendar.and_iso_weeks(vec![53]).unwrap().days_calendar[0].2, vec![O, Z, O, Z, Z]);
    assert_eq!(calendar.or_iso_weeks(vec![1]).unwrap().days_calendar[0].2, vec![O, Z, O, O, O]);
    assert_eq!(calendar.not_iso_weeks(vec![53]).unwrap().days_calendar[0].2, vec![Z, Z, Z, O, Z]);
    // 28 February 2021 is the last day of week 8.
    let february = DaysCalendar::new(vec![(2021, Month::February, vec![O; 28])]);
    let kept = february.and_iso_weeks(vec![8]).unwrap();
    assert_eq!(kept.days_calendar[0].2[20], Z);
    assert_eq!(kept.days_calendar[0].2[21..], [O; 7]);
    let fits = DaysCalendar::new(vec![(9999, Month::December, vec![O; 31])]);
    assert!(fits.or_iso_weeks(vec![]).is_ok());
}

#[test]
fn week_filters_fail_on_days_that_do_not_exist() {
    let too_long = DaysCalendar::new(vec![(2021, Month::February, vec![O; 29])]);
    assert_eq!(too_long.and_iso_weeks(vec![9]), Err(CalendarError::InvalidDate));
    assert_eq!(too_long.or_iso_weeks(vec![]), Err(CalendarError::InvalidDate));
    assert_eq!(too_long.not_iso_weeks(vec![]), Err(CalendarError::InvalidDate));
    let at_the_end = DaysCalendar::new(vec![(9999, Month::December, vec![O; 32])]);
    assert_eq!(at_the_end.or_iso_weeks(vec![]), Err(CalendarError::InvalidDate));
    let late = DaysCalendar::new(vec![(10000, Month::January, vec![O])]);
    assert_eq!(late.and_iso_weeks(vec![1]), Err(CalendarError::InvalidDate));
    let empty_late = DaysCalendar::new(vec![(10000, Month::January, vec![])]);
    assert_eq!(empty_late.and_iso_weeks(vec![]), Ok(empty_late.clone()));
    let leap = DaysCalendar::new(vec![(2024, Month::February, vec![Z; 29])]);
    assert_eq!(leap.not_iso_weeks(vec![]), Ok(leap.clone()));
}

#[test]
fn nearest_dates_on_an_unsorted_calendar() {
    let calendar = DaysCalendar::new(vec![
        (2020, Month::March, vec![O]),
        (2020, Month::January, vec![O]),
    ]);
    assert_eq!(calendar.previous_day(2020, Month::April, 1), Some(day(2020, 3, 1)));
    assert_eq!(calendar.next_day(2019, Month::December, 31), Some(day(2020, 1, 1)));
    assert_eq!(calendar.next_day(2020, Month::January, 1), Some(day(2020, 3, 1)));
    assert_eq!(calendar.previous_day(2020, Month::March, 1), Some(day(2020, 1, 1)));
    assert_eq!(calendar.previous_day(2020, Month::January, 1), None);
    assert_eq!(calendar.next_day(2020, Month::March, 1), None);
    assert_eq!(calendar.seek_nth_day(2019, Month::December, 31, 1), Ok(Some(day(2020, 1, 1))));
    assert_eq!(calendar.seek_nth_day(2019, Month::December, 31, 2), Ok(Some(day(2020, 3, 1))));
    assert_eq!(calendar.seek_nth_day(2019, Month::December, 31, 3), Ok(None));
    assert_eq!(calendar.seek_nth_day(2020, Month::April, 1, -1), Ok(Some(day(2020, 3, 1))));
    assert_eq!(calendar.seek_nth_day(2020, Month::April, 1, -2), Ok(Some(day(2020, 1, 1))));
    assert_eq!(calendar.seek_nth_day(2020, Month::April, 1, -3), Ok(None));
    assert_eq!(calendar.sorted_dates(), vec![day(2020, 1, 1), day(2020, 3, 1)]);
    assert_eq!(to_date(calendar), vec![day(2020, 3, 1), day(2020, 1, 1)]);
}

#[test]
fn a_date_marked_twice_counts_once() {
    let calendar = DaysCalendar::new(vec![
        (2020, Month::May, vec![Z, O, Z, O]),
        (2020, Month::May, vec![O, O]),
        (2019, Month::May, vec![Z, Z, O]),
    ]);
    assert_eq!(
        calendar.sorted_dates(),
        vec![day(2019, 5, 3), day(2020, 5, 1), day(2020, 5, 2), day(2020, 5, 4)]
    );
    assert_eq!(calendar.seek_nth_day(2020, Month::May, 1, 2), Ok(Some(day(2020, 5, 4))));
    assert_eq!(calendar.seek_nth_day(2020, Month::May, 1, 3), Ok(None));
    assert_eq!(calendar.seek_nth_day(2020, Month::May, 4, -3), Ok(Some(day(2019, 5, 3))));
    assert_eq!(calendar.next_day(2020, Month::May, 2), Some(day(2020, 5, 4)));
    assert_eq!(calendar.previous_day(2020, Month::May, 2), Some(day(2020, 5, 1)));
    assert_eq!(calendar.previous_day(2020, Month::May, 1), Some(day(2019, 5, 3)));
}

#[test]
fn parsing_years() {
    assert_eq!(YearSpec::parse("2023"), Some(YearSpec::Single(2023)));
    assert_eq!(YearSpec::parse("+2023"), Some(YearSpec::Single(2023)));
    assert_eq!(YearSpec::parse("0007"), Some(YearSpec::Single(7)));
    assert_eq!(YearSpec::parse("65535"), Some(YearSpec::Single(65535)));
    assert_eq!(YearSpec::parse("65536"), None);
    assert_eq!(YearSpec::parse("99999999999999999999"), None);
    assert_eq!(YearSpec::parse(""), None);
    assert_eq!(YearSpec::parse("+"), None);
    assert_eq!(YearSpec::parse(" 2023"), Some(YearSpec::List([2023].into_iter().collect())));
    assert_eq!(YearSpec::parse("2023 - 2025"), Some(YearSpec::Range(2023..=2025)));
    assert_eq!(YearSpec::parse("2025-2023"), Some(YearSpec::Range(2025..=2023)));
    assert_eq!(YearSpec::parse("2023-2025-2027"), None);
    assert_eq!(YearSpec::parse("2023-"), None);
    assert_eq!(YearSpec::parse("-2023"), None);
    assert_eq!(
        YearSpec::parse("2023, 2025 ,2023"),
        Some(YearSpec::List([2023, 2025].into_iter().collect()))
    );
    assert_eq!(YearSpec::parse("2023,"), None);
    assert_eq!(YearSpec::parse("2023,x"), None);
    assert_eq!(YearSpec::parse("20\u{00a0}23"), None);
    assert!(matches!(YearSpec::parse("2023"), Some(YearSpec::Single(_))));
    assert!(matches!(YearSpec::parse("2023-2024"), Some(YearSpec::Range(_))));
    assert!(matches!(YearSpec::parse("2023,2024"), Some(YearSpec::List(_))));
    assert!(!YearSpec::is_valid("twenty"));
}

#[test]
fn parsing_months() {
    for (text, month) in [
        ("jan", Month::January),
        ("JANUARY", Month::January),
        ("1", Month::January),
        ("01", Month::January),
        ("Feb", Month::February),
        ("march", Month::March),
        ("APR", Month::April),
        ("May", Month::May),
        ("05", Month::May),
        ("june", Month::June),
        ("jUl", Month::July),
        ("august", Month::August),
        ("9", Month::September),
        ("September", Month::September),
        ("10", Month::October),
        ("nov", Month::November),
        ("12", Month::December),
        ("December", Month::December),
    ] {
        assert_eq!(Month::from_str(text), Ok(month));
        assert_eq!(MonthSpec::parse(text), Ok(MonthSpec::Single(month)));
    }
    for text in ["", "0", "00", "13", "010", "janu", "sept", " jan", "jan ", "j\u{00e4}n", "\u{212a}"] {
        assert_eq!(Month::from_str(text), Err(()));
    }
    assert_eq!(
        MonthSpec::parse("Jan-Mar"),
        Ok(MonthSpec::Range(Month::January..=Month::March))
    );
    assert!(matches!(MonthSpec::parse("Jan-Mar"), Ok(MonthSpec::Range(_))));
    assert!(matches!(MonthSpec::parse("Jan, Mar"), Ok(MonthSpec::List(_))));
    assert_eq!(
        MonthSpec::parse(" Jan , 03,DEC "),
        Ok(MonthSpec::List(vec![Month::January, Month::March, Month::December]))
    );
    for text in ["", "13", "2023", "Jan-", "Jan - Mar", "Jan-Feb-Mar", "Jan,", "Jan,Fob", "x", "Jan-13"] {
        assert_eq!(MonthSpec::parse(text), Err(CalendarError::InvalidSpecFormat));
    }
    assert!(MonthSpec::is_valid("13"));
    assert!(MonthSpec::is_valid("a-b"));
    assert!(MonthSpec::is_valid("a,b"));
    assert!(!MonthSpec::is_valid("ab"));
    assert!(!MonthSpec::is_valid(""));
    assert_eq!(SpecType::from_str("jan"), Ok(SpecType::Single));
    assert_eq!(SpecType::from_str("2023"), Ok(SpecType::Single));
    assert_eq!(SpecType::from_str("a-b,c"), Ok(SpecType::Range));
    assert_eq!(SpecType::from_str("a,b"), Ok(SpecType::List));
    assert_eq!(SpecType::from_str("ab"), Ok(SpecType::Invalid));
    assert_eq!(spec_type_of(&chars_of("ab")), SpecType::Invalid);
}

#[test]
fn parsing_year_months() {
    let parsed = YearMonthSpec::parse("2023-feb").unwrap();
    assert_eq!(parsed.0.len(), 1);
    assert!(matches!(parsed.0[0], (YearSpec::Single(2023), MonthSpec::Single(Month::February))));
    assert_eq!(parsed.to_year_month(), vec![(2023, Month::February)]);
    for text in ["", "2023", "feb-2023", "2023-feb-1", "2023- feb", "2023-13", "70000-jan"] {
        assert_eq!(YearMonthSpec::parse(text), Err(CalendarError::InvalidSpecFormat));
        assert!(!YearMonthSpec::is_valid(text));
    }
    assert!(YearMonthSpec::is_valid("+2023-02"));
}

#[test]
fn text_helpers() {
    let s = chars_of(" a,b ,,c\t");
    assert_eq!(s.len(), 9);
    let parts = split_chars(&s, ',');
    let texts: Vec<String> = parts.iter().map(|p| p.iter().collect()).collect();
    assert_eq!(texts, vec![" a", "b ", "", "c\t"]);
    assert_eq!(split_chars(&chars_of(""), ','), vec![Vec::<char>::new()]);
    assert_eq!(split_chars(&chars_of(","), ',').len(), 2);
    assert_eq!(trim_chars(&chars_of(" \t a b \u{3000}\n")), chars_of("a b"));
    assert_eq!(trim_chars(&chars_of("   ")), chars_of(""));
    assert_eq!(find_char(&s, ','), Some(2));
    assert_eq!(find_char(&s, '-'), None);
    assert_eq!(slice_chars(&s, 1, 4), chars_of("a,b"));
    assert!(is_space_char('\u{2003}'));
    assert!(!is_space_char('_'));
    assert_eq!(lower_char('Q'), 'q');
    assert_eq!(lower_char('q'), 'q');
    assert_eq!(lower_char('\u{00c4}'), '\u{00c4}');
    assert!(word_is(&chars_of("MaY"), "may"));
    assert!(!word_is(&chars_of("may"), "ma"));
    assert_eq!(parse_year_chars(&chars_of("42")), Some(42));
    assert_eq!(parse_year_chars(&chars_of("4 2")), None);
    assert_eq!(parse_month_chars(&chars_of("OCT")), Some(Month::October));
}

#[test]
fn year_expressions_move_and_span() {
    let list = YearSpec::List([2020, 2022].into_iter().collect());
    assert_eq!(list.next(), YearSpec::List([2021, 2023].into_iter().collect()));
    assert_eq!(list.prev(), YearSpec::List([2019, 2021].into_iter().collect()));
    assert_eq!(list.forward(3), YearSpec::List([2023, 2025].into_iter().collect()));
    assert_eq!(list.backward(20), YearSpec::List([2000, 2002].into_iter().collect()));
    assert_eq!(list.forward(0), list);
    assert!(matches!(YearSpec::Range(1..=2).forward(3), YearSpec::Range(_)));
    assert_eq!(YearSpec::Single(65534).next(), YearSpec::Single(65535));
    assert_eq!(YearSpec::Single(1).prev(), YearSpec::Single(0));
    assert_eq!(list.keys(), vec![2020, 2022]);
    assert_eq!(list.clone(), list);
    // The result spans both operands.
    assert_eq!(
        YearSpec::Range(2005..=2010).range_to(&YearSpec::Single(2007)),
        YearSpec::Range(2005..=2010)
    );
    assert_eq!(
        YearSpec::Single(2010).range_to(&YearSpec::Single(2007)),
        YearSpec::Range(2007..=2010)
    );
    assert!(matches!(list.range_to(&YearSpec::Single(2025)), YearSpec::List(_)));
    assert_eq!(list.range_to(&YearSpec::Single(2025)), YearSpec::Range(2020..=2025));
    assert!(matches!(YearSpec::Single(1).range_to(&list), YearSpec::Range(_)));
    let nothing = YearSpec::List(HashSet::new());
    assert_eq!(nothing.range_to(&nothing), nothing);
    assert_eq!(nothing.range_to(&YearSpec::Range(3..=9)), YearSpec::Range(3..=9));
    assert_eq!(sorted_years(&[3, 1, 2].into_iter().collect()), vec![1, 2, 3]);
    assert_eq!(year_set(&vec![1, 2]), [1, 2].into_iter().collect());
}

#[test]
fn month_expressions_move_and_span() {
    assert_eq!(MonthSpec::Single(Month::December).next(), MonthSpec::Single(Month::January));
    assert_eq!(MonthSpec::Single(Month::January).prev(), MonthSpec::Single(Month::December));
    assert!(matches!(
        MonthSpec::Range(Month::November..=Month::December).next(),
        MonthSpec::Range(r) if *r.start() == Month::December && *r.end() == Month::January
    ));
    assert_eq!(
        MonthSpec::List(vec![Month::November, Month::December]).next(),
        MonthSpec::Single(Month::December)
    );
    assert_eq!(
        MonthSpec::List(vec![Month::January, Month::February]).prev(),
        MonthSpec::Single(Month::January)
    );
    assert_eq!(MonthSpec::Single(Month::November).forward(3), MonthSpec::Single(Month::February));
    assert_eq!(MonthSpec::Single(Month::February).backward(3), MonthSpec::Single(Month::November));
    assert_eq!(
        MonthSpec::List(vec![Month::October, Month::December]).forward(2),
        MonthSpec::Single(Month::December)
    );
    assert_eq!(MonthSpec::List(vec![Month::October]).forward(3), MonthSpec::List(vec![]));
    assert_eq!(
        MonthSpec::Range(Month::March..=Month::June).range_to(&MonthSpec::Single(Month::April)),
        MonthSpec::Range(Month::March..=Month::June)
    );
    assert_eq!(
        MonthSpec::Single(Month::June).range_to(&MonthSpec::Single(Month::April)),
        MonthSpec::Range(Month::April..=Month::June)
    );
    assert!(matches!(
        MonthSpec::List(vec![Month::May]).range_to(&MonthSpec::Single(Month::July)),
        MonthSpec::List(_)
    ));
    assert_eq!(MonthSpec::List(vec![Month::May, Month::March]).keys(), vec![3, 5]);
    assert_eq!(
        MonthSpec::Range(Month::March..=Month::April).to_year_month(7),
        vec![(7, Month::March), (7, Month::April)]
    );
    assert_eq!(MonthSpec::Range(Month::April..=Month::March).to_year_month(7), vec![]);
}

#[test]
fn months_walk() {
    assert_eq!(Month::November.range_to(&Month::November), vec![Month::November]);
    assert_eq!(
        Month::November.range_to(&Month::February),
        vec![Month::November, Month::December, Month::February]
    );
    assert_eq!(Month::March.forward(9), Some(Month::December));
    assert_eq!(Month::March.forward(10), None);
    assert_eq!(Month::March.backward(2), Some(Month::January));
    assert_eq!(Month::March.backward(3), None);
    assert_eq!(Month::March.forward(0), Some(Month::March));
    assert_eq!(Month::March.forward(usize::MAX), None);
}

#[test]
fn cursor_steps_and_bounds() {
    let last = YearMonth { year: 65535, month: Month::December };
    let first = YearMonth { year: 0, month: Month::January };
    assert_eq!(last.next_month(), None);
    assert_eq!(first.previous_month(), None);
    assert_eq!(last.prev(), YearMonth { year: 65535, month: Month::November });
    assert_eq!(first.next(), YearMonth { year: 0, month: Month::February });
    assert_eq!(first.forward(25), YearMonth { year: 2, month: Month::February });
    assert_eq!(last.backward(12), YearMonth { year: 65534, month: Month::December });
    let from = YearMonth { year: 2022, month: Month::November };
    let to = YearMonth { year: 2023, month: Month::February };
    assert_eq!(
        from.range_to(&to),
        vec![
            from,
            YearMonth { year: 2022, month: Month::December },
            YearMonth { year: 2023, month: Month::January },
            to,
        ]
    );
    assert_eq!(from.range_to(&from), vec![from]);
    assert_eq!(YearMonth::from_date(day(2023, 5, 9)), YearMonth { year: 2023, month: Month::May });
    assert_eq!(YearMonth::new(1, Month::May), Ok(YearMonth { year: 1, month: Month::May }));
}

#[test]
fn year_month_expressions() {
    let spec = YearMonthSpec(vec![
        (YearSpec::Range(2021..=2022), MonthSpec::List(vec![Month::June, Month::January])),
        (YearSpec::Single(2021), MonthSpec::Range(Month::May..=Month::June)),
    ]);
    assert_eq!(
        spec.to_year_month(),
        vec![
            (2021, Month::January),
            (2021, Month::May),
            (2021, Month::June),
            (2022, Month::January),
            (2022, Month::June),
        ]
    );
    let other = YearMonthSpec(vec![
        (YearSpec::Single(2022), MonthSpec::List(vec![Month::January, Month::June])),
        (YearSpec::Single(2021), MonthSpec::List(vec![Month::January, Month::May, Month::June])),
    ]);
    assert_eq!(spec, other);
    assert_ne!(spec, YearMonthSpec(vec![]));
    assert_eq!(
        YearMonthSpec(vec![(YearSpec::Range(9..=1), MonthSpec::Single(Month::May))]),
        YearMonthSpec(vec![])
    );
    assert_eq!(spec.keys().len(), 5);
}

#[test]
fn date_expressions() {
    let range = DateSpec::Range(day(2022, 11, 20), day(2023, 2, 1));
    assert_eq!(
        range.to_year_month(),
        vec![
            (2022, Month::November),
            (2022, Month::December),
            (2023, Month::January),
            (2023, Month::February),
        ]
    );
    assert_eq!(DateSpec::Range(day(2023, 2, 1), day(2022, 11, 20)).to_year_month(), vec![]);
    assert_eq!(
        DateSpec::List(vec![day(2023, 2, 1), day(2022, 11, 20), day(2023, 2, 9)]).to_year_month(),
        vec![(2022, Month::November), (2023, Month::February)]
    );
    assert_eq!(DateSpec::Single(day(0, 1, 1)).to_year_month(), vec![(0, Month::January)]);
    assert_eq!(DateSpec::Single(day(2023, 2, 1)), DateSpec::Range(day(2023, 2, 1), day(2023, 2, 1)));
    assert_eq!(DateSpec::Single(day(2023, 2, 1)), DateSpec::List(vec![day(2023, 2, 1)]));
    assert_ne!(DateSpec::Single(day(2023, 2, 1)), DateSpec::Single(day(2023, 2, 2)));
    assert_eq!(
        DateSpec::Range(day(2023, 2, 27), day(2023, 3, 2)),
        DateSpec::List(vec![day(2023, 3, 1), day(2023, 2, 28), day(2023, 3, 2), day(2023, 2, 27)])
    );
    assert_ne!(
        DateSpec::Range(day(2024, 2, 27), day(2024, 3, 2)),
        DateSpec::List(vec![day(2024, 3, 1), day(2024, 2, 28), day(2024, 3, 2), day(2024, 2, 27)])
    );
    assert_eq!(DateSpec::Range(day(2023, 3, 2), day(2023, 3, 1)), DateSpec::List(vec![]));
    assert_eq!(
        DateSpec::Range(day(-1, 12, 31), day(0, 1, 1)),
        DateSpec::List(vec![day(0, 1, 1), day(-1, 12, 31)])
    );
    assert_eq!(DateSpec::Range(day(2023, 12, 30), day(2024, 1, 2)).keys().len(), 4);
}

#[test]
fn date_spans() {
    let year = DateSpan::Year(YearSpec::Single(2023));
    assert_eq!(year.to_year_month().len(), 12);
    assert_eq!(year, DateSpan::Year(YearSpec::Range(2023..=2023)));
    let months = DateSpan::YearMonth(YearMonthSpec(vec![(
        YearSpec::Single(2023),
        MonthSpec::Range(Month::January..=Month::December),
    )]));
    assert_eq!(months.to_year_month(), year.to_year_month());
    assert_ne!(months, year);
    let dates = DateSpan::Date(DateSpec::Single(day(2023, 5, 1)));
    assert_eq!(dates.to_year_month(), vec![(2023, Month::May)]);
    assert_eq!(dates, DateSpan::Date(DateSpec::List(vec![day(2023, 5, 1)])));
    assert_ne!(dates, DateSpan::Date(DateSpec::Single(day(2023, 5, 2))));
    assert_ne!(dates, year);
}

#[test]
fn queries_on_unmerged_calendars() {
    let calendar: DaysCalendar<u8> = DaysCalendar {
        days_calendar: vec![
            (2021, Month::March, vec![1]),
            (2020, Month::January, vec![2]),
            (2021, Month::March, vec![3]),
            (2021, Month::January, vec![4]),
        ],
    };
    assert_eq!(
        query_year_consolidate(2021, &calendar),
        vec![((2021, Month::March), vec![3]), ((2021, Month::January), vec![4])]
    );
    assert_eq!(query_year_consolidate(1999, &calendar), vec![]);
    assert_eq!(extract_years_calendar(&calendar), vec![2020, 2021]);
    assert_eq!(
        extract_year_month_calendar(&calendar),
        vec![(2020, Month::January), (2021, Month::January), (2021, Month::March)]
    );
    let sorted: DaysCalendar<u8> = DaysCalendar {
        days_calendar: vec![
            (2020, Month::January, vec![2]),
            (2021, Month::January, vec![4]),
            (2021, Month::March, vec![3]),
        ],
    };
    assert_eq!(extract_day_month_calendar(2021, Month::January, &sorted), Some(vec![4]));
    assert_eq!(extract_day_month_calendar(2021, Month::March, &sorted), Some(vec![3]));
    assert_eq!(extract_day_month_calendar(2020, Month::January, &sorted), Some(vec![2]));
    assert_eq!(extract_day_month_calendar(2021, Month::February, &sorted), None);
    assert_eq!(extract_day_month_calendar(2022, Month::February, &sorted), None);
    let flags = DaysCalendar::new(vec![
        (2021, Month::March, vec![O]),
        (2021, Month::March, vec![Z]),
    ]);
    assert_eq!(flags.get_days(2021, Month::March), Some(&vec![O]));
    assert_eq!(flags.get_days(2021, Month::April), None);
}

#[test]
fn sorting_is_stable() {
    let mut calendar = DaysCalendar::new_days(vec![
        (2021, Month::March, vec![9, 2, 2]),
        (2020, Month::January, vec![7]),
        (2021, Month::March, vec![1]),
        (2020, Month::January, vec![]),
    ]);
    calendar.sort();
    assert_eq!(
        calendar.days_calendar,
        vec![
            (2020, Month::January, vec![7]),
            (2020, Month::January, vec![]),
            (2021, Month::March, vec![2, 2, 9]),
            (2021, Month::March, vec![1]),
        ]
    );
    assert!(calendar.contains(2021, Month::March, 9));
    assert!(!calendar.contains(2021, Month::March, 1));
    assert!(!calendar.contains(2021, Month::April, 1));
    assert!(calendar.contains(2020, Month::January, 7));
    assert_eq!(sort_days(&vec![3, 1, 3, 2]), vec![1, 2, 3, 3]);
    assert_eq!(
        sort_by_month(vec![(2, Month::May, 'a'), (1, Month::May, 'b'), (2, Month::May, 'c')]),
        vec![(1, Month::May, 'b'), (2, Month::May, 'a'), (2, Month::May, 'c')]
    );
    assert!(lists_day(&vec![4, 5], 5));
    assert!(!lists_day(&vec![4, 5], 6));
}

#[test]
fn grouping_joins_runs_and_orders_them() {
    let calendar: DaysCalendar<u8> = DaysCalendar {
        days_calendar: vec![
            (2021, Month::March, vec![1]),
            (2021, Month::March, vec![2]),
            (2020, Month::January, vec![3]),
            (2021, Month::March, vec![4]),
        ],
    };
    assert_eq!(
        group_days_calendar(calendar),
        vec![
            (2020, Month::January, vec![vec![3]]),
            (2021, Month::March, vec![vec![1], vec![2]]),
            (2021, Month::March, vec![vec![4]]),
        ]
    );
}

#[test]
fn day_numbers_and_flags() {
    let flags = DaysCalendar::new(vec![(2023, Month::February, vec![Z, O, O, Z])]);
    let numbered = to_day::<BiDay>(flags);
    assert_eq!(numbered.days_calendar, vec![(2023, Month::February, vec![2, 3])]);
    let back = from_day(numbered);
    assert_eq!(back.days_calendar[0].2.len(), 28);
    assert_eq!(back.days_calendar[0].2[..4], [Z, O, O, Z]);
    let unsupported = DaysCalendar::new_days(vec![(0, Month::February, vec![])]);
    assert_eq!(from_day(unsupported).days_calendar, vec![(0, Month::February, vec![])]);
    let repeated = DaysCalendar::new_days(vec![(2024, Month::February, vec![29, 1, 29])]);
    let flags = from_day(repeated);
    assert_eq!(flags.days_calendar[0].2.iter().filter(|f| **f == O).count(), 2);
    assert_eq!(flags.days_calendar[0].2[28], O);
}

#[test]
fn small_helpers() {
    assert_eq!(generate_vec_days(2, Z), vec![Z, Z]);
    assert_eq!(copy_items(&vec![1, 2, 3]), vec![1, 2, 3]);
    assert!(is_leap(0));
    assert!(!is_leap(2100));
    let held = vec![(2020, Month::May, vec![1u8]), (2021, Month::May, vec![2u8])];
    assert_eq!(find_month(&held, 2019, Month::May), 0);
    assert_eq!(find_month(&held, 2020, Month::May), 0);
    assert_eq!(find_month(&held, 2020, Month::June), 1);
    assert_eq!(find_month(&held, 2021, Month::May), 1);
    assert_eq!(find_month(&held, 2022, Month::January), 2);
    let mut keys = vec![];
    for k in [5, 1, 5, 3] {
        insert_key(&mut keys, k);
    }
    assert_eq!(keys, vec![1, 3, 5]);
    assert_eq!(lower_bound(&keys, 4), 2);
    assert!(contains_key(&keys, 3));
    assert!(!contains_key(&keys, 4));
    assert!(same_keys(&keys, &vec![1, 3, 5]));
    assert!(!same_keys(&keys, &vec![1, 3]));
    assert_eq!(
        pairs_of_keys(&vec![0, 13, 786431]),
        vec![(0, Month::January), (1, Month::February), (65535, Month::December)]
    );
    assert_eq!(Month::from_index(0), None);
    assert_eq!(BiDay::from_u8(2), None);
}

#[test]
fn patterns_in_print() {
    assert_eq!(CalendarPattern::Everyday.to_string(), "Everyday");
    assert_eq!(
        CalendarPattern::Weekdays(vec![Weekday::Monday, Weekday::Sunday, Weekday::Wednesday])
            .to_string(),
        "Weekdays([Monday, Sunday, Wednesday])"
    );
    assert_eq!(CalendarPattern::Weekdays(vec![]).to_string(), "Weekdays([])");
    assert_eq!(
        CalendarPattern::CustomDays(vec![1, 15, 0, 100, 255, 9, 10]).to_string(),
        "CustomDays([1, 15, 0, 100, 255, 9, 10])"
    );
    assert_eq!(CalendarPattern::CustomBiDay(vec![Z, O, O]).to_string(), "CustomBiDay([0, 1, 1])");
    assert_eq!(
        CalendarPattern::CronPattern("0 0 * * 1".to_string()).to_string(),
        "CronPattern(\"0 0 * * 1\")"
    );
    assert!(CalendarPattern::Everyday.is_printable());
    assert!(!CalendarPattern::Nothing.is_printable());
    assert!(!CalendarPattern::OddDays.is_printable());
    assert!(!CalendarPattern::SpecificDayOfMonth(3).is_printable());
}

#[test]
fn operations_in_print() {
    let calendar = AbstractCalendar::Pattern(CalendarPattern::Everyday)
        .and(AbstractCalendar::Pattern(CalendarPattern::CustomDays(vec![1, 15])))
        .invert();
    assert!(calendar.is_printable());
    assert_eq!(
        calendar.to_string(),
        "Invert(\n    And(\n        Everyday,\n        CustomDays([1, 15])\n    )\n)"
    );
    assert_eq!(
        calendar.pretty_print(2),
        "  Invert(\n      And(\n          Everyday,\n          CustomDays([1, 15])\n      )\n  )"
    );
    let either = AbstractCalendar::Pattern(CalendarPattern::Everyday)
        .or(AbstractCalendar::Pattern(CalendarPattern::CustomBiDay(vec![O])));
    assert_eq!(either.to_string(), "Or(\n    Everyday,\n    CustomBiDay([1])\n)");
    let pattern = AbstractCalendar::Pattern(CalendarPattern::Everyday);
    assert_eq!(pattern.to_string(), "Everyday");
    assert_eq!(pattern.pretty_print(3), "   Everyday");
    let minus = CalendarOperation::Minus(
        Box::new(AbstractCalendar::Pattern(CalendarPattern::Everyday)),
        Box::new(AbstractCalendar::Pattern(CalendarPattern::OddDays)),
    );
    assert!(!minus.is_printable());
    let minus = CalendarOperation::Minus(
        Box::new(AbstractCalendar::Pattern(CalendarPattern::Everyday)),
        Box::new(AbstractCalendar::Pattern(CalendarPattern::Weekdays(vec![Weekday::Friday]))),
    );
    assert_eq!(minus.to_string(), "Minus(\n    Everyday,\n    Weekdays([Friday])\n)");
    assert_eq!(minus.pretty_print(1), " Minus(\n     Everyday,\n     Weekdays([Friday])\n )");
    assert!(matches!(
        AbstractCalendar::Pattern(CalendarPattern::Nothing).invert(),
        AbstractCalendar::Operation(CalendarOperation::Invert(_))
    ));
}

#[test]
fn equal_expressions_hash_equally() {
    let single = YearSpec::Single(2023);
    let range = YearSpec::Range(2023..=2023);
    let list = YearSpec::List([2023].into_iter().collect());
    assert_eq!(hash_of(&single), hash_of(&range));
    assert_eq!(hash_of(&single), hash_of(&list));
    assert_ne!(hash_of(&single), hash_of(&YearSpec::Single(2024)));
    let months = MonthSpec::Range(Month::March..=Month::April);
    let listed = MonthSpec::List(vec![Month::April, Month::March, Month::April]);
    assert_eq!(hash_of(&months), hash_of(&listed));
    let mut set = HashSet::new();
    set.insert((single, months));
    assert!(!set.insert((range, listed)));
    assert_eq!(set.len(), 1);
}
