use calendar_generator::calendar::{
    days_in_month, find_date, parse_month, parse_weekday, Date, Month, Weekday,
};
use calendar_generator::easter::easter_sunday;
use calendar_generator::recurrence::{EventDescriptionData, ResolveError};

fn date(year: i32, month: u32, day: u32) -> Date {
    Date { year, month, day }
}

fn nth(n: i16, weekday: Weekday, month: Option<Month>) -> EventDescriptionData {
    EventDescriptionData::NthWeekdayOfMonth { n, weekday, month }
}

#[test]
fn february_follows_the_four_year_rule() {
    assert_eq!(days_in_month(2024, Month::February), 29);
    assert_eq!(days_in_month(2023, Month::February), 28);
    assert_eq!(days_in_month(1900, Month::February), 29);
    assert_eq!(days_in_month(2024, Month::April), 30);
    assert_eq!(days_in_month(2024, Month::December), 31);
}

#[test]
fn find_date_steps_to_the_weekday() {
    // 1 March 2024 is a Friday.
    assert_eq!(find_date(2024, Month::March, 1, Weekday::Mon, 1), Some(date(2024, 3, 4)));
    assert_eq!(find_date(2024, Month::March, 1, Weekday::Fri, 1), Some(date(2024, 3, 1)));
    assert_eq!(find_date(2024, Month::March, 31, Weekday::Fri, -1), Some(date(2024, 3, 29)));
    assert_eq!(find_date(2023, Month::February, 29, Weekday::Mon, 1), None);
}

#[test]
fn weekday_of_known_dates() {
    assert_eq!(date(2024, 1, 1).weekday(), Weekday::Mon);
    assert_eq!(date(2024, 12, 25).weekday(), Weekday::Wed);
    assert_eq!(date(1, 1, 1).weekday(), Weekday::Mon);
    assert_eq!(date(2000, 2, 29).weekday(), Weekday::Tue);
}

#[test]
fn month_and_weekday_names() {
    assert_eq!(parse_month("jan"), Some(Month::January));
    assert_eq!(parse_month("DECEMBER"), Some(Month::December));
    assert_eq!(parse_month("Sept"), None);
    assert_eq!(parse_month("may"), Some(Month::May));
    assert_eq!(parse_weekday("mon"), Some(Weekday::Mon));
    assert_eq!(parse_weekday("Saturday"), Some(Weekday::Sat));
    assert_eq!(parse_weekday("mond"), None);
}

#[test]
fn fixed_date_resolves_to_itself() {
    let rule = EventDescriptionData::FixedDate { month: Month::December, day: 25 };
    assert_eq!(rule.dates(2024), Ok(vec![date(2024, 12, 25)]));
    let leap = EventDescriptionData::FixedDate { month: Month::February, day: 29 };
    assert_eq!(leap.dates(2024), Ok(vec![date(2024, 2, 29)]));
}

#[test]
fn fixed_date_that_does_not_exist_fails() {
    let rule = EventDescriptionData::FixedDate { month: Month::February, day: 30 };
    assert_eq!(
        rule.dates(2024),
        Err(ResolveError::InvalidDate { year: 2024, month: 2, day: 30 })
    );
    let leap = EventDescriptionData::FixedDate { month: Month::February, day: 29 };
    assert_eq!(
        leap.dates(1900),
        Err(ResolveError::InvalidDate { year: 1900, month: 2, day: 29 })
    );
}

#[test]
fn first_monday_of_every_month_2024() {
    let days = nth(1, Weekday::Mon, None).dates(2024).unwrap();
    let expected = [1, 5, 4, 1, 6, 3, 1, 5, 2, 7, 4, 2];
    assert_eq!(days.len(), 12);
    for (i, d) in days.iter().enumerate() {
        assert_eq!(*d, date(2024, i as u32 + 1, expected[i]));
        assert_eq!(d.weekday(), Weekday::Mon);
    }
}

#[test]
fn last_friday_of_december() {
    let rule = nth(-1, Weekday::Fri, Some(Month::December));
    assert_eq!(rule.dates(2024), Ok(vec![date(2024, 12, 27)]));
    assert_eq!(rule.dates(2021), Ok(vec![date(2021, 12, 31)]));
}

#[test]
fn fifth_monday_of_february() {
    let rule = nth(5, Weekday::Mon, Some(Month::February));
    assert_eq!(rule.dates(2024), Ok(vec![]));
    assert_eq!(rule.dates(2016), Ok(vec![date(2016, 2, 29)]));
}

#[test]
fn fifth_friday_skips_short_months() {
    // 2024 has five Fridays in March, May, August and November.
    let days = nth(5, Weekday::Fri, None).dates(2024).unwrap();
    assert_eq!(
        days,
        vec![date(2024, 3, 29), date(2024, 5, 31), date(2024, 8, 30), date(2024, 11, 29)]
    );
}

#[test]
fn counting_back_from_a_four_year_february_that_is_no_leap_year_fails() {
    let rule = nth(-1, Weekday::Mon, Some(Month::February));
    assert_eq!(
        rule.dates(1900),
        Err(ResolveError::InvalidDate { year: 1900, month: 2, day: 29 })
    );
    assert_eq!(rule.dates(2024), Ok(vec![date(2024, 2, 26)]));
}

#[test]
fn zero_weekday_index_fails() {
    assert_eq!(nth(0, Weekday::Mon, None).dates(2024), Err(ResolveError::ZeroWeekdayIndex));
}

#[test]
fn easter_sunday_dates() {
    assert_eq!(easter_sunday(2024), Ok(date(2024, 3, 31)));
    assert_eq!(easter_sunday(2016), Ok(date(2016, 3, 27)));
    assert_eq!(easter_sunday(1500), Err(ResolveError::EasterOutOfRange { year: 1500 }));
}

#[test]
fn days_after_easter() {
    let on = EventDescriptionData::DaysAfterEaster { day_offset: 0 };
    let after = EventDescriptionData::DaysAfterEaster { day_offset: 1 };
    let ash = EventDescriptionData::DaysAfterEaster { day_offset: -46 };
    assert_eq!(on.dates(2024), Ok(vec![date(2024, 3, 31)]));
    assert_eq!(after.dates(2024), Ok(vec![date(2024, 4, 1)]));
    assert_eq!(ash.dates(2024), Ok(vec![date(2024, 2, 14)]));
    assert_eq!(on.dates(10000), Err(ResolveError::EasterOutOfRange { year: 10000 }));
}

#[test]
fn fuzzy_sunday_moves_mondays_and_saturdays() {
    let fuzzy = |month, day| {
        EventDescriptionData::FuzzySunday(Box::new(EventDescriptionData::FixedDate { month, day }))
    };
    // Monday 1 January 2024 goes back to Sunday 31 December 2023.
    assert_eq!(fuzzy(Month::January, 1).dates(2024), Ok(vec![date(2023, 12, 31)]));
    // Saturday 6 January 2024 goes on to Sunday the 7th.
    assert_eq!(fuzzy(Month::January, 6).dates(2024), Ok(vec![date(2024, 1, 7)]));
    // Wednesday 3 January 2024 stays.
    assert_eq!(fuzzy(Month::January, 3).dates(2024), Ok(vec![date(2024, 1, 3)]));
    assert_eq!(date(2023, 12, 31).weekday(), Weekday::Sun);
}

#[test]
fn fuzzy_sunday_twice_is_fuzzy_sunday_once() {
    let once = EventDescriptionData::FuzzySunday(Box::new(nth(1, Weekday::Sat, None)));
    let twice = EventDescriptionData::FuzzySunday(Box::new(EventDescriptionData::FuzzySunday(
        Box::new(nth(1, Weekday::Sat, None)),
    )));
    let dates = once.dates(2024).unwrap();
    assert_eq!(twice.dates(2024).unwrap(), dates);
    for d in dates {
        assert_eq!(d.weekday(), Weekday::Sun);
    }
}

#[test]
fn fuzzy_sunday_on_the_last_date_of_the_calendar() {
    // 31 December 262142, the last date there is, is a Monday.
    assert_eq!(date(262142, 12, 31).weekday(), Weekday::Mon);
    let rule = EventDescriptionData::FuzzySunday(Box::new(EventDescriptionData::FixedDate {
        month: Month::December,
        day: 31,
    }));
    assert_eq!(rule.dates(262142), Ok(vec![date(262142, 12, 30)]));
}
