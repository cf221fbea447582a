use calendar_generator::calendar::{Month, Weekday};
use calendar_generator::parser::{
    parse_calendar_text, DocumentError, EventDescription, GroupId, ParseError,
};
use calendar_generator::recurrence::EventDescriptionData;

#[test]
fn ash_wednesday_line() {
    let g = GroupId::Group(3);
    let e = EventDescription::parse("ho repl -46 easter Ash Wednesday", g).unwrap();
    assert_eq!(e.title, "Ash Wednesday");
    assert_eq!(e.group_id, g);
    assert_eq!(
        e.data,
        EventDescriptionData::FuzzySunday(Box::new(EventDescriptionData::DaysAfterEaster {
            day_offset: -46
        }))
    );
}

#[test]
fn new_years_day_line() {
    let e = EventDescription::parse("1 jan New Year's Day", GroupId::Group(0)).unwrap();
    assert_eq!(e.title, "New Year's Day");
    assert_eq!(e.data, EventDescriptionData::FixedDate { month: Month::January, day: 1 });
}

#[test]
fn weekday_and_month_categories() {
    let g = GroupId::NoGroup;
    let e = EventDescription::parse("1 mon/jan New Year Bank Holiday", g).unwrap();
    assert_eq!(e.title, "New Year Bank Holiday");
    assert_eq!(
        e.data,
        EventDescriptionData::NthWeekdayOfMonth {
            n: 1,
            weekday: Weekday::Mon,
            month: Some(Month::January)
        }
    );
    let e = EventDescription::parse("-1\tFriday \t Payday  ", g).unwrap();
    assert_eq!(e.title, "Payday");
    assert_eq!(
        e.data,
        EventDescriptionData::NthWeekdayOfMonth { n: -1, weekday: Weekday::Fri, month: None }
    );
    let e = EventDescription::parse("+2 EASTER Easter Tuesday", g).unwrap();
    assert_eq!(e.data, EventDescriptionData::DaysAfterEaster { day_offset: 2 });
}

#[test]
fn prefix_is_case_insensitive_and_repeatable() {
    let e = EventDescription::parse("HO REPL ho repl 5 may Day", GroupId::NoGroup).unwrap();
    assert_eq!(e.title, "Day");
    assert_eq!(
        e.data,
        EventDescriptionData::FuzzySunday(Box::new(EventDescriptionData::FuzzySunday(Box::new(
            EventDescriptionData::FixedDate { month: Month::May, day: 5 }
        ))))
    );
}

#[test]
fn malformed_lines_are_refused() {
    let g = GroupId::NoGroup;
    assert_eq!(EventDescription::parse("1 jan", g), Err(ParseError::InvalidEvent));
    assert_eq!(EventDescription::parse("", g), Err(ParseError::InvalidEvent));
    assert_eq!(EventDescription::parse("ho", g), Err(ParseError::InvalidEvent));
    assert_eq!(EventDescription::parse("ho repl", g), Err(ParseError::InvalidEvent));
    assert_eq!(EventDescription::parse("1 foo Title", g), Err(ParseError::InvalidEvent));
    assert_eq!(EventDescription::parse("1 mon/foo Title", g), Err(ParseError::InvalidEvent));
    assert_eq!(EventDescription::parse("x jan Title", g), Err(ParseError::InvalidIndex));
    assert_eq!(EventDescription::parse("40000 jan Title", g), Err(ParseError::InvalidIndex));
    assert_eq!(EventDescription::parse("- jan Title", g), Err(ParseError::InvalidIndex));
    assert_eq!(
        EventDescription::parse("-1 jan Title", g),
        Err(ParseError::InvalidDayOfMonth { month: Month::January, index: -1 })
    );
}

#[test]
fn index_bounds() {
    let g = GroupId::NoGroup;
    let e = EventDescription::parse("-32768 easter Far", g).unwrap();
    assert_eq!(e.data, EventDescriptionData::DaysAfterEaster { day_offset: -32768 });
    let e = EventDescription::parse("32767 easter Far", g).unwrap();
    assert_eq!(e.data, EventDescriptionData::DaysAfterEaster { day_offset: 32767 });
    assert_eq!(EventDescription::parse("32768 easter Far", g), Err(ParseError::InvalidIndex));
}

#[test]
fn document_with_groups() {
    let text = "[Holidays]\n25 dec Christmas\n1 mon/jan New Year Bank Holiday\n\n[Work: color: red]\r\n  -1 fri Payday\n";
    let groups = parse_calendar_text(text).unwrap();
    assert_eq!(groups.len(), 2);
    assert_eq!(groups[0].id, GroupId::Group(0));
    assert_eq!(groups[0].title, "Holidays");
    assert_eq!(groups[0].style, None);
    assert!(!groups[0].is_selected);
    assert_eq!(groups[0].events.len(), 2);
    assert_eq!(groups[0].events[0].title, "Christmas");
    assert_eq!(groups[0].events[0].group_id, GroupId::Group(0));
    assert_eq!(groups[1].id, GroupId::Group(1));
    assert_eq!(groups[1].title, "Work");
    assert_eq!(groups[1].style, Some(" color: red".to_string()));
    assert_eq!(groups[1].events.len(), 1);
    assert_eq!(groups[1].events[0].group_id, GroupId::Group(1));
}

#[test]
fn event_before_any_group_is_refused() {
    assert_eq!(
        parse_calendar_text("25 dec Christmas\n[Holidays]\n"),
        Err(DocumentError::EventBeforeGroup { line: 1 })
    );
    assert_eq!(
        parse_calendar_text("\n  \n25 dec Christmas\n"),
        Err(DocumentError::EventBeforeGroup { line: 3 })
    );
}

#[test]
fn unclosed_group_title_is_refused() {
    assert_eq!(
        parse_calendar_text("[Holidays]\n[Work\n"),
        Err(DocumentError::UnclosedGroupTitle { line: 2 })
    );
    assert_eq!(parse_calendar_text("["), Err(DocumentError::UnclosedGroupTitle { line: 1 }));
}

#[test]
fn bad_event_line_reports_its_line() {
    assert_eq!(
        parse_calendar_text("[A]\n1 jan One\n1 foo Two\n"),
        Err(DocumentError::InvalidEvent { line: 3, error: ParseError::InvalidEvent })
    );
}

#[test]
fn empty_document_has_no_groups() {
    assert_eq!(parse_calendar_text("").unwrap().len(), 0);
    assert_eq!(parse_calendar_text("\n\n").unwrap().len(), 0);
}
