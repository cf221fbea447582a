use calendar_generator::calendar::{Month, Weekday};
use calendar_generator::import::{import_line, ImportError};
use calendar_generator::layout::{
    diary, events_for, layout_calendar, monthly_calendar, resolve_groups, selected_styles,
    yearly_calendar, CalendarCell, CalendarLayout, DiaryCell, EventWithGroupId, Output,
    YearlyCalendarDay,
};
use calendar_generator::parser::{parse_calendar_text, GroupId};
use calendar_generator::recurrence::ResolveError;

const HOLIDAYS: &str = "[Holidays]\n25 dec Christmas\n1 mon/jan New Year Bank Holiday\n";

fn events_2024() -> Vec<calendar_generator::layout::ResolvedEvent> {
    let mut groups = parse_calendar_text(HOLIDAYS).unwrap();
    groups[0].is_selected = true;
    resolve_groups(&groups, 2024).unwrap()
}

#[test]
fn holidays_scenario_2024() {
    let rs = events_2024();
    assert_eq!(rs.len(), 2);
    assert_eq!((rs[0].month, rs[0].day), (12, 25));
    assert_eq!(rs[0].title, "Christmas");
    assert_eq!((rs[1].month, rs[1].day), (1, 1));
    assert_eq!(rs[1].title, "New Year Bank Holiday");
    let rows = monthly_calendar(2024, &rs).unwrap();
    let february_days = rows[1].iter().filter(|c| matches!(c, CalendarCell::Day { .. })).count();
    assert_eq!(february_days, 29);
}

#[test]
fn unselected_groups_give_no_events() {
    let groups = parse_calendar_text(HOLIDAYS).unwrap();
    assert_eq!(resolve_groups(&groups, 2024).unwrap().len(), 0);
}

#[test]
fn resolution_failure_stops_the_layout() {
    let mut groups = parse_calendar_text("[A]\n30 feb Never\n").unwrap();
    groups[0].is_selected = true;
    assert_eq!(
        resolve_groups(&groups, 2024),
        Err(ResolveError::InvalidDate { year: 2024, month: 2, day: 30 })
    );
    assert_eq!(
        layout_calendar(&groups, 2024, Output::Diary),
        Err(ResolveError::InvalidDate { year: 2024, month: 2, day: 30 })
    );
}

#[test]
fn events_of_a_day() {
    let rs = events_2024();
    let christmas = events_for(&rs, 12, 25);
    assert_eq!(
        christmas,
        vec![EventWithGroupId { title: "Christmas".to_string(), group_id: GroupId::Group(0) }]
    );
    assert!(events_for(&rs, 12, 24).is_empty());
}

#[test]
fn monthly_grid_has_forty_cells_and_a_label() {
    let rs = events_2024();
    let rows = monthly_calendar(2024, &rs).unwrap();
    assert_eq!(rows.len(), 12);
    for (i, row) in rows.iter().enumerate() {
        assert_eq!(row.len(), 41);
        match &row[40] {
            CalendarCell::MonthAndYear { month, year } => {
                assert_eq!(month.number_from_month(), i as u32 + 1);
                assert_eq!(*year, 2024);
            }
            _ => panic!("no label"),
        }
    }
    // January 2024 starts on a Monday, February on a Thursday.
    assert!(matches!(rows[0][0], CalendarCell::Day { day: 1, .. }));
    assert!(matches!(rows[0][31], CalendarCell::Empty));
    assert!(matches!(rows[1][2], CalendarCell::Empty));
    assert!(matches!(rows[1][3], CalendarCell::Day { day: 1, .. }));
    assert!(matches!(rows[1][31], CalendarCell::Day { day: 29, .. }));
    assert!(matches!(rows[1][32], CalendarCell::Empty));
    // 25 December 2024 is a Wednesday; 1 December a Sunday.
    match &rows[11][6 + 24] {
        CalendarCell::Day { day, events } => {
            assert_eq!(*day, 25);
            assert_eq!(events.len(), 1);
            assert_eq!(events[0].title, "Christmas");
        }
        _ => panic!("no day"),
    }
}

#[test]
fn monthly_grid_out_of_range_year_fails() {
    assert_eq!(
        monthly_calendar(300000, &Vec::new()),
        Err(ResolveError::InvalidDate { year: 300000, month: 1, day: 1 })
    );
}

#[test]
fn yearly_grid_has_thirty_seven_rows() {
    let rs = events_2024();
    let c = yearly_calendar(2024, &rs, false).unwrap();
    assert_eq!(c.pages.len(), 1);
    assert_eq!(c.title(), "Year");
    assert_eq!(c.body_class(), "fullyear");
    assert_eq!(c.weekday_titles.len(), 37);
    assert_eq!(c.weekday_titles[0], Weekday::Mon);
    assert_eq!(c.weekday_titles[35], Weekday::Mon);
    assert_eq!(c.weekday_titles[36], Weekday::Tue);
    assert_eq!(c.pages[0].months.len(), 12);
    for m in &c.pages[0].months {
        assert_eq!(m.days.len(), 37);
    }
    // September 2024 starts on a Sunday: six empty rows first.
    let september = &c.pages[0].months[8];
    assert_eq!(september.month, Month::September);
    assert!(matches!(september.days[5], YearlyCalendarDay::Empty { weekday: Weekday::Sat }));
    assert!(matches!(
        september.days[6],
        YearlyCalendarDay::Day { weekday: Weekday::Sun, day: 1, .. }
    ));
    assert_eq!(september.days[6].background_class(), "shadedBackground");
    assert_eq!(september.days[7].background_class(), "");
}

#[test]
fn half_year_grid_has_two_pages() {
    let c = yearly_calendar(2024, &Vec::new(), true).unwrap();
    assert_eq!(c.title(), "Half-Year");
    assert_eq!(c.body_class(), "halfyear");
    assert_eq!(c.pages.len(), 2);
    assert_eq!(c.pages[0].months.len(), 6);
    assert_eq!(c.pages[1].months.len(), 6);
    assert_eq!(c.pages[0].months[0].month, Month::January);
    assert_eq!(c.pages[1].months[0].month, Month::July);
    for p in &c.pages {
        for m in &p.months {
            assert_eq!(m.days.len(), 37);
        }
    }
}

#[test]
fn diary_pages_hold_sixteen_cells() {
    let rs = events_2024();
    let rows = diary(2024, &rs).unwrap();
    assert_eq!(rows.len(), 3);
    for row in &rows {
        assert_eq!(row.len(), 8);
        for page in row {
            assert_eq!(page.cells.len(), 16);
        }
    }
    assert_eq!(rows[0][0].month, Month::January);
    assert_eq!(rows[0][1].month, Month::January);
    assert_eq!(rows[0][2].month, Month::February);
    assert_eq!(rows[2][7].month, Month::December);
    // January: days 1 to 16, then 17 to 31 and one empty cell.
    match &rows[0][0].cells[0] {
        DiaryCell::Day { weekday, day, events } => {
            assert_eq!(*weekday, Weekday::Mon);
            assert_eq!(*day, 1);
            assert_eq!(events[0].title, "New Year Bank Holiday");
        }
        _ => panic!("no day"),
    }
    assert!(matches!(rows[0][1].cells[14], DiaryCell::Day { day: 31, .. }));
    assert!(matches!(rows[0][1].cells[15], DiaryCell::Empty));
    // February 2024: 29 days, three empty cells.
    assert!(matches!(rows[0][3].cells[12], DiaryCell::Day { day: 29, .. }));
    assert!(matches!(rows[0][3].cells[13], DiaryCell::Empty));
}

#[test]
fn diary_of_a_four_year_february_that_is_no_leap_year_fails() {
    assert_eq!(
        diary(1900, &Vec::new()),
        Err(ResolveError::InvalidDate { year: 1900, month: 2, day: 29 })
    );
    assert_eq!(
        diary(-300000, &Vec::new()),
        Err(ResolveError::InvalidDate { year: -300000, month: 1, day: 1 })
    );
}

#[test]
fn layout_request_keeps_selected_styles() {
    let mut groups =
        parse_calendar_text("[A: color: red]\n1 jan One\n[B: color: blue]\n2 jan Two\n[C]\n3 jan Three\n")
            .unwrap();
    groups[1].is_selected = true;
    groups[2].is_selected = true;
    let styles = selected_styles(&groups);
    assert_eq!(styles, vec![(GroupId::Group(1), " color: blue".to_string())]);
    let page = layout_calendar(&groups, 2024, Output::MonthlyCalendar).unwrap();
    assert_eq!(page.styles, styles);
    match page.layout {
        CalendarLayout::Monthly(rows) => {
            // 2 January 2024 is a Tuesday, in cell 1 of January.
            match &rows[0][1] {
                CalendarCell::Day { day, events } => {
                    assert_eq!(*day, 2);
                    assert_eq!(events[0].title, "Two");
                    assert_eq!(events[0].group_id, GroupId::Group(1));
                }
                _ => panic!("no day"),
            }
        }
        _ => panic!("wrong layout"),
    }
}

#[test]
fn import_lines() {
    assert_eq!(import_line("01-jan\tNew Year"), Ok(Some("1 jan New Year\r\n".to_string())));
    assert_eq!(import_line("  25 - dec \t Christmas Day "), Ok(Some("25 dec Christmas Day\r\n".to_string())));
    assert_eq!(import_line("no tab here"), Ok(None));
    assert_eq!(import_line("01-jan\t  "), Ok(None));
    assert_eq!(import_line("01 jan\tTitle"), Err(ImportError::MissingDash));
}
