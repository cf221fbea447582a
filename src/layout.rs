//! Laying out a year's events: the events of each day, the group styles in
//! use, and the monthly, yearly and diary grids.
use vstd::prelude::*;

use crate::calendar::{
    Date, MAX_YEAR, MIN_YEAR, Month, Weekday, date_from_ymd, days_in_month, is_gregorian_leap,
    month_length, month_of,
};
use crate::parser::{EventDescription, EventGroupDescription, GroupId};
use crate::recurrence::{ResolveError, resolve};

verus! {

/// An event as a calendar day shows it: its title and its group.
#[derive(Debug, PartialEq, Eq)]
pub struct EventWithGroupId {
    pub title: String,
    pub group_id: GroupId,
}

impl Default for EventWithGroupId {
    fn default() -> (r: EventWithGroupId)
        ensures
            r.title@ == Seq::<char>::empty(),
            r.group_id == GroupId::NoGroup,
    {
        EventWithGroupId { title: String::new(), group_id: GroupId::NoGroup }
    }
}

/// One date of one event in the year being laid out.
#[derive(Debug, PartialEq, Eq)]
pub struct ResolvedEvent {
    pub month: u32,
    pub day: u32,
    pub title: String,
    pub group_id: GroupId,
}

/// The dates of one event, in the order of its rule.
#[verifier::opaque]
pub open spec fn event_entries(e: EventDescription, year: i32) -> Result<
    Seq<ResolvedEvent>,
    ResolveError,
> {
    match resolve(e.data, year) {
        Err(x) => Err(x),
        Ok(ds) => Ok(
            ds.map_values(
                |d: Date|
                    ResolvedEvent { month: d.month, day: d.day, title: e.title, group_id: e.group_id },
            ),
        ),
    }
}

/// The dates of a list of events, event after event.
pub open spec fn events_entries(es: Seq<EventDescription>, year: i32) -> Result<
    Seq<ResolvedEvent>,
    ResolveError,
>
    decreases es.len(),
{
    if es.len() == 0 {
        Ok(seq![])
    } else {
        match events_entries(es.drop_last(), year) {
            Err(x) => Err(x),
            Ok(acc) => match event_entries(es.last(), year) {
                Err(x) => Err(x),
                Ok(more) => Ok(acc + more),
            },
        }
    }
}

/// The dates of the events of the chosen groups, group after group: the
/// first failure, or all of them.
pub open spec fn groups_entries(gs: Seq<EventGroupDescription>, year: i32) -> Result<
    Seq<ResolvedEvent>,
    ResolveError,
>
    decreases gs.len(),
{
    if gs.len() == 0 {
        Ok(seq![])
    } else {
        match groups_entries(gs.drop_last(), year) {
            Err(x) => Err(x),
            Ok(acc) => if gs.last().is_selected {
                match events_entries(gs.last().events@, year) {
                    Err(x) => Err(x),
                    Ok(more) => Ok(acc + more),
                }
            } else {
                Ok(acc)
            },
        }
    }
}

/// The events on `month`/`day`, in the order they were resolved.
pub open spec fn events_on(rs: Seq<ResolvedEvent>, month: int, day: int) -> Seq<EventWithGroupId>
    decreases rs.len(),
{
    if rs.len() == 0 {
        seq![]
    } else {
        let acc = events_on(rs.drop_last(), month, day);
        let r = rs.last();
        if r.month == month && r.day == day {
            acc.push(EventWithGroupId { title: r.title, group_id: r.group_id })
        } else {
            acc
        }
    }
}

/// The styles of the chosen groups that declare one, in group order.
pub open spec fn styles_of(gs: Seq<EventGroupDescription>) -> Seq<(GroupId, Seq<char>)>
    decreases gs.len(),
{
    if gs.len() == 0 {
        seq![]
    } else {
        let acc = styles_of(gs.drop_last());
        let g = gs.last();
        match g.style {
            Some(s) => if g.is_selected {
                acc.push((g.id, s@))
            } else {
                acc
            },
            None => acc,
        }
    }
}

pub open spec fn entries_view(r: Result<Vec<ResolvedEvent>, ResolveError>) -> Result<
    Seq<ResolvedEvent>,
    ResolveError,
> {
    match r {
        Ok(v) => Ok(v@),
        Err(e) => Err(e),
    }
}

proof fn lemma_events_error_stays(es: Seq<EventDescription>, year: i32, j: int)
    requires
        0 <= j <= es.len(),
        events_entries(es.take(j), year) is Err,
    ensures
        events_entries(es, year) == events_entries(es.take(j), year),
    decreases es.len(),
{
    if j == es.len() {
        assert(es.take(j) == es);
    } else {
        assert(es.drop_last().take(j) == es.take(j));
        lemma_events_error_stays(es.drop_last(), year, j);
    }
}

proof fn lemma_groups_error_stays(gs: Seq<EventGroupDescription>, year: i32, j: int)
    requires
        0 <= j <= gs.len(),
        groups_entries(gs.take(j), year) is Err,
    ensures
        groups_entries(gs, year) == groups_entries(gs.take(j), year),
    decreases gs.len(),
{
    if j == gs.len() {
        assert(gs.take(j) == gs);
    } else {
        assert(gs.drop_last().take(j) == gs.take(j));
        lemma_groups_error_stays(gs.drop_last(), year, j);
    }
}

/// Appends the dates of one event to `out`.
fn push_event_dates(e: &EventDescription, year: i32, out: &mut Vec<ResolvedEvent>) -> (r: Result<
    (),
    ResolveError,
>)
    ensures
        match r {
            Ok(()) => event_entries(*e, year) is Ok && final(out)@ == old(out)@ + event_entries(
                *e,
                year,
            )->Ok_0,
            Err(x) => event_entries(*e, year) == Err::<Seq<ResolvedEvent>, ResolveError>(x),
        },
{
    proof {
        reveal(event_entries);
    }
    let dates = match e.data.dates(year) {
        Ok(ds) => ds,
        Err(x) => {
            return Err(x);
        },
    };
    let ghost start = out@;
    let ghost entries = dates@.map_values(
        |d: Date| ResolvedEvent { month: d.month, day: d.day, title: e.title, group_id: e.group_id },
    );
    let mut i: usize = 0;
    while i < dates.len()
        invariant
            0 <= i <= dates.len(),
            entries.len() == dates@.len(),
            entries == dates@.map_values(
                |d: Date|
                    ResolvedEvent {
                        month: d.month,
                        day: d.day,
                        title: e.title,
                        group_id: e.group_id,
                    },
            ),
            out@ == start + entries.take(i as int),
        decreases dates.len() - i,
    {
        let d = dates[i];
        out.push(ResolvedEvent { month: d.month, day: d.day, title: e.title.clone(), group_id: e.group_id });
        assert(entries.take(i + 1) == entries.take(i as int).push(entries[i as int]));
        i = i + 1;
    }
    assert(entries.take(i as int) == entries);
    Ok(())
}

/// Appends the dates of a group's events to `out`, event after event.
fn push_group_dates(g: &EventGroupDescription, year: i32, out: &mut Vec<ResolvedEvent>) -> (r:
    Result<(), ResolveError>)
    ensures
        match r {
            Ok(()) => events_entries(g.events@, year) is Ok && final(out)@ == old(out)@
                + events_entries(g.events@, year)->Ok_0,
            Err(x) => events_entries(g.events@, year) == Err::<Seq<ResolvedEvent>, ResolveError>(
                x,
            ),
        },
{
    let ghost before = out@;
    let mut i: usize = 0;
    assert(g.events@.take(0) == Seq::<EventDescription>::empty());
    assert(before + Seq::<ResolvedEvent>::empty() == before);
    while i < g.events.len()
        invariant
            0 <= i <= g.events.len(),
            events_entries(g.events@.take(i as int), year) is Ok,
            out@ == before + events_entries(g.events@.take(i as int), year)->Ok_0,
        decreases g.events.len() - i,
    {
        assert(g.events@.take(i + 1).drop_last() == g.events@.take(i as int));
        assert(g.events@.take(i + 1).last() == g.events@[i as int]);
        match push_event_dates(&g.events[i], year, out) {
            Ok(()) => {},
            Err(x) => {
                proof {
                    lemma_events_error_stays(g.events@, year, i + 1);
                }
                return Err(x);
            },
        }
        i = i + 1;
    }
    assert(g.events@.take(i as int) == g.events@);
    Ok(())
}

/// The dates of every event of the chosen groups in `year`, group after
/// group and event after event. The first rule that fails stops the whole
/// resolution with its error.
pub fn resolve_groups(groups: &Vec<EventGroupDescription>, year: i32) -> (r: Result<
    Vec<ResolvedEvent>,
    ResolveError,
>)
    ensures
        entries_view(r) == groups_entries(groups@, year),
{
    let mut out: Vec<ResolvedEvent> = Vec::new();
    let mut i: usize = 0;
    while i < groups.len()
        invariant
            0 <= i <= groups.len(),
            groups_entries(groups@.take(i as int), year) == Ok::<
                Seq<ResolvedEvent>,
                ResolveError,
            >(out@),
        decreases groups.len() - i,
    {
        let g = &groups[i];
        assert(groups@.take(i + 1).drop_last() == groups@.take(i as int));
        assert(groups@.take(i + 1).last() == *g);
        if g.is_selected {
            match push_group_dates(g, year, &mut out) {
                Ok(()) => {},
                Err(x) => {
                    proof {
                        lemma_groups_error_stays(groups@, year, i + 1);
                    }
                    return Err(x);
                },
            }
        }
        i = i + 1;
    }
    assert(groups@.take(i as int) == groups@);
    Ok(out)
}

/// The events on `month`/`day`, in the order they were resolved.
pub fn events_for(rs: &Vec<ResolvedEvent>, month: u32, day: u32) -> (r: Vec<EventWithGroupId>)
    ensures
        r@ == events_on(rs@, month as int, day as int),
{
    let mut out: Vec<EventWithGroupId> = Vec::new();
    let mut i: usize = 0;
    while i < rs.len()
        invariant
            0 <= i <= rs.len(),
            out@ == events_on(rs@.take(i as int), month as int, day as int),
        decreases rs.len() - i,
    {
        assert(rs@.take(i + 1).drop_last() == rs@.take(i as int));
        assert(rs@.take(i + 1).last() == rs@[i as int]);
        let r = &rs[i];
        if r.month == month && r.day == day {
            out.push(EventWithGroupId { title: r.title.clone(), group_id: r.group_id });
        }
        i = i + 1;
    }
    assert(rs@.take(i as int) == rs@);
    out
}

/// The styles of the chosen groups that declare one, in group order.
pub fn selected_styles(groups: &Vec<EventGroupDescription>) -> (r: Vec<(GroupId, String)>)
    ensures
        r@.len() == styles_of(groups@).len(),
        forall|i: int|
            0 <= i < r@.len() ==> r@[i].0 == styles_of(groups@)[i].0 && (#[trigger] r@[i]).1@
                == styles_of(groups@)[i].1,
{
    let mut out: Vec<(GroupId, String)> = Vec::new();
    let mut i: usize = 0;
    while i < groups.len()
        invariant
            0 <= i <= groups.len(),
            out@.len() == styles_of(groups@.take(i as int)).len(),
            forall|j: int|
                0 <= j < out@.len() ==> out@[j].0 == styles_of(groups@.take(i as int))[j].0 && (
                #[trigger] out@[j]).1@ == styles_of(groups@.take(i as int))[j].1,
        decreases groups.len() - i,
    {
        assert(groups@.take(i + 1).drop_last() == groups@.take(i as int));
        assert(groups@.take(i + 1).last() == groups@[i as int]);
        let g = &groups[i];
        if g.is_selected {
            match &g.style {
                Some(s) => {
                    out.push((g.id, s.clone()));
                },
                None => {},
            }
        }
        i = i + 1;
    }
    assert(groups@.take(i as int) == groups@);
    out
}


// ---------------------------------------------------------------------------
// Grids

/// The number of day cells in each month of the monthly grid.
pub const MONTH_CELLS: usize = 40;

/// The number of rows in each month's column of the yearly grid.
pub const ROWS_COUNT: usize = 37;

/// The number of day cells on a diary page.
pub const DIARY_PAGE_CELLS: usize = 16;

/// A cell of the monthly grid.
#[derive(Debug, PartialEq, Eq)]
pub enum CalendarCell {
    Empty,
    Day { day: u32, events: Vec<EventWithGroupId> },
    MonthAndYear { month: Month, year: i32 },
}

/// A row of the yearly grid for one month.
#[derive(Debug, PartialEq, Eq)]
pub enum YearlyCalendarDay {
    Empty { weekday: Weekday },
    Day { weekday: Weekday, day: u32, events: Vec<EventWithGroupId> },
}

#[derive(Debug, PartialEq, Eq)]
pub struct YearlyCalendarMonth {
    pub month: Month,
    pub days: Vec<YearlyCalendarDay>,
}

#[derive(Debug, PartialEq, Eq)]
pub struct YearlyCalendarPage {
    pub months: Vec<YearlyCalendarMonth>,
}

/// The yearly grid: all twelve months on one page, or split over two pages
/// of six months.
#[derive(Debug, PartialEq, Eq)]
pub struct YearlyCalendar {
    pub split_in_two: bool,
    pub year: i32,
    pub weekday_titles: Vec<Weekday>,
    pub pages: Vec<YearlyCalendarPage>,
}

/// A cell of a diary page.
#[derive(Debug, PartialEq, Eq)]
pub enum DiaryCell {
    Empty,
    Day { weekday: Weekday, day: u32, events: Vec<EventWithGroupId> },
}

/// A diary page: part of one month.
#[derive(Debug, PartialEq, Eq)]
pub struct DiaryPage {
    pub month: Month,
    pub cells: Vec<DiaryCell>,
}

/// The months on each page of the yearly grid.
pub open spec fn months_per_page(split_in_two: bool) -> int {
    if split_in_two {
        6
    } else {
        12
    }
}

/// The weekday of the first of the month, as days since Monday.
pub open spec fn month_offset(year: i32, month: int) -> int {
    (Date { year, month: month as u32, day: 1 }).weekday_index()
}

/// Cell `j` of a month's run of cells: empty before the first of the month
/// (at `offset`) and after its last day, else that day with its events.
pub open spec fn month_cell_is(
    cell: CalendarCell,
    j: int,
    year: i32,
    month: int,
    rs: Seq<ResolvedEvent>,
) -> bool {
    let offset = month_offset(year, month);
    if offset <= j < offset + month_length(year as int, month) {
        cell matches CalendarCell::Day { day, events } && day == j - offset + 1 && events@
            == events_on(rs, month, j - offset + 1)
    } else {
        cell is Empty
    }
}

/// A month of the monthly grid: forty day or empty cells and a final label.
pub open spec fn monthly_row_is(row: Seq<CalendarCell>, year: i32, month: int, rs: Seq<ResolvedEvent>) -> bool {
    &&& row.len() == MONTH_CELLS + 1
    &&& forall|j: int| 0 <= j < MONTH_CELLS ==> month_cell_is(#[trigger] row[j], j, year, month, rs)
    &&& row[MONTH_CELLS as int] == CalendarCell::MonthAndYear { month: month_of(month), year }
}

/// Row `j` of a month's column in the yearly grid.
pub open spec fn yearly_day_is(
    cell: YearlyCalendarDay,
    j: int,
    year: i32,
    month: int,
    rs: Seq<ResolvedEvent>,
) -> bool {
    let offset = month_offset(year, month);
    if offset <= j < offset + month_length(year as int, month) {
        cell matches YearlyCalendarDay::Day { weekday, day, events } && weekday.index() == j % 7
            && day == j - offset + 1 && events@ == events_on(rs, month, j - offset + 1)
    } else {
        cell matches YearlyCalendarDay::Empty { weekday } && weekday.index() == j % 7
    }
}

/// A month's column of the yearly grid: thirty-seven rows, aligned by
/// weekday from a Monday.
pub open spec fn yearly_month_is(m: YearlyCalendarMonth, year: i32, month: int, rs: Seq<ResolvedEvent>) -> bool {
    &&& m.month == month_of(month)
    &&& m.days@.len() == ROWS_COUNT
    &&& forall|j: int| 0 <= j < ROWS_COUNT ==> yearly_day_is(#[trigger] m.days@[j], j, year, month, rs)
}

/// Cell `k` of a month's diary pages: its day `k + 1` where the month has
/// one, else empty.
pub open spec fn diary_cell_is(cell: DiaryCell, k: int, year: i32, month: int, rs: Seq<ResolvedEvent>) -> bool {
    if k < month_length(year as int, month) {
        cell matches DiaryCell::Day { weekday, day, events } && weekday.index() == (Date {
            year,
            month: month as u32,
            day: (k + 1) as u32,
        }).weekday_index() && day == k + 1 && events@ == events_on(rs, month, k + 1)
    } else {
        cell is Empty
    }
}

/// Page `half` (0 or 1) of a month in the diary: sixteen cells.
pub open spec fn diary_page_is(page: DiaryPage, year: i32, month: int, half: int, rs: Seq<ResolvedEvent>) -> bool {
    &&& page.month == month_of(month)
    &&& page.cells@.len() == DIARY_PAGE_CELLS
    &&& forall|c: int|
        0 <= c < DIARY_PAGE_CELLS ==> diary_cell_is(
            #[trigger] page.cells@[c],
            DIARY_PAGE_CELLS * half + c,
            year,
            month,
            rs,
        )
}

/// The monthly grid: one row per month, in order.
pub open spec fn monthly_grid_is(rows: Seq<Vec<CalendarCell>>, year: i32, rs: Seq<ResolvedEvent>) -> bool {
    &&& rows.len() == 12
    &&& forall|i: int| 0 <= i < 12 ==> monthly_row_is(#[trigger] rows[i]@, year, i + 1, rs)
}

/// The yearly grid: each month's column on its page, in order.
pub open spec fn yearly_grid_is(c: YearlyCalendar, year: i32, split_in_two: bool, rs: Seq<ResolvedEvent>) -> bool {
    &&& c.year == year
    &&& c.split_in_two == split_in_two
    &&& c.weekday_titles@.len() == ROWS_COUNT
    &&& forall|j: int| 0 <= j < ROWS_COUNT ==> (#[trigger] c.weekday_titles@[j]).index() == j % 7
    &&& c.pages@.len() == (if split_in_two {
        2int
    } else {
        1
    })
    &&& forall|p: int|
        0 <= p < c.pages@.len() ==> (#[trigger] c.pages@[p]).months@.len() == months_per_page(
            split_in_two,
        )
    &&& forall|p: int, k: int|
        0 <= p < c.pages@.len() && 0 <= k < months_per_page(split_in_two) ==> yearly_month_is(
            #[trigger] c.pages@[p].months@[k],
            year,
            p * months_per_page(split_in_two) + k + 1,
            rs,
        )
}

/// The diary: three rows of eight pages, two pages per month in order.
pub open spec fn diary_grid_is(rows: Seq<Vec<DiaryPage>>, year: i32, rs: Seq<ResolvedEvent>) -> bool {
    &&& rows.len() == 3
    &&& forall|i: int| 0 <= i < 3 ==> (#[trigger] rows[i])@.len() == 8
    &&& forall|i: int, p: int|
        0 <= i < 3 && 0 <= p < 8 ==> diary_page_is(
            #[trigger] rows[i]@[p],
            year,
            (8 * i + p) / 2 + 1,
            (8 * i + p) % 2,
            rs,
        )
}

/// Every day of every month under this calendar's leap rule is a date:
/// the year is in range, and a year divisible by four is a leap year.
pub open spec fn all_month_days_exist(year: i32) -> bool {
    &&& MIN_YEAR <= year <= MAX_YEAR
    &&& (year % 4 != 0 || is_gregorian_leap(year as int))
}

/// The weekday of the first of `month`, as days since Monday.
fn first_weekday(year: i32, month: Month) -> (r: Result<usize, ResolveError>)
    ensures
        r is Ok <==> MIN_YEAR <= year <= MAX_YEAR,
        r matches Ok(o) ==> o as int == month_offset(year, month.number()) && o < 7,
        r matches Err(e) ==> e == (ResolveError::InvalidDate {
            year,
            month: month.number() as u32,
            day: 1,
        }),
{
    let m = month.number_from_month();
    match date_from_ymd(year, m, 1) {
        Some(d) => Ok(d.weekday().num_days_from_monday() as usize),
        None => Err(ResolveError::InvalidDate { year, month: m, day: 1 }),
    }
}

/// One month of the monthly grid.
fn monthly_row(year: i32, month: Month, rs: &Vec<ResolvedEvent>) -> (r: Result<
    Vec<CalendarCell>,
    ResolveError,
>)
    ensures
        r is Ok <==> MIN_YEAR <= year <= MAX_YEAR,
        r matches Ok(row) ==> monthly_row_is(row@, year, month.number(), rs@),
        r matches Err(e) ==> e == (ResolveError::InvalidDate {
            year,
            month: month.number() as u32,
            day: 1,
        }),
{
    let offset = match first_weekday(year, month) {
        Ok(o) => o,
        Err(e) => {
            return Err(e);
        },
    };
    let length = days_in_month(year, month) as usize;
    let m = month.number_from_month();
    let mut row: Vec<CalendarCell> = Vec::new();
    let mut j: usize = 0;
    while j < MONTH_CELLS
        invariant
            j <= MONTH_CELLS,
            row@.len() == j,
            offset as int == month_offset(year, m as int),
            m as int == month.number(),
            length as int == month_length(year as int, m as int),
            forall|i: int| 0 <= i < j ==> month_cell_is(#[trigger] row@[i], i, year, m as int, rs@),
        decreases MONTH_CELLS - j,
    {
        if offset <= j && j < offset + length {
            let day = (j - offset + 1) as u32;
            row.push(CalendarCell::Day { day, events: events_for(rs, m, day) });
        } else {
            row.push(CalendarCell::Empty);
        }
        j = j + 1;
    }
    row.push(CalendarCell::MonthAndYear { month, year });
    proof {
        crate::calendar::lemma_month_of_number(month);
    }
    Ok(row)
}

/// The monthly grid of `year`: for each month in order, forty cells that
/// hold its days from the weekday of the first on, then a label.
pub fn monthly_calendar(year: i32, rs: &Vec<ResolvedEvent>) -> (r: Result<
    Vec<Vec<CalendarCell>>,
    ResolveError,
>)
    ensures
        r is Ok <==> MIN_YEAR <= year <= MAX_YEAR,
        r matches Ok(rows) ==> monthly_grid_is(rows@, year, rs@),
        r matches Err(e) ==> e == (ResolveError::InvalidDate { year, month: 1, day: 1 }),
{
    let months = crate::recurrence::months();
    let mut rows: Vec<Vec<CalendarCell>> = Vec::new();
    let mut i: usize = 0;
    while i < 12
        invariant
            i <= 12,
            months@ == crate::recurrence::all_months(),
            rows@.len() == i,
            MIN_YEAR <= year <= MAX_YEAR || i == 0,
            forall|k: int| 0 <= k < i ==> monthly_row_is(#[trigger] rows@[k]@, year, k + 1, rs@),
        decreases 12 - i,
    {
        assert(months@[i as int].number() == i + 1);
        match monthly_row(year, months[i], rs) {
            Ok(row) => {
                rows.push(row);
            },
            Err(e) => {
                return Err(e);
            },
        }
        i = i + 1;
    }
    Ok(rows)
}

/// One month's column of the yearly grid.
fn yearly_month(year: i32, month: Month, rs: &Vec<ResolvedEvent>) -> (r: Result<
    YearlyCalendarMonth,
    ResolveError,
>)
    ensures
        r is Ok <==> MIN_YEAR <= year <= MAX_YEAR,
        r matches Ok(m) ==> yearly_month_is(m, year, month.number(), rs@),
        r matches Err(e) ==> e == (ResolveError::InvalidDate {
            year,
            month: month.number() as u32,
            day: 1,
        }),
{
    let offset = match first_weekday(year, month) {
        Ok(o) => o,
        Err(e) => {
            return Err(e);
        },
    };
    let length = days_in_month(year, month) as usize;
    let m = month.number_from_month();
    let mut days: Vec<YearlyCalendarDay> = Vec::new();
    let mut j: usize = 0;
    while j < ROWS_COUNT
        invariant
            j <= ROWS_COUNT,
            days@.len() == j,
            offset as int == month_offset(year, m as int),
            m as int == month.number(),
            length as int == month_length(year as int, m as int),
            forall|i: int| 0 <= i < j ==> yearly_day_is(#[trigger] days@[i], i, year, m as int, rs@),
        decreases ROWS_COUNT - j,
    {
        let weekday = Weekday::from_index(j);
        if offset <= j && j < offset + length {
            let day = (j - offset + 1) as u32;
            days.push(YearlyCalendarDay::Day { weekday, day, events: events_for(rs, m, day) });
        } else {
            days.push(YearlyCalendarDay::Empty { weekday });
        }
        j = j + 1;
    }
    proof {
        crate::calendar::lemma_month_of_number(month);
    }
    Ok(YearlyCalendarMonth { month, days })
}

/// The yearly grid of `year`: a column of thirty-seven rows for each month,
/// the rows aligned by weekday; on one page, or on two of six months each
/// where `split_in_two` holds.
pub fn yearly_calendar(year: i32, rs: &Vec<ResolvedEvent>, split_in_two: bool) -> (r: Result<
    YearlyCalendar,
    ResolveError,
>)
    ensures
        r is Ok <==> MIN_YEAR <= year <= MAX_YEAR,
        r matches Err(e) ==> e == (ResolveError::InvalidDate { year, month: 1, day: 1 }),
        r matches Ok(c) ==> yearly_grid_is(c, year, split_in_two, rs@),
{
    let months = crate::recurrence::months();
    let mut columns: Vec<YearlyCalendarMonth> = Vec::new();
    let mut i: usize = 0;
    while i < 12
        invariant
            i <= 12,
            months@ == crate::recurrence::all_months(),
            columns@.len() == i,
            MIN_YEAR <= year <= MAX_YEAR || i == 0,
            forall|k: int| 0 <= k < i ==> yearly_month_is(#[trigger] columns@[k], year, k + 1, rs@),
        decreases 12 - i,
    {
        assert(months@[i as int].number() == i + 1);
        match yearly_month(year, months[i], rs) {
            Ok(m) => {
                columns.push(m);
            },
            Err(e) => {
                return Err(e);
            },
        }
        i = i + 1;
    }
    let mut weekday_titles: Vec<Weekday> = Vec::new();
    let mut j: usize = 0;
    while j < ROWS_COUNT
        invariant
            j <= ROWS_COUNT,
            weekday_titles@.len() == j,
            forall|k: int| 0 <= k < j ==> (#[trigger] weekday_titles@[k]).index() == k % 7,
        decreases ROWS_COUNT - j,
    {
        weekday_titles.push(Weekday::from_index(j));
        j = j + 1;
    }
    let pages = if split_in_two {
        let ghost all = columns@;
        let latter = columns.split_off(6);
        assert forall|k: int| 0 <= k < 6 implies yearly_month_is(
            #[trigger] latter@[k],
            year,
            6 + k + 1,
            rs@,
        ) by {
            assert(latter@[k] == all[6 + k]);
        }
        vec![YearlyCalendarPage { months: columns }, YearlyCalendarPage { months: latter }]
    } else {
        vec![YearlyCalendarPage { months: columns }]
    };
    Ok(YearlyCalendar { split_in_two, year, weekday_titles, pages })
}

impl YearlyCalendar {
    /// The heading of the grid.
    pub fn title(&self) -> (r: &'static str)
        ensures
            r@ == (if self.split_in_two {
                "Half-Year"@
            } else {
                "Year"@
            }),
    {
        if self.split_in_two {
            "Half-Year"
        } else {
            "Year"
        }
    }

    /// The page layout: the whole year on one page, or half of it.
    pub fn body_class(&self) -> (r: &'static str)
        ensures
            r@ == (if self.pages@.len() == 1 {
                "fullyear"@
            } else {
                "halfyear"@
            }),
    {
        if self.pages.len() == 1 {
            "fullyear"
        } else {
            "halfyear"
        }
    }
}

impl YearlyCalendarDay {
    pub open spec fn weekday_of(self) -> Weekday {
        match self {
            YearlyCalendarDay::Empty { weekday } => weekday,
            YearlyCalendarDay::Day { weekday, .. } => weekday,
        }
    }

    /// The background of a row: shaded at weekends.
    pub fn background_class(&self) -> (r: &'static str)
        ensures
            r@ == (if self.weekday_of() == Weekday::Sat || self.weekday_of() == Weekday::Sun {
                "shadedBackground"@
            } else {
                ""@
            }),
    {
        let weekday = match self {
            YearlyCalendarDay::Empty { weekday } => weekday,
            YearlyCalendarDay::Day { weekday, .. } => weekday,
        };
        if weekday.is_weekend() {
            "shadedBackground"
        } else {
            ""
        }
    }
}

/// Page `half` (0 or 1) of `month` in the diary.
fn diary_page(year: i32, month: Month, half: usize, rs: &Vec<ResolvedEvent>) -> (r: Result<
    DiaryPage,
    ResolveError,
>)
    requires
        half < 2,
    ensures
        r is Ok <==> (MIN_YEAR <= year <= MAX_YEAR && (half == 0 || month.number() != 2
            || all_month_days_exist(year))),
        r matches Ok(page) ==> diary_page_is(page, year, month.number(), half as int, rs@),
        r matches Err(e) ==> e == (if MIN_YEAR <= year <= MAX_YEAR {
            ResolveError::InvalidDate { year, month: 2, day: 29 }
        } else {
            ResolveError::InvalidDate {
                year,
                month: month.number() as u32,
                day: (DIARY_PAGE_CELLS * half + 1) as u32,
            }
        }),
{
    let length = days_in_month(year, month) as usize;
    let m = month.number_from_month();
    let mut cells: Vec<DiaryCell> = Vec::new();
    let mut c: usize = 0;
    while c < DIARY_PAGE_CELLS
        invariant
            c <= DIARY_PAGE_CELLS,
            half < 2,
            cells@.len() == c,
            m as int == month.number(),
            length as int == month_length(year as int, m as int),
            forall|i: int|
                0 <= i < c ==> diary_cell_is(#[trigger] cells@[i], DIARY_PAGE_CELLS * half + i, year, m as int, rs@),
            c > 0 ==> MIN_YEAR <= year <= MAX_YEAR,
            m == 2 && half == 1 && c > 12 ==> all_month_days_exist(year),
        decreases DIARY_PAGE_CELLS - c,
    {
        let k = DIARY_PAGE_CELLS * half + c;
        if k < length {
            let day = (k + 1) as u32;
            let date = match date_from_ymd(year, m, day) {
                Some(d) => d,
                None => {
                    return Err(ResolveError::InvalidDate { year, month: m, day });
                },
            };
            let weekday = date.weekday();
            cells.push(DiaryCell::Day { weekday, day, events: events_for(rs, m, day) });
        } else {
            cells.push(DiaryCell::Empty);
        }
        c = c + 1;
    }
    proof {
        crate::calendar::lemma_month_of_number(month);
    }
    Ok(DiaryPage { month, cells })
}

/// The diary of `year`: two pages of sixteen cells for each month, the
/// month's days followed by empty cells, set out in three rows of eight
/// pages.
pub fn diary(year: i32, rs: &Vec<ResolvedEvent>) -> (r: Result<Vec<Vec<DiaryPage>>, ResolveError>)
    ensures
        r is Ok <==> all_month_days_exist(year),
        r matches Err(e) ==> e == (if MIN_YEAR <= year <= MAX_YEAR {
            ResolveError::InvalidDate { year, month: 2, day: 29 }
        } else {
            ResolveError::InvalidDate { year, month: 1, day: 1 }
        }),
        r matches Ok(rows) ==> diary_grid_is(rows@, year, rs@),
{
    let months = crate::recurrence::months();
    let mut rows: Vec<Vec<DiaryPage>> = Vec::new();
    let mut i: usize = 0;
    while i < 3
        invariant
            i <= 3,
            months@ == crate::recurrence::all_months(),
            rows@.len() == i,
            i > 0 ==> MIN_YEAR <= year <= MAX_YEAR,
            i > 0 ==> all_month_days_exist(year),
            forall|k: int| 0 <= k < i ==> (#[trigger] rows@[k])@.len() == 8,
            forall|k: int, p: int|
                0 <= k < i && 0 <= p < 8 ==> diary_page_is(
                    #[trigger] rows@[k]@[p],
                    year,
                    (8 * k + p) / 2 + 1,
                    (8 * k + p) % 2,
                    rs@,
                ),
        decreases 3 - i,
    {
        let mut row: Vec<DiaryPage> = Vec::new();
        let mut p: usize = 0;
        while p < 8
            invariant
                i < 3,
                p <= 8,
                row@.len() == p,
                months@ == crate::recurrence::all_months(),
                i > 0 || p > 0 ==> MIN_YEAR <= year <= MAX_YEAR,
                i > 0 || p > 3 ==> all_month_days_exist(year),
                forall|q: int|
                    0 <= q < p ==> diary_page_is(
                        #[trigger] row@[q],
                        year,
                        (8 * i + q) / 2 + 1,
                        (8 * i + q) % 2,
                        rs@,
                    ),
            decreases 8 - p,
        {
            let index = 8 * i + p;
            assert(months@[(index / 2) as int].number() == index / 2 + 1);
            match diary_page(year, months[index / 2], index % 2, rs) {
                Ok(page) => {
                    row.push(page);
                },
                Err(e) => {
                    return Err(e);
                },
            }
            p = p + 1;
        }
        rows.push(row);
        i = i + 1;
    }
    Ok(rows)
}


/// The kind of grid to lay out.
#[derive(Debug, Clone, Copy, PartialEq, Eq, Structural)]
pub enum Output {
    MonthlyCalendar,
    YearlyCalendar { split_in_two: bool },
    Diary,
}

/// A laid-out grid of one of the three kinds.
#[derive(Debug, PartialEq, Eq)]
pub enum CalendarLayout {
    Monthly(Vec<Vec<CalendarCell>>),
    Yearly(YearlyCalendar),
    Diary(Vec<Vec<DiaryPage>>),
}

/// What a renderer needs: the styles of the chosen groups and the grid.
#[derive(Debug, PartialEq, Eq)]
pub struct CalendarPage {
    pub styles: Vec<(GroupId, String)>,
    pub layout: CalendarLayout,
}

/// The grid of the requested kind holds the given events.
pub open spec fn layout_is(layout: CalendarLayout, output: Output, year: i32, rs: Seq<ResolvedEvent>) -> bool {
    match output {
        Output::MonthlyCalendar => layout matches CalendarLayout::Monthly(rows) && monthly_grid_is(
            rows@,
            year,
            rs,
        ),
        Output::YearlyCalendar { split_in_two } => layout matches CalendarLayout::Yearly(c)
            && yearly_grid_is(c, year, split_in_two, rs),
        Output::Diary => layout matches CalendarLayout::Diary(rows) && diary_grid_is(rows@, year, rs),
    }
}

/// The years for which a grid of the kind can be laid out.
pub open spec fn layout_possible(output: Output, year: i32) -> bool {
    match output {
        Output::Diary => all_month_days_exist(year),
        _ => MIN_YEAR <= year <= MAX_YEAR,
    }
}

/// Lays out `year` in a grid of the requested kind, with the dates of the
/// events of the chosen groups.
pub fn layout_calendar(groups: &Vec<EventGroupDescription>, year: i32, output: Output) -> (r: Result<
    CalendarPage,
    ResolveError,
>)
    ensures
        groups_entries(groups@, year) matches Err(e) ==> r == Err::<CalendarPage, ResolveError>(e),
        groups_entries(groups@, year) is Ok ==> (r is Ok <==> layout_possible(output, year)),
        r matches Ok(page) ==> ({
            &&& groups_entries(groups@, year) is Ok
            &&& layout_is(page.layout, output, year, groups_entries(groups@, year)->Ok_0)
            &&& page.styles@.len() == styles_of(groups@).len()
            &&& forall|i: int|
                0 <= i < page.styles@.len() ==> page.styles@[i].0 == styles_of(groups@)[i].0 && (
                #[trigger] page.styles@[i]).1@ == styles_of(groups@)[i].1
        }),
{
    let rs = match resolve_groups(groups, year) {
        Ok(rs) => rs,
        Err(e) => {
            return Err(e);
        },
    };
    let styles = selected_styles(groups);
    let layout = match output {
        Output::MonthlyCalendar => match monthly_calendar(year, &rs) {
            Ok(rows) => CalendarLayout::Monthly(rows),
            Err(e) => {
                return Err(e);
            },
        },
        Output::YearlyCalendar { split_in_two } => match yearly_calendar(year, &rs, split_in_two) {
            Ok(c) => CalendarLayout::Yearly(c),
            Err(e) => {
                return Err(e);
            },
        },
        Output::Diary => match diary(year, &rs) {
            Ok(rows) => CalendarLayout::Diary(rows),
            Err(e) => {
                return Err(e);
            },
        },
    };
    Ok(CalendarPage { styles, layout })
}

} // verus!
