//! Event rules and their expansion into the dates of one year.
use vstd::prelude::*;

use crate::calendar::{
    Date, date_from_ymd, Month, Weekday, date_add_days, date_at, days_in_month, find_date, first_day_number,
    gregorian_month_length, last_day_number, lemma_date_at, lemma_day_number_injective,
    lemma_wf_in_range, month_length, steps_to_weekday,
};
use crate::easter::{easter_sunday, easter_sunday_of, lemma_near_easter_in_range};

verus! {

/// A rule that names one or more dates in each year.
#[allow(inconsistent_fields)]
#[derive(Debug, PartialEq, Eq)]
pub enum EventDescriptionData {
    /// One day of one month.
    FixedDate { month: Month, day: u32 },
    /// The `n`th `weekday` of `month`, or of every month where `month` is
    /// `None`; a negative `n` counts from the end of the month.
    NthWeekdayOfMonth { n: i16, weekday: Weekday, month: Option<Month> },
    /// The day `day_offset` days after Easter Sunday (before it, if negative).
    DaysAfterEaster { day_offset: i16 },
    /// The dates of the inner rule, with a Monday moved back to the Sunday
    /// before and a Saturday moved on to the Sunday after.
    FuzzySunday(Box<EventDescriptionData>),
}

/// Why a rule has no dates in a year.
#[derive(Debug, Clone, Copy, PartialEq, Eq, Structural)]
pub enum ResolveError {
    /// The year, month and day make no date.
    InvalidDate { year: i32, month: u32, day: u32 },
    /// An nth-weekday rule with `n` zero.
    ZeroWeekdayIndex,
    /// Easter is only computed for the years 1583 to 9999.
    EasterOutOfRange { year: i32 },
    /// The day before this date is outside the calendar's range.
    NoDateBefore(Date),
    /// The day after this date is outside the calendar's range.
    NoDateAfter(Date),
}

/// The twelve months in order.
pub open spec fn all_months() -> Seq<Month> {
    seq![
        Month::January,
        Month::February,
        Month::March,
        Month::April,
        Month::May,
        Month::June,
        Month::July,
        Month::August,
        Month::September,
        Month::October,
        Month::November,
        Month::December,
    ]
}

pub fn months() -> (r: Vec<Month>)
    ensures
        r@ == all_months(),
{
    let r = vec![
        Month::January,
        Month::February,
        Month::March,
        Month::April,
        Month::May,
        Month::June,
        Month::July,
        Month::August,
        Month::September,
        Month::October,
        Month::November,
        Month::December,
    ];
    assert(r@ == all_months());
    r
}

/// The `n`th `weekday` of `month` in `year`: `None` where the month has
/// fewer such weekdays. Counting forward starts at the first of the month;
/// counting backward starts at the month's last day under this calendar's
/// leap rule, which must be a date.
pub open spec fn nth_weekday_of(year: i32, month: Month, weekday: Weekday, n: i16) -> Result<
    Option<Date>,
    ResolveError,
> {
    let m = month.number() as u32;
    if n == 0 {
        Err(ResolveError::ZeroWeekdayIndex)
    } else if n > 0 {
        let start = Date { year, month: m, day: 1 };
        if !start.wf() {
            Err(ResolveError::InvalidDate { year, month: m, day: 1 })
        } else {
            let day = 1 + steps_to_weekday(start.weekday_index(), weekday.index(), true) + 7 * (n
                - 1);
            if day <= gregorian_month_length(year as int, m as int) {
                Ok(Some(Date { year, month: m, day: day as u32 }))
            } else {
                Ok(None)
            }
        }
    } else {
        let last = month_length(year as int, m as int);
        let start = Date { year, month: m, day: last as u32 };
        if !start.wf() {
            Err(ResolveError::InvalidDate { year, month: m, day: last as u32 })
        } else {
            let day = last - steps_to_weekday(start.weekday_index(), weekday.index(), false) + 7 * (
            n + 1);
            if day >= 1 {
                Ok(Some(Date { year, month: m, day: day as u32 }))
            } else {
                Ok(None)
            }
        }
    }
}

/// The dates of an nth-weekday rule over the given months, in their order:
/// the first error met, or the months' dates.
pub open spec fn nth_weekday_dates(year: i32, weekday: Weekday, n: i16, months: Seq<Month>) -> Result<
    Seq<Date>,
    ResolveError,
>
    decreases months.len(),
{
    if months.len() == 0 {
        Ok(seq![])
    } else {
        match nth_weekday_dates(year, weekday, n, months.drop_last()) {
            Err(e) => Err(e),
            Ok(ds) => match nth_weekday_of(year, months.last(), weekday, n) {
                Err(e) => Err(e),
                Ok(None) => Ok(ds),
                Ok(Some(d)) => Ok(ds.push(d)),
            },
        }
    }
}

/// A date moved to the nearest Sunday when it falls on a Monday or a
/// Saturday.
#[verifier::opaque]
pub open spec fn fuzzy_sunday_of(d: Date) -> Result<Date, ResolveError> {
    if d.weekday_index() == 0 {
        if first_day_number() <= d.number() - 1 {
            Ok(date_at(d.number() - 1))
        } else {
            Err(ResolveError::NoDateBefore(d))
        }
    } else if d.weekday_index() == 5 {
        if d.number() + 1 <= last_day_number() {
            Ok(date_at(d.number() + 1))
        } else {
            Err(ResolveError::NoDateAfter(d))
        }
    } else {
        Ok(d)
    }
}

/// Each date moved as `fuzzy_sunday_of` says: the first error met, or the
/// moved dates in order.
pub open spec fn fuzzy_sunday_dates(ds: Seq<Date>) -> Result<Seq<Date>, ResolveError>
    decreases ds.len(),
{
    if ds.len() == 0 {
        Ok(seq![])
    } else {
        match fuzzy_sunday_dates(ds.drop_last()) {
            Err(e) => Err(e),
            Ok(moved) => match fuzzy_sunday_of(ds.last()) {
                Err(e) => Err(e),
                Ok(d) => Ok(moved.push(d)),
            },
        }
    }
}

/// The dates that a rule names in `year`, in order, or why it names none.
pub open spec fn resolve(data: EventDescriptionData, year: i32) -> Result<Seq<Date>, ResolveError>
    decreases data,
{
    match data {
        EventDescriptionData::FixedDate { month, day } => {
            let d = Date { year, month: month.number() as u32, day };
            if d.wf() {
                Ok(seq![d])
            } else {
                Err(ResolveError::InvalidDate { year, month: month.number() as u32, day })
            }
        },
        EventDescriptionData::NthWeekdayOfMonth { n, weekday, month } => nth_weekday_dates(
            year,
            weekday,
            n,
            match month {
                Some(m) => seq![m],
                None => all_months(),
            },
        ),
        EventDescriptionData::DaysAfterEaster { day_offset } => match easter_sunday_of(year) {
            Err(e) => Err(e),
            Ok(easter) => Ok(seq![date_at(easter.number() + day_offset)]),
        },
        EventDescriptionData::FuzzySunday(inner) => match resolve(*inner, year) {
            Err(e) => Err(e),
            Ok(ds) => fuzzy_sunday_dates(ds),
        },
    }
}

/// Every date in the sequence is one that chrono holds.
pub open spec fn all_wf(ds: Seq<Date>) -> bool {
    forall|i: int| 0 <= i < ds.len() ==> #[trigger] ds[i].wf()
}

fn nth_weekday(year: i32, month: Month, weekday: Weekday, n: i16) -> (r: Result<
    Option<Date>,
    ResolveError,
>)
    ensures
        r == nth_weekday_of(year, month, weekday, n),
        r matches Ok(Some(d)) ==> d.wf(),
{
    let m = month.number_from_month();
    if n == 0 {
        return Err(ResolveError::ZeroWeekdayIndex);
    }
    if n > 0 {
        let ghost start = Date { year, month: m, day: 1 };
        let first = match find_date(year, month, 1, weekday, 1) {
            Some(d) => d,
            None => {
                proof {
                    if start.wf() {
                        let k = steps_to_weekday(start.weekday_index(), weekday.index(), true);
                        lemma_wf_in_range(Date { year, month: m, day: (1 + k) as u32 });
                    }
                }
                return Err(ResolveError::InvalidDate { year, month: m, day: 1 });
            },
        };
        let ghost k = steps_to_weekday(start.weekday_index(), weekday.index(), true);
        let ghost day = 1 + k + 7 * (n - 1);
        proof {
            lemma_day_number_injective(first, Date { year, month: m, day: (1 + k) as u32 });
        }
        let weeks: i32 = (n as i32 - 1) * 7;
        match date_add_days(first, weeks) {
            None => {
                proof {
                    if day <= gregorian_month_length(year as int, m as int) {
                        lemma_wf_in_range(Date { year, month: m, day: day as u32 });
                    }
                }
                Ok(None)
            },
            Some(d) => {
                if d.year == first.year && d.month == first.month {
                    proof {
                        lemma_day_number_injective(d, Date { year, month: m, day: day as u32 });
                    }
                    Ok(Some(d))
                } else {
                    proof {
                        if day <= gregorian_month_length(year as int, m as int) {
                            lemma_day_number_injective(
                                d,
                                Date { year, month: m, day: day as u32 },
                            );
                        }
                    }
                    Ok(None)
                }
            },
        }
    } else {
        let last = days_in_month(year, month);
        let ghost start = Date { year, month: m, day: last };
        let final_weekday = match find_date(year, month, last, weekday, -1) {
            Some(d) => d,
            None => {
                proof {
                    if start.wf() {
                        let k = steps_to_weekday(start.weekday_index(), weekday.index(), false);
                        lemma_wf_in_range(Date { year, month: m, day: (last - k) as u32 });
                    }
                }
                return Err(ResolveError::InvalidDate { year, month: m, day: last });
            },
        };
        let ghost k = steps_to_weekday(start.weekday_index(), weekday.index(), false);
        let ghost day = last - k + 7 * (n + 1);
        proof {
            lemma_day_number_injective(
                final_weekday,
                Date { year, month: m, day: (last - k) as u32 },
            );
        }
        let weeks: i32 = (n as i32 + 1) * 7;
        match date_add_days(final_weekday, weeks) {
            None => {
                proof {
                    if day >= 1 {
                        lemma_wf_in_range(Date { year, month: m, day: day as u32 });
                    }
                }
                Ok(None)
            },
            Some(d) => {
                if d.year == final_weekday.year && d.month == final_weekday.month {
                    proof {
                        lemma_day_number_injective(d, Date { year, month: m, day: day as u32 });
                    }
                    Ok(Some(d))
                } else {
                    proof {
                        if day >= 1 {
                            lemma_day_number_injective(
                                d,
                                Date { year, month: m, day: day as u32 },
                            );
                        }
                    }
                    Ok(None)
                }
            },
        }
    }
}


/// A result of dates, with the dates as a sequence.
pub open spec fn dates_view(r: Result<Vec<Date>, ResolveError>) -> Result<Seq<Date>, ResolveError> {
    match r {
        Ok(v) => Ok(v@),
        Err(e) => Err(e),
    }
}

proof fn lemma_nth_weekday_error_stays(year: i32, weekday: Weekday, n: i16, ms: Seq<Month>, j: int)
    requires
        0 <= j <= ms.len(),
        nth_weekday_dates(year, weekday, n, ms.take(j)) is Err,
    ensures
        nth_weekday_dates(year, weekday, n, ms) == nth_weekday_dates(year, weekday, n, ms.take(j)),
    decreases ms.len(),
{
    if j == ms.len() {
        assert(ms.take(j) == ms);
    } else {
        assert(ms.drop_last().take(j) == ms.take(j));
        lemma_nth_weekday_error_stays(year, weekday, n, ms.drop_last(), j);
    }
}

proof fn lemma_fuzzy_error_stays(ds: Seq<Date>, j: int)
    requires
        0 <= j <= ds.len(),
        fuzzy_sunday_dates(ds.take(j)) is Err,
    ensures
        fuzzy_sunday_dates(ds) == fuzzy_sunday_dates(ds.take(j)),
    decreases ds.len(),
{
    if j == ds.len() {
        assert(ds.take(j) == ds);
    } else {
        assert(ds.drop_last().take(j) == ds.take(j));
        lemma_fuzzy_error_stays(ds.drop_last(), j);
    }
}

/// The dates of an nth-weekday rule over each of `months` in turn.
fn nth_weekday_over(year: i32, weekday: Weekday, n: i16, months: &Vec<Month>) -> (r: Result<
    Vec<Date>,
    ResolveError,
>)
    ensures
        dates_view(r) == nth_weekday_dates(year, weekday, n, months@),
        r matches Ok(v) ==> all_wf(v@),
{
    let mut out: Vec<Date> = Vec::new();
    let mut i: usize = 0;
    while i < months.len()
        invariant
            0 <= i <= months.len(),
            nth_weekday_dates(year, weekday, n, months@.take(i as int)) == Ok::<
                Seq<Date>,
                ResolveError,
            >(out@),
            all_wf(out@),
        decreases months.len() - i,
    {
        let ghost prefix = months@.take(i + 1);
        assert(prefix.drop_last() == months@.take(i as int));
        match nth_weekday(year, months[i], weekday, n) {
            Err(e) => {
                proof {
                    lemma_nth_weekday_error_stays(year, weekday, n, months@, i + 1);
                }
                return Err(e);
            },
            Ok(None) => {},
            Ok(Some(d)) => {
                out.push(d);
            },
        }
        i = i + 1;
    }
    assert(months@.take(i as int) == months@);
    Ok(out)
}

/// `d` moved to the nearest Sunday if it is a Monday or a Saturday.
fn fuzzy_sunday(d: Date) -> (r: Result<Date, ResolveError>)
    requires
        d.wf(),
    ensures
        r == fuzzy_sunday_of(d),
        r matches Ok(e) ==> e.wf(),
{
    let w = d.weekday();
    proof {
        lemma_wf_in_range(d);
        reveal(fuzzy_sunday_of);
    }
    match w {
        Weekday::Mon => match date_add_days(d, -1) {
            Some(e) => {
                proof {
                    lemma_date_at(e);
                }
                Ok(e)
            },
            None => Err(ResolveError::NoDateBefore(d)),
        },
        Weekday::Sat => match date_add_days(d, 1) {
            Some(e) => {
                proof {
                    lemma_date_at(e);
                }
                Ok(e)
            },
            None => Err(ResolveError::NoDateAfter(d)),
        },
        _ => Ok(d),
    }
}

/// Each date moved to the nearest Sunday if it is a Monday or a Saturday.
fn fuzzy_sunday_all(ds: Vec<Date>) -> (r: Result<Vec<Date>, ResolveError>)
    requires
        all_wf(ds@),
    ensures
        dates_view(r) == fuzzy_sunday_dates(ds@),
        r matches Ok(v) ==> all_wf(v@),
{
    let mut out: Vec<Date> = Vec::new();
    let mut i: usize = 0;
    while i < ds.len()
        invariant
            0 <= i <= ds.len(),
            all_wf(ds@),
            fuzzy_sunday_dates(ds@.take(i as int)) == Ok::<Seq<Date>, ResolveError>(out@),
            all_wf(out@),
        decreases ds.len() - i,
    {
        let ghost prefix = ds@.take(i + 1);
        assert(prefix.drop_last() == ds@.take(i as int));
        assert(prefix.last() == ds@[i as int]);
        match fuzzy_sunday(ds[i]) {
            Err(e) => {
                proof {
                    lemma_fuzzy_error_stays(ds@, i + 1);
                }
                return Err(e);
            },
            Ok(d) => {
                out.push(d);
            },
        }
        i = i + 1;
    }
    assert(ds@.take(i as int) == ds@);
    Ok(out)
}

impl EventDescriptionData {
    /// The dates that this rule names in `year`, in order.
    pub fn dates(&self, year: i32) -> (r: Result<Vec<Date>, ResolveError>)
        ensures
            dates_view(r) == resolve(*self, year),
            r matches Ok(v) ==> all_wf(v@),
        decreases self,
    {
        match self {
            EventDescriptionData::FixedDate { month, day } => {
                match date_from_ymd(year, month.number_from_month(), *day) {
                    Some(d) => {
                        let v = vec![d];
                        assert(v@ == seq![d]);
                        Ok(v)
                    },
                    None => Err(
                        ResolveError::InvalidDate { year, month: month.number_from_month(), day: *day },
                    ),
                }
            },
            EventDescriptionData::NthWeekdayOfMonth { n, weekday, month } => {
                let ms = match month {
                    Some(m) => vec![*m],
                    None => months(),
                };
                assert(ms@ == match month {
                    Some(m) => seq![*m],
                    None => all_months(),
                });
                nth_weekday_over(year, *weekday, *n, &ms)
            },
            EventDescriptionData::DaysAfterEaster { day_offset } => {
                let easter = match easter_sunday(year) {
                    Ok(e) => e,
                    Err(e) => {
                        return Err(e);
                    },
                };
                proof {
                    lemma_near_easter_in_range(easter, *day_offset as int);
                }
                match date_add_days(easter, *day_offset as i32) {
                    Some(d) => {
                        proof {
                            lemma_date_at(d);
                        }
                        let v = vec![d];
                        assert(v@ == seq![d]);
                        Ok(v)
                    },
                    None => {
                        proof {
                            assert(false);
                        }
                        Err(ResolveError::EasterOutOfRange { year })
                    },
                }
            },
            EventDescriptionData::FuzzySunday(inner) => {
                match inner.dates(year) {
                    Ok(ds) => fuzzy_sunday_all(ds),
                    Err(e) => Err(e),
                }
            },
        }
    }
}

} // verus!
