//! Civil dates: months, weekdays and the proleptic Gregorian calendar.
//!
//! A date is modelled by its day number, the count of days since
//! 1 January of year 1; the weekday is that number modulo seven, Monday
//! being zero. Validity, weekdays and day arithmetic are computed by chrono.
use chrono::Datelike;
use vstd::arithmetic::div_mod::{
    lemma_add_mod_noop, lemma_fundamental_div_mod, lemma_mod_bound, lemma_sub_mod_noop,
};
use vstd::prelude::*;

verus! {

/// The first year that a chrono date can hold.
pub const MIN_YEAR: i32 = -262143;

/// The last year that a chrono date can hold.
pub const MAX_YEAR: i32 = 262142;

#[derive(Debug, Clone, Copy, PartialEq, Eq, Structural)]
pub enum Month {
    January,
    February,
    March,
    April,
    May,
    June,
    July,
    August,
    September,
    October,
    November,
    December,
}

#[derive(Debug, Clone, Copy, PartialEq, Eq, Structural)]
pub enum Weekday {
    Mon,
    Tue,
    Wed,
    Thu,
    Fri,
    Sat,
    Sun,
}

impl Month {
    /// The month's number, January being 1.
    pub open spec fn number(self) -> int {
        match self {
            Month::January => 1,
            Month::February => 2,
            Month::March => 3,
            Month::April => 4,
            Month::May => 5,
            Month::June => 6,
            Month::July => 7,
            Month::August => 8,
            Month::September => 9,
            Month::October => 10,
            Month::November => 11,
            Month::December => 12,
        }
    }

    pub fn number_from_month(&self) -> (r: u32)
        ensures
            r as int == self.number(),
            1 <= r <= 12,
    {
        match self {
            Month::January => 1,
            Month::February => 2,
            Month::March => 3,
            Month::April => 4,
            Month::May => 5,
            Month::June => 6,
            Month::July => 7,
            Month::August => 8,
            Month::September => 9,
            Month::October => 10,
            Month::November => 11,
            Month::December => 12,
        }
    }

    /// The month with the given number, if it is one of 1 to 12.
    pub fn from_number(n: u32) -> (r: Option<Month>)
        ensures
            r is Some <==> 1 <= n <= 12,
            r matches Some(m) ==> m.number() == n,
    {
        match n {
            1 => Some(Month::January),
            2 => Some(Month::February),
            3 => Some(Month::March),
            4 => Some(Month::April),
            5 => Some(Month::May),
            6 => Some(Month::June),
            7 => Some(Month::July),
            8 => Some(Month::August),
            9 => Some(Month::September),
            10 => Some(Month::October),
            11 => Some(Month::November),
            12 => Some(Month::December),
            _ => None,
        }
    }
}

/// The month with the given number; months past twelve are December.
pub open spec fn month_of(n: int) -> Month {
    if n <= 1 {
        Month::January
    } else if n == 2 {
        Month::February
    } else if n == 3 {
        Month::March
    } else if n == 4 {
        Month::April
    } else if n == 5 {
        Month::May
    } else if n == 6 {
        Month::June
    } else if n == 7 {
        Month::July
    } else if n == 8 {
        Month::August
    } else if n == 9 {
        Month::September
    } else if n == 10 {
        Month::October
    } else if n == 11 {
        Month::November
    } else {
        Month::December
    }
}

pub proof fn lemma_month_of_number(m: Month)
    ensures
        month_of(m.number()) == m,
        1 <= m.number() <= 12,
{
}

impl Weekday {
    /// Days since Monday: Monday is 0, Sunday is 6.
    pub open spec fn index(self) -> int {
        match self {
            Weekday::Mon => 0,
            Weekday::Tue => 1,
            Weekday::Wed => 2,
            Weekday::Thu => 3,
            Weekday::Fri => 4,
            Weekday::Sat => 5,
            Weekday::Sun => 6,
        }
    }

    pub fn num_days_from_monday(&self) -> (r: u32)
        ensures
            r as int == self.index(),
            r < 7,
    {
        match self {
            Weekday::Mon => 0,
            Weekday::Tue => 1,
            Weekday::Wed => 2,
            Weekday::Thu => 3,
            Weekday::Fri => 4,
            Weekday::Sat => 5,
            Weekday::Sun => 6,
        }
    }

    /// Saturday and Sunday.
    pub fn is_weekend(&self) -> (r: bool)
        ensures
            r <==> (*self == Weekday::Sat || *self == Weekday::Sun),
    {
        match self {
            Weekday::Sat | Weekday::Sun => true,
            _ => false,
        }
    }

    /// The weekday `i` days after Monday, for `i` modulo seven.
    pub fn from_index(i: usize) -> (r: Weekday)
        ensures
            r.index() == i as int % 7,
    {
        match i % 7 {
            0 => Weekday::Mon,
            1 => Weekday::Tue,
            2 => Weekday::Wed,
            3 => Weekday::Thu,
            4 => Weekday::Fri,
            5 => Weekday::Sat,
            _ => Weekday::Sun,
        }
    }
}

/// The length of a month under this calendar's leap rule: February has 29
/// days in every year divisible by four.
pub open spec fn month_length(year: int, month: int) -> int {
    if month == 2 {
        if year % 4 == 0 {
            29
        } else {
            28
        }
    } else if month == 4 || month == 6 || month == 9 || month == 11 {
        30
    } else {
        31
    }
}

pub fn days_in_month(year: i32, month: Month) -> (r: u32)
    ensures
        r as int == month_length(year as int, month.number()),
        28 <= r <= 31,
{
    match month {
        Month::April | Month::June | Month::September | Month::November => 30,
        Month::January | Month::March | Month::May | Month::July | Month::August | Month::October
        | Month::December => 31,
        Month::February => {
            if year % 4 == 0 {
                29
            } else {
                28
            }
        },
    }
}

// ---------------------------------------------------------------------------
// The proleptic Gregorian calendar

pub open spec fn is_gregorian_leap(year: int) -> bool {
    year % 4 == 0 && (year % 100 != 0 || year % 400 == 0)
}

pub open spec fn leap_days(year: int) -> int {
    if is_gregorian_leap(year) {
        1
    } else {
        0
    }
}

/// The length of a month in the Gregorian calendar.
pub open spec fn gregorian_month_length(year: int, month: int) -> int {
    if month == 2 {
        28 + leap_days(year)
    } else if month == 4 || month == 6 || month == 9 || month == 11 {
        30
    } else {
        31
    }
}

/// Days from 1 January of year 1 to 1 January of `year`.
#[verifier::opaque]
pub open spec fn days_before_year(year: int) -> int {
    365 * (year - 1) + (year - 1) / 4 - (year - 1) / 100 + (year - 1) / 400
}

/// Days from 1 January to the first of `month` in `year`.
pub open spec fn days_before_month(year: int, month: int) -> int {
    let l = leap_days(year);
    if month <= 1 {
        0
    } else if month == 2 {
        31
    } else if month == 3 {
        59 + l
    } else if month == 4 {
        90 + l
    } else if month == 5 {
        120 + l
    } else if month == 6 {
        151 + l
    } else if month == 7 {
        181 + l
    } else if month == 8 {
        212 + l
    } else if month == 9 {
        243 + l
    } else if month == 10 {
        273 + l
    } else if month == 11 {
        304 + l
    } else {
        334 + l
    }
}

/// Days since 1 January of year 1 (which is day 0, a Monday).
pub open spec fn day_number(year: int, month: int, day: int) -> int {
    days_before_year(year) + days_before_month(year, month) + day - 1
}

/// The weekday of a day number, as days since Monday.
pub open spec fn weekday_index_of(n: int) -> int {
    n % 7
}

pub open spec fn is_gregorian_date(year: int, month: int, day: int) -> bool {
    1 <= month <= 12 && 1 <= day <= gregorian_month_length(year, month)
}

/// The day number of the first date that chrono can hold.
pub open spec fn first_day_number() -> int {
    day_number(MIN_YEAR as int, 1, 1)
}

/// The day number of the last date that chrono can hold.
pub open spec fn last_day_number() -> int {
    day_number(MAX_YEAR as int, 12, 31)
}

/// A civil date, by year, month number (1 to 12) and day of the month.
#[derive(Debug, Clone, Copy, PartialEq, Eq, Structural)]
pub struct Date {
    pub year: i32,
    pub month: u32,
    pub day: u32,
}

impl Date {
    /// A date of the Gregorian calendar within the years that chrono holds.
    pub open spec fn wf(self) -> bool {
        &&& is_gregorian_date(self.year as int, self.month as int, self.day as int)
        &&& MIN_YEAR <= self.year <= MAX_YEAR
    }

    pub open spec fn number(self) -> int {
        day_number(self.year as int, self.month as int, self.day as int)
    }

    pub open spec fn weekday_index(self) -> int {
        weekday_index_of(self.number())
    }
}

/// The date with day number `n`, where there is one.
pub open spec fn date_at(n: int) -> Date {
    choose|d: Date| d.wf() && d.number() == n
}

// ---------------------------------------------------------------------------
// Facts of the day numbering

proof fn lemma_div_next(x: int, d: int)
    requires
        d == 4 || d == 100 || d == 400,
    ensures
        (x + 1) / d == x / d + (if (x + 1) % d == 0 {
            1int
        } else {
            0
        }),
{
    lemma_fundamental_div_mod(x, d);
    lemma_fundamental_div_mod(x + 1, d);
    lemma_mod_bound(x, d);
    lemma_mod_bound(x + 1, d);
    if d == 4 {
        assert((x + 1) / 4 == x / 4 + (if (x + 1) % 4 == 0 { 1int } else { 0 }));
    } else if d == 100 {
        assert((x + 1) / 100 == x / 100 + (if (x + 1) % 100 == 0 { 1int } else { 0 }));
    } else {
        assert((x + 1) / 400 == x / 400 + (if (x + 1) % 400 == 0 { 1int } else { 0 }));
    }
}

pub proof fn lemma_year_length(year: int)
    ensures
        days_before_year(year + 1) == days_before_year(year) + 365 + leap_days(year),
{
    reveal(days_before_year);
    let y = year - 1;
    lemma_div_next(y, 4);
    lemma_div_next(y, 100);
    lemma_div_next(y, 400);
    lemma_mod_mod_divisor(year);
}

proof fn lemma_mod_mod_divisor(year: int)
    ensures
        year % 400 == 0 ==> year % 100 == 0,
        year % 100 == 0 ==> year % 4 == 0,
{
    lemma_fundamental_div_mod(year, 400);
    lemma_fundamental_div_mod(year, 100);
    lemma_fundamental_div_mod(year, 4);
    lemma_mod_bound(year, 400);
    lemma_mod_bound(year, 100);
    lemma_mod_bound(year, 4);
}

proof fn lemma_years_ordered(y1: int, y2: int)
    requires
        y1 < y2,
    ensures
        days_before_year(y1 + 1) <= days_before_year(y2),
    decreases y2 - y1,
{
    if y1 + 1 < y2 {
        lemma_years_ordered(y1, y2 - 1);
        lemma_year_length(y2 - 1);
    }
}

pub proof fn lemma_within_year(year: int, month: int, day: int)
    requires
        is_gregorian_date(year, month, day),
    ensures
        days_before_year(year) <= day_number(year, month, day) < days_before_year(year + 1),
{
    lemma_year_length(year);
}

/// Day numbers follow the order of dates.
pub proof fn lemma_day_number_ordered(a: Date, b: Date)
    requires
        is_gregorian_date(a.year as int, a.month as int, a.day as int),
        is_gregorian_date(b.year as int, b.month as int, b.day as int),
        a.year < b.year || (a.year == b.year && a.month < b.month) || (a.year == b.year
            && a.month == b.month && a.day < b.day),
    ensures
        a.number() < b.number(),
{
    lemma_within_year(a.year as int, a.month as int, a.day as int);
    lemma_within_year(b.year as int, b.month as int, b.day as int);
    if a.year < b.year {
        lemma_years_ordered(a.year as int, b.year as int);
    }
}

/// Two dates with one day number are one date.
pub proof fn lemma_day_number_injective(a: Date, b: Date)
    requires
        is_gregorian_date(a.year as int, a.month as int, a.day as int),
        is_gregorian_date(b.year as int, b.month as int, b.day as int),
        a.number() == b.number(),
    ensures
        a == b,
{
    if a.year < b.year || (a.year == b.year && a.month < b.month) || (a.year == b.year
        && a.month == b.month && a.day < b.day) {
        lemma_day_number_ordered(a, b);
    } else if b.year < a.year || (a.year == b.year && b.month < a.month) || (a.year == b.year
        && a.month == b.month && b.day < a.day) {
        lemma_day_number_ordered(b, a);
    }
}

/// A date that chrono holds has a day number in chrono's range.
pub proof fn lemma_wf_in_range(d: Date)
    requires
        d.wf(),
    ensures
        first_day_number() <= d.number() <= last_day_number(),
{
    let first = Date { year: MIN_YEAR, month: 1, day: 1 };
    let last = Date { year: MAX_YEAR, month: 12, day: 31 };
    if d != first {
        lemma_day_number_ordered(first, d);
    }
    if d != last {
        lemma_day_number_ordered(d, last);
    }
}

/// A date held by chrono is the date at its day number.
pub proof fn lemma_date_at(d: Date)
    requires
        d.wf(),
    ensures
        date_at(d.number()) == d,
{
    let e = date_at(d.number());
    assert(e.wf() && e.number() == d.number());
    lemma_day_number_injective(d, e);
}


/// The day after `d`.
pub open spec fn next_date(d: Date) -> Date {
    if (d.day as int) < gregorian_month_length(d.year as int, d.month as int) {
        Date { year: d.year, month: d.month, day: (d.day + 1) as u32 }
    } else if d.month < 12 {
        Date { year: d.year, month: (d.month + 1) as u32, day: 1 }
    } else {
        Date { year: (d.year + 1) as i32, month: 1, day: 1 }
    }
}

/// The day before `d`.
pub open spec fn previous_date(d: Date) -> Date {
    if d.day > 1 {
        Date { year: d.year, month: d.month, day: (d.day - 1) as u32 }
    } else if d.month > 1 {
        Date {
            year: d.year,
            month: (d.month - 1) as u32,
            day: gregorian_month_length(d.year as int, d.month - 1) as u32,
        }
    } else {
        Date { year: (d.year - 1) as i32, month: 12, day: 31 }
    }
}

pub proof fn lemma_next_date(d: Date)
    requires
        d.wf(),
        d.number() + 1 <= last_day_number(),
    ensures
        next_date(d).wf(),
        next_date(d).number() == d.number() + 1,
        date_at(d.number() + 1) == next_date(d),
{
    if d.year == MAX_YEAR && d.month == 12 && d.day == 31 {
        assert(d.number() == last_day_number());
    }
    if (d.day as int) >= gregorian_month_length(d.year as int, d.month as int) && d.month >= 12 {
        lemma_year_length(d.year as int);
    }
    lemma_date_at(next_date(d));
}

pub proof fn lemma_previous_date(d: Date)
    requires
        d.wf(),
        first_day_number() <= d.number() - 1,
    ensures
        previous_date(d).wf(),
        previous_date(d).number() == d.number() - 1,
        date_at(d.number() - 1) == previous_date(d),
{
    if d.year == MIN_YEAR && d.month == 1 && d.day == 1 {
        assert(d.number() == first_day_number());
    }
    if d.day <= 1 && d.month <= 1 {
        lemma_year_length(d.year - 1);
    }
    lemma_date_at(previous_date(d));
}

/// Every day number in chrono's range is the number of a date.
pub proof fn lemma_date_at_wf(n: int)
    requires
        first_day_number() <= n <= last_day_number(),
    ensures
        date_at(n).wf(),
        date_at(n).number() == n,
    decreases n - first_day_number(),
{
    if n == first_day_number() {
        lemma_date_at(Date { year: MIN_YEAR, month: 1, day: 1 });
    } else {
        lemma_date_at_wf(n - 1);
        lemma_next_date(date_at(n - 1));
    }
}

// ---------------------------------------------------------------------------
// Calls into chrono

/// Relies on chrono's `NaiveDate::from_ymd_opt`: a date exists exactly when
/// the month is 1 to 12, the day lies within the Gregorian month and the year
/// within chrono's range; it keeps the year, month and day it was made from.
#[verifier::external_body]
pub(crate) fn date_from_ymd(year: i32, month: u32, day: u32) -> (r: Option<Date>)
    ensures
        r is Some <==> (is_gregorian_date(year as int, month as int, day as int) && MIN_YEAR
            <= year <= MAX_YEAR),
        r matches Some(d) ==> d == (Date { year, month, day }),
{
    chrono::NaiveDate::from_ymd_opt(year, month, day).map(
        |d| Date { year: d.year(), month: d.month(), day: d.day() },
    )
}

/// Relies on chrono's `Datelike::weekday` and `Weekday::num_days_from_monday`:
/// the weekday of a date, counted from Monday.
#[verifier::external_body]
fn weekday_index(d: Date) -> (r: u32)
    requires
        d.wf(),
    ensures
        r as int == d.weekday_index(),
{
    chrono::NaiveDate::from_ymd_opt(d.year, d.month, d.day).unwrap().weekday().num_days_from_monday()
}

/// Relies on chrono's `NaiveDate::checked_add_signed` with a whole number of
/// days: the date `days` days after `d` (before it, for a negative count), or
/// `None` where that date is outside chrono's range.
#[verifier::external_body]
pub(crate) fn date_add_days(d: Date, days: i32) -> (r: Option<Date>)
    requires
        d.wf(),
    ensures
        r is Some <==> first_day_number() <= d.number() + days <= last_day_number(),
        r matches Some(e) ==> e.wf() && e.number() == d.number() + days,
{
    chrono::NaiveDate::from_ymd_opt(d.year, d.month, d.day).unwrap().checked_add_signed(
        chrono::TimeDelta::days(days as i64),
    ).map(|e| Date { year: e.year(), month: e.month(), day: e.day() })
}

impl Date {
    /// The weekday of this date.
    pub fn weekday(&self) -> (r: Weekday)
        requires
            self.wf(),
        ensures
            r.index() == self.weekday_index(),
    {
        let i = weekday_index(*self);
        let r = Weekday::from_index(i as usize);
        proof {
            assert(0 <= self.weekday_index() < 7);
        }
        r
    }
}

// ---------------------------------------------------------------------------
// Stepping to a weekday

/// The number of days from a date with weekday `from` to the nearest date on
/// or after it (`forward`), or on or before it, that has weekday `to`.
pub open spec fn steps_to_weekday(from: int, to: int, forward: bool) -> int {
    if forward {
        (to - from) % 7
    } else {
        (from - to) % 7
    }
}

pub proof fn lemma_weekday_step(s: int, i: int, t: int, forward: bool)
    requires
        0 <= t < 7,
        0 <= i < 7,
    ensures
        weekday_index_of(step_days(s, i, forward)) == t <==> i == steps_to_weekday(
            weekday_index_of(s),
            t,
            forward,
        ),
        0 <= steps_to_weekday(weekday_index_of(s), t, forward) < 7,
{
    assert(i % 7 == i);
    if forward {
        lemma_add_mod_noop(s, i, 7);
    } else {
        lemma_sub_mod_noop(s, i, 7);
    }
}

/// The day number `i` days after `n` (`forward`), or `i` days before it.
pub open spec fn step_days(n: int, i: int, forward: bool) -> int {
    if forward {
        n + i
    } else {
        n - i
    }
}

/// The day number that `find_date` arrives at from the given start.
pub open spec fn find_date_target(start: Date, target: Weekday, direction: int) -> int {
    step_days(
        start.number(),
        steps_to_weekday(start.weekday_index(), target.index(), direction == 1),
        direction == 1,
    )
}

/// Steps one day at a time from `year`-`month`-`day` in `direction` (one day
/// forward for 1, backward for -1) until the weekday is `target`, and returns
/// that date. `None` where the start is no date, or the date reached is
/// outside chrono's range.
pub fn find_date(year: i32, month: Month, day: u32, target: Weekday, direction: i64) -> (r:
    Option<Date>)
    requires
        direction == 1 || direction == -1,
    ensures
        ({
            let start = Date { year, month: month.number() as u32, day };
            let n = find_date_target(start, target, direction as int);
            &&& r is Some <==> start.wf() && first_day_number() <= n <= last_day_number()
            &&& r matches Some(d) ==> d.wf() && d.number() == n && d.weekday_index()
                == target.index()
        }),
{
    let ghost start = Date { year, month: month.number() as u32, day };
    let first = match date_from_ymd(year, month.number_from_month(), day) {
        Some(d) => d,
        None => return None,
    };
    let ghost k = steps_to_weekday(start.weekday_index(), target.index(), direction == 1);
    let ghost n = find_date_target(start, target, direction as int);
    proof {
        lemma_weekday_step(start.number(), 0, target.index(), direction == 1);
    }
    let t = target.num_days_from_monday();
    let mut date = first;
    let mut i: u32 = 0;
    loop
        invariant
            direction == 1 || direction == -1,
            t as int == target.index(),
            start == (Date { year, month: month.number() as u32, day }),
            first == start,
            start.wf(),
            k == steps_to_weekday(start.weekday_index(), target.index(), direction == 1),
            0 <= k < 7,
            n == step_days(start.number(), k, direction == 1),
            0 <= i <= k,
            date.wf(),
            date.number() == step_days(start.number(), i as int, direction == 1),
        ensures
            date.wf(),
            date.number() == n,
        decreases k - i,
    {
        let w = weekday_index(date);
        proof {
            lemma_weekday_step(start.number(), i as int, t as int, direction == 1);
            lemma_wf_in_range(date);
            lemma_wf_in_range(start);
        }
        if w == t {
            break;
        }

        match date_add_days(date, direction as i32) {
            Some(d) => {
                date = d;
            },
            None => {
                return None;
            },
        }
        i = i + 1;
    }
    proof {
        lemma_wf_in_range(date);
    }
    Some(date)
}


// ---------------------------------------------------------------------------
// Month and weekday names

/// The code of a character, with the ASCII capitals taken to lower case.
pub open spec fn ascii_lower(c: char) -> int {
    if 65 <= (c as u32) <= 90 {
        (c as u32) + 32
    } else {
        c as int
    }
}

/// Equality of two texts where ASCII letters match regardless of case.
pub open spec fn eq_ignore_ascii_case(a: Seq<char>, b: Seq<char>) -> bool {
    &&& a.len() == b.len()
    &&& forall|i: int| 0 <= i < a.len() ==> ascii_lower(a[i]) == ascii_lower(b[i])
}

pub open spec fn month_abbreviation(m: Month) -> Seq<char> {
    match m {
        Month::January => seq!['j', 'a', 'n'],
        Month::February => seq!['f', 'e', 'b'],
        Month::March => seq!['m', 'a', 'r'],
        Month::April => seq!['a', 'p', 'r'],
        Month::May => seq!['m', 'a', 'y'],
        Month::June => seq!['j', 'u', 'n'],
        Month::July => seq!['j', 'u', 'l'],
        Month::August => seq!['a', 'u', 'g'],
        Month::September => seq!['s', 'e', 'p'],
        Month::October => seq!['o', 'c', 't'],
        Month::November => seq!['n', 'o', 'v'],
        Month::December => seq!['d', 'e', 'c'],
    }
}

pub open spec fn month_full_name(m: Month) -> Seq<char> {
    match m {
        Month::January => seq!['j', 'a', 'n', 'u', 'a', 'r', 'y'],
        Month::February => seq!['f', 'e', 'b', 'r', 'u', 'a', 'r', 'y'],
        Month::March => seq!['m', 'a', 'r', 'c', 'h'],
        Month::April => seq!['a', 'p', 'r', 'i', 'l'],
        Month::May => seq!['m', 'a', 'y'],
        Month::June => seq!['j', 'u', 'n', 'e'],
        Month::July => seq!['j', 'u', 'l', 'y'],
        Month::August => seq!['a', 'u', 'g', 'u', 's', 't'],
        Month::September => seq!['s', 'e', 'p', 't', 'e', 'm', 'b', 'e', 'r'],
        Month::October => seq!['o', 'c', 't', 'o', 'b', 'e', 'r'],
        Month::November => seq!['n', 'o', 'v', 'e', 'm', 'b', 'e', 'r'],
        Month::December => seq!['d', 'e', 'c', 'e', 'm', 'b', 'e', 'r'],
    }
}

pub open spec fn weekday_abbreviation(w: Weekday) -> Seq<char> {
    match w {
        Weekday::Mon => seq!['m', 'o', 'n'],
        Weekday::Tue => seq!['t', 'u', 'e'],
        Weekday::Wed => seq!['w', 'e', 'd'],
        Weekday::Thu => seq!['t', 'h', 'u'],
        Weekday::Fri => seq!['f', 'r', 'i'],
        Weekday::Sat => seq!['s', 'a', 't'],
        Weekday::Sun => seq!['s', 'u', 'n'],
    }
}

pub open spec fn weekday_full_name(w: Weekday) -> Seq<char> {
    match w {
        Weekday::Mon => seq!['m', 'o', 'n', 'd', 'a', 'y'],
        Weekday::Tue => seq!['t', 'u', 'e', 's', 'd', 'a', 'y'],
        Weekday::Wed => seq!['w', 'e', 'd', 'n', 'e', 's', 'd', 'a', 'y'],
        Weekday::Thu => seq!['t', 'h', 'u', 'r', 's', 'd', 'a', 'y'],
        Weekday::Fri => seq!['f', 'r', 'i', 'd', 'a', 'y'],
        Weekday::Sat => seq!['s', 'a', 't', 'u', 'r', 'd', 'a', 'y'],
        Weekday::Sun => seq!['s', 'u', 'n', 'd', 'a', 'y'],
    }
}

/// `s` is the month's three-letter abbreviation or its full English name,
/// in any ASCII case.
pub open spec fn is_month_name(s: Seq<char>, m: Month) -> bool {
    eq_ignore_ascii_case(s, month_abbreviation(m)) || eq_ignore_ascii_case(s, month_full_name(m))
}

/// `s` is the weekday's three-letter abbreviation or its full English
/// name, in any ASCII case.
pub open spec fn is_weekday_name(s: Seq<char>, w: Weekday) -> bool {
    eq_ignore_ascii_case(s, weekday_abbreviation(w)) || eq_ignore_ascii_case(s, weekday_full_name(
        w,
    ))
}

/// Relies on chrono's `FromStr` for `Month`, which accepts a month's
/// three-letter abbreviation or full English name in any ASCII case and
/// nothing else, and on `Month::number_from_month`.
#[verifier::external_body]
fn month_number_named(s: &str) -> (r: Option<u32>)
    ensures
        r matches Some(n) ==> 1 <= n <= 12 && is_month_name(s@, month_of(n as int)),
        r is None ==> forall|m: Month| !is_month_name(s@, m),
{
    s.parse::<chrono::Month>().ok().map(|m| m.number_from_month())
}

/// Relies on chrono's `FromStr` for `Weekday`, which accepts a weekday's
/// three-letter abbreviation or full English name in any ASCII case and
/// nothing else, and on `Weekday::num_days_from_monday`.
#[verifier::external_body]
fn weekday_index_named(s: &str) -> (r: Option<u32>)
    ensures
        r matches Some(i) ==> i < 7 && exists|w: Weekday| w.index() == i && is_weekday_name(s@, w),
        r is None ==> forall|w: Weekday| !is_weekday_name(s@, w),
{
    s.parse::<chrono::Weekday>().ok().map(|w| w.num_days_from_monday())
}

/// The month that `s` names, if any.
pub open spec fn month_named(s: Seq<char>) -> Option<Month> {
    if exists|m: Month| is_month_name(s, m) {
        Some(choose|m: Month| is_month_name(s, m))
    } else {
        None
    }
}

/// The weekday that `s` names, if any.
pub open spec fn weekday_named(s: Seq<char>) -> Option<Weekday> {
    if exists|w: Weekday| is_weekday_name(s, w) {
        Some(choose|w: Weekday| is_weekday_name(s, w))
    } else {
        None
    }
}

/// No text names two months.
pub proof fn lemma_month_name_unique(s: Seq<char>, a: Month, b: Month)
    requires
        is_month_name(s, a),
        is_month_name(s, b),
    ensures
        a == b,
{
    let na = if eq_ignore_ascii_case(s, month_abbreviation(a)) {
        month_abbreviation(a)
    } else {
        month_full_name(a)
    };
    let nb = if eq_ignore_ascii_case(s, month_abbreviation(b)) {
        month_abbreviation(b)
    } else {
        month_full_name(b)
    };
    assert(na.len() == nb.len());
    assert(forall|i: int| 0 <= i < na.len() ==> ascii_lower(na[i]) == ascii_lower(s[i]));
    assert(forall|i: int| 0 <= i < nb.len() ==> ascii_lower(nb[i]) == ascii_lower(s[i]));
    if a != b {
        assert(ascii_lower(na[0]) != ascii_lower(nb[0]) || ascii_lower(na[1]) != ascii_lower(nb[1])
            || ascii_lower(na[2]) != ascii_lower(nb[2]));
    }
}

/// No text names two weekdays.
pub proof fn lemma_weekday_name_unique(s: Seq<char>, a: Weekday, b: Weekday)
    requires
        is_weekday_name(s, a),
        is_weekday_name(s, b),
    ensures
        a == b,
{
    let na = if eq_ignore_ascii_case(s, weekday_abbreviation(a)) {
        weekday_abbreviation(a)
    } else {
        weekday_full_name(a)
    };
    let nb = if eq_ignore_ascii_case(s, weekday_abbreviation(b)) {
        weekday_abbreviation(b)
    } else {
        weekday_full_name(b)
    };
    assert(na.len() == nb.len());
    assert(forall|i: int| 0 <= i < na.len() ==> ascii_lower(na[i]) == ascii_lower(s[i]));
    assert(forall|i: int| 0 <= i < nb.len() ==> ascii_lower(nb[i]) == ascii_lower(s[i]));
    if a != b {
        assert(ascii_lower(na[0]) != ascii_lower(nb[0]) || ascii_lower(na[1]) != ascii_lower(nb[1])
            || ascii_lower(na[2]) != ascii_lower(nb[2]));
    }
}

/// The month that `s` names.
pub fn parse_month(s: &str) -> (r: Option<Month>)
    ensures
        r == month_named(s@),
{
    match month_number_named(s) {
        Some(n) => {
            let m = Month::from_number(n);
            proof {
                let m = m->Some_0;
                assert(month_of(n as int) == m);
                lemma_month_name_unique(s@, m, choose|x: Month| is_month_name(s@, x));
            }
            m
        },
        None => None,
    }
}

/// The weekday that `s` names.
pub fn parse_weekday(s: &str) -> (r: Option<Weekday>)
    ensures
        r == weekday_named(s@),
{
    match weekday_index_named(s) {
        Some(i) => {
            let w = Weekday::from_index(i as usize);
            proof {
                let x = choose|x: Weekday| x.index() == i && is_weekday_name(s@, x);
                assert(x == w);
                lemma_weekday_name_unique(s@, w, choose|x: Weekday| is_weekday_name(s@, x));
            }
            Some(w)
        },
        None => None,
    }
}

} // verus!
