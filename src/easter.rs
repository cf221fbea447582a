//! Easter Sunday of the Gregorian calendar, computed by the computus crate.
use vstd::prelude::*;

use crate::calendar::{
    Date, MAX_YEAR, MIN_YEAR, days_before_year, first_day_number, is_gregorian_date,
    last_day_number, lemma_day_number_ordered,
};
use crate::recurrence::ResolveError;

verus! {

/// The month and day of Easter Sunday in `year`, as the Gregorian computus
/// gives them for a year from 1583 to 9999.
pub uninterp spec fn gregorian_easter(year: i32) -> (u32, u32);

#[verifier::external_type_specification]
#[verifier::external_body]
pub struct ExOutOfRangeErr(computus::OutOfRangeErr);

/// Relies on `computus::gregorian`: it fails exactly for the years before
/// 1583 and after 9999, and otherwise gives the month and day of that year's
/// Easter Sunday.
#[verifier::external_body]
fn computus_gregorian(year: i32) -> (r: Result<(u32, u32), computus::OutOfRangeErr>)
    ensures
        r is Err <==> year < 1583 || year > 9999,
        r matches Ok(md) ==> md == gregorian_easter(year),
{
    computus::gregorian(year).map(|d| (d.month, d.day))
}

/// Easter Sunday of `year`, or why there is none.
pub open spec fn easter_sunday_of(year: i32) -> Result<Date, ResolveError> {
    if year < 1583 || year > 9999 {
        Err(ResolveError::EasterOutOfRange { year })
    } else {
        let (month, day) = gregorian_easter(year);
        if is_gregorian_date(year as int, month as int, day as int) {
            Ok(Date { year, month, day })
        } else {
            Err(ResolveError::InvalidDate { year, month, day })
        }
    }
}

/// The date of Easter Sunday in `year`.
pub fn easter_sunday(year: i32) -> (r: Result<Date, ResolveError>)
    ensures
        r == easter_sunday_of(year),
        r matches Ok(d) ==> d.wf() && 1583 <= d.year <= 9999,
{
    match computus_gregorian(year) {
        Err(_) => Err(ResolveError::EasterOutOfRange { year }),
        Ok((month, day)) => match crate::calendar::date_from_ymd(year, month, day) {
            Some(d) => Ok(d),
            None => Err(ResolveError::InvalidDate { year, month, day }),
        },
    }
}

proof fn lemma_years_apart(y1: int, y2: int)
    requires
        y1 <= y2,
    ensures
        days_before_year(y2) - days_before_year(y1) >= 365 * (y2 - y1),
    decreases y2 - y1,
{
    if y1 < y2 {
        lemma_years_apart(y1, y2 - 1);
        crate::calendar::lemma_year_length(y2 - 1);
    }
}

/// Any day within 32768 days of a date in the years 1583 to 9999 is a date
/// that chrono holds.
pub proof fn lemma_near_easter_in_range(d: Date, offset: int)
    requires
        d.wf(),
        1583 <= d.year <= 9999,
        -32768 <= offset <= 32767,
    ensures
        first_day_number() <= d.number() + offset <= last_day_number(),
{
    let lo = Date { year: 1583, month: 1, day: 1 };
    let hi = Date { year: 9999, month: 12, day: 31 };
    if d != lo {
        lemma_day_number_ordered(lo, d);
    }
    if d != hi {
        lemma_day_number_ordered(d, hi);
    }
    lemma_years_apart(MIN_YEAR as int, 1583);
    lemma_years_apart(10000, MAX_YEAR as int);
    crate::calendar::lemma_within_year(MAX_YEAR as int, 12, 31);
    crate::calendar::lemma_within_year(9999, 12, 31);
}

} // verus!
