//! Laws of resolution, stated over the meaning of the event rules.
use vstd::arithmetic::div_mod::{lemma_fundamental_div_mod, lemma_mod_multiples_vanish};
use vstd::prelude::*;

use crate::calendar::{
    Date, MAX_YEAR, MIN_YEAR, Month, Weekday, first_day_number, is_gregorian_leap,
    last_day_number, lemma_date_at, lemma_date_at_wf, lemma_next_date, lemma_previous_date,
    lemma_weekday_step, next_date, previous_date, steps_to_weekday,
};
use crate::easter::{easter_sunday_of, lemma_near_easter_in_range};
use crate::recurrence::{
    EventDescriptionData, ResolveError, all_months, all_wf, fuzzy_sunday_dates, fuzzy_sunday_of,
    nth_weekday_dates, nth_weekday_of, resolve,
};

verus! {

/// A fixed date that exists in the year resolves to exactly that date.
pub proof fn law_fixed_date_resolves_to_itself(year: i32, month: Month, day: u32)
    requires
        (Date { year, month: month.number() as u32, day }).wf(),
    ensures
        resolve(EventDescriptionData::FixedDate { month, day }, year) == Ok::<
            Seq<Date>,
            ResolveError,
        >(seq![Date { year, month: month.number() as u32, day }]),
{
}

proof fn lemma_first_weekday(year: i32, month: Month, w: Weekday)
    requires
        MIN_YEAR <= year <= MAX_YEAR,
    ensures
        nth_weekday_of(year, month, w, 1) is Ok,
        nth_weekday_of(year, month, w, 1)->Ok_0 is Some,
        ({
            let d = nth_weekday_of(year, month, w, 1)->Ok_0->Some_0;
            &&& d.wf()
            &&& d.year == year
            &&& d.month == month.number()
            &&& 1 <= d.day <= 7
            &&& d.weekday_index() == w.index()
        }),
{
    let start = Date { year, month: month.number() as u32, day: 1 };
    let k = steps_to_weekday(start.weekday_index(), w.index(), true);
    lemma_weekday_step(start.number(), 0, w.index(), true);
    lemma_weekday_step(start.number(), k, w.index(), true);
}

proof fn lemma_nth_weekday_dates_all_found(year: i32, w: Weekday, n: i16, ms: Seq<Month>)
    requires
        forall|i: int|
            0 <= i < ms.len() ==> (#[trigger] nth_weekday_of(year, ms[i], w, n)) is Ok
                && nth_weekday_of(year, ms[i], w, n)->Ok_0 is Some,
    ensures
        nth_weekday_dates(year, w, n, ms) is Ok,
        nth_weekday_dates(year, w, n, ms)->Ok_0.len() == ms.len(),
        forall|i: int|
            0 <= i < ms.len() ==> nth_weekday_dates(year, w, n, ms)->Ok_0[i] == (
            #[trigger] nth_weekday_of(year, ms[i], w, n))->Ok_0->Some_0,
    decreases ms.len(),
{
    if ms.len() > 0 {
        let front = ms.drop_last();
        assert forall|i: int| 0 <= i < front.len() implies (#[trigger] nth_weekday_of(
            year,
            front[i],
            w,
            n,
        )) is Ok && nth_weekday_of(year, front[i], w, n)->Ok_0 is Some by {
            assert(front[i] == ms[i]);
        }
        lemma_nth_weekday_dates_all_found(year, w, n, front);
        assert(nth_weekday_of(year, ms[ms.len() - 1], w, n) is Ok);
        assert forall|i: int| 0 <= i < ms.len() implies nth_weekday_dates(year, w, n, ms)->Ok_0[i]
            == (#[trigger] nth_weekday_of(year, ms[i], w, n))->Ok_0->Some_0 by {
            if i < front.len() {
                assert(front[i] == ms[i]);
                assert(nth_weekday_of(year, front[i], w, n) is Ok);
            }
        }
    }
}

/// The first Monday of every month: twelve dates, one per month in month
/// order, each a Monday among the first seven days of its month.
pub proof fn law_first_monday_of_every_month(year: i32)
    requires
        MIN_YEAR <= year <= MAX_YEAR,
    ensures
        ({
            let r = resolve(
                EventDescriptionData::NthWeekdayOfMonth { n: 1, weekday: Weekday::Mon, month: None },
                year,
            );
            &&& r is Ok
            &&& r->Ok_0.len() == 12
            &&& forall|i: int|
                0 <= i < 12 ==> {
                    let d = #[trigger] r->Ok_0[i];
                    &&& d.wf()
                    &&& d.year == year
                    &&& d.month == i + 1
                    &&& 1 <= d.day <= 7
                    &&& d.weekday_index() == 0
                }
        }),
{
    let ms = all_months();
    assert forall|i: int| 0 <= i < ms.len() implies (#[trigger] nth_weekday_of(
        year,
        ms[i],
        Weekday::Mon,
        1,
    )) is Ok && nth_weekday_of(year, ms[i], Weekday::Mon, 1)->Ok_0 is Some by {
        lemma_first_weekday(year, ms[i], Weekday::Mon);
    }
    lemma_nth_weekday_dates_all_found(year, Weekday::Mon, 1, ms);
    assert forall|i: int| 0 <= i < 12 implies {
        let d = #[trigger] nth_weekday_dates(year, Weekday::Mon, 1, ms)->Ok_0[i];
        &&& d.wf()
        &&& d.year == year
        &&& d.month == i + 1
        &&& 1 <= d.day <= 7
        &&& d.weekday_index() == 0
    } by {
        lemma_first_weekday(year, ms[i], Weekday::Mon);
        assert(ms[i].number() == i + 1);
    }
}

/// The last Friday of December: one date, a Friday among the last seven
/// days of December.
pub proof fn law_last_friday_of_december(year: i32)
    requires
        MIN_YEAR <= year <= MAX_YEAR,
    ensures
        ({
            let r = resolve(
                EventDescriptionData::NthWeekdayOfMonth {
                    n: -1i16,
                    weekday: Weekday::Fri,
                    month: Some(Month::December),
                },
                year,
            );
            &&& r is Ok
            &&& r->Ok_0.len() == 1
            &&& r->Ok_0[0].wf()
            &&& r->Ok_0[0].year == year
            &&& r->Ok_0[0].month == 12
            &&& 25 <= r->Ok_0[0].day <= 31
            &&& r->Ok_0[0].weekday_index() == 4
        }),
{
    let start = Date { year, month: 12, day: 31 };
    let k = steps_to_weekday(start.weekday_index(), 4, false);
    lemma_weekday_step(start.number(), 0, 4, false);
    lemma_weekday_step(start.number(), k, 4, false);
    let ms = seq![Month::December];
    assert(ms.drop_last() == Seq::<Month>::empty());
    assert(ms.last() == Month::December);
    let d = Date { year, month: 12, day: (31 - k) as u32 };
    assert(d.number() == start.number() - k);
    assert(nth_weekday_of(year, Month::December, Weekday::Fri, -1i16) == Ok::<
        Option<Date>,
        ResolveError,
    >(Some(d)));
    assert(nth_weekday_dates(year, Weekday::Fri, -1i16, ms.drop_last()) == Ok::<
        Seq<Date>,
        ResolveError,
    >(seq![]));
    assert(seq![].push(d) == seq![d]);
}

/// The fifth Monday of February: February 29, where that day exists and is
/// a Monday, and no date in any other year.
pub proof fn law_fifth_monday_of_february(year: i32)
    requires
        MIN_YEAR <= year <= MAX_YEAR,
    ensures
        resolve(
            EventDescriptionData::NthWeekdayOfMonth {
                n: 5,
                weekday: Weekday::Mon,
                month: Some(Month::February),
            },
            year,
        ) == if is_gregorian_leap(year as int) && (Date { year, month: 2, day: 29 }).weekday_index()
            == 0 {
            Ok::<Seq<Date>, ResolveError>(seq![Date { year, month: 2, day: 29 }])
        } else {
            Ok::<Seq<Date>, ResolveError>(seq![])
        },
{
    let start = Date { year, month: 2, day: 1 };
    let k = steps_to_weekday(start.weekday_index(), 0, true);
    lemma_weekday_step(start.number(), 0, 0, true);
    lemma_weekday_step(start.number(), k, 0, true);
    assert((Date { year, month: 2, day: 29 }).number() == start.number() + 28);
    lemma_mod_multiples_vanish(4, start.number(), 7);
    assert(7 * 4 + start.number() == start.number() + 28);
    let ms = seq![Month::February];
    assert(ms.drop_last() == Seq::<Month>::empty());
    assert(ms.last() == Month::February);
    assert(nth_weekday_dates(year, Weekday::Mon, 5, ms.drop_last()) == Ok::<
        Seq<Date>,
        ResolveError,
    >(seq![]));
    let feb29 = Date { year, month: 2, day: 29 };
    if is_gregorian_leap(year as int) && feb29.weekday_index() == 0 {
        assert(k == 0);
        assert(nth_weekday_of(year, Month::February, Weekday::Mon, 5) == Ok::<
            Option<Date>,
            ResolveError,
        >(Some(feb29)));
        assert(seq![].push(feb29) == seq![feb29]);
    } else {
        assert(nth_weekday_of(year, Month::February, Weekday::Mon, 5) == Ok::<
            Option<Date>,
            ResolveError,
        >(None));
    }
}

/// Easter with no offset is Easter Sunday itself, and an offset of one is
/// the day after it.
pub proof fn law_days_after_easter(year: i32)
    requires
        easter_sunday_of(year) is Ok,
    ensures
        ({
            let easter = easter_sunday_of(year)->Ok_0;
            &&& resolve(EventDescriptionData::DaysAfterEaster { day_offset: 0 }, year) == Ok::<
                Seq<Date>,
                ResolveError,
            >(seq![easter])
            &&& resolve(EventDescriptionData::DaysAfterEaster { day_offset: 1 }, year) == Ok::<
                Seq<Date>,
                ResolveError,
            >(seq![next_date(easter)])
            &&& next_date(easter).number() == easter.number() + 1
        }),
{
    let easter = easter_sunday_of(year)->Ok_0;
    lemma_date_at(easter);
    lemma_near_easter_in_range(easter, 1);
    lemma_next_date(easter);
}

/// On a Monday the shift gives the Sunday before, on a Saturday the Sunday
/// after, and on any other day the date itself.
pub proof fn law_fuzzy_sunday_shift(d: Date)
    requires
        d.wf(),
    ensures
        d.weekday_index() == 0 && first_day_number() <= d.number() - 1 ==> fuzzy_sunday_of(d)
            == Ok::<Date, ResolveError>(previous_date(d)) && previous_date(d).number() == d.number()
            - 1 && previous_date(d).weekday_index() == 6,
        d.weekday_index() == 5 && d.number() + 1 <= last_day_number() ==> fuzzy_sunday_of(d)
            == Ok::<Date, ResolveError>(next_date(d)) && next_date(d).number() == d.number() + 1
            && next_date(d).weekday_index() == 6,
        d.weekday_index() != 0 && d.weekday_index() != 5 ==> fuzzy_sunday_of(d) == Ok::<
            Date,
            ResolveError,
        >(d),
{
    reveal(fuzzy_sunday_of);
    lemma_fundamental_div_mod(d.number(), 7);
    if d.weekday_index() == 0 && first_day_number() <= d.number() - 1 {
        lemma_previous_date(d);
        lemma_fundamental_div_mod(d.number() - 1, 7);
    }
    if d.weekday_index() == 5 && d.number() + 1 <= last_day_number() {
        lemma_next_date(d);
        lemma_fundamental_div_mod(d.number() + 1, 7);
    }
}

proof fn lemma_fuzzy_result_settled(d: Date)
    requires
        d.wf(),
        fuzzy_sunday_of(d) is Ok,
    ensures
        fuzzy_sunday_of(d)->Ok_0.wf(),
        fuzzy_sunday_of(fuzzy_sunday_of(d)->Ok_0) == fuzzy_sunday_of(d),
{
    reveal(fuzzy_sunday_of);
    law_fuzzy_sunday_shift(d);
    let e = fuzzy_sunday_of(d)->Ok_0;
    if e != d {
        law_fuzzy_sunday_shift(e);
    }
}

proof fn lemma_fuzzy_dates_shape(ds: Seq<Date>)
    requires
        all_wf(ds),
        fuzzy_sunday_dates(ds) is Ok,
    ensures
        fuzzy_sunday_dates(ds)->Ok_0.len() == ds.len(),
        all_wf(fuzzy_sunday_dates(ds)->Ok_0),
        forall|i: int|
            0 <= i < ds.len() ==> fuzzy_sunday_of(#[trigger] ds[i]) == Ok::<Date, ResolveError>(
                fuzzy_sunday_dates(ds)->Ok_0[i],
            ),
        forall|i: int|
            0 <= i < ds.len() ==> fuzzy_sunday_of(
                #[trigger] fuzzy_sunday_dates(ds)->Ok_0[i],
            ) == Ok::<Date, ResolveError>(fuzzy_sunday_dates(ds)->Ok_0[i]),
    decreases ds.len(),
{
    if ds.len() > 0 {
        let front = ds.drop_last();
        assert forall|i: int| 0 <= i < front.len() implies #[trigger] front[i].wf() by {
            assert(front[i] == ds[i]);
        }
        lemma_fuzzy_dates_shape(front);
        lemma_fuzzy_result_settled(ds.last());
        let out = fuzzy_sunday_dates(ds)->Ok_0;
        assert forall|i: int| 0 <= i < ds.len() implies fuzzy_sunday_of(#[trigger] ds[i]) == Ok::<
            Date,
            ResolveError,
        >(out[i]) by {
            if i < front.len() {
                assert(front[i] == ds[i]);
            }
        }
        assert forall|i: int| 0 <= i < ds.len() implies fuzzy_sunday_of(#[trigger] out[i]) == Ok::<
            Date,
            ResolveError,
        >(out[i]) by {
            if i < front.len() {
                assert(front[i] == ds[i]);
                assert(out[i] == fuzzy_sunday_dates(front)->Ok_0[i]);
            }
        }
        assert forall|i: int| 0 <= i < out.len() implies #[trigger] out[i].wf() by {
            if i < front.len() {
                assert(out[i] == fuzzy_sunday_dates(front)->Ok_0[i]);
            }
        }
    }
}

proof fn lemma_fuzzy_dates_of_settled(ds: Seq<Date>)
    requires
        forall|i: int|
            0 <= i < ds.len() ==> fuzzy_sunday_of(#[trigger] ds[i]) == Ok::<Date, ResolveError>(
                ds[i],
            ),
    ensures
        fuzzy_sunday_dates(ds) == Ok::<Seq<Date>, ResolveError>(ds),
    decreases ds.len(),
{
    if ds.len() > 0 {
        let front = ds.drop_last();
        assert forall|i: int| 0 <= i < front.len() implies fuzzy_sunday_of(#[trigger] front[i])
            == Ok::<Date, ResolveError>(front[i]) by {
            assert(front[i] == ds[i]);
        }
        lemma_fuzzy_dates_of_settled(front);
        assert(front.push(ds.last()) == ds);
        assert(fuzzy_sunday_of(ds[ds.len() - 1]) == Ok::<Date, ResolveError>(ds[ds.len() - 1]));
        assert(fuzzy_sunday_of(ds.last()) == Ok::<Date, ResolveError>(ds.last()));
        assert(fuzzy_sunday_dates(front) == Ok::<Seq<Date>, ResolveError>(front));
        assert(ds.drop_last() == front);
        assert(fuzzy_sunday_dates(ds) == Ok::<Seq<Date>, ResolveError>(front.push(ds.last())));
    } else {
        assert(ds == Seq::<Date>::empty());
    }
}

proof fn lemma_nth_weekday_dates_wf(year: i32, w: Weekday, n: i16, ms: Seq<Month>)
    requires
        nth_weekday_dates(year, w, n, ms) is Ok,
    ensures
        all_wf(nth_weekday_dates(year, w, n, ms)->Ok_0),
    decreases ms.len(),
{
    if ms.len() > 0 {
        lemma_nth_weekday_dates_wf(year, w, n, ms.drop_last());
    }
}

/// Every date that a rule resolves to is a date that chrono holds.
pub proof fn lemma_resolved_dates_wf(data: EventDescriptionData, year: i32)
    requires
        resolve(data, year) is Ok,
    ensures
        all_wf(resolve(data, year)->Ok_0),
    decreases data,
{
    match data {
        EventDescriptionData::FixedDate { .. } => {},
        EventDescriptionData::NthWeekdayOfMonth { n, weekday, month } => {
            lemma_nth_weekday_dates_wf(
                year,
                weekday,
                n,
                match month {
                    Some(m) => seq![m],
                    None => all_months(),
                },
            );
        },
        EventDescriptionData::DaysAfterEaster { day_offset } => {
            let easter = easter_sunday_of(year)->Ok_0;
            lemma_near_easter_in_range(easter, day_offset as int);
            lemma_date_at_wf(easter.number() + day_offset);
        },
        EventDescriptionData::FuzzySunday(inner) => {
            lemma_resolved_dates_wf(*inner, year);
            lemma_fuzzy_dates_shape(resolve(*inner, year)->Ok_0);
        },
    }
}

/// Moving dates to the nearest Sunday a second time changes nothing: a rule
/// wrapped twice names the same dates, or fails the same way, as the rule
/// wrapped once.
pub proof fn law_fuzzy_sunday_idempotent(data: EventDescriptionData, year: i32)
    ensures
        resolve(
            EventDescriptionData::FuzzySunday(
                Box::new(EventDescriptionData::FuzzySunday(Box::new(data))),
            ),
            year,
        ) == resolve(EventDescriptionData::FuzzySunday(Box::new(data)), year),
{
    let once = EventDescriptionData::FuzzySunday(Box::new(data));
    if resolve(data, year) is Ok && resolve(once, year) is Ok {
        lemma_resolved_dates_wf(data, year);
        lemma_fuzzy_dates_shape(resolve(data, year)->Ok_0);
        lemma_fuzzy_dates_of_settled(resolve(once, year)->Ok_0);
    }
}

} // verus!
