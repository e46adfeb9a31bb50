//! The days on which a service runs.
use vstd::prelude::*;

use std::collections::HashMap;

use crate::feed::{Calendar, CalendarDate, Exception};

verus! {

broadcast use vstd::std_specs::hash::group_hash_axioms;

/// The weekdays of a service, one bit each from Monday on, and the first and last day on which
/// they count.
#[derive(Clone, Copy, Debug, PartialEq, Eq, Structural)]
pub struct WeeklyCalendar {
    pub start_date: i32,
    pub end_date: i32,
    pub weekdays: u8,
}

/// The days on which a service runs: its weekdays, and the days that make an exception, with
/// whether the service runs then.
#[derive(Clone, Debug)]
pub struct ServiceRule {
    pub weekly: Option<WeeklyCalendar>,
    pub exceptions: HashMap<i32, bool>,
}

/// The weekday of a day, counted from Monday as 0.
pub open spec fn weekday(day: i32) -> int {
    (day - 1) % 7
}

/// Whether a set of weekdays holds the one with this number.
pub open spec fn has_weekday(weekdays: u8, weekday: u8) -> bool {
    weekdays & (1u8 << weekday) != 0
}

impl ServiceRule {
    /// Whether the service runs on a day: what an exception says, or else whether its weekdays
    /// count then and hold that of the day.
    pub open spec fn runs(&self, day: i32) -> bool {
        if self.exceptions@.contains_key(day) {
            self.exceptions@[day]
        } else {
            match self.weekly {
                None => false,
                Some(weekly) => {
                    &&& weekly.start_date <= day <= weekly.end_date
                    &&& has_weekday(weekly.weekdays, weekday(day) as u8)
                },
            }
        }
    }

    /// Every date of the rule is one of the calendar.
    pub open spec fn in_calendar(&self) -> bool {
        &&& self.weekly matches Some(weekly) ==> {
            &&& crate::time::MIN_DAY <= weekly.start_date
            &&& weekly.end_date <= crate::time::MAX_DAY
        }
        &&& forall|day: i32| #[trigger]
            self.exceptions@.contains_key(day) ==> crate::time::MIN_DAY <= day
                <= crate::time::MAX_DAY
    }

    /// Whether the service runs on a day.
    pub fn runs_on(&self, day: i32) -> (answer: bool)
        ensures
            answer == self.runs(day),
    {
        if let Some(added) = self.exceptions.get(&day) {
            return *added;
        }
        match self.weekly {
            None => false,
            Some(weekly) => {
                if day < weekly.start_date || day > weekly.end_date {
                    return false;
                }
                let number: u8 = weekday_number(day);
                weekly.weekdays & (1u8 << number) != 0
            },
        }
    }

    /// A service runs on no day that is not one of the calendar.
    pub proof fn runs_in_calendar(&self, day: i32)
        requires
            self.in_calendar(),
            self.runs(day),
        ensures
            crate::time::MIN_DAY <= day <= crate::time::MAX_DAY,
    {
    }
}

/// The weekday of a day, counted from Monday as 0.
pub fn weekday_number(day: i32) -> (number: u8)
    ensures
        number == weekday(day),
        number < 7,
{
    let offset: i64 = day as i64 - 1;
    let remainder: i64 = if offset >= 0 {
        offset % 7
    } else {
        let back: i64 = (0 - offset) % 7;
        if back == 0 {
            0
        } else {
            7 - back
        }
    };
    proof {
        if offset < 0 {
            let back = (0 - offset) % 7;
            let quotient = (0 - offset) / 7;
            assert(offset == -(quotient * 7) - back);
            if back == 0 {
                assert((-quotient) * 7 == offset);
            } else {
                assert((-quotient - 1) * 7 + (7 - back) == offset);
            }
        }
    }
    remainder as u8
}

/// Whether a calendar holds the weekday with this number.
pub open spec fn calendar_weekday(calendar: Calendar, weekday: int) -> bool {
    if weekday == 0 {
        calendar.monday
    } else if weekday == 1 {
        calendar.tuesday
    } else if weekday == 2 {
        calendar.wednesday
    } else if weekday == 3 {
        calendar.thursday
    } else if weekday == 4 {
        calendar.friday
    } else if weekday == 5 {
        calendar.saturday
    } else {
        calendar.sunday
    }
}

/// The calendar of a service: the last one with its id.
pub open spec fn calendar_of(calendars: Seq<Calendar>, service_id: Seq<char>) -> Option<Calendar>
    decreases calendars.len(),
{
    if calendars.len() == 0 {
        None
    } else if calendars.last().service_id@ == service_id {
        Some(calendars.last())
    } else {
        calendar_of(calendars.drop_last(), service_id)
    }
}

/// What the exceptions say of a service on a day: the last one for both decides.
pub open spec fn exception_of(
    dates: Seq<CalendarDate>,
    service_id: Seq<char>,
    day: i32,
) -> Option<Exception>
    decreases dates.len(),
{
    if dates.len() == 0 {
        None
    } else if dates.last().service_id@ == service_id && dates.last().date == day {
        Some(dates.last().exception)
    } else {
        exception_of(dates.drop_last(), service_id, day)
    }
}

/// Whether the schedule says that a service runs on a day.
pub open spec fn scheduled_on(
    calendars: Seq<Calendar>,
    dates: Seq<CalendarDate>,
    service_id: Seq<char>,
    day: i32,
) -> bool {
    match exception_of(dates, service_id, day) {
        Some(exception) => exception == Exception::Added,
        None => match calendar_of(calendars, service_id) {
            None => false,
            Some(calendar) => {
                &&& calendar.start_date <= day <= calendar.end_date
                &&& calendar_weekday(calendar, weekday(day))
            },
        },
    }
}

/// One bit for a weekday that is in a set of weekdays, none for one that is not.
fn weekday_bit(runs: bool, bit: u8) -> (result: u8)
    ensures
        result == if runs {
            bit
        } else {
            0
        },
{
    if runs {
        bit
    } else {
        0
    }
}

/// The weekdays of a calendar.
fn weekday_set(calendar: &Calendar) -> (weekdays: u8)
    ensures
        holds_weekdays(weekdays, *calendar),
{
    let monday: u8 = weekday_bit(calendar.monday, 1);
    let tuesday: u8 = weekday_bit(calendar.tuesday, 2);
    let wednesday: u8 = weekday_bit(calendar.wednesday, 4);
    let thursday: u8 = weekday_bit(calendar.thursday, 8);
    let friday: u8 = weekday_bit(calendar.friday, 16);
    let saturday: u8 = weekday_bit(calendar.saturday, 32);
    let sunday: u8 = weekday_bit(calendar.sunday, 64);
    let weekdays: u8 = monday | tuesday | wednesday | thursday | friday | saturday | sunday;
    proof {
        assert((monday == 0 || monday == 1) && (tuesday == 0 || tuesday == 2) && (wednesday == 0
            || wednesday == 4) && (thursday == 0 || thursday == 8) && (friday == 0 || friday == 16)
            && (saturday == 0 || saturday == 32) && (sunday == 0 || sunday == 64) && weekdays == (
        monday | tuesday | wednesday | thursday | friday | saturday | sunday) ==> {
            &&& (weekdays & (1u8 << 0u8) != 0) == (monday != 0)
            &&& (weekdays & (1u8 << 1u8) != 0) == (tuesday != 0)
            &&& (weekdays & (1u8 << 2u8) != 0) == (wednesday != 0)
            &&& (weekdays & (1u8 << 3u8) != 0) == (thursday != 0)
            &&& (weekdays & (1u8 << 4u8) != 0) == (friday != 0)
            &&& (weekdays & (1u8 << 5u8) != 0) == (saturday != 0)
            &&& (weekdays & (1u8 << 6u8) != 0) == (sunday != 0)
        }) by (bit_vector);
        assert forall|number: u8|
            #![trigger has_weekday(weekdays, number)]
            number < 7 implies has_weekday(weekdays, number) == calendar_weekday(
            *calendar,
            number as int,
        ) by {
            if number == 0 {
            } else if number == 1 {
            } else if number == 2 {
            } else if number == 3 {
            } else if number == 4 {
            } else if number == 5 {
            } else {
                assert(number == 6);
            }
        }
    }
    weekdays
}

/// The weekdays of a rule are those of a calendar.
spec fn weekly_agrees(weekly: Option<WeeklyCalendar>, calendar: Option<Calendar>) -> bool {
    match (weekly, calendar) {
        (None, None) => true,
        (Some(weekly), Some(calendar)) => {
            &&& weekly.start_date == calendar.start_date
            &&& weekly.end_date == calendar.end_date
            &&& crate::time::MIN_DAY <= weekly.start_date
            &&& weekly.end_date <= crate::time::MAX_DAY
            &&& holds_weekdays(weekly.weekdays, calendar)
        },
        (_, _) => false,
    }
}

/// A set of weekdays is that of a calendar.
spec fn holds_weekdays(weekdays: u8, calendar: Calendar) -> bool {
    forall|number: u8|
        #![trigger has_weekday(weekdays, number)]
        number < 7 ==> has_weekday(weekdays, number) == calendar_weekday(calendar, number as int)
}

/// The exceptions of a rule are those of a service.
spec fn exceptions_agree(
    exceptions: Map<i32, bool>,
    dates: Seq<CalendarDate>,
    service_id: Seq<char>,
) -> bool {
    forall|day: i32|
        #![trigger exceptions.contains_key(day)]
        #![trigger exception_of(dates, service_id, day)]
        match exception_of(dates, service_id, day) {
            None => !exceptions.contains_key(day),
            Some(exception) => {
                &&& exceptions.contains_key(day)
                &&& exceptions[day] == (exception == Exception::Added)
                &&& crate::time::MIN_DAY <= day <= crate::time::MAX_DAY
            },
        }
}

/// The rule for the days of a service.
pub fn service_rule(
    calendars: &Vec<Calendar>,
    dates: &Vec<CalendarDate>,
    service_id: &String,
) -> (rule: ServiceRule)
    requires
        forall|i: int|
            0 <= i < calendars@.len() ==> {
                &&& crate::time::MIN_DAY <= (
                #[trigger] calendars@[i]).start_date <= crate::time::MAX_DAY
                &&& crate::time::MIN_DAY <= calendars@[i].end_date <= crate::time::MAX_DAY
            },
        forall|i: int|
            0 <= i < dates@.len() ==> crate::time::MIN_DAY <= (#[trigger] dates@[i]).date
                <= crate::time::MAX_DAY,
    ensures
        rule.in_calendar(),
        forall|day: i32| #[trigger]
            rule.runs(day) == scheduled_on(calendars@, dates@, service_id@, day),
{
    let mut weekly: Option<WeeklyCalendar> = None;
    for i in 0..calendars.len()
        invariant
            forall|j: int|
                0 <= j < calendars@.len() ==> {
                    &&& crate::time::MIN_DAY <= (
                    #[trigger] calendars@[j]).start_date <= crate::time::MAX_DAY
                    &&& crate::time::MIN_DAY <= calendars@[j].end_date <= crate::time::MAX_DAY
                },
            weekly_agrees(weekly, calendar_of(calendars@.take(i as int), service_id@)),
    {
        proof {
            assert(calendars@.take(i + 1).drop_last() =~= calendars@.take(i as int));
            assert(calendars@.take(i + 1).last() == calendars@[i as int]);
        }
        let calendar = &calendars[i];
        if calendar.service_id == *service_id {
            weekly = Some(
                WeeklyCalendar {
                    start_date: calendar.start_date,
                    end_date: calendar.end_date,
                    weekdays: weekday_set(calendar),
                },
            );
        }
    }
    let mut exceptions: HashMap<i32, bool> = HashMap::new();
    for i in 0..dates.len()
        invariant
            forall|j: int|
                0 <= j < dates@.len() ==> crate::time::MIN_DAY <= (#[trigger] dates@[j]).date
                    <= crate::time::MAX_DAY,
            exceptions_agree(exceptions@, dates@.take(i as int), service_id@),
    {
        proof {
            assert(dates@.take(i + 1).drop_last() =~= dates@.take(i as int));
            assert(dates@.take(i + 1).last() == dates@[i as int]);
        }
        let date = &dates[i];
        if date.service_id == *service_id {
            exceptions.insert(date.date, date.exception == Exception::Added);
        }
    }
    proof {
        assert(calendars@.take(calendars@.len() as int) =~= calendars@);
        assert(dates@.take(dates@.len() as int) =~= dates@);
    }
    let rule = ServiceRule { weekly, exceptions };
    proof {
        assert forall|day: i32| #[trigger] rule.runs(day) == scheduled_on(
            calendars@,
            dates@,
            service_id@,
            day,
        ) by {
            assert(0 <= weekday(day) < 7);
            if rule.weekly is Some {
                assert(has_weekday(rule.weekly->0.weekdays, weekday(day) as u8)
                    == calendar_weekday(
                    calendar_of(calendars@, service_id@)->0,
                    weekday(day),
                ));
            }
            assert(exceptions@.contains_key(day) || !exceptions@.contains_key(day));
        }
    }
    rule
}

proof fn lemma_calendar_of(calendars: Seq<Calendar>, service_id: Seq<char>, k: int)
    requires
        0 <= k < calendars.len(),
        calendars[k].service_id@ == service_id,
        forall|j: int|
            k < j < calendars.len() ==> (#[trigger] calendars[j]).service_id@ != service_id,
    ensures
        calendar_of(calendars, service_id) == Some(calendars[k]),
    decreases calendars.len(),
{
    if k < calendars.len() - 1 {
        let shorter = calendars.drop_last();
        assert(calendars[calendars.len() - 1].service_id@ != service_id);
        assert forall|j: int| k < j < shorter.len() implies (#[trigger] shorter[j]).service_id@
            != service_id by {
            assert(shorter[j] == calendars[j]);
        }
        lemma_calendar_of(shorter, service_id, k);
    }
}

proof fn lemma_no_calendar(calendars: Seq<Calendar>, service_id: Seq<char>)
    requires
        forall|j: int|
            0 <= j < calendars.len() ==> (#[trigger] calendars[j]).service_id@ != service_id,
    ensures
        calendar_of(calendars, service_id) is None,
    decreases calendars.len(),
{
    if calendars.len() > 0 {
        let shorter = calendars.drop_last();
        assert(calendars[calendars.len() - 1].service_id@ != service_id);
        assert forall|j: int| 0 <= j < shorter.len() implies (#[trigger] shorter[j]).service_id@
            != service_id by {
            assert(shorter[j] == calendars[j]);
        }
        lemma_no_calendar(shorter, service_id);
    }
}

proof fn lemma_exception_of(dates: Seq<CalendarDate>, service_id: Seq<char>, day: i32, k: int)
    requires
        0 <= k < dates.len(),
        dates[k].service_id@ == service_id && dates[k].date == day,
        forall|j: int|
            k < j < dates.len() ==> (#[trigger] dates[j]).service_id@ != service_id
                || dates[j].date != day,
    ensures
        exception_of(dates, service_id, day) == Some(dates[k].exception),
    decreases dates.len(),
{
    if k < dates.len() - 1 {
        let shorter = dates.drop_last();
        assert(dates[dates.len() - 1].service_id@ != service_id || dates[dates.len() - 1].date
            != day);
        assert forall|j: int| k < j < shorter.len() implies (#[trigger] shorter[j]).service_id@
            != service_id || shorter[j].date != day by {
            assert(shorter[j] == dates[j]);
        }
        lemma_exception_of(shorter, service_id, day, k);
    }
}

proof fn lemma_no_exception(dates: Seq<CalendarDate>, service_id: Seq<char>, day: i32)
    requires
        forall|j: int|
            0 <= j < dates.len() ==> (#[trigger] dates[j]).service_id@ != service_id
                || dates[j].date != day,
    ensures
        exception_of(dates, service_id, day) is None,
    decreases dates.len(),
{
    if dates.len() > 0 {
        let shorter = dates.drop_last();
        assert(dates[dates.len() - 1].service_id@ != service_id || dates[dates.len() - 1].date
            != day);
        assert forall|j: int| 0 <= j < shorter.len() implies (#[trigger] shorter[j]).service_id@
            != service_id || shorter[j].date != day by {
            assert(shorter[j] == dates[j]);
        }
        lemma_no_exception(shorter, service_id, day);
    }
}

/// On a day without an exception a service runs where its calendar, the last one with its id,
/// has begun and not ended and has the weekday of that day: day 1 was a Monday, and each weekday
/// has a flag of its own.
pub proof fn weekday_flag_decides(
    calendars: Seq<Calendar>,
    dates: Seq<CalendarDate>,
    service_id: Seq<char>,
    day: i32,
    k: int,
)
    requires
        0 <= k < calendars.len(),
        calendars[k].service_id@ == service_id,
        forall|j: int|
            k < j < calendars.len() ==> (#[trigger] calendars[j]).service_id@ != service_id,
        forall|j: int|
            0 <= j < dates.len() ==> (#[trigger] dates[j]).service_id@ != service_id
                || dates[j].date != day,
    ensures
        day < calendars[k].start_date ==> !scheduled_on(calendars, dates, service_id, day),
        day > calendars[k].end_date ==> !scheduled_on(calendars, dates, service_id, day),
        calendars[k].start_date <= day <= calendars[k].end_date ==> {
            let runs = scheduled_on(calendars, dates, service_id, day);
            &&& (day - 1) % 7 == 0 ==> runs == calendars[k].monday
            &&& (day - 1) % 7 == 1 ==> runs == calendars[k].tuesday
            &&& (day - 1) % 7 == 2 ==> runs == calendars[k].wednesday
            &&& (day - 1) % 7 == 3 ==> runs == calendars[k].thursday
            &&& (day - 1) % 7 == 4 ==> runs == calendars[k].friday
            &&& (day - 1) % 7 == 5 ==> runs == calendars[k].saturday
            &&& (day - 1) % 7 == 6 ==> runs == calendars[k].sunday
        },
{
    lemma_calendar_of(calendars, service_id, k);
    lemma_no_exception(dates, service_id, day);
}

/// An exception overrides the calendar: where the last one for a service and a day adds that
/// day the service runs, where it deletes that day the service does not.
pub proof fn last_exception_decides(
    calendars: Seq<Calendar>,
    dates: Seq<CalendarDate>,
    service_id: Seq<char>,
    day: i32,
    k: int,
)
    requires
        0 <= k < dates.len(),
        dates[k].service_id@ == service_id && dates[k].date == day,
        forall|j: int|
            k < j < dates.len() ==> (#[trigger] dates[j]).service_id@ != service_id
                || dates[j].date != day,
    ensures
        dates[k].exception is Added ==> scheduled_on(calendars, dates, service_id, day),
        dates[k].exception is Deleted ==> !scheduled_on(calendars, dates, service_id, day),
{
    lemma_exception_of(dates, service_id, day, k);
}

/// A service without a calendar runs on no day but those that an exception adds.
pub proof fn unknown_service_rests(
    calendars: Seq<Calendar>,
    dates: Seq<CalendarDate>,
    service_id: Seq<char>,
    day: i32,
)
    requires
        forall|j: int|
            0 <= j < calendars.len() ==> (#[trigger] calendars[j]).service_id@ != service_id,
        forall|j: int|
            0 <= j < dates.len() ==> (#[trigger] dates[j]).service_id@ != service_id
                || dates[j].date != day,
    ensures
        !scheduled_on(calendars, dates, service_id, day),
{
    lemma_no_calendar(calendars, service_id);
    lemma_no_exception(dates, service_id, day);
}

} // verus!
