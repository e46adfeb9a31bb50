//! Local calendar times, and the event and arrival times of the feed.
//!
//! A day is a number: the days of the proleptic Gregorian calendar, with January 1 of the
//! year 1 as day 1.
use vstd::prelude::*;

use chrono::{Datelike, TimeZone, Timelike};

use crate::text::trim;

verus! {

/// The first day of the calendar: January 1 of the year -262143.
pub const MIN_DAY: i32 = -95746129;

/// The last day of the calendar: December 31 of the year 262142.
pub const MAX_DAY: i32 = 95745399;

/// The nanoseconds that mark a leap second.
pub const LEAP_NANOSECOND: u32 = 1_000_000_000;

/// How the feed writes the moment at which a row was made.
pub const EVENT_TIME_FORMAT: &'static str = "%m/%d/%Y %I:%M:%S %p";

/// How the feed writes the time of day of an arrival.
pub const NEXT_ARRIVAL_FORMAT: &'static str = "%I:%M:%S %p";

/// How a realtime message writes a service date.
pub const SERVICE_DATE_FORMAT: &'static str = "%Y%m%d";

/// A local time as a day, a second of that day and whether it is the leap second that follows
/// that second.
pub struct CivilTime {
    pub day: int,
    pub second: int,
    pub leap: bool,
}

impl CivilTime {
    /// The day is one of the calendar.
    pub open spec fn in_calendar(self) -> bool {
        MIN_DAY <= self.day <= MAX_DAY
    }

    /// The time `seconds` later. A leap second counts as part of the step that leaves it.
    pub open spec fn moved(self, seconds: int) -> CivilTime {
        if seconds == 0 {
            self
        } else {
            let end = self.day * 86400 + self.second + seconds + if self.leap && seconds < 0 {
                1int
            } else {
                0
            };
            CivilTime { day: end / 86400, second: end % 86400, leap: false }
        }
    }

    /// The seconds from `earlier` to this time. A leap second counts on the times of day that
    /// do not come before it.
    pub open spec fn since(self, earlier: CivilTime) -> int {
        (self.day - earlier.day) * 86400 + self.second - earlier.second + (if self.leap
            && self.second >= earlier.second {
            1int
        } else {
            0
        }) - (if earlier.leap && self.second <= earlier.second {
            1int
        } else {
            0
        })
    }

    /// Whether this time comes before `other`.
    pub open spec fn before(self, other: CivilTime) -> bool {
        ||| self.day < other.day
        ||| self.day == other.day && self.second < other.second
        ||| self.day == other.day && self.second == other.second && !self.leap && other.leap
    }

    /// The distance between two times in seconds.
    pub open spec fn distance(self, other: CivilTime) -> int {
        if self.since(other) < 0 {
            -self.since(other)
        } else {
            self.since(other)
        }
    }
}

/// A local time: a day, a second of that day, and the nanoseconds after it, which are 0 or, in
/// a leap second, [`LEAP_NANOSECOND`].
#[derive(Clone, Copy, Debug, PartialEq, Eq, Structural)]
pub struct LocalDateTime {
    pub day: i32,
    pub second: u32,
    pub nanosecond: u32,
}

impl View for LocalDateTime {
    type V = CivilTime;

    open spec fn view(&self) -> CivilTime {
        CivilTime {
            day: self.day as int,
            second: self.second as int,
            leap: self.nanosecond >= LEAP_NANOSECOND,
        }
    }
}

/// Whether a second of the day and its nanoseconds make a time of day.
pub open spec fn time_of_day(second: u32, nanosecond: u32) -> bool {
    &&& second < 86400
    &&& nanosecond == 0 || nanosecond == LEAP_NANOSECOND && second % 60 == 59
}

impl LocalDateTime {
    /// The fields make a local time of the calendar.
    pub open spec fn valid(&self) -> bool {
        MIN_DAY <= self.day <= MAX_DAY && time_of_day(self.second, self.nanosecond)
    }

    /// The time with the day and the time of day of `time`.
    pub open spec fn of(time: CivilTime) -> LocalDateTime {
        LocalDateTime {
            day: time.day as i32,
            second: time.second as u32,
            nanosecond: if time.leap {
                LEAP_NANOSECOND
            } else {
                0
            },
        }
    }
}

/// A local time and the moment that it names, in seconds of the Unix era.
#[derive(Clone, Copy, Debug, PartialEq, Eq, Structural)]
pub struct ZonedTime {
    pub local: LocalDateTime,
    pub unix: i64,
}

/// The moments at which the clocks of a zone show a local time, in seconds of the Unix era.
#[derive(Clone, Copy, Debug, PartialEq, Eq, Structural)]
pub enum LocalInstants {
    /// The clocks skip that time.
    Missing,
    /// The clocks show it once.
    Unique(i64),
    /// The clocks show it twice; the earlier moment comes first.
    Repeated(i64, i64),
}

/// What `chrono::NaiveDateTime::parse_from_str` reads from a text under a format: the day, the
/// second of the day and the nanoseconds.
pub uninterp spec fn parsed_datetime(text: Seq<char>, format: Seq<char>) -> Option<(i32, u32, u32)>;

/// What `chrono::NaiveTime::parse_from_str` reads from a text under a format: the second of the
/// day and the nanoseconds.
pub uninterp spec fn parsed_time(text: Seq<char>, format: Seq<char>) -> Option<(u32, u32)>;

/// What `from_local_datetime` of the `chrono_tz` zone America/New_York gives for a day, a
/// second of that day and nanoseconds.
pub uninterp spec fn new_york_instants(day: i32, second: u32, nanosecond: u32) -> LocalInstants;

/// What `chrono::NaiveDate::format` writes for a day under a format.
pub uninterp spec fn formatted_date(day: i32, format: Seq<char>) -> Seq<char>;

/// Reads an event time with `chrono::NaiveDateTime::parse_from_str`. The result is named; of its
/// parts the contract claims that the day is one of the calendar and that the second and the
/// nanoseconds make a time of day: whole seconds, a second of 60 coming back as a leap second.
#[verifier::external_body]
fn parse_datetime(text: &str, format: &str) -> (result: Option<(i32, u32, u32)>)
    requires
        format@ == EVENT_TIME_FORMAT@,
    ensures
        result == parsed_datetime(text@, format@),
        result matches Some((day, second, nanosecond)) ==> MIN_DAY <= day <= MAX_DAY
            && time_of_day(second, nanosecond),
{
    chrono::NaiveDateTime::parse_from_str(text, format).ok().map(
        |read|
            (
                read.date().num_days_from_ce(),
                read.time().num_seconds_from_midnight(),
                read.time().nanosecond(),
            ),
    )
}

/// Reads a time of day with `chrono::NaiveTime::parse_from_str`. The result is named; of its
/// parts the contract claims that they make a time of day, as that of [`parse_datetime`] does.
#[verifier::external_body]
fn parse_time(text: &str, format: &str) -> (result: Option<(u32, u32)>)
    requires
        format@ == NEXT_ARRIVAL_FORMAT@,
    ensures
        result == parsed_time(text@, format@),
        result matches Some((second, nanosecond)) ==> time_of_day(second, nanosecond),
{
    chrono::NaiveTime::parse_from_str(text, format).ok().map(
        |read| (read.num_seconds_from_midnight(), read.nanosecond()),
    )
}

/// Finds the moments at which New York clocks show a local time, with `from_local_datetime` of
/// `chrono_tz::America::New_York`. The result is named.
#[verifier::external_body]
fn find_new_york_instants(day: i32, second: u32, nanosecond: u32) -> (result: LocalInstants)
    requires
        MIN_DAY <= day <= MAX_DAY,
        time_of_day(second, nanosecond),
    ensures
        result == new_york_instants(day, second, nanosecond),
{
    let date = chrono::NaiveDate::from_num_days_from_ce_opt(day).unwrap();
    let time = chrono::NaiveTime::from_num_seconds_from_midnight_opt(second, nanosecond).unwrap();
    match chrono_tz::America::New_York.from_local_datetime(&date.and_time(time)) {
        chrono::LocalResult::None => LocalInstants::Missing,
        chrono::LocalResult::Single(moment) => LocalInstants::Unique(moment.timestamp()),
        chrono::LocalResult::Ambiguous(first, second) => LocalInstants::Repeated(
            first.timestamp(),
            second.timestamp(),
        ),
    }
}

/// Adds seconds to a local time with the `+` of `chrono::NaiveDateTime` and
/// `chrono::Duration`. The contract says which time comes out, leap seconds included.
#[verifier::external_body]
fn add_seconds(day: i32, second: u32, nanosecond: u32, seconds: i64) -> (result: (i32, u32, u32))
    requires
        MIN_DAY <= day <= MAX_DAY,
        time_of_day(second, nanosecond),
        (LocalDateTime { day, second, nanosecond })@.moved(seconds as int).in_calendar(),
    ensures
        (LocalDateTime { day: result.0, second: result.1, nanosecond: result.2 })
            == LocalDateTime::of(
            (LocalDateTime { day, second, nanosecond })@.moved(seconds as int),
        ),
{
    let date = chrono::NaiveDate::from_num_days_from_ce_opt(day).unwrap();
    let time = chrono::NaiveTime::from_num_seconds_from_midnight_opt(second, nanosecond).unwrap();
    let moved = date.and_time(time) + chrono::Duration::seconds(seconds);
    (
        moved.date().num_days_from_ce(),
        moved.time().num_seconds_from_midnight(),
        moved.time().nanosecond(),
    )
}

/// Writes a day with `chrono::NaiveDate::format`. The result is named.
#[verifier::external_body]
fn format_date(day: i32, format: &str) -> (result: String)
    requires
        MIN_DAY <= day <= MAX_DAY,
        format@ == SERVICE_DATE_FORMAT@,
    ensures
        result@ == formatted_date(day, format@),
{
    let date = chrono::NaiveDate::from_num_days_from_ce_opt(day).unwrap();
    date.format(format).to_string()
}

impl LocalDateTime {
    /// The time `seconds` later.
    pub fn plus_seconds(&self, seconds: i64) -> (result: LocalDateTime)
        requires
            self.valid(),
            self@.moved(seconds as int).in_calendar(),
        ensures
            result == LocalDateTime::of(self@.moved(seconds as int)),
            result@ == self@.moved(seconds as int),
            result.valid(),
    {
        let (day, second, nanosecond) = add_seconds(
            self.day,
            self.second,
            self.nanosecond,
            seconds,
        );
        LocalDateTime { day, second, nanosecond }
    }

    /// Whether the time `seconds` later is one of the calendar.
    pub fn can_move(&self, seconds: i64) -> (answer: bool)
        requires
            self.valid(),
        ensures
            answer == self@.moved(seconds as int).in_calendar(),
    {
        let mut end: i128 = self.day as i128 * 86400 + self.second as i128 + seconds as i128;
        if self.nanosecond >= LEAP_NANOSECOND && seconds < 0 {
            end += 1;
        }
        seconds == 0 || (end >= MIN_DAY as i128 * 86400 && end < (MAX_DAY as i128 + 1) * 86400)
    }

    /// The seconds from `earlier` to this time.
    pub fn seconds_since(&self, earlier: &LocalDateTime) -> (result: i64)
        requires
            self.second < 86400,
            earlier.second < 86400,
        ensures
            result == self@.since(earlier@),
    {
        let mut result: i64 = (self.day as i64 - earlier.day as i64) * 86400 + self.second as i64
            - earlier.second as i64;
        if self.nanosecond >= LEAP_NANOSECOND && self.second >= earlier.second {
            result += 1;
        }
        if earlier.nanosecond >= LEAP_NANOSECOND && self.second <= earlier.second {
            result -= 1;
        }
        result
    }

    /// The distance between two times in seconds.
    pub fn seconds_apart(&self, other: &LocalDateTime) -> (result: i64)
        requires
            self.second < 86400,
            other.second < 86400,
        ensures
            result == self@.distance(other@),
    {
        let difference = self.seconds_since(other);
        if difference < 0 {
            -difference
        } else {
            difference
        }
    }

    /// Whether this time comes before `other`.
    pub fn is_before(&self, other: &LocalDateTime) -> (answer: bool)
        ensures
            answer == self@.before(other@),
    {
        let leap = self.nanosecond >= LEAP_NANOSECOND;
        let other_leap = other.nanosecond >= LEAP_NANOSECOND;
        self.day < other.day || (self.day == other.day && self.second < other.second) || (self.day
            == other.day && self.second == other.second && !leap && other_leap)
    }
}

/// The moment that a local time names: the earlier one where the clocks show it twice, and
/// none where they skip it.
pub open spec fn instant_of(local: LocalDateTime, instants: LocalInstants) -> Option<ZonedTime> {
    match instants {
        LocalInstants::Missing => None,
        LocalInstants::Unique(unix) => Some(ZonedTime { local, unix }),
        LocalInstants::Repeated(unix, _) => Some(ZonedTime { local, unix }),
    }
}

/// Picks the moment that a local time names.
pub fn pick_instant(local: LocalDateTime, instants: LocalInstants) -> (result: Option<ZonedTime>)
    ensures
        result == instant_of(local, instants),
{
    match instants {
        LocalInstants::Missing => None,
        LocalInstants::Unique(unix) => Some(ZonedTime { local, unix }),
        LocalInstants::Repeated(unix, _) => Some(ZonedTime { local, unix }),
    }
}

/// The moment that a local time names on New York clocks.
pub open spec fn localized(local: LocalDateTime) -> Option<ZonedTime> {
    instant_of(local, new_york_instants(local.day, local.second, local.nanosecond))
}

/// Finds the moment that a local time names on New York clocks.
pub fn localize(local: LocalDateTime) -> (result: Option<ZonedTime>)
    requires
        local.valid(),
    ensures
        result == localized(local),
{
    pick_instant(local, find_new_york_instants(local.day, local.second, local.nanosecond))
}

/// The moment that an event time text names.
pub open spec fn event_time(value: Seq<char>) -> Option<ZonedTime> {
    match parsed_datetime(crate::text::trimmed(value), EVENT_TIME_FORMAT@) {
        None => None,
        Some((day, second, nanosecond)) => localized(LocalDateTime { day, second, nanosecond }),
    }
}

/// Reads the moment at which a row of the feed was made.
pub fn parse_event_time(value: &str) -> (result: Option<ZonedTime>)
    ensures
        result == event_time(value@),
        result matches Some(time) ==> time.local.valid(),
{
    match parse_datetime(trim(value).as_str(), EVENT_TIME_FORMAT) {
        None => None,
        Some((day, second, nanosecond)) => localize(LocalDateTime { day, second, nanosecond }),
    }
}

/// The first of the times that is closest to `target`.
pub open spec fn closest(times: Seq<CivilTime>, target: CivilTime) -> Option<CivilTime>
    decreases times.len(),
{
    if times.len() == 0 {
        None
    } else {
        match closest(times.drop_last(), target) {
            None => Some(times.last()),
            Some(best) => if times.last().distance(target) < best.distance(target) {
                Some(times.last())
            } else {
                Some(best)
            },
        }
    }
}

/// The closest of the times is one of them, and none of them is closer.
pub proof fn closest_is_closest(times: Seq<CivilTime>, target: CivilTime)
    ensures
        closest(times, target) is None <==> times.len() == 0,
        closest(times, target) matches Some(best) ==> {
            &&& times.contains(best)
            &&& forall|i: int|
                0 <= i < times.len() ==> best.distance(target) <= (#[trigger] times[i]).distance(
                    target,
                )
        },
    decreases times.len(),
{
    if times.len() > 0 {
        let shorter = times.drop_last();
        closest_is_closest(shorter, target);
        assert(times[times.len() - 1] == times.last());
        if closest(shorter, target) is Some {
            let best = closest(shorter, target)->0;
            let k = choose|k: int| 0 <= k < shorter.len() && shorter[k] == best;
            assert(times[k] == best);
        }
        assert forall|i: int| 0 <= i < times.len() implies (closest(times, target)->0).distance(
            target,
        ) <= (#[trigger] times[i]).distance(target) by {
            if i < shorter.len() {
                assert(shorter[i] == times[i]);
            }
        }
    }
}

/// The times that `second` and `nanosecond` name on the day before the event, on its day and on
/// the day after.
pub open spec fn arrival_times(event: CivilTime, second: u32, nanosecond: u32) -> Seq<CivilTime> {
    let base = CivilTime {
        day: event.day,
        second: second as int,
        leap: nanosecond >= LEAP_NANOSECOND,
    };
    seq![base.moved(-86400), base, base.moved(86400)]
}

/// The local time of an arrival at a time of day: the one closest to the event and the waiting
/// time, or without a waiting time the one closest to the event among those that are no more
/// than two minutes before it.
pub open spec fn arrival_choice(
    event: CivilTime,
    second: u32,
    nanosecond: u32,
    waiting_seconds: Option<i64>,
) -> Option<CivilTime> {
    let times = arrival_times(event, second, nanosecond);
    match waiting_seconds {
        Some(wait) => closest(times, event.moved(wait as int)),
        None => closest(
            times.filter(|time: CivilTime| !time.before(event.moved(-120))),
            event,
        ),
    }
}

/// A waiting time tells on which day an arrival is: the day of the event or one next to it on
/// which the time of day is less than half a day from the end of the waiting time. None of the
/// times is a leap second.
pub proof fn waiting_time_picks_day(event: CivilTime, second: u32, day: int, wait: i64)
    requires
        !event.leap,
        second < 86400,
        event.day - 1 <= day <= event.day + 1,
        -43200 < (day * 86400 + second) - (event.day * 86400 + event.second + wait) < 43200,
        0 <= event.second < 86400,
    ensures
        arrival_choice(event, second, 0, Some(wait)) == Some(
            CivilTime { day, second: second as int, leap: false },
        ),
{
    let times = arrival_times(event, second, 0);
    let target = event.moved(wait as int);
    closest_is_closest(times, target);
    let end = event.day * 86400 + second;
    assert(times[0] == (CivilTime { day: event.day - 1, second: second as int, leap: false })) by {
        assert((end - 86400) / 86400 == event.day - 1 && (end - 86400) % 86400 == second);
    }
    assert(times[2] == (CivilTime { day: event.day + 1, second: second as int, leap: false })) by {
        assert((end + 86400) / 86400 == event.day + 1 && (end + 86400) % 86400 == second);
    }
    let goal = event.day * 86400 + event.second + wait;
    assert(target.day * 86400 + target.second == goal);
    let best = closest(times, target)->0;
    assert(best.distance(target) <= times[0].distance(target));
    assert(best.distance(target) <= times[1].distance(target));
    assert(best.distance(target) <= times[2].distance(target));
}

/// Every time that the choice of an arrival looks at is one of the calendar.
pub open spec fn arrival_in_calendar(
    event: CivilTime,
    second: u32,
    nanosecond: u32,
    waiting_seconds: Option<i64>,
) -> bool {
    let times = arrival_times(event, second, nanosecond);
    &&& times[0].in_calendar()
    &&& times[2].in_calendar()
    &&& match waiting_seconds {
        Some(wait) => event.moved(wait as int).in_calendar(),
        None => event.moved(-120).in_calendar(),
    }
}

/// Chooses the local time of an arrival at a time of day.
pub fn choose_arrival(
    event: &LocalDateTime,
    second: u32,
    nanosecond: u32,
    waiting_seconds: Option<i64>,
) -> (result: Option<LocalDateTime>)
    requires
        event.valid(),
        time_of_day(second, nanosecond),
        arrival_in_calendar(event@, second, nanosecond, waiting_seconds),
    ensures
        result is Some <==> arrival_choice(event@, second, nanosecond, waiting_seconds) is Some,
        result matches Some(time) ==> {
            &&& time.valid()
            &&& Some(time@) == arrival_choice(event@, second, nanosecond, waiting_seconds)
        },
{
    let base = LocalDateTime { day: event.day, second, nanosecond };
    let day_before = base.plus_seconds(-86400);
    let day_after = base.plus_seconds(86400);
    let mut times: Vec<LocalDateTime> = Vec::new();
    times.push(day_before);
    times.push(base);
    times.push(day_after);
    let ghost all = arrival_times(event@, second, nanosecond);
    let (target, limit): (LocalDateTime, Option<LocalDateTime>) = match waiting_seconds {
        Some(wait) => (event.plus_seconds(wait), None),
        None => (*event, Some(event.plus_seconds(-120))),
    };
    let ghost kept = |time: CivilTime| limit is Some ==> !time.before(limit->0@);
    let mut best: Option<LocalDateTime> = None;
    for i in 0..times.len()
        invariant
            times@.len() == 3,
            all.len() == 3,
            forall|j: int|
                0 <= j < 3 ==> (#[trigger] times@[j]).valid() && times@[j]@ == all[j],
            target.valid(),
            kept == (|time: CivilTime| limit is Some ==> !time.before(limit->0@)),
            best is Some <==> closest(all.take(i as int).filter(kept), target@) is Some,
            best matches Some(time) ==> time.valid() && Some(time@) == closest(
                all.take(i as int).filter(kept),
                target@,
            ),
    {
        let time = times[i];
        let keep = match &limit {
            Some(limit) => !time.is_before(limit),
            None => true,
        };
        let ghost before = all.take(i as int).filter(kept);
        let ghost after = all.take(i + 1).filter(kept);
        proof {
            assert(all.take(i + 1).drop_last() =~= all.take(i as int));
            reveal(Seq::filter);
            assert(kept(all[i as int]) == keep);
            if keep {
                assert(after =~= before.push(time@));
                assert(after.drop_last() =~= before);
            } else {
                assert(after =~= before);
            }
        }
        if keep {
            best = match best {
                None => Some(time),
                Some(current) => if time.seconds_apart(&target) < current.seconds_apart(&target) {
                    Some(time)
                } else {
                    Some(current)
                },
            };
        }
    }
    proof {
        assert(all.take(3) =~= all);
        match waiting_seconds {
            Some(wait) => {
                lemma_filter_all(all, kept);
            },
            None => {
                assert(kept =~= (|time: CivilTime| !time.before(event@.moved(-120))));
            },
        }
    }
    best
}

proof fn lemma_filter_all(times: Seq<CivilTime>, keep: spec_fn(CivilTime) -> bool)
    requires
        forall|i: int| 0 <= i < times.len() ==> keep(#[trigger] times[i]),
    ensures
        times.filter(keep) == times,
    decreases times.len(),
{
    reveal(Seq::filter);
    if times.len() > 0 {
        lemma_filter_all(times.drop_last(), keep);
        assert(times =~= times.drop_last().push(times.last()));
    }
}

/// The moment of an arrival that a time of day names, next to an event and a waiting time.
pub open spec fn next_arrival(
    event: LocalDateTime,
    next_arr: Seq<char>,
    waiting_seconds: Option<i64>,
) -> Option<ZonedTime> {
    match parsed_time(crate::text::trimmed(next_arr), NEXT_ARRIVAL_FORMAT@) {
        None => None,
        Some((second, nanosecond)) => match arrival_choice(
            event@,
            second,
            nanosecond,
            waiting_seconds,
        ) {
            None => None,
            Some(time) => localized(LocalDateTime::of(time)),
        },
    }
}

/// Every time that the reading of an arrival looks at is one of the calendar.
pub open spec fn next_arrival_in_calendar(
    event: LocalDateTime,
    next_arr: Seq<char>,
    waiting_seconds: Option<i64>,
) -> bool {
    parsed_time(crate::text::trimmed(next_arr), NEXT_ARRIVAL_FORMAT@) matches Some((
        second,
        nanosecond,
    )) ==> arrival_in_calendar(event@, second, nanosecond, waiting_seconds)
}

/// Whether every time that the reading of an arrival looks at is one of the calendar.
pub fn arrival_fits(event: &LocalDateTime, next_arr: &str, waiting_seconds: Option<i64>) -> (answer:
    bool)
    requires
        event.valid(),
    ensures
        answer == next_arrival_in_calendar(*event, next_arr@, waiting_seconds),
{
    match parse_time(trim(next_arr).as_str(), NEXT_ARRIVAL_FORMAT) {
        None => true,
        Some((second, nanosecond)) => {
            let base = LocalDateTime { day: event.day, second, nanosecond };
            base.can_move(-86400) && base.can_move(86400) && match waiting_seconds {
                Some(wait) => event.can_move(wait),
                None => event.can_move(-120),
            }
        },
    }
}

/// Reads the moment of an arrival.
pub fn parse_next_arrival(
    event: &ZonedTime,
    next_arr: &str,
    waiting_seconds: Option<i64>,
) -> (result: Option<ZonedTime>)
    requires
        event.local.valid(),
        next_arrival_in_calendar(event.local, next_arr@, waiting_seconds),
    ensures
        result == next_arrival(event.local, next_arr@, waiting_seconds),
        result matches Some(time) ==> time.local.valid(),
{
    match parse_time(trim(next_arr).as_str(), NEXT_ARRIVAL_FORMAT) {
        None => None,
        Some((second, nanosecond)) => match choose_arrival(
            &event.local,
            second,
            nanosecond,
            waiting_seconds,
        ) {
            None => None,
            Some(local) => localize(local),
        },
    }
}

/// The text of a service date in a realtime message.
pub open spec fn service_date_text(day: i32) -> Seq<char> {
    formatted_date(day, SERVICE_DATE_FORMAT@)
}

/// Writes a service date for a realtime message.
pub fn service_date(day: i32) -> (text: String)
    requires
        MIN_DAY <= day <= MAX_DAY,
    ensures
        text@ == service_date_text(day),
{
    format_date(day, SERVICE_DATE_FORMAT)
}

impl CivilTime {
    /// The seconds from the start of day 0 to this time, leap seconds left out.
    pub open spec fn clock(self) -> int {
        self.day * 86400 + self.second
    }

    /// Moving a time changes the clock by as many seconds, forward and back, and gives a second
    /// of a day. From a leap second, which the clock does not count, a step back ends one second
    /// later, and no step stays.
    pub proof fn moving_steps_clock(self, seconds: int)
        ensures
            !self.leap ==> self.moved(seconds).clock() == self.clock() + seconds,
            self.leap && seconds > 0 ==> self.moved(seconds).clock() == self.clock() + seconds,
            self.leap && seconds < 0 ==> self.moved(seconds).clock() == self.clock() + seconds + 1,
            seconds != 0 ==> !self.moved(seconds).leap && 0 <= self.moved(seconds).second < 86400,
            self.moved(0) == self,
    {
    }

    /// A time that was moved and moved back is where it was, and the seconds between the two are
    /// those of the step. It is not a leap second.
    pub proof fn moving_is_undone(self, seconds: int)
        requires
            !self.leap,
            0 <= self.second < 86400,
        ensures
            self.moved(seconds).moved(-seconds) == self,
            self.moved(seconds).since(self) == seconds,
            self.since(self.moved(seconds)) == -seconds,
            self.since(self.moved(-seconds)) == seconds,
    {
    }

    /// The seconds between two times are those between their clocks, with a leap second counted
    /// on the times of day that do not come before it; in the other direction they are the same
    /// with the other sign, and the distance has no sign.
    pub proof fn seconds_between_clocks(self, other: CivilTime)
        ensures
            !self.leap && !other.leap ==> self.since(other) == self.clock() - other.clock(),
            self.leap && !other.leap ==> self.since(other) == self.clock() - other.clock() + (
            if self.second >= other.second {
                1int
            } else {
                0
            }),
            self.since(other) == -other.since(self),
            self.distance(other) == other.distance(self),
            self.distance(other) == self.since(other) || self.distance(other) == other.since(self),
            self.distance(other) >= 0,
    {
    }

    /// A time comes before another where its clock shows less, or as much without the leap
    /// second that the other is.
    pub proof fn clock_orders(self, other: CivilTime)
        requires
            0 <= self.second < 86400,
            0 <= other.second < 86400,
        ensures
            self.clock() < other.clock() ==> self.before(other) && !other.before(self),
            self.clock() == other.clock() ==> (self.before(other) <==> !self.leap && other.leap),
    {
    }
}

/// A time on New York clocks names the one moment at which they show it, the earlier of two,
/// and none where they skip it.
pub proof fn local_time_names_moment(local: LocalDateTime)
    ensures
        match new_york_instants(local.day, local.second, local.nanosecond) {
            LocalInstants::Missing => localized(local) is None,
            LocalInstants::Unique(unix) => localized(local) matches Some(time) && time.local
                == local && time.unix == unix,
            LocalInstants::Repeated(first, second) => localized(local) matches Some(time)
                && time.local == local && time.unix == first,
        },
{
}

/// An event time is what its text, trimmed, says as month, day, year and time of day with AM or
/// PM, and the moment at which New York clocks show it. A text that does not say so, or says a
/// time that they skip, is no event time.
pub proof fn event_time_is_read(value: Seq<char>)
    ensures
        match parsed_datetime(crate::text::trimmed(value), "%m/%d/%Y %I:%M:%S %p"@) {
            None => event_time(value) is None,
            Some((day, second, nanosecond)) => {
                &&& event_time(value) is None <==> new_york_instants(
                    day,
                    second,
                    nanosecond,
                ) is Missing
                &&& event_time(value) matches Some(time) ==> {
                    &&& time.local == (LocalDateTime { day, second, nanosecond })
                    &&& new_york_instants(day, second, nanosecond) matches LocalInstants::Unique(
                        unix,
                    ) ==> time.unix == unix
                    &&& new_york_instants(day, second, nanosecond) matches LocalInstants::Repeated(
                        first,
                        second,
                    ) ==> time.unix == first
                }
            },
        },
{
}

/// A service date is written as year, month and day.
pub proof fn service_date_is_written(day: i32)
    ensures
        service_date_text(day) == formatted_date(day, "%Y%m%d"@),
{
}

/// The times at which an arrival can be are its time of day on the day before the event, on
/// that day and on the day after, none of them a leap second.
proof fn lemma_arrival_times(event: CivilTime, second: u32)
    requires
        second < 86400,
    ensures
        arrival_times(event, second, 0).len() == 3,
        forall|d: int|
            0 <= d < 3 ==> #[trigger] arrival_times(event, second, 0)[d] == (CivilTime {
                day: event.day - 1 + d,
                second: second as int,
                leap: false,
            }),
{
    let end = event.day * 86400 + second;
    assert((end - 86400) / 86400 == event.day - 1 && (end - 86400) % 86400 == second);
    assert((end + 86400) / 86400 == event.day + 1 && (end + 86400) % 86400 == second);
}

/// With a waiting time an arrival has the time of day that its text says, on the day of the
/// event or on one next to it, and its distance from the end of the waiting time is at most that
/// of each of these days, and less than that of an earlier one. None of the times is a leap
/// second.
pub proof fn arrival_is_nearest_wait_end(
    event: LocalDateTime,
    next_arr: Seq<char>,
    wait: i64,
    second: u32,
    arrival: ZonedTime,
    day: int,
)
    requires
        event.valid(),
        event.nanosecond == 0,
        parsed_time(crate::text::trimmed(next_arr), "%I:%M:%S %p"@) == Some((second, 0u32)),
        second < 86400,
        next_arrival_in_calendar(event, next_arr, Some(wait)),
        next_arrival(event, next_arr, Some(wait)) == Some(arrival),
        event.day - 1 <= day <= event.day + 1,
    ensures
        arrival.local.second == second && arrival.local.nanosecond == 0,
        event.day - 1 <= arrival.local.day <= event.day + 1,
        ({
            let end = event.day * 86400 + event.second + wait;
            let off = arrival.local.day * 86400 + second - end;
            let other = day * 86400 + second - end;
            let far = if other < 0 {
                -other
            } else {
                other
            };
            &&& -far <= off <= far
            &&& day < arrival.local.day ==> -far < off < far
        }),
{
    lemma_arrival_times(event@, second);
    let times = arrival_times(event@, second, 0);
    let target = event@.moved(wait as int);
    event@.moving_steps_clock(wait as int);
    closest_is_closest(times, target);
    reveal_with_fuel(closest, 4);
    assert(times.drop_last() =~= seq![times[0], times[1]]);
    assert(times.drop_last().drop_last() =~= seq![times[0]]);
    assert(times.drop_last().drop_last().drop_last() =~= Seq::<CivilTime>::empty());
    let best = closest(times, target)->0;
    assert(times[day - (event.day - 1)].distance(target) >= best.distance(target));
    assert(best == times[0] || best == times[1] || best == times[2]);
}

/// Without a waiting time an arrival has the time of day that its text says and is the first
/// such time that is no more than two minutes before the event. None of the times is a leap
/// second.
pub proof fn arrival_is_first_from_event(
    event: LocalDateTime,
    next_arr: Seq<char>,
    second: u32,
    arrival: ZonedTime,
)
    requires
        event.valid(),
        event.nanosecond == 0,
        parsed_time(crate::text::trimmed(next_arr), "%I:%M:%S %p"@) == Some((second, 0u32)),
        second < 86400,
        next_arrival_in_calendar(event, next_arr, None),
        next_arrival(event, next_arr, None) == Some(arrival),
    ensures
        arrival.local.second == second && arrival.local.nanosecond == 0,
        ({
            let earliest = event.day * 86400 + event.second - 120;
            earliest <= arrival.local.day * 86400 + second < earliest + 86400
        }),
{
    lemma_arrival_times(event@, second);
    let times = arrival_times(event@, second, 0);
    let limit = event@.moved(-120);
    event@.moving_steps_clock(-120);
    let keep = |time: CivilTime| !time.before(limit);
    let kept = times.filter(keep);
    closest_is_closest(kept, event@);
    let best = closest(kept, event@)->0;
    assert(kept.contains(best));
    let k = choose|k: int| 0 <= k < kept.len() && kept[k] == best;
    times.lemma_filter_pred(keep, k);
    times.lemma_filter_contains_rev(keep, best);
    assert forall|d: int| 0 <= d < 3 && keep(#[trigger] times[d]) implies best.distance(event@)
        <= times[d].distance(event@) by {
        times.lemma_filter_contains(keep, d);
        let at = choose|at: int| 0 <= at < kept.len() && kept[at] == times[d];
        assert(best.distance(event@) <= kept[at].distance(event@));
    }
    assert(keep(times[0]) == (times[0].clock() >= limit.clock()));
    assert(keep(times[1]) == (times[1].clock() >= limit.clock()));
    assert(keep(times[2]) == (times[2].clock() >= limit.clock()));
}

/// An arrival can be read where its text, trimmed, says a time of day with AM or PM and New York
/// clocks show the time that it then has; the moment is the one that they show it at.
pub proof fn arrival_is_read(event: LocalDateTime, next_arr: Seq<char>, waiting_seconds: Option<i64>)
    ensures
        match parsed_time(crate::text::trimmed(next_arr), "%I:%M:%S %p"@) {
            None => next_arrival(event, next_arr, waiting_seconds) is None,
            Some((second, nanosecond)) => {
                &&& waiting_seconds is Some || event.valid() && second < 86400 ==> arrival_choice(
                    event@,
                    second,
                    nanosecond,
                    waiting_seconds,
                ) is Some
                &&& arrival_choice(event@, second, nanosecond, waiting_seconds) matches Some(
                    time,
                ) ==> next_arrival(event, next_arr, waiting_seconds) == localized(
                    LocalDateTime::of(time),
                )
            },
        },
{
    match parsed_time(crate::text::trimmed(next_arr), "%I:%M:%S %p"@) {
        None => {},
        Some((second, nanosecond)) => {
            if waiting_seconds is Some {
                closest_is_closest(
                    arrival_times(event@, second, nanosecond),
                    event@.moved(waiting_seconds->0 as int),
                );
            } else if event.valid() && second < 86400 {
                let times = arrival_times(event@, second, nanosecond);
                let limit = event@.moved(-120);
                let keep = |time: CivilTime| !time.before(limit);
                times[1].moving_steps_clock(86400);
                event@.moving_steps_clock(-120);
                assert(keep(times[2]));
                times.lemma_filter_contains(keep, 2);
                closest_is_closest(times.filter(keep), event@);
            }
        },
    }
}

/// The time of day that a text says, leap seconds included, on the day of an event or moved by a
/// day either way.
pub open spec fn time_on_day(event: CivilTime, second: u32, nanosecond: u32, days: int) -> CivilTime {
    (CivilTime {
        day: event.day,
        second: second as int,
        leap: nanosecond >= 1_000_000_000,
    }).moved(days * 86400)
}

/// An arrival, leap seconds included, is at its time of day on the day of the event or moved by
/// a day either way. With a waiting time none of the three is closer to its end. Without one it
/// is not before the moment two minutes before the event, and none of the three that is not is
/// closer to the event. Of two as close the earlier counts.
pub proof fn arrival_is_closest(
    event: CivilTime,
    second: u32,
    nanosecond: u32,
    waiting_seconds: Option<i64>,
    arrival: CivilTime,
    days: int,
)
    requires
        -1 <= days <= 1,
        arrival_choice(event, second, nanosecond, waiting_seconds) == Some(arrival),
    ensures
        exists|d: int|
            -1 <= d <= 1 && arrival == #[trigger] time_on_day(event, second, nanosecond, d) && ({
                let other = time_on_day(event, second, nanosecond, days);
                match waiting_seconds {
                    Some(wait) => {
                        let end = event.moved(wait as int);
                        &&& arrival.distance(end) <= other.distance(end)
                        &&& days < d ==> arrival.distance(end) < other.distance(end)
                    },
                    None => {
                        let earliest = event.moved(-120);
                        &&& !arrival.before(earliest)
                        &&& !other.before(earliest) ==> {
                            &&& arrival.distance(event) <= other.distance(event)
                            &&& days < d ==> arrival.distance(event) < other.distance(event)
                        }
                    },
                }
            }),
{
    let times = arrival_times(event, second, nanosecond);
    assert(times[0] == time_on_day(event, second, nanosecond, -1));
    assert(times[1] == time_on_day(event, second, nanosecond, 0));
    assert(times[2] == time_on_day(event, second, nanosecond, 1));
    match waiting_seconds {
        Some(wait) => {
            let all = |time: CivilTime| true;
            lemma_filter_all(times, all);
            let k = lemma_closest_kept(times, all, event.moved(wait as int));
            assert(all(times[days + 1]));
            assert(arrival == time_on_day(event, second, nanosecond, k - 1));
        },
        None => {
            let limit = event.moved(-120);
            let keep = |time: CivilTime| !time.before(limit);
            let k = lemma_closest_kept(times, keep, event);
            assert(keep(times[days + 1]) == !times[days + 1].before(limit));
            assert(arrival == time_on_day(event, second, nanosecond, k - 1));
        },
    }
}

/// The closest of the times that are kept is one of them; no other is closer, and none before it
/// is as close.
proof fn lemma_closest_kept(
    times: Seq<CivilTime>,
    keep: spec_fn(CivilTime) -> bool,
    target: CivilTime,
) -> (k: int)
    requires
        closest(times.filter(keep), target) is Some,
    ensures
        0 <= k < times.len(),
        closest(times.filter(keep), target) == Some(times[k]),
        keep(times[k]),
        forall|n: int|
            0 <= n < times.len() && keep(#[trigger] times[n]) ==> times[k].distance(target)
                <= times[n].distance(target) && (n < k ==> times[k].distance(target)
                < times[n].distance(target)),
    decreases times.len(),
{
    reveal(Seq::filter);
    let shorter = times.drop_last();
    let kept = shorter.filter(keep);
    let last = times.len() - 1;
    assert forall|n: int| 0 <= n < last implies shorter[n] == #[trigger] times[n] by {}
    if keep(times.last()) {
        assert(times.filter(keep).drop_last() =~= kept);
        assert(times.filter(keep).last() == times.last());
        closest_is_closest(kept, target);
        if closest(kept, target) is None {
            assert forall|n: int| 0 <= n < last implies !keep(#[trigger] times[n]) by {
                if keep(shorter[n]) {
                    shorter.lemma_filter_contains(keep, n);
                }
            }
            last
        } else {
            let k = lemma_closest_kept(shorter, keep, target);
            if times.last().distance(target) < shorter[k].distance(target) {
                assert forall|n: int| 0 <= n < last && keep(#[trigger] times[n]) implies times[
                    last
                ].distance(target) < times[n].distance(target) by {
                    assert(keep(shorter[n]));
                }
                last
            } else {
                assert forall|n: int|
                    0 <= n < last && keep(#[trigger] times[n]) implies times[k].distance(target)
                    <= times[n].distance(target) && (n < k ==> times[k].distance(target)
                    < times[n].distance(target)) by {
                    assert(keep(shorter[n]));
                }
                k
            }
        }
    } else {
        assert(times.filter(keep) =~= kept);
        let k = lemma_closest_kept(shorter, keep, target);
        assert forall|n: int|
            0 <= n < times.len() && keep(#[trigger] times[n]) implies times[k].distance(target)
            <= times[n].distance(target) && (n < k ==> times[k].distance(target)
            < times[n].distance(target)) by {
            assert(keep(shorter[n]));
        }
        k
    }
}

} // verus!
