//! Delays, event times, arrivals, dates and weekdays.
use chrono::{Datelike, NaiveDate, TimeZone, Timelike};
use marta_gtfs_rt::delay::{parse_delay_seconds, read_delay, DelayReading};
use marta_gtfs_rt::service::weekday_number;
use marta_gtfs_rt::time::{
    arrival_fits, choose_arrival, localize, parse_event_time, parse_next_arrival, pick_instant,
    service_date, LocalDateTime, LocalInstants, ZonedTime, LEAP_NANOSECOND, MAX_DAY, MIN_DAY,
};

fn day(year: i32, month: u32, day: u32) -> i32 {
    NaiveDate::from_ymd_opt(year, month, day).unwrap().num_days_from_ce()
}

fn local(date: i32, second: u32) -> LocalDateTime {
    LocalDateTime { day: date, second, nanosecond: 0 }
}

#[test]
fn parses_marta_delay() {
    assert_eq!(parse_delay_seconds("T348S"), Some(348));
    assert_eq!(parse_delay_seconds("PT1M30S"), Some(90));
    assert_eq!(parse_delay_seconds("T-15S"), Some(-15));
}

#[test]
fn next_arrival_crosses_midnight() {
    let event = parse_event_time("09/15/2026 11:59:50 PM").unwrap();
    let next = parse_next_arrival(&event, "12:04:00 AM", Some(250)).unwrap();
    let date = NaiveDate::from_num_days_from_ce_opt(next.local.day).unwrap();
    assert_eq!(date.to_string(), "2026-09-16");
    assert_eq!(next.local.second / 3600, 0);
    assert_eq!(next.local.second / 60 % 60, 4);
}

#[test]
fn delay_forms() {
    assert_eq!(parse_delay_seconds("  90 "), Some(90));
    assert_eq!(parse_delay_seconds("-90"), Some(-90));
    assert_eq!(parse_delay_seconds("+90"), Some(90));
    assert_eq!(parse_delay_seconds("pt2h3m4s"), Some(7384));
    assert_eq!(parse_delay_seconds("T1M5"), Some(65));
    assert_eq!(parse_delay_seconds("P5S"), Some(5));
    assert_eq!(parse_delay_seconds("T+5S"), Some(5));
    assert_eq!(parse_delay_seconds("T0S"), Some(0));
}

#[test]
fn malformed_delays() {
    for text in ["", "   ", "T", "PT", "TS", "T5X", "T-", "P-T5S", "5 S", "T5S-", "T--5S", "one"] {
        assert_eq!(read_delay(text), DelayReading::Malformed, "{}", text);
        assert_eq!(parse_delay_seconds(text), None, "{}", text);
    }
    assert_eq!(read_delay("T99999999999999999999S"), DelayReading::Malformed);
}

#[test]
fn delays_that_do_not_fit() {
    assert_eq!(read_delay("T9223372036854775807H"), DelayReading::TooLarge);
    assert_eq!(read_delay("T9223372036854775807S1S"), DelayReading::TooLarge);
    assert_eq!(
        read_delay("T-9223372036854775807S"),
        DelayReading::Seconds(-9223372036854775807)
    );
    assert_eq!(read_delay("-9223372036854775808"), DelayReading::Seconds(i64::MIN));
}

#[test]
fn one_amount_reads_back() {
    for (unit, seconds) in [('H', 3600), ('M', 60), ('S', 1)] {
        for number in [0i64, 1, 9, 10, 348, 86399] {
            let late = format!("T{}{}", number, unit);
            let early = format!("T-{}{}", number, unit);
            assert_eq!(parse_delay_seconds(&late), Some(number * seconds));
            assert_eq!(parse_delay_seconds(&early), Some(-number * seconds));
        }
    }
}

#[test]
fn event_time_is_new_york_time() {
    let summer = parse_event_time(" 09/15/2026 10:40:05 PM ").unwrap();
    assert_eq!(summer.local, local(day(2026, 9, 15), 22 * 3600 + 40 * 60 + 5));
    let expected = chrono_tz::America::New_York
        .with_ymd_and_hms(2026, 9, 15, 22, 40, 5)
        .unwrap()
        .timestamp();
    assert_eq!(summer.unix, expected);
    assert_eq!(summer.unix, 1789526405);
    let winter = parse_event_time("01/02/2026 12:00:00 AM").unwrap();
    assert_eq!(winter.unix, 1767330000);
}

#[test]
fn event_times_that_cannot_be_read() {
    assert_eq!(parse_event_time(""), None);
    assert_eq!(parse_event_time("09/15/2026 22:40:05"), None);
    assert_eq!(parse_event_time("09/31/2026 10:40:05 PM"), None);
    assert_eq!(parse_event_time("09/15/2026 13:40:05 PM"), None);
}

#[test]
fn skipped_and_repeated_hours() {
    // Clocks go forward on March 8 and back on November 1.
    assert_eq!(parse_event_time("03/08/2026 02:30:00 AM"), None);
    let repeated = parse_event_time("11/01/2026 01:30:00 AM").unwrap();
    let earliest = chrono_tz::America::New_York
        .with_ymd_and_hms(2026, 11, 1, 1, 30, 0)
        .earliest()
        .unwrap();
    assert_eq!(repeated.unix, earliest.timestamp());
    assert_eq!(localize(local(day(2026, 3, 8), 2 * 3600 + 1800)), None);
}

#[test]
fn instants_are_picked() {
    let time = local(day(2026, 9, 15), 5);
    assert_eq!(pick_instant(time, LocalInstants::Missing), None);
    assert_eq!(
        pick_instant(time, LocalInstants::Unique(7)),
        Some(ZonedTime { local: time, unix: 7 })
    );
    assert_eq!(
        pick_instant(time, LocalInstants::Repeated(7, 3607)),
        Some(ZonedTime { local: time, unix: 7 })
    );
}

#[test]
fn leap_seconds_are_read() {
    let leap = parse_event_time("06/30/2026 07:59:60 PM").unwrap();
    assert_eq!(leap.local.second, 19 * 3600 + 59 * 60 + 59);
    assert_eq!(leap.local.nanosecond, LEAP_NANOSECOND);
    let plain = parse_event_time("06/30/2026 07:59:59 PM").unwrap();
    assert_eq!(leap.unix, plain.unix);
    assert_eq!(leap.local.seconds_since(&plain.local), 1);
    assert_eq!(leap.local.plus_seconds(-1), plain.local);
    assert!(plain.local.is_before(&leap.local));
}

#[test]
fn arrival_without_a_waiting_time() {
    let event = parse_event_time("09/15/2026 11:59:50 PM").unwrap();
    let next = parse_next_arrival(&event, "12:04:00 AM", None).unwrap();
    assert_eq!(next.local, local(day(2026, 9, 16), 240));
    // Up to two minutes before the event counts as now, more as tomorrow.
    let just_now = parse_next_arrival(&event, "11:57:50 PM", None).unwrap();
    assert_eq!(just_now.local.day, day(2026, 9, 15));
    let tomorrow = parse_next_arrival(&event, "11:57:49 PM", None).unwrap();
    assert_eq!(tomorrow.local.day, day(2026, 9, 16));
    assert_eq!(parse_next_arrival(&event, "25:00:00 PM", None), None);
    assert_eq!(parse_next_arrival(&event, "", Some(3)), None);
}

#[test]
fn arrival_with_a_waiting_time() {
    let event = parse_event_time("09/15/2026 12:00:10 AM").unwrap();
    let before = parse_next_arrival(&event, "11:59:55 PM", Some(-15)).unwrap();
    assert_eq!(before.local, local(day(2026, 9, 14), 86395));
    let after = parse_next_arrival(&event, "11:59:55 PM", Some(86385)).unwrap();
    assert_eq!(after.local, local(day(2026, 9, 15), 86395));
}

#[test]
fn waiting_time_names_the_day() {
    let event = local(day(2026, 9, 15), 80000);
    for offset in [-1i32, 0, 1] {
        for slack in [-43199i64, -600, 0, 600, 43199] {
            let arrival = local(event.day + offset, 500);
            let wait = arrival.seconds_since(&event) + slack;
            let chosen = choose_arrival(&event, 500, 0, Some(wait));
            assert_eq!(chosen, Some(arrival));
        }
    }
}

#[test]
fn ties_go_to_the_earlier_day() {
    let event = local(day(2026, 9, 15), 0);
    let chosen = choose_arrival(&event, 43200, 0, Some(0)).unwrap();
    assert_eq!(chosen, local(day(2026, 9, 14), 43200));
}

#[test]
fn arrivals_at_the_ends_of_the_calendar() {
    let last = local(MAX_DAY, 100);
    assert!(!arrival_fits(&last, "12:00:00 AM", Some(5)));
    assert!(arrival_fits(&last, "no time", Some(5)));
    let first = local(MIN_DAY, 100);
    assert!(!arrival_fits(&first, "12:00:00 AM", None));
    let inner = local(MAX_DAY - 1, 100);
    assert!(arrival_fits(&inner, "12:00:00 AM", Some(5)));
    assert!(!arrival_fits(&inner, "12:00:00 AM", Some(i64::MAX)));
    assert!(!arrival_fits(&inner, "12:00:00 AM", Some(i64::MIN)));
}

#[test]
fn seconds_move_times() {
    let time = local(day(2026, 2, 28), 86399);
    assert_eq!(time.plus_seconds(1), local(day(2026, 3, 1), 0));
    assert_eq!(time.plus_seconds(-86400), local(day(2026, 2, 27), 86399));
    assert_eq!(time.plus_seconds(1).seconds_since(&time), 1);
    assert_eq!(time.seconds_since(&time.plus_seconds(1)), -1);
    assert_eq!(time.seconds_apart(&time.plus_seconds(-3600)), 3600);
    assert!(local(MAX_DAY, 86399).can_move(0));
    assert!(!local(MAX_DAY, 86399).can_move(1));
    assert!(!local(MIN_DAY, 0).can_move(-1));
    assert!(!local(0, 0).can_move(i64::MIN));
}

#[test]
fn times_move_and_differ_as_those_of_chrono() {
    let as_chrono = |time: &LocalDateTime| {
        NaiveDate::from_num_days_from_ce_opt(time.day).unwrap().and_time(
            chrono::NaiveTime::from_num_seconds_from_midnight_opt(time.second, time.nanosecond)
                .unwrap(),
        )
    };
    let mut times = Vec::new();
    for date in [day(2026, 9, 14), day(2026, 9, 15)] {
        for second in [0, 1, 58, 59, 60, 119, 43259, 86398, 86399] {
            times.push(local(date, second));
            if second % 60 == 59 {
                times.push(LocalDateTime { day: date, second, nanosecond: LEAP_NANOSECOND });
            }
        }
    }
    for time in &times {
        for other in &times {
            let expected = as_chrono(time) - as_chrono(other);
            assert_eq!(time.seconds_since(other), expected.num_seconds());
            assert_eq!(time.seconds_apart(other), expected.num_seconds().abs());
            assert_eq!(time.is_before(other), as_chrono(time) < as_chrono(other));
        }
        for seconds in [-86401, -86400, -61, -60, -2, -1, 0, 1, 2, 60, 86399, 86400] {
            let expected = as_chrono(time) + chrono::Duration::seconds(seconds);
            assert!(time.can_move(seconds));
            assert_eq!(as_chrono(&time.plus_seconds(seconds)), expected);
        }
    }
}

#[test]
fn calendar_ends_are_those_of_chrono() {
    assert_eq!(NaiveDate::MIN.num_days_from_ce(), MIN_DAY);
    assert_eq!(NaiveDate::MAX.num_days_from_ce(), MAX_DAY);
}

#[test]
fn service_dates_are_written() {
    assert_eq!(service_date(day(2026, 9, 5)), "20260905");
    assert_eq!(service_date(day(1, 1, 1)), "00010101");
    assert_eq!(service_date(MAX_DAY), "+2621421231");
}

#[test]
fn weekdays_are_those_of_chrono() {
    for date in (-400..400).chain(day(2026, 1, 1)..day(2027, 1, 1)) {
        let expected = NaiveDate::from_num_days_from_ce_opt(date)
            .unwrap()
            .weekday()
            .num_days_from_monday();
        assert_eq!(u32::from(weekday_number(date)), expected);
    }
}

#[test]
fn times_of_day_are_those_of_chrono() {
    let event = parse_event_time("09/15/2026 01:02:03 PM").unwrap();
    let expected = chrono::NaiveTime::from_hms_opt(13, 2, 3).unwrap();
    assert_eq!(event.local.second, expected.num_seconds_from_midnight());
}
