//! Rows, groups, the index, matching and the messages.
use chrono::{Datelike, NaiveDate};
use marta_gtfs_rt::aliases::resolve_station;
use marta_gtfs_rt::alignment::{align_pattern, count_skipped_stops, score_schedule};
use marta_gtfs_rt::assignments::{
    age_seconds, assign, drop_old, preferred_trip, remember, CachedAssignment,
};
use marta_gtfs_rt::builder::can_index;
use marta_gtfs_rt::converter::{convert_train, find_latest_event, find_position, rows_fit};
use marta_gtfs_rt::feed::{
    Calendar, CalendarDate, Direction, Exception, Route, RouteType, StaticFeed, Stop, StopTime,
    Trip,
};
use marta_gtfs_rt::groups::{group_live_rows, train_key, TrainKey};
use marta_gtfs_rt::index::{runs_on_day, IndexedTrip};
use marta_gtfs_rt::matcher::{
    candidate_service_dates, match_observations, match_train, score_specific_trip, MatchScore,
};
use marta_gtfs_rt::observation::{build_observations, row_fits, Observation};
use marta_gtfs_rt::ordered::{sort_by_key, sort_distinct, Keyed};
use marta_gtfs_rt::patterns::PatternTable;
use marta_gtfs_rt::realtime::{
    clock_reading, feed_header, signed_seconds, StopTimeEvent, StopTimeUpdate,
};
use marta_gtfs_rt::time::{parse_event_time, LocalDateTime, ZonedTime, MAX_DAY};
use marta_gtfs_rt::{
    MartaConfig, MartaDiagnostics, MartaGtfsRt, MartaScheduleIndex, MartaTrainRow, MatcherConfig,
    MARTA_RAIL_REALTIME_URL,
};
use std::sync::Arc;

fn day(year: i32, month: u32, day: u32) -> i32 {
    NaiveDate::from_ymd_opt(year, month, day).unwrap().num_days_from_ce()
}

fn stop(id: &str, name: &str, parent: Option<&str>) -> Arc<Stop> {
    Arc::new(Stop {
        id: id.to_string(),
        name: Some(name.to_string()),
        parent_station: parent.map(str::to_string),
    })
}

fn call(stop: &Arc<Stop>, stop_sequence: u32, arrival: Option<u32>) -> StopTime {
    StopTime { stop: stop.clone(), stop_sequence, arrival_time: arrival, departure_time: None }
}

fn trip(id: &str, route: &str, service: &str, headsign: &str, calls: Vec<StopTime>) -> Trip {
    Trip {
        id: id.to_string(),
        route_id: route.to_string(),
        service_id: service.to_string(),
        headsign: Some(headsign.to_string()),
        direction: Some(Direction::Inbound),
        stop_times: calls,
    }
}

fn route(
    id: &str,
    route_type: RouteType,
    short_name: Option<&str>,
    long_name: Option<&str>,
) -> Route {
    Route {
        id: id.to_string(),
        route_type,
        short_name: short_name.map(str::to_string),
        long_name: long_name.map(str::to_string),
    }
}

/// Trains to the airport at 10:00, 10:20 and 24:10, and one from it at 10:05.
fn feed() -> StaticFeed {
    let north = stop("N1", "North Ave Station", Some("N"));
    let five = stop("F1", "Five Points", Some("F"));
    let five_back = stop("F2", "Five Points", Some("F"));
    let lakewood = stop("L1", "Lakewood-Ft. McPherson", None);
    let airport = stop("A1", "Airport Station", None);
    let down = |base: u32| {
        vec![
            call(&north, 1, Some(base)),
            call(&five, 2, Some(base + 240)),
            call(&lakewood, 3, Some(base + 600)),
            call(&airport, 4, Some(base + 1200)),
        ]
    };
    let up = |base: u32| {
        vec![
            call(&airport, 1, Some(base)),
            call(&lakewood, 2, Some(base + 600)),
            call(&five_back, 3, Some(base + 960)),
            call(&north, 4, Some(base + 1200)),
        ]
    };
    StaticFeed {
        routes: vec![
            route("G", RouteType::Subway, Some(" gold"), Some("Gold Line")),
            route("R", RouteType::Subway, None, Some("Red")),
            route("B", RouteType::Bus, Some("Gold"), None),
        ],
        trips: vec![
            trip("t1000", "G", "weekday", "Airport Station", down(36000)),
            trip("t1020", "G", "weekday", "Airport Station", down(37200)),
            trip("t1005", "G", "weekday", "North Ave", up(36300)),
            trip("t2410", "G", "weekday", "Airport Station", down(87000)),
            trip("r1000", "R", "weekday", "Airport Station", down(36000)),
            trip("bus", "B", "weekday", "Airport Station", down(36000)),
            trip("one", "G", "weekday", "Airport Station", vec![call(&north, 1, Some(36000))]),
            trip("s1000", "G", "saturday", "Airport Station", down(36000)),
        ],
        stops: vec![
            stop("N", "North Avenue", None),
            north.clone(),
            five.clone(),
            five_back.clone(),
            lakewood.clone(),
            airport.clone(),
        ],
        calendars: vec![
            Calendar {
                service_id: "weekday".to_string(),
                monday: true,
                tuesday: true,
                wednesday: true,
                thursday: true,
                friday: true,
                saturday: false,
                sunday: false,
                start_date: day(2026, 1, 1),
                end_date: day(2026, 12, 31),
            },
            Calendar {
                service_id: "saturday".to_string(),
                monday: false,
                tuesday: false,
                wednesday: false,
                thursday: false,
                friday: false,
                saturday: true,
                sunday: false,
                start_date: day(2026, 1, 1),
                end_date: day(2026, 12, 31),
            },
        ],
        calendar_dates: vec![
            CalendarDate {
                service_id: "weekday".to_string(),
                date: day(2026, 9, 7),
                exception: Exception::Deleted,
            },
            CalendarDate {
                service_id: "saturday".to_string(),
                date: day(2026, 9, 7),
                exception: Exception::Added,
            },
        ],
    }
}

fn row(
    train_id: &str,
    station: &str,
    event: &str,
    next: &str,
    wait: &str,
    delay: &str,
) -> MartaTrainRow {
    MartaTrainRow {
        destination: "Airport".to_string(),
        direction: "s".to_string(),
        event_time: event.to_string(),
        is_realtime: "true".to_string(),
        line: "Gold".to_string(),
        next_arr: next.to_string(),
        station: station.to_string(),
        train_id: train_id.to_string(),
        waiting_seconds: wait.to_string(),
        waiting_time: String::new(),
        delay: delay.to_string(),
        latitude: None,
        longitude: None,
    }
}

/// A train one minute behind the 10:00 trip on a Tuesday.
fn late_train() -> Vec<MartaTrainRow> {
    let event = "09/15/2026 10:00:30 AM";
    vec![
        row("302", "LAKEWOOD STATION", event, "10:11:00 AM", "630", "T60S"),
        row("302", "FIVE POINTS STATION", event, "10:05:00 AM", "270", "T60S"),
        row("302", "AIRPORT STATION", event, "10:21:00 AM", "1230", "T60S"),
    ]
}

#[test]
fn filters_scheduled_only_rows() {
    let live = MartaTrainRow {
        destination: "Airport".to_string(),
        direction: "S".to_string(),
        event_time: "09/15/2026 10:40:05 PM".to_string(),
        is_realtime: "true".to_string(),
        line: "GOLD".to_string(),
        next_arr: "10:51:31 PM".to_string(),
        station: "LAKEWOOD STATION".to_string(),
        train_id: "302".to_string(),
        waiting_seconds: "640".to_string(),
        waiting_time: "10 min".to_string(),
        delay: "T348S".to_string(),
        latitude: Some("33.758661".to_string()),
        longitude: Some("-84.38765".to_string()),
    };
    assert!(live.is_live());

    let scheduled = MartaTrainRow {
        destination: "Hamilton E. Holmes".to_string(),
        direction: "W".to_string(),
        event_time: "09/15/2026 10:40:50 PM".to_string(),
        is_realtime: "false".to_string(),
        line: "BLUE".to_string(),
        next_arr: "11:12:00 PM".to_string(),
        station: "EAST LAKE STATION".to_string(),
        train_id: "".to_string(),
        waiting_seconds: "1869".to_string(),
        waiting_time: "31 min".to_string(),
        delay: "T0S".to_string(),
        latitude: None,
        longitude: None,
    };
    assert!(!scheduled.is_live());
}

#[test]
fn live_rows_are_marked_and_name_a_train() {
    let mut live = row("302", "Airport", "", "", "", "");
    live.is_realtime = " TRUE ".to_string();
    assert!(live.is_live());
    live.train_id = "  ".to_string();
    assert!(!live.is_live());
    live.train_id = "302".to_string();
    live.is_realtime = "true!".to_string();
    assert!(!live.is_live());
}

#[test]
fn rows_are_grouped_by_train() {
    let mut rows = late_train();
    let mut other = row("303", "Airport", "", "", "", "");
    other.is_realtime = "True".to_string();
    rows.insert(1, other);
    let mut spaced = row(" 302 ", "North Ave", "", "", "", "");
    spaced.direction = " S ".to_string();
    spaced.line = "gold ".to_string();
    spaced.destination = "AIRPORT STATION".to_string();
    rows.push(spaced);
    let mut turned = row("302", "Airport", "", "", "", "");
    turned.direction = "N".to_string();
    rows.push(turned);
    let mut ignored = row("302", "Airport", "", "", "", "");
    ignored.is_realtime = "false".to_string();
    rows.push(ignored);
    let (groups, not_live) = group_live_rows(rows);
    assert_eq!(not_live, 1);
    let sizes: Vec<usize> = groups.iter().map(Vec::len).collect();
    assert_eq!(sizes, vec![4, 1, 1]);
    assert_eq!(groups[0][0].station, "LAKEWOOD STATION");
    assert_eq!(groups[0][3].station, "North Ave");
    assert_eq!(groups[1][0].train_id, "303");
    let key = train_key(&groups[2][0]);
    assert_eq!(key.direction, "N");
    assert_eq!(key.line, "GOLD");
    assert_eq!(key.destination, "AIRPORT");
}

#[test]
fn index_keeps_rail_trips_only() {
    let index = MartaScheduleIndex::build(&feed());
    assert_eq!(index.rail_route_count(), 2);
    assert_eq!(index.indexed_trip_count(), 6);
    assert_eq!(index.pattern_count(), 3);
    let ids: Vec<&str> = index.trips.iter().map(|trip| trip.trip_id.as_str()).collect();
    assert_eq!(ids, vec!["t1000", "t1020", "t1005", "t2410", "r1000", "s1000"]);
    assert_eq!(index.patterns[0].line, "GOLD");
    assert_eq!(index.patterns[0].stations, vec![0, 1, 2, 3]);
    assert_eq!(index.patterns[1].stations, vec![3, 2, 1, 0]);
    assert_eq!(index.patterns[2].line, "RED");
    assert_eq!(index.trips[5].pattern_id, index.trips[0].pattern_id);
    assert_eq!(index.trips[0].headsign.as_deref(), Some("AIRPORT"));
    assert_eq!(index.trips[0].direction_id, Some(1));
    assert_eq!(index.trips[0].stop_ids, vec!["N1", "F1", "L1", "A1"]);
    assert_eq!(index.trips[0].arrival_seconds[1], Some(36240));
}

#[test]
fn stations_answer_to_all_their_names() {
    let index = MartaScheduleIndex::build(&feed());
    let found = |name: &str| resolve_station(&index.station_aliases, name);
    assert_eq!(found("NORTH AVE STATION"), vec![0]);
    assert_eq!(found("North Avenue"), vec![0]);
    assert_eq!(found("Five Points"), vec![1]);
    assert_eq!(found("Fort McPherson"), vec![2]);
    assert_eq!(found("AIRPORT"), vec![3]);
}

#[test]
fn departures_stand_in_for_arrivals() {
    let mut schedule = feed();
    schedule.trips[0].stop_times[0].arrival_time = None;
    schedule.trips[0].stop_times[0].departure_time = Some(36030);
    schedule.trips[0].stop_times[1].arrival_time = None;
    schedule.trips[0].direction = None;
    let index = MartaScheduleIndex::build(&schedule);
    assert_eq!(index.trips[0].arrival_seconds[0], Some(36030));
    assert_eq!(index.trips[0].arrival_seconds[1], None);
    assert_eq!(index.trips[0].direction_id, None);
}

#[test]
fn services_follow_the_calendar() {
    let index = MartaScheduleIndex::build(&feed());
    let weekday = "weekday".to_string();
    let saturday = "saturday".to_string();
    assert!(runs_on_day(&index.services, &weekday, day(2026, 9, 15)));
    assert!(!runs_on_day(&index.services, &weekday, day(2026, 9, 19)));
    assert!(runs_on_day(&index.services, &saturday, day(2026, 9, 19)));
    assert!(!runs_on_day(&index.services, &weekday, day(2026, 9, 7)));
    assert!(runs_on_day(&index.services, &saturday, day(2026, 9, 7)));
    assert!(!runs_on_day(&index.services, &weekday, day(2027, 1, 1)));
    assert!(!runs_on_day(&index.services, &"sunday".to_string(), day(2026, 9, 15)));
}

#[test]
fn scheduled_arrivals_are_found_by_time() {
    let index = MartaScheduleIndex::build(&feed());
    let line = "GOLD".to_string();
    assert_eq!(index.schedule_entry_count(&line, 0), 5);
    assert_eq!(index.schedule_entry_count(&"RED".to_string(), 0), 1);
    assert_eq!(index.schedule_entry_count(&line, 9), 0);
    assert_eq!(index.schedule_entry_count(&"BLUE".to_string(), 0), 0);
    let trips = |target: i64, tolerance: i64| -> Vec<u32> {
        let mut found: Vec<u32> = index
            .trip_candidates_at(&line, 0, target, tolerance)
            .iter()
            .map(|entry| entry.trip_index)
            .collect();
        found.sort_unstable();
        found
    };
    assert_eq!(trips(36000, 0), vec![0, 5]);
    assert_eq!(trips(36000, -5), vec![0, 5]);
    assert_eq!(trips(36100, 99), Vec::<u32>::new());
    assert_eq!(trips(36100, 100), vec![0, 5]);
    assert_eq!(trips(36600, 600), vec![0, 1, 5]);
    assert_eq!(trips(i64::MIN, i64::MAX), Vec::<u32>::new());
    assert_eq!(trips(0, i64::MAX).len(), 5);
    assert_eq!(trips(i64::MAX, 5), Vec::<u32>::new());
}

#[test]
fn observations_come_in_order_and_once() {
    let index = MartaScheduleIndex::build(&feed());
    let mut rows = late_train();
    rows.push(row("302", "Five Points", "09/15/2026 10:00:30 AM", "10:06:00 AM", "330", "T60S"));
    rows.push(row("302", "Nowhere", "09/15/2026 10:00:30 AM", "10:06:00 AM", "330", "T60S"));
    rows.push(row("302", "North Ave", "yesterday", "10:06:00 AM", "330", "T60S"));
    rows.push(row("302", "North Ave", "09/15/2026 10:00:30 AM", "soon", "330", "T60S"));
    rows.push(row("302", "North Ave", "09/15/2026 10:00:30 AM", "10:06:00 AM", "330", "late"));
    let observations = build_observations(&index, &rows);
    let order: Vec<usize> = observations.iter().map(|seen| seen.row_index).collect();
    assert_eq!(order, vec![1, 0, 2]);
    assert_eq!(observations[0].station_candidates, vec![1]);
    assert_eq!(
        observations[0].scheduled_local,
        LocalDateTime { day: day(2026, 9, 15), second: 36240, nanosecond: 0 }
    );
    assert_eq!(observations[0].predicted_arrival.local.second, 36300);
}

#[test]
fn rows_outside_the_calendar_are_told() {
    assert!(row_fits(&late_train()[0]));
    let large = "T9223372036854775807H";
    assert!(row_fits(&row("1", "Airport", "yesterday", "10:06:00 AM", "330", large)));
    let event = "09/15/2026 10:00:30 AM";
    assert!(!row_fits(&row("1", "Airport", event, "10:06:00 AM", "330", "T9223372036854775807H")));
    assert!(!row_fits(&row("1", "Airport", event, "10:06:00 AM", "330", "T9223372036854775807S")));
    assert!(!row_fits(&row("1", "Airport", event, "10:06:00 AM", "330", "-9223372036854775808")));
    assert!(!row_fits(&row("1", "Airport", event, "10:06:00 AM", "9223372036854775807", "T0S")));
    assert!(row_fits(&row("1", "Airport", event, "soon", "9223372036854775807", "T0S")));
    let mut ignored = row("1", "Airport", event, "10:06:00 AM", "330", "T9223372036854775807H");
    ignored.is_realtime = "false".to_string();
    assert!(rows_fit(&vec![ignored]));
}

fn observe(stations: Vec<u32>, second: u32) -> Observation {
    let time = LocalDateTime { day: day(2026, 9, 15), second, nanosecond: 0 };
    let zoned = ZonedTime { local: time, unix: i64::from(second) };
    Observation {
        row_index: second as usize,
        station_candidates: stations,
        event_time: zoned,
        predicted_arrival: zoned,
        scheduled_local: time,
    }
}

#[test]
fn stops_are_aligned_in_order() {
    let pattern = vec![0u32, 1, 2, 1, 3];
    let seen = |lists: Vec<Vec<u32>>| -> Vec<Observation> {
        lists.into_iter().map(|stations| observe(stations, 0)).collect()
    };
    assert_eq!(
        align_pattern(&pattern, &seen(vec![vec![1], vec![3]])),
        Some(vec![(0, 1), (1, 4)])
    );
    assert_eq!(
        align_pattern(&pattern, &seen(vec![vec![1], vec![1]])),
        Some(vec![(0, 1), (1, 3)])
    );
    assert_eq!(
        align_pattern(&pattern, &seen(vec![vec![2, 3], vec![9, 1]])),
        Some(vec![(0, 2), (1, 3)])
    );
    assert_eq!(align_pattern(&pattern, &seen(vec![vec![3], vec![1]])), None);
    assert_eq!(align_pattern(&pattern, &seen(vec![])), Some(vec![]));
    assert_eq!(align_pattern(&vec![], &seen(vec![vec![1]])), None);
}

#[test]
fn skipped_stops_are_counted() {
    assert_eq!(count_skipped_stops(&vec![]), 0);
    assert_eq!(count_skipped_stops(&vec![(0, 7)]), 0);
    assert_eq!(count_skipped_stops(&vec![(0, 1), (1, 2), (2, 5)]), 2);
    assert_eq!(count_skipped_stops(&vec![(0, 5), (1, 2), (2, 3)]), 0);
    // From 1 to 9 with three positions used.
    assert_eq!(count_skipped_stops(&vec![(0, 1), (1, 4), (2, 9)]), 9 - 1 + 1 - 3);
}

fn timed(arrivals: Vec<Option<u32>>) -> IndexedTrip {
    IndexedTrip {
        trip_id: "x".to_string(),
        route_id: "G".to_string(),
        service_id: "weekday".to_string(),
        headsign: None,
        direction_id: None,
        pattern_id: 0,
        stop_ids: vec!["a".to_string(); arrivals.len()],
        stop_sequences: vec![1; arrivals.len()],
        arrival_seconds: arrivals,
    }
}

#[test]
fn schedule_errors_are_measured() {
    let date = day(2026, 9, 15);
    let trip = timed(vec![Some(100), Some(200), None, Some(86400 + 50)]);
    let observations = vec![observe(vec![0], 90), observe(vec![1], 205)];
    assert_eq!(
        score_schedule(&trip, date, &vec![(0, 0), (1, 1)], &observations),
        Some((7, 10))
    );
    assert_eq!(score_schedule(&trip, date - 1, &vec![(0, 3)], &observations), Some((40, 40)));
    assert_eq!(score_schedule(&trip, date, &vec![(0, 2)], &observations), None);
    assert_eq!(score_schedule(&trip, date, &vec![(0, 4)], &observations), None);
    assert_eq!(score_schedule(&trip, date, &vec![(2, 0)], &observations), None);
    assert_eq!(score_schedule(&trip, date, &vec![], &observations), None);
    assert_eq!(
        score_schedule(&trip, i32::MAX, &vec![(0, 3)], &observations).unwrap().1,
        (i64::from(i32::MAX) - i64::from(date) + 1) * 86400 + 50 - 90
    );
}

fn score(mean: i64, max: i64, destination: bool, skipped: usize) -> MatchScore {
    MatchScore {
        trip_index: 0,
        service_date: 0,
        row_stop_positions: vec![],
        mean_abs_error_seconds: mean,
        max_abs_error_seconds: max,
        destination_matches: destination,
        skipped_pattern_stops: skipped,
    }
}

#[test]
fn better_matches_come_first() {
    let ranked = [
        score(1, 9, false, 9),
        score(2, 3, true, 0),
        score(2, 3, true, 1),
        score(2, 3, false, 0),
        score(2, 4, true, 0),
    ];
    for (i, one) in ranked.iter().enumerate() {
        for (j, other) in ranked.iter().enumerate() {
            assert_eq!(one.better_than(other), i < j);
        }
    }
}

#[test]
fn service_days_are_near_the_train() {
    let mut seen = observe(vec![0], 100);
    seen.event_time.local.day = day(2026, 9, 17);
    let dates = candidate_service_dates(&vec![seen, observe(vec![0], 5)]);
    assert_eq!(
        dates,
        vec![day(2026, 9, 14), day(2026, 9, 15), day(2026, 9, 16), day(2026, 9, 17)]
    );
    assert_eq!(candidate_service_dates(&vec![]), Vec::<i32>::new());
}

#[test]
fn a_late_train_is_matched() {
    let index = MartaScheduleIndex::build(&feed());
    let found = match_train(&index, &late_train(), &MatcherConfig::default(), None).unwrap();
    assert_eq!(index.trips[found.trip_index].trip_id, "t1000");
    assert_eq!(found.service_date, day(2026, 9, 15));
    assert_eq!(found.row_stop_positions, vec![(1, 1), (0, 2), (2, 3)]);
    assert_eq!(found.mean_abs_error_seconds, 0);
    assert_eq!(found.max_abs_error_seconds, 0);
    assert!(found.destination_matches);
    assert_eq!(found.skipped_pattern_stops, 0);
    assert!(match_train(&index, &vec![], &MatcherConfig::default(), None).is_none());
}

#[test]
fn trips_after_midnight_are_of_the_day_before() {
    let index = MartaScheduleIndex::build(&feed());
    let event = "09/16/2026 12:11:00 AM";
    let rows = vec![
        row("9", "Five Points", event, "12:14:00 AM", "180", "T0S"),
        row("9", "Lakewood", event, "12:20:00 AM", "540", "T0S"),
    ];
    let found = match_train(&index, &rows, &MatcherConfig::default(), None).unwrap();
    assert_eq!(index.trips[found.trip_index].trip_id, "t2410");
    assert_eq!(found.service_date, day(2026, 9, 15));
}

#[test]
fn stop_order_tells_the_direction() {
    let index = MartaScheduleIndex::build(&feed());
    let event = "09/15/2026 10:05:00 AM";
    let rows = vec![
        row("9", "Lakewood", event, "10:15:00 AM", "600", "T0S"),
        row("9", "Five Points", event, "10:21:00 AM", "960", "T0S"),
    ];
    let found = match_train(&index, &rows, &MatcherConfig::default(), None).unwrap();
    assert_eq!(index.trips[found.trip_index].trip_id, "t1005");
    assert!(!found.destination_matches);
}

#[test]
fn bounds_of_a_match() {
    let index = MartaScheduleIndex::build(&feed());
    let line = "GOLD".to_string();
    let destination = "AIRPORT".to_string();
    let seen = |first: u32, second: u32| vec![observe(vec![1], first), observe(vec![2], second)];
    let mut config = MatcherConfig::default();
    let found = |observations: &Vec<Observation>, config: &MatcherConfig| {
        match_observations(&index, &line, &destination, observations, config, None)
            .map(|score| {
                let mean = score.mean_abs_error_seconds;
                (score.trip_index, mean, score.max_abs_error_seconds)
            })
    };
    assert_eq!(found(&seen(36240 - 480, 36600 - 480), &config), Some((0, 480, 480)));
    assert_eq!(found(&seen(36240 - 482, 36600 - 480), &config), None);
    assert_eq!(found(&seen(36240, 36600 - 900), &config), Some((0, 450, 900)));
    assert_eq!(found(&seen(36240, 36600 - 901), &config), None);
    config.minimum_resolved_stops = 3;
    assert_eq!(found(&seen(36240, 36600), &config), None);
    config.minimum_resolved_stops = 0;
    assert_eq!(found(&vec![observe(vec![1], 36240)], &config), Some((0, 0, 0)));
    assert_eq!(found(&vec![], &config), None);
    assert_eq!(found(&vec![observe(vec![9], 36240)], &config), None);
    config.max_stop_schedule_error_seconds = -1;
    assert_eq!(found(&vec![observe(vec![1], 36240)], &config), None);
}

#[test]
fn an_assignment_that_fits_is_kept() {
    let index = MartaScheduleIndex::build(&feed());
    let line = "GOLD".to_string();
    let destination = "AIRPORT".to_string();
    let config = MatcherConfig::default();
    let date = day(2026, 9, 15);
    // 550 s early for the first trip, 650 s late for the one before it.
    let observations = vec![observe(vec![1], 37440 - 550), observe(vec![2], 37800 - 550)];
    let found = |preferred: Option<(usize, i32)>| {
        match_observations(&index, &line, &destination, &observations, &config, preferred)
    };
    assert!(found(None).is_none());
    assert_eq!(found(Some((1, date))).unwrap().mean_abs_error_seconds, 550);
    assert!(found(Some((0, date))).is_none());
    assert!(found(Some((99, date))).is_none());
    // One stop is enough for a trip that the train has already.
    let single = vec![observe(vec![1], 36240)];
    let again = match_observations(&index, &line, &destination, &single, &config, Some((0, date)));
    assert_eq!(again.unwrap().trip_index, 0);
}

#[test]
fn ties_go_to_the_destination_and_then_the_trip_id() {
    let mut schedule = feed();
    let mut twin = schedule.trips[0].clone();
    twin.id = "a1000".to_string();
    schedule.trips.push(twin);
    let index = MartaScheduleIndex::build(&schedule);
    let found = match_train(&index, &late_train(), &MatcherConfig::default(), None).unwrap();
    assert_eq!(index.trips[found.trip_index].trip_id, "a1000");
    schedule.trips.last_mut().unwrap().headsign = None;
    let index = MartaScheduleIndex::build(&schedule);
    let found = match_train(&index, &late_train(), &MatcherConfig::default(), None).unwrap();
    assert_eq!(index.trips[found.trip_index].trip_id, "t1000");
}

#[test]
fn scores_need_the_line_the_day_and_the_order() {
    let index = MartaScheduleIndex::build(&feed());
    let date = day(2026, 9, 15);
    let observations = vec![observe(vec![1], 36240), observe(vec![2], 36600)];
    let scored = |trip: usize, date: i32, line: &str| {
        score_specific_trip(
            &index,
            trip,
            date,
            &line.to_string(),
            &"AIRPORT".to_string(),
            &observations,
        )
        .is_some()
    };
    assert!(scored(0, date, "GOLD"));
    assert!(!scored(0, date, "RED"));
    assert!(!scored(0, day(2026, 9, 19), "GOLD"));
    assert!(!scored(2, date, "GOLD"));
    assert!(!scored(99, date, "GOLD"));
    assert!(scored(0, day(2026, 9, 14), "GOLD"));
}

fn cached(train_id: &str, trip_index: usize, last_seen_unix: i64) -> CachedAssignment {
    CachedAssignment {
        train_id: train_id.to_string(),
        trip_index,
        service_date: 7,
        line: "GOLD".to_string(),
        direction: "S".to_string(),
        destination: "AIRPORT".to_string(),
        last_seen_unix,
    }
}

#[test]
fn assignments_age() {
    assert_eq!(age_seconds(10, 4), 6);
    assert_eq!(age_seconds(i64::MAX, -1), i64::MAX);
    assert_eq!(age_seconds(i64::MIN, 1), i64::MIN);
    let mut cache = vec![cached("1", 4, 1000)];
    let key = TrainKey {
        train_id: "1".to_string(),
        line: "GOLD".to_string(),
        direction: "S".to_string(),
        destination: "AIRPORT".to_string(),
    };
    assert_eq!(preferred_trip(&cache, &key, 2200, 1200), Some((4, 7)));
    assert_eq!(preferred_trip(&cache, &key, 2201, 1200), None);
    assert_eq!(preferred_trip(&cache, &key, 900, 1200), Some((4, 7)));
    let mut turned = key.clone();
    turned.direction = "N".to_string();
    assert_eq!(preferred_trip(&cache, &turned, 1000, 1200), None);
    turned = key.clone();
    turned.destination = "NORTH AVE".to_string();
    assert_eq!(preferred_trip(&cache, &turned, 1000, 1200), None);
    turned = key.clone();
    turned.line = "RED".to_string();
    assert_eq!(preferred_trip(&cache, &turned, 1000, 1200), None);
    turned = key.clone();
    turned.train_id = "2".to_string();
    assert_eq!(preferred_trip(&cache, &turned, 1000, 1200), None);
    assign(&mut cache, cached("2", 5, 4600));
    assign(&mut cache, cached("1", 6, 1001));
    assert_eq!(cache.len(), 2);
    assert_eq!(preferred_trip(&cache, &key, 1001, 0), Some((6, 7)));
    let left = drop_old(cache, 4601, 1200);
    assert_eq!(left.len(), 2);
    let mut left = drop_old(left, 4602, 1200);
    assert_eq!(left.len(), 1);
    assert_eq!(left[0].train_id, "2");
    remember(&mut left, cached("3", 1, 8201), 1200);
    assert_eq!(left.len(), 1);
    assert_eq!(left[0].train_id, "3");
    remember(&mut left, cached("4", 1, 8201), -1);
    assert_eq!(left.len(), 0);
}

#[test]
fn sorting_is_stable() {
    let update = |stop_sequence: u32, time: i64| StopTimeUpdate {
        stop_sequence,
        stop_id: String::new(),
        arrival: StopTimeEvent { delay: None, time },
    };
    let sorted = sort_by_key(vec![
        update(3, 1),
        update(1, 2),
        update(3, 3),
        update(1, 4),
        update(2, 5),
    ]);
    let order: Vec<(u32, i64)> =
        sorted.iter().map(|one| (one.stop_sequence, one.arrival.time)).collect();
    assert_eq!(order, vec![(1, 2), (1, 4), (2, 5), (3, 1), (3, 3)]);
    assert_eq!(sorted[0].key(), 1);
    let mut number: u32 = 1;
    for count in 0..200 {
        let mut updates = Vec::new();
        for time in 0..count {
            number = number.wrapping_mul(1664525).wrapping_add(1013904223);
            updates.push(update(number >> 28, time));
        }
        let mut expected: Vec<(u32, i64)> =
            updates.iter().map(|one| (one.stop_sequence, one.arrival.time)).collect();
        expected.sort_by_key(|pair| pair.0);
        let order: Vec<(u32, i64)> = sort_by_key(updates)
            .iter()
            .map(|one| (one.stop_sequence, one.arrival.time))
            .collect();
        assert_eq!(order, expected);
    }
    assert_eq!(sort_distinct(vec![3, 1, 3, 2, 1]), vec![1, 2, 3]);
    assert_eq!(sort_distinct(vec![]), Vec::<u32>::new());
}

#[test]
fn patterns_are_held_once() {
    let mut table = PatternTable::new();
    let gold = || "GOLD".to_string();
    assert_eq!(table.position(gold(), vec![1, 2]), 0);
    assert_eq!(table.position("RED".to_string(), vec![1, 2]), 1);
    assert_eq!(table.position(gold(), vec![2, 1]), 2);
    assert_eq!(table.position(gold(), vec![1, 2]), 0);
    // These have the same number as no stations at all.
    assert_eq!(table.position(gold(), vec![]), 3);
    assert_eq!(table.position(gold(), vec![0]), 4);
    assert_eq!(table.position(gold(), vec![0, 0]), 5);
    assert_eq!(table.position(gold(), vec![0]), 4);
    assert_eq!(table.position("RED".to_string(), vec![1, 2]), 1);
    assert_eq!(table.patterns.len(), 6);
}

#[test]
fn schedules_that_cannot_be_indexed() {
    assert!(can_index(&feed()));
    let mut schedule = feed();
    schedule.calendars[1].end_date = MAX_DAY + 1;
    assert!(!can_index(&schedule));
    let mut schedule = feed();
    schedule.calendar_dates[0].date = i32::MIN;
    assert!(!can_index(&schedule));
}

#[test]
fn a_failing_hint_makes_no_difference() {
    let shown = |converter: &mut MartaGtfsRt, rows: Vec<MartaTrainRow>| {
        format!("{:?}", converter.process_rows_at(rows, 5, 0))
    };
    let mut wrong_trip = cached("302", 2, parse_event_time("09/15/2026 10:00:00 AM").unwrap().unix);
    wrong_trip.service_date = day(2026, 9, 15);
    let mut too_old = cached("302", 1, 0);
    too_old.service_date = day(2026, 9, 15);
    let mut turned = wrong_trip.clone();
    turned.trip_index = 0;
    turned.direction = "N".to_string();
    let unknown = cached("302", 99, wrong_trip.last_seen_unix);
    for hint in [wrong_trip, too_old, turned, unknown] {
        // The same schedule in another order of its tables.
        let mut schedule = feed();
        schedule.calendars.reverse();
        schedule.stops.reverse();
        schedule.routes.reverse();
        let mut converter = MartaGtfsRt::new(&schedule);
        converter.assignments.push(hint);
        let mut fresh = MartaGtfsRt::new(&feed());
        assert_eq!(shown(&mut converter, late_train()), shown(&mut fresh, late_train()));
        let event = "09/15/2026 11:30:00 PM";
        let lost = vec![row("302", "Airport", event, "11:31:00 PM", "60", "T0S")];
        assert_eq!(shown(&mut converter, lost.clone()), shown(&mut fresh, lost));
    }
}

#[test]
fn messages_for_a_late_train() {
    let mut converter = MartaGtfsRt::new(&feed());
    let mut rows = late_train();
    rows[0].latitude = Some(" 33.7 ".to_string());
    rows[0].longitude = Some("-84.4".to_string());
    rows.push(row("777", "Nowhere", "09/15/2026 10:00:30 AM", "10:11:00 AM", "630", "T60S"));
    let mut ignored = row("", "Airport", "", "", "", "");
    ignored.is_realtime = "false".to_string();
    rows.push(ignored);
    let results = converter.process_rows_at(rows, 12345, 0);
    assert_eq!(results.diagnostics.received_rows, 5);
    assert_eq!(results.diagnostics.ignored_non_realtime_rows, 1);
    assert_eq!(results.diagnostics.matched_trains, 1);
    assert_eq!(results.diagnostics.unmatched_trains, 1);
    assert_eq!(results.diagnostics.unmatched_train_ids, vec!["777"]);
    assert_eq!(results.trip_updates.header.gtfs_realtime_version, "2.0");
    assert_eq!(results.trip_updates.header.timestamp, 12345);
    assert_eq!(results.vehicle_positions.header.timestamp, 12345);
    assert_eq!(results.alerts.header.timestamp, 12345);
    assert!(results.alerts.entity.is_empty());

    let event = parse_event_time("09/15/2026 10:00:30 AM").unwrap().unix;
    let entity = &results.trip_updates.entity[0];
    assert_eq!(entity.id, "marta-302-tu");
    assert!(entity.vehicle.is_none());
    let update = entity.trip_update.as_ref().unwrap();
    assert_eq!(update.trip.trip_id, "t1000");
    assert_eq!(update.trip.route_id, "G");
    assert_eq!(update.trip.direction_id, Some(1));
    assert_eq!(update.trip.start_date, "20260915");
    assert_eq!(update.vehicle.id, "302");
    assert_eq!(update.vehicle.label, "302");
    assert_eq!(update.timestamp, Some(event as u64));
    let stops: Vec<(u32, &str, Option<i32>, i64)> = update
        .stop_time_update
        .iter()
        .map(|one| (one.stop_sequence, one.stop_id.as_str(), one.arrival.delay, one.arrival.time))
        .collect();
    assert_eq!(
        stops,
        vec![
            (2, "F1", Some(60), event + 270),
            (3, "L1", Some(60), event + 630),
            (4, "A1", Some(60), event + 1230),
        ]
    );

    let entity = &results.vehicle_positions.entity[0];
    assert_eq!(entity.id, "marta-302-vp");
    assert!(entity.trip_update.is_none());
    let vehicle = entity.vehicle.as_ref().unwrap();
    assert_eq!(vehicle.trip.trip_id, "t1000");
    assert_eq!(vehicle.vehicle.id, "302");
    assert_eq!(vehicle.timestamp, Some(event as u64));
    let position = vehicle.position.as_ref().unwrap();
    assert_eq!(position.latitude, "33.7");
    assert_eq!(position.longitude, "-84.4");

    assert_eq!(converter.assignments.len(), 1);
    assert_eq!(converter.assignments[0].train_id, "302");
    assert_eq!(converter.assignments[0].last_seen_unix, event);
    assert_eq!(converter.index().indexed_trip_count(), 6);
}

#[test]
fn a_train_keeps_its_trip_from_poll_to_poll() {
    let mut converter = MartaGtfsRt::new(&feed());
    converter.process_rows_at(late_train(), 1, 0);
    // Ten minutes later one stop is left, which would not do for a new match.
    let event = "09/15/2026 10:10:30 AM";
    let rows = vec![row("302", "AIRPORT", event, "10:21:30 AM", "660", "T90S")];
    let results = converter.process_rows_at(rows.clone(), 2, 0);
    assert_eq!(results.diagnostics.matched_trains, 1);
    let update = results.trip_updates.entity[0].trip_update.as_ref().unwrap();
    assert_eq!(update.trip.trip_id, "t1000");
    assert_eq!(update.stop_time_update.len(), 1);
    let mut fresh = MartaGtfsRt::new(&feed());
    assert_eq!(fresh.process_rows_at(rows, 2, 0).diagnostics.matched_trains, 0);
    assert!(fresh.assignments.is_empty());
}

#[test]
fn the_clock_does_not_matter_without_events() {
    for fallback in [i64::MIN, 0, i64::MAX] {
        let mut converter = MartaGtfsRt::new(&feed());
        converter.process_rows_at(late_train(), 1, 0);
        let rows = vec![row("302", "AIRPORT", "now", "10:21:30 AM", "660", "T90S")];
        let results = converter.process_rows_at(rows.clone(), 2, fallback);
        assert_eq!(results.diagnostics.unmatched_train_ids, vec!["302"]);
        assert_eq!(converter.assignments.len(), 1);
        let converted = convert_train(
            &converter.index,
            &converter.config.matcher,
            1200,
            &converter.assignments,
            &rows,
            fallback,
        );
        assert!(converted.is_none());
    }
}

#[test]
fn positions_come_from_the_latest_row() {
    let located = |event: &str, latitude: &str, longitude: &str| {
        let mut seen = row("1", "Airport", event, "", "", "");
        seen.latitude = Some(latitude.to_string());
        seen.longitude = Some(longitude.to_string());
        seen
    };
    let early = "09/15/2026 10:00:30 AM";
    let late = "09/15/2026 10:00:31 AM";
    let rows = vec![
        located(late, "1.5", "2"),
        located(late, "3", "4"),
        located(early, "5", "6"),
        located(late, "7", "west"),
        located("later", "8", "9"),
        row("1", "Airport", late, "", "", ""),
    ];
    let position = find_position(&rows).unwrap();
    assert_eq!((position.latitude.as_str(), position.longitude.as_str()), ("3", "4"));
    assert!(find_position(&vec![row("1", "Airport", late, "", "", "")]).is_none());
    assert_eq!(find_latest_event(&rows), parse_event_time(late).map(|time| time.unix));
    assert_eq!(find_latest_event(&vec![located("later", "8", "9")]), None);
}

#[test]
fn messages_are_made_now() {
    let mut converter = MartaGtfsRt::new(&feed());
    let before = std::time::UNIX_EPOCH.elapsed().unwrap().as_secs();
    let results = converter.process_rows(late_train());
    let after = std::time::UNIX_EPOCH.elapsed().unwrap().as_secs();
    assert!(before <= results.trip_updates.header.timestamp);
    assert!(results.alerts.header.timestamp <= after);
    assert_eq!(results.diagnostics.matched_trains, 1);
    assert_eq!(clock_reading(Some(5)), 5);
    assert_eq!(clock_reading(None), 0);
    for seconds in [0, 1_789_526_405, i64::MAX as u64, i64::MAX as u64 + 1, u64::MAX] {
        assert_eq!(signed_seconds(seconds), seconds as i64);
    }
    assert_eq!(feed_header(9).timestamp, 9);
}

#[test]
fn rows_that_leave_the_calendar_change_nothing() {
    let mut converter = MartaGtfsRt::new(&feed());
    let mut rows = late_train();
    rows[0].delay = "T9223372036854775807H".to_string();
    assert!(converter.try_process_rows(rows).is_none());
    assert!(converter.assignments.is_empty());
    let results = converter.try_process_rows(late_train()).unwrap();
    assert_eq!(results.diagnostics.matched_trains, 1);
    assert_eq!(converter.assignments.len(), 1);
}

#[test]
fn large_delays_are_left_out_of_messages() {
    let mut converter = MartaGtfsRt::new(&feed());
    let event = "09/15/2026 10:00:30 AM";
    // The arrivals are 24857 days, so whole weeks, after the schedule.
    let rows = vec![
        row("5", "Five Points", event, "10:04:00 AM", "210", "T2147644800S"),
        row("5", "Lakewood", event, "10:10:00 AM", "570", "T2147644800S"),
    ];
    assert!(rows_fit(&rows));
    let mut schedule = feed();
    schedule.calendars[0].start_date = -MAX_DAY;
    converter.index = MartaScheduleIndex::build(&schedule);
    let results = converter.process_rows_at(rows, 1, 0);
    assert_eq!(results.diagnostics.matched_trains, 1);
    let update = results.trip_updates.entity[0].trip_update.as_ref().unwrap();
    assert_eq!(update.trip.start_date, "19580826");
    assert_eq!(update.stop_time_update[0].arrival.delay, None);
}

#[test]
fn default_settings() {
    let config = MartaConfig::default();
    assert_eq!(config.realtime_url, MARTA_RAIL_REALTIME_URL);
    assert_eq!(config.assignment_ttl_seconds, 1200);
    assert_eq!(config.matcher.max_mean_schedule_error_seconds, 480);
    assert_eq!(config.matcher.max_stop_schedule_error_seconds, 900);
    assert_eq!(config.matcher.cached_assignment_max_mean_error_seconds, 600);
    assert_eq!(config.matcher.minimum_resolved_stops, 2);
    let diagnostics = MartaDiagnostics::default();
    assert_eq!(diagnostics.received_rows, 0);
    assert!(diagnostics.unmatched_train_ids.is_empty());
    let mut config = MartaConfig::default();
    config.assignment_ttl_seconds = 5;
    let converter = MartaGtfsRt::with_config(&feed(), config);
    assert_eq!(converter.config.assignment_ttl_seconds, 5);
    assert!(converter.assignments.is_empty());
}
