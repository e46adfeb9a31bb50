//! Building the index from a static schedule.
use vstd::hash_map::StringHashMap;
use vstd::prelude::*;

use std::sync::Arc;

use crate::aliases::{add_stop_aliases, sort_stations, StationAlias, StationId};
use crate::feed::{Direction, Route, RouteType, StaticFeed, Stop, StopTime, Trip};
use crate::index::{IndexedTrip, MartaScheduleIndex, Pattern, Service};
use crate::names::{normalize_line, normalize_station_name};
use crate::patterns::PatternTable;
use crate::schedules::build_schedules;
use crate::service::service_rule;

verus! {

broadcast use vstd::hash_map::group_hash_map_axioms;

/// The line of a route, if it is a rail route with a name: the short name, or else the long
/// one, in its common form.
pub open spec fn route_line(route: Route) -> Option<Seq<char>> {
    if route.route_type != RouteType::Subway {
        None
    } else {
        match (route.short_name, route.long_name) {
            (Some(name), _) => Some(crate::names::line_name(name@)),
            (None, Some(name)) => Some(crate::names::line_name(name@)),
            (None, None) => None,
        }
    }
}

/// The rail routes by id, with their lines.
pub open spec fn rail_lines(routes: Seq<Route>) -> Map<Seq<char>, Seq<char>>
    decreases routes.len(),
{
    if routes.len() == 0 {
        Map::empty()
    } else {
        match route_line(routes.last()) {
            None => rail_lines(routes.drop_last()),
            Some(line) => rail_lines(routes.drop_last()).insert(routes.last().id@, line),
        }
    }
}

/// Whether a trip is indexed: it runs on a rail route and calls at two stops or more.
pub open spec fn rail_trip(lines: Map<Seq<char>, Seq<char>>, trip: Trip) -> bool {
    lines.contains_key(trip.route_id@) && trip.stop_times@.len() >= 2
}

/// The trips that are indexed, in their order.
pub open spec fn rail_trips(lines: Map<Seq<char>, Seq<char>>, trips: Seq<Trip>) -> Seq<Trip>
    decreases trips.len(),
{
    if trips.len() == 0 {
        Seq::empty()
    } else {
        let before = rail_trips(lines, trips.drop_last());
        if rail_trip(lines, trips.last()) {
            before.push(trips.last())
        } else {
            before
        }
    }
}

/// What tells logical stations apart: the station that a stop is part of, or else the stop.
pub open spec fn station_key(stop: Stop) -> Seq<char> {
    match stop.parent_station {
        Some(parent) => parent@,
        None => stop.id@,
    }
}

/// The logical stations that a trip calls at, in order.
pub open spec fn trip_keys(trip: Trip) -> Seq<Seq<char>> {
    trip.stop_times@.map_values(|call: StopTime| station_key(*call.stop))
}

/// The logical stations that the trips call at, in order.
pub open spec fn visited_keys(trips: Seq<Trip>) -> Seq<Seq<char>>
    decreases trips.len(),
{
    if trips.len() == 0 {
        Seq::empty()
    } else {
        visited_keys(trips.drop_last()) + trip_keys(trips.last())
    }
}

/// The values of a sequence, each where it first occurs.
pub open spec fn distinct<T>(values: Seq<T>) -> Seq<T>
    decreases values.len(),
{
    if values.len() == 0 {
        Seq::empty()
    } else {
        let before = distinct(values.drop_last());
        if before.contains(values.last()) {
            before
        } else {
            before.push(values.last())
        }
    }
}

/// The logical stations that the trips call at; a station's number is its position.
pub open spec fn station_table(trips: Seq<Trip>) -> Seq<Seq<char>> {
    distinct(visited_keys(trips))
}

/// The number of a logical station.
pub open spec fn station_number(table: Seq<Seq<char>>, key: Seq<char>) -> StationId {
    table.index_of(key) as StationId
}

/// The numbers of the stations that a trip calls at, in order.
pub open spec fn trip_stations(table: Seq<Seq<char>>, trip: Trip) -> Seq<StationId> {
    trip_keys(trip).map_values(|key: Seq<char>| station_number(table, key))
}

/// The line and the stations of a trip.
pub open spec fn trip_pattern(
    lines: Map<Seq<char>, Seq<char>>,
    table: Seq<Seq<char>>,
    trip: Trip,
) -> (Seq<char>, Seq<StationId>) {
    (lines[trip.route_id@], trip_stations(table, trip))
}

/// The number that stands for a direction of travel.
pub open spec fn direction_number(direction: Option<Direction>) -> Option<u32> {
    match direction {
        Some(Direction::Outbound) => Some(0),
        Some(Direction::Inbound) => Some(1),
        None => None,
    }
}

/// The scheduled seconds of a call: those of the arrival, or else of the departure.
pub open spec fn call_seconds(call: StopTime) -> Option<u32> {
    match call.arrival_time {
        Some(seconds) => Some(seconds),
        None => call.departure_time,
    }
}

/// Whether an indexed trip holds what the index keeps of a trip, its pattern aside.
pub open spec fn keeps_trip(indexed: IndexedTrip, trip: Trip) -> bool {
    &&& indexed.trip_id@ == trip.id@
    &&& indexed.route_id@ == trip.route_id@
    &&& indexed.service_id@ == trip.service_id@
    &&& match (indexed.headsign, trip.headsign) {
        (None, None) => true,
        (Some(name), Some(headsign)) => name@ == crate::names::station_name(headsign@),
        (_, _) => false,
    }
    &&& indexed.direction_id == direction_number(trip.direction)
    &&& crate::names::texts(indexed.stop_ids@) == trip.stop_times@.map_values(
        |call: StopTime| call.stop.id@,
    )
    &&& indexed.stop_sequences@ == trip.stop_times@.map_values(
        |call: StopTime| call.stop_sequence,
    )
    &&& indexed.arrival_seconds@ == trip.stop_times@.map_values(
        |call: StopTime| call_seconds(call),
    )
}

/// The stop with an id: the last one.
pub open spec fn stop_of(stops: Seq<Arc<Stop>>, id: Seq<char>) -> Option<Stop>
    decreases stops.len(),
{
    if stops.len() == 0 {
        None
    } else if stops.last().id@ == id {
        Some(*stops.last())
    } else {
        stop_of(stops.drop_last(), id)
    }
}

/// Whether riders may know a stop as `alias`, by its name or by that of its station.
pub open spec fn stop_known_as(stops: Seq<Arc<Stop>>, stop: Stop, alias: Seq<char>) -> bool {
    ||| stop.name is Some && crate::aliases::known_as(stop.name->0@, alias)
    ||| {
        &&& stop.parent_station is Some
        &&& stop_of(stops, stop.parent_station->0@) matches Some(parent)
        &&& parent.name is Some
        &&& crate::aliases::known_as(parent.name->0@, alias)
    }
}

/// Whether call `j` of trip `t` makes `alias` a name of `station`.
pub open spec fn call_lists(
    stops: Seq<Arc<Stop>>,
    trips: Seq<Trip>,
    table: Seq<Seq<char>>,
    t: int,
    j: int,
    alias: Seq<char>,
    station: StationId,
) -> bool {
    &&& 0 <= t < trips.len()
    &&& 0 <= j < trips[t].stop_times@.len()
    &&& station == station_number(table, station_key(*trips[t].stop_times@[j].stop))
    &&& stop_known_as(stops, *trips[t].stop_times@[j].stop, alias)
}

/// A static schedule can be indexed: its dates are of the calendar, and its rail trips and their
/// stations can be numbered in 32 bits.
pub open spec fn indexable(feed: &StaticFeed) -> bool {
    let trips = rail_trips(rail_lines(feed.routes@), feed.trips@);
    &&& feed.valid()
    &&& trips.len() <= 0x1_0000_0000
    &&& station_table(trips).len() <= u32::MAX
}

impl MartaScheduleIndex {
    /// The index holds a static schedule: its rail trips in order, their distinct patterns in
    /// the order in which they first occur, the names of the stations, the services of the
    /// trips and the number of rail routes.
    pub open spec fn holds(&self, feed: &StaticFeed) -> bool {
        let lines = rail_lines(feed.routes@);
        let trips = rail_trips(lines, feed.trips@);
        let table = station_table(trips);
        &&& self.rail_route_count == lines.len()
        &&& self.trips@.len() == trips.len()
        &&& forall|t: int|
            0 <= t < trips.len() ==> keeps_trip(#[trigger] self.trips@[t], trips[t])
        &&& crate::patterns::pattern_views(self.patterns@) == distinct(
            trips.map_values(|trip: Trip| trip_pattern(lines, table, trip)),
        )
        &&& forall|t: int|
            0 <= t < trips.len() ==> {
                &&& (#[trigger] self.trips@[t]).pattern_id < self.patterns@.len()
                &&& crate::patterns::pattern_view(self.patterns@[self.trips@[t].pattern_id as int])
                    == trip_pattern(lines, table, trips[t])
            }
        &&& forall|alias: Seq<char>, station: StationId|
            #![trigger crate::aliases::lists(self.station_aliases@, alias, station)]
            crate::aliases::lists(self.station_aliases@, alias, station) <==> exists|
                t: int,
                j: int,
            | #[trigger] call_lists(feed.stops@, trips, table, t, j, alias, station)
        &&& forall|i: int|
            0 <= i < self.services@.len() ==> follows_feed(#[trigger] self.services@[i], feed)
        &&& forall|id: Seq<char>| #[trigger]
            has_service(self.services@, id) <==> has_trip_of_service(trips, id)
    }
}

/// Whether a service runs when the schedule says so.
pub open spec fn follows_feed(service: Service, feed: &StaticFeed) -> bool {
    forall|day: i32| #[trigger]
        service.rule.runs(day) == crate::service::scheduled_on(
            feed.calendars@,
            feed.calendar_dates@,
            service.service_id@,
            day,
        )
}

/// Whether a service is among those of the index.
pub open spec fn has_service(services: Seq<Service>, id: Seq<char>) -> bool {
    exists|i: int| 0 <= i < services.len() && (#[trigger] services[i]).service_id@ == id
}

/// Whether one of the trips is of a service.
pub open spec fn has_trip_of_service(trips: Seq<Trip>, id: Seq<char>) -> bool {
    exists|t: int| 0 <= t < trips.len() && (#[trigger] trips[t]).service_id@ == id
}

/// A table of lines holds the lines of the rail routes.
spec fn lines_agree(table: Map<Seq<char>, String>, lines: Map<Seq<char>, Seq<char>>) -> bool {
    &&& table.dom() == lines.dom()
    &&& forall|id: Seq<char>| #[trigger] lines.contains_key(id) ==> table[id]@ == lines[id]
}

/// Finds the rail routes and their lines.
fn find_rail_routes(routes: &Vec<Route>) -> (table: StringHashMap<String>)
    ensures
        lines_agree(table@, rail_lines(routes@)),
{
    let mut table: StringHashMap<String> = StringHashMap::new();
    for i in 0..routes.len()
        invariant
            lines_agree(table@, rail_lines(routes@.take(i as int))),
    {
        let route = &routes[i];
        proof {
            assert(routes@.take(i + 1).drop_last() =~= routes@.take(i as int));
            assert(routes@.take(i + 1).last() == *route);
        }
        if route.route_type == RouteType::Subway {
            let line: Option<String> = match &route.short_name {
                Some(name) => Some(normalize_line(name.as_str())),
                None => match &route.long_name {
                    Some(name) => Some(normalize_line(name.as_str())),
                    None => None,
                },
            };
            if let Some(line) = line {
                let ghost before = table@;
                table.insert(route.id.clone(), line);
                proof {
                    let lines = rail_lines(routes@.take(i + 1));
                    assert(table@.dom() =~= lines.dom());
                }
            }
        }
    }
    proof {
        assert(routes@.take(routes@.len() as int) =~= routes@);
    }
    table
}

/// Finds the trips that are indexed, by their positions.
fn select_rail_trips(trips: &Vec<Trip>, table: &StringHashMap<String>) -> (positions: Vec<usize>)
    ensures
        forall|lines: Map<Seq<char>, Seq<char>>| #[trigger]
            lines_agree(table@, lines) ==> selects(positions@, trips@, rail_trips(lines, trips@)),
{
    let mut positions: Vec<usize> = Vec::new();
    for i in 0..trips.len()
        invariant
            selects_up_to(positions@, trips@, table@, i as int),
    {
        let trip = &trips[i];
        let ghost before = positions@;
        let selected = table.contains_key(trip.route_id.as_str()) && trip.stop_times.len() >= 2;
        if selected {
            positions.push(i);
        }
        proof {
            assert forall|lines: Map<Seq<char>, Seq<char>>| #[trigger]
                lines_agree(table@, lines) implies selects(
                positions@,
                trips@,
                rail_trips(lines, trips@.take(i + 1)),
            ) by {
                assert(selects(before, trips@, rail_trips(lines, trips@.take(i as int))));
                assert(trips@.take(i + 1).drop_last() =~= trips@.take(i as int));
                assert(trips@.take(i + 1).last() == *trip);
                assert(rail_trip(lines, *trip) == selected);
            }
        }
    }
    proof {
        assert(trips@.take(trips@.len() as int) =~= trips@);
    }
    positions
}

/// The positions are those of the selected trips.
spec fn selects(positions: Seq<usize>, trips: Seq<Trip>, selected: Seq<Trip>) -> bool {
    &&& positions.len() == selected.len()
    &&& forall|k: int|
        0 <= k < positions.len() ==> (#[trigger] positions[k]) < trips.len()
            && trips[positions[k] as int] == selected[k]
}

spec fn selects_up_to(
    positions: Seq<usize>,
    trips: Seq<Trip>,
    table: Map<Seq<char>, String>,
    count: int,
) -> bool {
    forall|lines: Map<Seq<char>, Seq<char>>| #[trigger]
        lines_agree(table, lines) ==> selects(
            positions,
            trips,
            rail_trips(lines, trips.take(count)),
        )
}

proof fn lemma_distinct<T>(values: Seq<T>)
    ensures
        distinct(values).no_duplicates(),
        forall|value: T| #[trigger] distinct(values).contains(value) <==> values.contains(value),
    decreases values.len(),
{
    if values.len() > 0 {
        lemma_distinct(values.drop_last());
        let before = distinct(values.drop_last());
        let last = values.last();
        assert forall|value: T| #[trigger] distinct(values).contains(value) <==> values.contains(
            value,
        ) by {
            if values.contains(value) {
                let i = choose|i: int| 0 <= i < values.len() && values[i] == value;
                if i < values.len() - 1 {
                    assert(values.drop_last()[i] == value);
                    assert(before.contains(value));
                    let k = choose|k: int| 0 <= k < before.len() && before[k] == value;
                    assert(distinct(values)[k] == value);
                } else if !before.contains(last) {
                    assert(distinct(values)[before.len() as int] == value);
                }
            }
            if distinct(values).contains(value) {
                let k = choose|k: int| 0 <= k < distinct(values).len() && distinct(values)[k]
                    == value;
                if k < before.len() {
                    assert(before[k] == value);
                    assert(before.contains(value));
                    assert(values.drop_last().contains(value));
                    let i = choose|i: int|
                        0 <= i < values.drop_last().len() && values.drop_last()[i] == value;
                    assert(values[i] == value);
                } else {
                    assert(values[values.len() - 1] == value);
                }
            }
        }
    }
}

proof fn lemma_distinct_grows<T>(values: Seq<T>, more: Seq<T>)
    ensures
        distinct(values).len() <= distinct(values + more).len(),
    decreases more.len(),
{
    if more.len() == 0 {
        assert(values + more =~= values);
    } else {
        lemma_distinct_grows(values, more.drop_last());
        assert((values + more).drop_last() =~= values + more.drop_last());
    }
}

proof fn lemma_visited_grows(trips: Seq<Trip>, count: int)
    requires
        0 <= count <= trips.len(),
    ensures
        distinct(visited_keys(trips.take(count))).len() <= distinct(visited_keys(trips)).len(),
    decreases trips.len() - count,
{
    if count < trips.len() {
        lemma_visited_grows(trips, count + 1);
        assert(trips.take(count + 1).drop_last() =~= trips.take(count));
        lemma_distinct_grows(
            visited_keys(trips.take(count)),
            trip_keys(trips.take(count + 1).last()),
        );
    } else {
        assert(trips.take(count) =~= trips);
    }
}

/// The numbers of the stations are their positions in a table.
spec fn numbers_agree(numbers: Map<Seq<char>, StationId>, table: Seq<Seq<char>>) -> bool {
    &&& forall|key: Seq<char>| #[trigger] numbers.contains_key(key) <==> table.contains(key)
    &&& forall|key: Seq<char>| #[trigger]
        numbers.contains_key(key) ==> numbers[key] < table.len() && table[numbers[key] as int]
            == key
}

/// The key of the station of a stop.
fn key_of(stop: &Stop) -> (key: &String)
    ensures
        key@ == station_key(*stop),
{
    match &stop.parent_station {
        Some(parent) => parent,
        None => &stop.id,
    }
}

/// Numbers the stations of the selected trips in the order in which they first occur.
fn number_stations(trips: &Vec<Trip>, positions: &Vec<usize>) -> (result: (
    StringHashMap<StationId>,
    usize,
))
    requires
        forall|k: int| 0 <= k < positions@.len() ==> (#[trigger] positions@[k]) < trips@.len(),
        station_table(chosen(positions@, trips@)).len() <= u32::MAX,
    ensures
        numbers_agree(result.0@, station_table(chosen(positions@, trips@))),
        result.1 == station_table(chosen(positions@, trips@)).len(),
{
    let ghost rail = chosen(positions@, trips@);
    let mut numbers: StringHashMap<StationId> = StringHashMap::new();
    let mut count: usize = 0;
    for k in 0..positions.len()
        invariant
            rail == chosen(positions@, trips@),
            forall|m: int| 0 <= m < positions@.len() ==> (#[trigger] positions@[m]) < trips@.len(),
            distinct(visited_keys(rail)).len() <= u32::MAX,
            numbers_agree(numbers@, distinct(visited_keys(rail.take(k as int)))),
            count == distinct(visited_keys(rail.take(k as int))).len(),
    {
        let trip = &trips[positions[k]];
        let ghost before = visited_keys(rail.take(k as int));
        let ghost keys = trip_keys(*trip);
        proof {
            assert(rail.take(k + 1).drop_last() =~= rail.take(k as int));
            assert(rail.take(k + 1).last() == *trip);
            assert(visited_keys(rail.take(k + 1)) == before + keys);
            lemma_visited_grows(rail, k + 1);
            assert(before + keys.take(0) =~= before);
        }
        for j in 0..trip.stop_times.len()
            invariant
                keys == trip_keys(*trip),
                distinct(before + keys).len() <= u32::MAX,
                numbers_agree(numbers@, distinct(before + keys.take(j as int))),
                count == distinct(before + keys.take(j as int)).len(),
        {
            let key = key_of(&trip.stop_times[j].stop);
            let ghost seen = before + keys.take(j as int);
            let ghost next = before + keys.take(j + 1);
            proof {
                assert(key@ == keys[j as int]);
                assert(next.drop_last() =~= seen);
                assert(next.last() == key@);
                lemma_distinct_grows(next, keys.skip(j + 1));
                assert(next + keys.skip(j + 1) =~= before + keys);
                lemma_distinct(seen);
                lemma_distinct(next);
            }
            if !numbers.contains_key(key.as_str()) {
                let ghost old_numbers = numbers@;
                numbers.insert(key.clone(), count as StationId);
                count += 1;
                proof {
                    let table = distinct(next);
                    assert(table == distinct(seen).push(key@));
                    assert forall|other: Seq<char>| #[trigger]
                        numbers@.contains_key(other) <==> table.contains(other) by {
                        if other == key@ {
                            assert(table[distinct(seen).len() as int] == other);
                        }
                        if distinct(seen).contains(other) {
                            let i = choose|i: int|
                                0 <= i < distinct(seen).len() && distinct(seen)[i] == other;
                            assert(table[i] == other);
                        }
                        if table.contains(other) && other != key@ {
                            let i = choose|i: int| 0 <= i < table.len() && table[i] == other;
                            assert(distinct(seen)[i] == other);
                            assert(old_numbers.contains_key(other));
                        }
                    }
                    assert forall|other: Seq<char>| #[trigger]
                        numbers@.contains_key(other) implies numbers@[other] < table.len()
                        && table[numbers@[other] as int] == other by {
                        if other != key@ {
                            assert(old_numbers.contains_key(other));
                        }
                    }
                }
            }
        }
        proof {
            assert(keys.take(keys.len() as int) =~= keys);
        }
    }
    proof {
        assert(rail.take(rail.len() as int) =~= rail);
    }
    (numbers, count)
}

/// Whether the stations of the selected trips can be numbered in 32 bits.
fn stations_fit(trips: &Vec<Trip>, positions: &Vec<usize>) -> (answer: bool)
    requires
        forall|k: int| 0 <= k < positions@.len() ==> (#[trigger] positions@[k]) < trips@.len(),
    ensures
        answer == (station_table(chosen(positions@, trips@)).len() <= u32::MAX),
{
    let ghost rail = chosen(positions@, trips@);
    let mut seen: StringHashMap<bool> = StringHashMap::new();
    let mut count: u64 = 0;
    for k in 0..positions.len()
        invariant
            rail == chosen(positions@, trips@),
            forall|m: int| 0 <= m < positions@.len() ==> (#[trigger] positions@[m]) < trips@.len(),
            keys_seen(seen@, distinct(visited_keys(rail.take(k as int)))),
            count == distinct(visited_keys(rail.take(k as int))).len(),
            count <= u32::MAX,
    {
        let trip = &trips[positions[k]];
        let ghost before = visited_keys(rail.take(k as int));
        let ghost keys = trip_keys(*trip);
        proof {
            assert(rail.take(k + 1).drop_last() =~= rail.take(k as int));
            assert(rail.take(k + 1).last() == *trip);
            assert(visited_keys(rail.take(k + 1)) == before + keys);
            assert(before + keys.take(0) =~= before);
        }
        for j in 0..trip.stop_times.len()
            invariant
                rail == chosen(positions@, trips@),
                0 <= k < rail.len(),
                keys == trip_keys(*trip),
                visited_keys(rail.take(k + 1)) == before + keys,
                keys_seen(seen@, distinct(before + keys.take(j as int))),
                count == distinct(before + keys.take(j as int)).len(),
                count <= u32::MAX,
        {
            let key = key_of(&trip.stop_times[j].stop);
            let ghost known = before + keys.take(j as int);
            let ghost next = before + keys.take(j + 1);
            proof {
                assert(key@ == keys[j as int]);
                assert(next.drop_last() =~= known);
                assert(next.last() == key@);
            }
            if !seen.contains_key(key.as_str()) {
                let ghost old_seen = seen@;
                if count == u32::MAX as u64 {
                    proof {
                        lemma_distinct_grows(next, keys.skip(j + 1));
                        assert(next + keys.skip(j + 1) =~= before + keys);
                        lemma_visited_grows(rail, k + 1);
                    }
                    return false;
                }
                seen.insert(key.clone(), true);
                count += 1;
                proof {
                    let table = distinct(next);
                    assert(table == distinct(known).push(key@));
                    assert forall|other: Seq<char>| #[trigger]
                        seen@.contains_key(other) <==> table.contains(other) by {
                        crate::sequences::lemma_push_contains(distinct(known), key@, other);
                        assert(old_seen.contains_key(other) <==> distinct(known).contains(other));
                    }
                }
            }
        }
        proof {
            assert(keys.take(keys.len() as int) =~= keys);
        }
    }
    proof {
        assert(rail.take(rail.len() as int) =~= rail);
    }
    true
}

/// The keys that were seen are those of a table.
spec fn keys_seen(seen: Map<Seq<char>, bool>, table: Seq<Seq<char>>) -> bool {
    forall|key: Seq<char>| #[trigger] seen.contains_key(key) <==> table.contains(key)
}

/// Whether a static schedule can be indexed.
pub fn can_index(feed: &StaticFeed) -> (answer: bool)
    ensures
        answer == indexable(feed),
{
    let ghost lines = rail_lines(feed.routes@);
    let ghost rail = rail_trips(lines, feed.trips@);
    if !feed.dates_fit() {
        return false;
    }
    let routes = find_rail_routes(&feed.routes);
    let positions = select_rail_trips(&feed.trips, &routes);
    proof {
        assert(selects(positions@, feed.trips@, rail));
        assert(chosen(positions@, feed.trips@) =~= rail);
    }
    positions.len() as u128 <= 0x1_0000_0000 && stations_fit(&feed.trips, &positions)
}

/// The trips at the given positions.
spec fn chosen(positions: Seq<usize>, trips: Seq<Trip>) -> Seq<Trip> {
    positions.map_values(|position: usize| trips[position as int])
}

/// The numbers of the stations that a trip calls at.
fn trip_station_numbers(trip: &Trip, numbers: &StringHashMap<StationId>) -> (stations: Vec<
    StationId,
>)
    requires
        forall|j: int|
            0 <= j < trip_keys(*trip).len() ==> numbers@.contains_key(
                #[trigger] trip_keys(*trip)[j],
            ),
    ensures
        stations@ == trip_keys(*trip).map_values(|key: Seq<char>| numbers@[key]),
{
    let ghost keys = trip_keys(*trip);
    let mut stations: Vec<StationId> = Vec::new();
    for j in 0..trip.stop_times.len()
        invariant
            keys == trip_keys(*trip),
            forall|i: int| 0 <= i < keys.len() ==> numbers@.contains_key(#[trigger] keys[i]),
            stations@ == keys.take(j as int).map_values(|key: Seq<char>| numbers@[key]),
    {
        let key = key_of(&trip.stop_times[j].stop);
        proof {
            assert(key@ == keys[j as int]);
        }
        let station: StationId = match numbers.get(key.as_str()) {
            Some(number) => *number,
            None => 0,
        };
        stations.push(station);
        proof {
            assert(stations@ =~= keys.take(j + 1).map_values(|key: Seq<char>| numbers@[key]));
        }
    }
    proof {
        assert(keys.take(keys.len() as int) =~= keys);
    }
    stations
}

/// What the index keeps of a trip.
fn index_trip(trip: &Trip, pattern_id: usize) -> (indexed: IndexedTrip)
    ensures
        keeps_trip(indexed, *trip),
        indexed.pattern_id == pattern_id,
{
    let mut stop_ids: Vec<String> = Vec::new();
    let mut stop_sequences: Vec<u32> = Vec::new();
    let mut arrival_seconds: Vec<Option<u32>> = Vec::new();
    let ghost calls = trip.stop_times@;
    for j in 0..trip.stop_times.len()
        invariant
            calls == trip.stop_times@,
            stop_ids@.len() == j,
            stop_sequences@.len() == j,
            arrival_seconds@.len() == j,
            forall|i: int| 0 <= i < j ==> (#[trigger] stop_ids@[i])@ == calls[i].stop.id@,
            forall|i: int|
                0 <= i < j ==> (#[trigger] stop_sequences@[i]) == calls[i].stop_sequence,
            forall|i: int|
                0 <= i < j ==> (#[trigger] arrival_seconds@[i]) == call_seconds(calls[i]),
    {
        let call = &trip.stop_times[j];
        stop_ids.push(call.stop.id.clone());
        stop_sequences.push(call.stop_sequence);
        arrival_seconds.push(
            match call.arrival_time {
                Some(seconds) => Some(seconds),
                None => call.departure_time,
            },
        );
    }
    let headsign: Option<String> = match &trip.headsign {
        Some(headsign) => Some(normalize_station_name(headsign.as_str())),
        None => None,
    };
    let direction_id: Option<u32> = match trip.direction {
        Some(Direction::Outbound) => Some(0),
        Some(Direction::Inbound) => Some(1),
        None => None,
    };
    proof {
        assert(crate::names::texts(stop_ids@) =~= calls.map_values(
            |call: StopTime| call.stop.id@,
        ));
        assert(stop_sequences@ =~= calls.map_values(|call: StopTime| call.stop_sequence));
        assert(arrival_seconds@ =~= calls.map_values(|call: StopTime| call_seconds(call)));
    }
    IndexedTrip {
        trip_id: trip.id.clone(),
        route_id: trip.route_id.clone(),
        service_id: trip.service_id.clone(),
        headsign,
        direction_id,
        pattern_id,
        stop_ids,
        stop_sequences,
        arrival_seconds,
    }
}

/// The indexed trips and patterns hold the first `count` rail trips.
spec fn holds_trips(
    trips: Seq<IndexedTrip>,
    patterns: Seq<Pattern>,
    lines: Map<Seq<char>, Seq<char>>,
    table: Seq<Seq<char>>,
    rail: Seq<Trip>,
) -> bool {
    &&& trips.len() == rail.len()
    &&& forall|t: int| 0 <= t < rail.len() ==> keeps_trip(#[trigger] trips[t], rail[t])
    &&& crate::patterns::pattern_views(patterns) == distinct(
        rail.map_values(|trip: Trip| trip_pattern(lines, table, trip)),
    )
    &&& forall|t: int|
        0 <= t < rail.len() ==> {
            &&& (#[trigger] trips[t]).pattern_id < patterns.len()
            &&& crate::patterns::pattern_view(patterns[trips[t].pattern_id as int]) == trip_pattern(
                lines,
                table,
                rail[t],
            )
        }
}

/// Every key of a trip is one of those that the trips visit.
proof fn lemma_visited(trips: Seq<Trip>, t: int, j: int)
    requires
        0 <= t < trips.len(),
        0 <= j < trip_keys(trips[t]).len(),
    ensures
        visited_keys(trips).contains(trip_keys(trips[t])[j]),
    decreases trips.len(),
{
    let before = visited_keys(trips.drop_last());
    if t == trips.len() - 1 {
        assert(visited_keys(trips)[before.len() + j] == trip_keys(trips[t])[j]);
    } else {
        lemma_visited(trips.drop_last(), t, j);
        assert(trips.drop_last()[t] == trips[t]);
        let i = choose|i: int| 0 <= i < before.len() && before[i] == trip_keys(trips[t])[j];
        assert(visited_keys(trips)[i] == before[i]);
    }
}

/// The numbers that agree with a table are the positions in it.
proof fn lemma_numbers(numbers: Map<Seq<char>, StationId>, table: Seq<Seq<char>>, key: Seq<char>)
    requires
        numbers_agree(numbers, table),
        table.no_duplicates(),
        numbers.contains_key(key),
    ensures
        numbers[key] == station_number(table, key),
{
    let i = numbers[key] as int;
    assert(table[i] == key);
    let k = table.index_of(key);
    assert(0 <= k < table.len() && table[k] == key);
    assert(i == k);
}

/// The stations of the trips have numbers, which are their positions in the table.
proof fn lemma_stations_numbered(numbers: Map<Seq<char>, StationId>, rail: Seq<Trip>, t: int)
    requires
        numbers_agree(numbers, station_table(rail)),
        0 <= t < rail.len(),
    ensures
        forall|j: int|
            0 <= j < trip_keys(rail[t]).len() ==> numbers.contains_key(
                #[trigger] trip_keys(rail[t])[j],
            ),
        trip_keys(rail[t]).map_values(|key: Seq<char>| numbers[key]) == trip_stations(
            station_table(rail),
            rail[t],
        ),
{
    let keys = trip_keys(rail[t]);
    let table = station_table(rail);
    lemma_distinct(visited_keys(rail));
    assert forall|j: int| 0 <= j < keys.len() implies numbers.contains_key(
        #[trigger] keys[j],
    ) && numbers[keys[j]] == station_number(table, keys[j]) by {
        lemma_visited(rail, t, j);
        assert(table.contains(keys[j]));
        lemma_numbers(numbers, table, keys[j]);
    }
    assert(keys.map_values(|key: Seq<char>| numbers[key]) =~= trip_stations(table, rail[t]));
}

/// Indexes the selected trips and finds their patterns.
fn index_trips(
    trips: &Vec<Trip>,
    positions: &Vec<usize>,
    table: &StringHashMap<String>,
    numbers: &StringHashMap<StationId>,
) -> (result: (Vec<IndexedTrip>, Vec<Pattern>))
    requires
        selects(positions@, trips@, chosen(positions@, trips@)),
        numbers_agree(numbers@, station_table(chosen(positions@, trips@))),
        forall|k: int|
            0 <= k < positions@.len() ==> table@.contains_key(
                trips@[#[trigger] positions@[k] as int].route_id@,
            ),
    ensures
        forall|lines: Map<Seq<char>, Seq<char>>| #[trigger]
            lines_agree(table@, lines) ==> holds_trips(
                result.0@,
                result.1@,
                lines,
                station_table(chosen(positions@, trips@)),
                chosen(positions@, trips@),
            ),
{
    let ghost rail = chosen(positions@, trips@);
    let ghost stations_table = station_table(rail);
    let ghost lines = Map::new(
        |id: Seq<char>| table@.contains_key(id),
        |id: Seq<char>| table@[id]@,
    );
    let mut indexed: Vec<IndexedTrip> = Vec::new();
    let mut found: PatternTable = PatternTable::new();
    proof {
        assert(crate::patterns::pattern_views(found.patterns@) =~= distinct(
            rail.take(0).map_values(|trip: Trip| trip_pattern(lines, stations_table, trip)),
        ));
    }
    for k in 0..positions.len()
        invariant
            rail == chosen(positions@, trips@),
            stations_table == station_table(rail),
            selects(positions@, trips@, rail),
            numbers_agree(numbers@, stations_table),
            forall|m: int|
                0 <= m < positions@.len() ==> table@.contains_key(
                    trips@[#[trigger] positions@[m] as int].route_id@,
                ),
            lines == Map::new(
                |id: Seq<char>| table@.contains_key(id),
                |id: Seq<char>| table@[id]@,
            ),
            found.valid(),
            holds_trips(indexed@, found.patterns@, lines, stations_table, rail.take(k as int)),
    {
        let trip = &trips[positions[k]];
        let ghost before = rail.take(k as int);
        let ghost after = rail.take(k + 1);
        let ghost old_patterns = found.patterns@;
        let ghost old_indexed = indexed@;
        proof {
            lemma_stations_numbered(numbers@, rail, k as int);
            assert(*trip == rail[k as int]);
        }
        let line: String = match table.get(trip.route_id.as_str()) {
            Some(line) => line.clone(),
            None => String::new(),
        };
        let stations = trip_station_numbers(trip, numbers);
        let ghost view = (line@, stations@);
        proof {
            assert(view == trip_pattern(lines, stations_table, *trip));
            let views = |t: Trip| trip_pattern(lines, stations_table, t);
            assert(after.map_values(views).drop_last() =~= before.map_values(views));
            assert(after.map_values(views).last() == view);
        }
        let pattern_id = found.position(line, stations);
        let ghost patterns = found.patterns@;
        proof {
            if !crate::patterns::pattern_views(old_patterns).contains(view) {
                assert(crate::patterns::pattern_views(patterns) =~= crate::patterns::pattern_views(
                    old_patterns,
                ).push(view));
            }
        }
        indexed.push(index_trip(trip, pattern_id));
        proof {
            assert forall|t: int| 0 <= t < after.len() implies keeps_trip(
                #[trigger] indexed@[t],
                after[t],
            ) && indexed@[t].pattern_id < patterns.len() && crate::patterns::pattern_view(
                patterns[indexed@[t].pattern_id as int],
            ) == trip_pattern(lines, stations_table, after[t]) by {
                if t < k {
                    assert(indexed@[t] == old_indexed[t]);
                    assert(after[t] == before[t]);
                    assert(patterns[indexed@[t].pattern_id as int]
                        == old_patterns[indexed@[t].pattern_id as int]);
                }
            }
        }
    }
    let patterns = found.patterns;
    proof {
        assert(rail.take(rail.len() as int) =~= rail);
        assert forall|other: Map<Seq<char>, Seq<char>>| #[trigger]
            lines_agree(table@, other) implies holds_trips(
            indexed@,
            patterns@,
            other,
            stations_table,
            rail,
        ) by {
            assert(other =~= lines) by {
                assert(other.dom() =~= lines.dom());
                assert forall|id: Seq<char>| #[trigger] lines.contains_key(id) implies other[id]
                    == lines[id] by {
                    assert(other.contains_key(id));
                }
            }
        }
    }
    (indexed, patterns)
}

/// Whether the position of an id is that of the last stop with it, among the first `count` stops.
spec fn stop_found(
    positions: Map<Seq<char>, usize>,
    stops: Seq<Arc<Stop>>,
    count: int,
    id: Seq<char>,
) -> bool {
    match stop_of(stops.take(count), id) {
        None => !positions.contains_key(id),
        Some(stop) => {
            &&& positions.contains_key(id)
            &&& positions[id] < count
            &&& *stops[positions[id] as int] == stop
        },
    }
}

/// The positions are those of the last stop with each id, among the first `count` stops.
spec fn stops_found(
    positions: Map<Seq<char>, usize>,
    stops: Seq<Arc<Stop>>,
    count: int,
) -> bool {
    forall|id: Seq<char>|
        #![trigger positions.contains_key(id)]
        #![trigger stop_found(positions, stops, count, id)]
        stop_found(positions, stops, count, id)
}

/// Finds the stop with each id.
fn find_stops(stops: &Vec<Arc<Stop>>) -> (positions: StringHashMap<usize>)
    ensures
        stops_found(positions@, stops@, stops@.len() as int),
{
    let mut positions: StringHashMap<usize> = StringHashMap::new();
    for i in 0..stops.len()
        invariant
            stops_found(positions@, stops@, i as int),
    {
        let ghost before = positions@;
        proof {
            assert(stops@.take(i + 1).drop_last() =~= stops@.take(i as int));
            assert(stops@.take(i + 1).last() == stops@[i as int]);
        }
        positions.insert(stops[i].id.clone(), i);
        proof {
            assert forall|id: Seq<char>|
                #![trigger positions@.contains_key(id)]
                #![trigger stop_found(positions@, stops@, i + 1, id)]
                stop_found(positions@, stops@, i + 1, id) by {
                assert(stop_found(before, stops@, i as int, id));
                if id != stops@[i as int].id@ {
                    assert(before.contains_key(id) == positions@.contains_key(id));
                }
            }
        }
    }
    positions
}

/// Whether a call before call `j` of trip `t` makes `alias` a name of `station`.
spec fn listed_before(
    stops: Seq<Arc<Stop>>,
    trips: Seq<Trip>,
    table: Seq<Seq<char>>,
    t: int,
    j: int,
    alias: Seq<char>,
    station: StationId,
) -> bool {
    exists|u: int, i: int|
        (u < t || u == t && i < j) && #[trigger] call_lists(
            stops,
            trips,
            table,
            u,
            i,
            alias,
            station,
        )
}

spec fn names_up_to(
    aliases: Seq<StationAlias>,
    stops: Seq<Arc<Stop>>,
    trips: Seq<Trip>,
    table: Seq<Seq<char>>,
    t: int,
    j: int,
) -> bool {
    forall|alias: Seq<char>, station: StationId|
        #![trigger crate::aliases::lists(aliases, alias, station)]
        crate::aliases::lists(aliases, alias, station) <==> listed_before(
            stops,
            trips,
            table,
            t,
            j,
            alias,
            station,
        )
}

/// Lists a station under every name of one of its stops.
fn add_stop_names(
    aliases: &mut Vec<StationAlias>,
    stop: &Stop,
    station: StationId,
    stops: &Vec<Arc<Stop>>,
    positions: &StringHashMap<usize>,
)
    requires
        crate::aliases::distinct_names(old(aliases)@),
        crate::aliases::no_list_empty(old(aliases)@),
        stops_found(positions@, stops@, stops@.len() as int),
    ensures
        crate::aliases::distinct_names(final(aliases)@),
        crate::aliases::no_list_empty(final(aliases)@),
        forall|alias: Seq<char>, s: StationId|
            #![trigger crate::aliases::lists(final(aliases)@, alias, s)]
            crate::aliases::lists(final(aliases)@, alias, s) <==> crate::aliases::lists(
                old(aliases)@,
                alias,
                s,
            ) || (s == station && stop_known_as(stops@, *stop, alias)),
{
    let ghost before = aliases@;
    let name: Option<&str> = match &stop.name {
        Some(name) => Some(name.as_str()),
        None => None,
    };
    add_stop_aliases(aliases, station, name);
    let ghost between = aliases@;
    proof {
        assert(stops@.take(stops@.len() as int) =~= stops@);
    }
    if let Some(parent_id) = &stop.parent_station {
        if let Some(at) = positions.get(parent_id.as_str()) {
            let parent = &stops[*at];
            proof {
                assert(stop_of(stops@, parent_id@) == Some(**parent));
            }
            let parent_name: Option<&str> = match &parent.name {
                Some(name) => Some(name.as_str()),
                None => None,
            };
            add_stop_aliases(aliases, station, parent_name);
        } else {
            proof {
                assert(stop_of(stops@, parent_id@) is None);
            }
        }
    }
    proof {
        assert forall|alias: Seq<char>, s: StationId|
            #![trigger crate::aliases::lists(aliases@, alias, s)]
            crate::aliases::lists(aliases@, alias, s) <==> crate::aliases::lists(before, alias, s)
                || (s == station && stop_known_as(stops@, *stop, alias)) by {
            assert(crate::aliases::lists(between, alias, s) <==> crate::aliases::lists(
                before,
                alias,
                s,
            ) || (s == station && stop.name is Some && crate::aliases::known_as(
                stop.name->0@,
                alias,
            )));
        }
    }
}

/// Finds the names of the stations of the selected trips.
fn find_station_names(
    stops: &Vec<Arc<Stop>>,
    trips: &Vec<Trip>,
    positions: &Vec<usize>,
    numbers: &StringHashMap<StationId>,
) -> (aliases: Vec<StationAlias>)
    requires
        selects(positions@, trips@, chosen(positions@, trips@)),
        numbers_agree(numbers@, station_table(chosen(positions@, trips@))),
    ensures
        crate::aliases::alias_table(aliases@),
        names_up_to(
            aliases@,
            stops@,
            chosen(positions@, trips@),
            station_table(chosen(positions@, trips@)),
            positions@.len() as int,
            0,
        ),
{
    let ghost rail = chosen(positions@, trips@);
    let ghost table = station_table(rail);
    let stop_positions = find_stops(stops);
    let mut aliases: Vec<StationAlias> = Vec::new();
    for t in 0..positions.len()
        invariant
            rail == chosen(positions@, trips@),
            table == station_table(rail),
            selects(positions@, trips@, rail),
            numbers_agree(numbers@, table),
            stops_found(stop_positions@, stops@, stops@.len() as int),
            crate::aliases::distinct_names(aliases@),
            crate::aliases::no_list_empty(aliases@),
            names_up_to(aliases@, stops@, rail, table, t as int, 0),
    {
        let trip = &trips[positions[t]];
        proof {
            assert(*trip == rail[t as int]);
            lemma_stations_numbered(numbers@, rail, t as int);
        }
        let ghost keys = trip_keys(*trip);
        for j in 0..trip.stop_times.len()
            invariant
                0 <= t < rail.len(),
                *trip == rail[t as int],
                keys == trip_keys(*trip),
                forall|i: int| 0 <= i < keys.len() ==> numbers@.contains_key(#[trigger] keys[i]),
                table == station_table(rail),
                numbers_agree(numbers@, table),
                stops_found(stop_positions@, stops@, stops@.len() as int),
                crate::aliases::distinct_names(aliases@),
                crate::aliases::no_list_empty(aliases@),
                names_up_to(aliases@, stops@, rail, table, t as int, j as int),
        {
            let stop = &trip.stop_times[j].stop;
            let key = key_of(stop);
            proof {
                assert(key@ == keys[j as int]);
                lemma_distinct(visited_keys(rail));
                lemma_numbers(numbers@, table, key@);
            }
            let station: StationId = match numbers.get(key.as_str()) {
                Some(number) => *number,
                None => 0,
            };
            let ghost before = aliases@;
            add_stop_names(&mut aliases, stop, station, stops, &stop_positions);
            proof {
                assert forall|alias: Seq<char>, s: StationId|
                    #![trigger crate::aliases::lists(aliases@, alias, s)]
                    crate::aliases::lists(aliases@, alias, s) <==> listed_before(
                        stops@,
                        rail,
                        table,
                        t as int,
                        j + 1,
                        alias,
                        s,
                    ) by {
                    let here = call_lists(stops@, rail, table, t as int, j as int, alias, s);
                    assert(here <==> s == station && stop_known_as(stops@, **stop, alias));
                    assert(crate::aliases::lists(aliases@, alias, s) <==> crate::aliases::lists(
                        before,
                        alias,
                        s,
                    ) || here);
                    if listed_before(stops@, rail, table, t as int, j + 1, alias, s) {
                        let (u, i) = choose|u: int, i: int|
                            (u < t || u == t && i < j + 1) && #[trigger] call_lists(
                                stops@,
                                rail,
                                table,
                                u,
                                i,
                                alias,
                                s,
                            );
                        if u < t || i < j {
                            assert((u < t || u == t && i < j) && call_lists(
                                stops@,
                                rail,
                                table,
                                u,
                                i,
                                alias,
                                s,
                            ));
                        }
                    }
                }
            }
        }
        proof {
            assert forall|alias: Seq<char>, s: StationId|
                #![trigger crate::aliases::lists(aliases@, alias, s)]
                crate::aliases::lists(aliases@, alias, s) <==> listed_before(
                    stops@,
                    rail,
                    table,
                    t + 1,
                    0,
                    alias,
                    s,
                ) by {
                if listed_before(stops@, rail, table, t + 1, 0, alias, s) {
                    let (u, i) = choose|u: int, i: int|
                        (u < t + 1 || u == t + 1 && i < 0) && #[trigger] call_lists(
                            stops@,
                            rail,
                            table,
                            u,
                            i,
                            alias,
                            s,
                        );
                    assert((u < t || u == t && i < trip.stop_times@.len()) && call_lists(
                        stops@,
                        rail,
                        table,
                        u,
                        i,
                        alias,
                        s,
                    ));
                }
            }
        }
    }
    let ghost filled = aliases@;
    let sorted = sort_stations(aliases);
    proof {
        assert forall|alias: Seq<char>, s: StationId|
            #![trigger crate::aliases::lists(sorted@, alias, s)]
            crate::aliases::lists(sorted@, alias, s) <==> listed_before(
                stops@,
                rail,
                table,
                positions@.len() as int,
                0,
                alias,
                s,
            ) by {
            crate::aliases::sorted_lists_same(filled, sorted@, alias, s);
            assert(crate::aliases::lists(filled, alias, s) <==> listed_before(
                stops@,
                rail,
                table,
                positions@.len() as int,
                0,
                alias,
                s,
            ));
        }
    }
    sorted
}

/// The services are those of the first trips.
spec fn services_so_far(
    services: Seq<Service>,
    feed: &StaticFeed,
    trips: Seq<IndexedTrip>,
    count: int,
) -> bool {
    &&& crate::index::services_valid(services)
    &&& forall|i: int| 0 <= i < services.len() ==> follows_feed(#[trigger] services[i], feed)
    &&& forall|id: Seq<char>| #[trigger]
        has_service(services, id) <==> exists|t: int|
            0 <= t < count && (#[trigger] trips[t]).service_id@ == id
}

/// The positions are those of the services.
spec fn services_found(found: Map<Seq<char>, usize>, services: Seq<Service>) -> bool {
    &&& forall|i: int|
        0 <= i < services.len() ==> found.contains_key((#[trigger] services[i]).service_id@)
    &&& forall|id: Seq<char>| #[trigger]
        found.contains_key(id) ==> found[id] < services.len()
            && services[found[id] as int].service_id@ == id
}

/// Finds the days on which the services of the trips run.
fn find_services(feed: &StaticFeed, trips: &Vec<IndexedTrip>) -> (services: Vec<Service>)
    requires
        feed.valid(),
    ensures
        services_so_far(services@, feed, trips@, trips@.len() as int),
{
    let mut services: Vec<Service> = Vec::new();
    let mut found: StringHashMap<usize> = StringHashMap::new();
    for t in 0..trips.len()
        invariant
            feed.valid(),
            services_so_far(services@, feed, trips@, t as int),
            services_found(found@, services@),
    {
        let service_id = &trips[t].service_id;
        let ghost before = services@;
        let ghost before_found = found@;
        let known: bool = found.contains_key(service_id.as_str());
        if !known {
            found.insert(service_id.clone(), services.len());
            let rule = service_rule(&feed.calendars, &feed.calendar_dates, service_id);
            services.push(Service { service_id: service_id.clone(), rule });
            proof {
                assert forall|i: int| 0 <= i < services@.len() implies found@.contains_key(
                    (#[trigger] services@[i]).service_id@,
                ) by {
                    if i < before.len() {
                        assert(before_found.contains_key(before[i].service_id@));
                    }
                }
            }
        }
        proof {
            assert forall|id: Seq<char>| #[trigger] has_service(services@, id) <==> exists|u: int|
                0 <= u < t + 1 && (#[trigger] trips@[u]).service_id@ == id by {
                if has_service(services@, id) {
                    let i = choose|i: int|
                        0 <= i < services@.len() && (#[trigger] services@[i]).service_id@ == id;
                    if i < before.len() {
                        assert(before[i].service_id@ == id);
                        assert(has_service(before, id));
                        let u = choose|u: int|
                            0 <= u < t && (#[trigger] trips@[u]).service_id@ == id;
                        assert(0 <= u < t + 1 && trips@[u].service_id@ == id);
                    } else {
                        assert(trips@[t as int].service_id@ == id);
                    }
                }
                if exists|u: int| 0 <= u < t + 1 && (#[trigger] trips@[u]).service_id@ == id {
                    let u = choose|u: int|
                        0 <= u < t + 1 && (#[trigger] trips@[u]).service_id@ == id;
                    if u < t {
                        assert(has_service(before, id));
                        let i = choose|i: int|
                            0 <= i < before.len() && (#[trigger] before[i]).service_id@ == id;
                        assert(services@[i].service_id@ == id);
                    } else if known {
                        let i = before_found[id] as int;
                        assert(services@[i].service_id@ == id);
                    } else {
                        assert(services@[before.len() as int].service_id@ == id);
                    }
                }
            }
            assert forall|i: int| 0 <= i < services@.len() implies follows_feed(
                #[trigger] services@[i],
                feed,
            ) && services@[i].rule.in_calendar() by {
                if i < before.len() {
                    assert(services@[i] == before[i]);
                }
            }
            assert forall|i: int, j: int| 0 <= i < j < services@.len() implies (
            #[trigger] services@[i]).service_id@ != (#[trigger] services@[j]).service_id@ by {
                if j < before.len() {
                    assert(before[i].service_id@ != before[j].service_id@);
                } else {
                    assert(before_found.contains_key(before[i].service_id@));
                }
            }
        }
    }
    services
}

/// The stations of the patterns have numbers below the number of stations.
proof fn lemma_pattern_stations(
    patterns: Seq<Pattern>,
    lines: Map<Seq<char>, Seq<char>>,
    rail: Seq<Trip>,
    p: int,
    s: int,
)
    requires
        crate::patterns::pattern_views(patterns) == distinct(
            rail.map_values(|trip: Trip| trip_pattern(lines, station_table(rail), trip)),
        ),
        0 <= p < patterns.len(),
        0 <= s < patterns[p].stations@.len(),
        station_table(rail).len() <= u32::MAX,
    ensures
        patterns[p].stations@[s] < station_table(rail).len(),
{
    let table = station_table(rail);
    let views = rail.map_values(|trip: Trip| trip_pattern(lines, table, trip));
    lemma_distinct(views);
    lemma_distinct(visited_keys(rail));
    let view = crate::patterns::pattern_view(patterns[p]);
    assert(crate::patterns::pattern_views(patterns)[p] == view);
    assert(distinct(views).contains(crate::patterns::pattern_view(patterns[p])));
    let t = choose|t: int| 0 <= t < views.len() && views[t] == view;
    assert(patterns[p].stations@ == trip_stations(table, rail[t]));
    let key = trip_keys(rail[t])[s];
    lemma_visited(rail, t, s);
    assert(table.contains(key));
    let i = table.index_of(key);
    assert(0 <= i < table.len() && table[i] == key);
}

/// The indexed trips fit their patterns.
proof fn lemma_trips_fit(
    trips: Seq<IndexedTrip>,
    patterns: Seq<Pattern>,
    lines: Map<Seq<char>, Seq<char>>,
    rail: Seq<Trip>,
)
    requires
        holds_trips(trips, patterns, lines, station_table(rail), rail),
        rail.len() <= 0x1_0000_0000,
    ensures
        crate::index::trips_fit(trips, patterns),
{
    assert forall|t: int| 0 <= t < trips.len() implies {
        let trip = #[trigger] trips[t];
        &&& trip.pattern_id < patterns.len()
        &&& trip.stop_ids@.len() == patterns[trip.pattern_id as int].stations@.len()
        &&& trip.stop_sequences@.len() == patterns[trip.pattern_id as int].stations@.len()
        &&& trip.arrival_seconds@.len() == patterns[trip.pattern_id as int].stations@.len()
    } by {
        assert(keeps_trip(trips[t], rail[t]));
        assert(crate::names::texts(trips[t].stop_ids@).len() == trips[t].stop_ids@.len());
    }
}

impl MartaScheduleIndex {
    /// Builds the index of a static schedule.
    pub fn build(feed: &StaticFeed) -> (index: MartaScheduleIndex)
        requires
            indexable(feed),
        ensures
            index.valid(),
            index.holds(feed),
    {
        let ghost lines = rail_lines(feed.routes@);
        let ghost rail = rail_trips(lines, feed.trips@);
        let routes = find_rail_routes(&feed.routes);
        let positions = select_rail_trips(&feed.trips, &routes);
        proof {
            assert(selects(positions@, feed.trips@, rail));
            assert(chosen(positions@, feed.trips@) =~= rail);
            assert forall|k: int| 0 <= k < positions@.len() implies routes@.contains_key(
                feed.trips@[#[trigger] positions@[k] as int].route_id@,
            ) by {
                lemma_rail_trips(lines, feed.trips@, k);
            }
        }
        let (numbers, stations) = number_stations(&feed.trips, &positions);
        let (trips, patterns) = index_trips(&feed.trips, &positions, &routes, &numbers);
        proof {
            assert(holds_trips(trips@, patterns@, lines, station_table(rail), rail));
            lemma_trips_fit(trips@, patterns@, lines, rail);
            assert forall|p: int, s: int|
                #![trigger patterns@[p].stations@[s]]
                0 <= p < patterns@.len() && 0 <= s
                    < patterns@[p].stations@.len() implies patterns@[p].stations@[s]
                < stations by {
                lemma_pattern_stations(patterns@, lines, rail, p, s);
            }
        }
        let station_aliases = find_station_names(
            &feed.stops,
            &feed.trips,
            &positions,
            &numbers,
        );
        let schedules = build_schedules(&trips, &patterns, stations);
        let services = find_services(feed, &trips);
        let rail_route_count = routes.len();
        let index = MartaScheduleIndex {
            trips,
            patterns,
            station_aliases,
            schedules_by_line_station: schedules,
            services,
            rail_route_count,
        };
        proof {
            let table = station_table(rail);
            assert forall|alias: Seq<char>, station: StationId|
                #![trigger crate::aliases::lists(index.station_aliases@, alias, station)]
                crate::aliases::lists(index.station_aliases@, alias, station) <==> exists|
                    t: int,
                    j: int,
                | #[trigger] call_lists(feed.stops@, rail, table, t, j, alias, station) by {
                if exists|t: int, j: int| #[trigger]
                    call_lists(feed.stops@, rail, table, t, j, alias, station) {
                    let (t, j) = choose|t: int, j: int| #[trigger]
                        call_lists(feed.stops@, rail, table, t, j, alias, station);
                    assert(t < positions@.len() && call_lists(
                        feed.stops@,
                        rail,
                        table,
                        t,
                        j,
                        alias,
                        station,
                    ));
                    assert(listed_before(
                        feed.stops@,
                        rail,
                        table,
                        positions@.len() as int,
                        0,
                        alias,
                        station,
                    ));
                }
            }
            assert forall|id: Seq<char>| #[trigger] has_service(
                index.services@,
                id,
            ) <==> has_trip_of_service(rail, id) by {
                if has_service(index.services@, id) {
                    let t = choose|t: int|
                        0 <= t < trips@.len() && (#[trigger] trips@[t]).service_id@ == id;
                    assert(keeps_trip(trips@[t], rail[t]));
                    assert(rail[t].service_id@ == id);
                }
                if has_trip_of_service(rail, id) {
                    let t = choose|t: int|
                        0 <= t < rail.len() && (#[trigger] rail[t]).service_id@ == id;
                    assert(keeps_trip(trips@[t], rail[t]));
                    assert(trips@[t].service_id@ == id);
                }
            }
        }
        index
    }
}

/// A trip that is indexed runs on a rail route.
proof fn lemma_rail_trips(lines: Map<Seq<char>, Seq<char>>, trips: Seq<Trip>, k: int)
    requires
        0 <= k < rail_trips(lines, trips).len(),
    ensures
        rail_trip(lines, rail_trips(lines, trips)[k]),
    decreases trips.len(),
{
    if trips.len() > 0 {
        if k < rail_trips(lines, trips.drop_last()).len() {
            lemma_rail_trips(lines, trips.drop_last(), k);
        }
    }
}

proof fn lemma_rail_line(routes: Seq<Route>, id: Seq<char>)
    requires
        rail_lines(routes).contains_key(id),
    ensures
        exists|r: int|
            0 <= r < routes.len() && (#[trigger] routes[r]).id@ == id && route_line(routes[r])
                == Some(rail_lines(routes)[id]),
    decreases routes.len(),
{
    let shorter = routes.drop_last();
    let last = routes.len() - 1;
    if route_line(routes.last()) is Some && routes.last().id@ == id {
        assert(routes[last].id@ == id);
    } else {
        lemma_rail_line(shorter, id);
        let r = choose|r: int|
            0 <= r < shorter.len() && (#[trigger] shorter[r]).id@ == id && route_line(shorter[r])
                == Some(rail_lines(shorter)[id]);
        assert(routes[r].id@ == id);
    }
}

/// Every indexed trip runs on a rail route of the schedule, on whose line its pattern is, and
/// calls at two stops or more.
pub proof fn indexed_trips_are_rail(index: MartaScheduleIndex, feed: &StaticFeed, t: int)
    requires
        index.holds(feed),
        0 <= t < index.trips@.len(),
    ensures
        exists|r: int|
            0 <= r < feed.routes@.len() && (#[trigger] feed.routes@[r]).id@
                == index.trips@[t].route_id@ && feed.routes@[r].route_type == RouteType::Subway
                && route_line(feed.routes@[r]) == Some(
                index.patterns@[index.trips@[t].pattern_id as int].line@,
            ),
        index.trips@[t].stop_ids@.len() >= 2,
{
    let lines = rail_lines(feed.routes@);
    let trips = rail_trips(lines, feed.trips@);
    lemma_rail_trips(lines, feed.trips@, t);
    assert(keeps_trip(index.trips@[t], trips[t]));
    assert(crate::names::texts(index.trips@[t].stop_ids@).len() == trips[t].stop_times@.len());
    lemma_rail_line(feed.routes@, trips[t].route_id@);
    let r = choose|r: int|
        0 <= r < feed.routes@.len() && (#[trigger] feed.routes@[r]).id@ == trips[t].route_id@
            && route_line(feed.routes@[r]) == Some(lines[trips[t].route_id@]);
    let pattern = index.patterns@[index.trips@[t].pattern_id as int];
    assert(crate::patterns::pattern_view(pattern) == trip_pattern(
        lines,
        station_table(trips),
        trips[t],
    ));
    assert(feed.routes@[r].id@ == index.trips@[t].route_id@);
}

/// Two indexed trips share a pattern exactly where they are of one line and call at the same
/// stations in the same order.
pub proof fn pattern_shared_where_same(
    index: MartaScheduleIndex,
    feed: &StaticFeed,
    t: int,
    u: int,
)
    requires
        index.holds(feed),
        0 <= t < index.trips@.len(),
        0 <= u < index.trips@.len(),
    ensures
        ({
            let lines = rail_lines(feed.routes@);
            let trips = rail_trips(lines, feed.trips@);
            let table = station_table(trips);
            index.trips@[t].pattern_id == index.trips@[u].pattern_id <==> trip_pattern(
                lines,
                table,
                trips[t],
            ) == trip_pattern(lines, table, trips[u])
        }),
{
    let lines = rail_lines(feed.routes@);
    let trips = rail_trips(lines, feed.trips@);
    let table = station_table(trips);
    let wanted = trips.map_values(|trip: Trip| trip_pattern(lines, table, trip));
    lemma_distinct(wanted);
    let views = crate::patterns::pattern_views(index.patterns@);
    let p = index.trips@[t].pattern_id as int;
    let q = index.trips@[u].pattern_id as int;
    assert(views[p] == trip_pattern(lines, table, trips[t]));
    assert(views[q] == trip_pattern(lines, table, trips[u]));
}

/// Two stops that rail trips call at have one number exactly where they are platforms of one
/// station, or the same stop.
pub proof fn stations_told_apart(trips: Seq<Trip>, t: int, j: int, u: int, k: int)
    requires
        station_table(trips).len() <= u32::MAX,
        0 <= t < trips.len(),
        0 <= j < trips[t].stop_times@.len(),
        0 <= u < trips.len(),
        0 <= k < trips[u].stop_times@.len(),
    ensures
        ({
            let table = station_table(trips);
            let one = station_key(*trips[t].stop_times@[j].stop);
            let other = station_key(*trips[u].stop_times@[k].stop);
            station_number(table, one) == station_number(table, other) <==> one == other
        }),
{
    let table = station_table(trips);
    let one = trip_keys(trips[t])[j];
    let other = trip_keys(trips[u])[k];
    lemma_distinct(visited_keys(trips));
    lemma_visited(trips, t, j);
    lemma_visited(trips, u, k);
    assert(table.contains(one) && table.contains(other));
    let a = table.index_of(one);
    let b = table.index_of(other);
    assert(0 <= a < table.len() && table[a] == one);
    assert(0 <= b < table.len() && table[b] == other);
}

/// Wherever riders may know a stop of a rail trip by a name, that name stands for its station.
pub proof fn station_answers_to_name(
    index: MartaScheduleIndex,
    feed: &StaticFeed,
    t: int,
    j: int,
    name: Seq<char>,
)
    requires
        index.valid(),
        index.holds(feed),
        0 <= t < rail_trips(rail_lines(feed.routes@), feed.trips@).len(),
        0 <= j < rail_trips(rail_lines(feed.routes@), feed.trips@)[t].stop_times@.len(),
        stop_known_as(
            feed.stops@,
            *rail_trips(rail_lines(feed.routes@), feed.trips@)[t].stop_times@[j].stop,
            crate::names::station_name(name),
        ),
    ensures
        ({
            let trips = rail_trips(rail_lines(feed.routes@), feed.trips@);
            crate::observation::stations_for(index.station_aliases@, name).contains(
                station_number(
                    station_table(trips),
                    station_key(*trips[t].stop_times@[j].stop),
                ),
            )
        }),
{
    let trips = rail_trips(rail_lines(feed.routes@), feed.trips@);
    let table = station_table(trips);
    let station = station_number(table, trip_keys(trips[t])[j]);
    let full = crate::names::station_name(name);
    let aliases = index.station_aliases@;
    assert(call_lists(feed.stops@, trips, table, t, j, full, station));
    assert(crate::aliases::lists(aliases, full, station));
    let i = choose|i: int|
        0 <= i < aliases.len() && (#[trigger] aliases[i]).name@ == full
            && aliases[i].stations@.contains(station);
    let named = crate::aliases::stations_named(aliases, name);
    assert(crate::aliases::holds_name(aliases, full));
    assert(aliases[i].stations@.to_set() =~= named) by {
        assert forall|s: StationId| aliases[i].stations@.to_set().contains(s) <==> #[trigger]
            named.contains(s) by {
            if named.contains(s) {
                let k = choose|k: int|
                    0 <= k < aliases.len() && (#[trigger] aliases[k]).name@ == full
                        && aliases[k].stations@.contains(s);
                if k < i {
                    assert(aliases[k].name@ != aliases[i].name@);
                } else if i < k {
                    assert(aliases[i].name@ != aliases[k].name@);
                }
            }
            if aliases[i].stations@.contains(s) {
                assert(crate::aliases::lists(aliases, full, s));
            }
        }
    }
    assert(crate::observation::lists_stations(aliases[i].stations@, named));
    let listed = crate::observation::stations_for(aliases, name);
    assert(crate::observation::lists_stations(listed, named));
    assert(listed.to_set().contains(station));
}

/// The rail routes are those of the underground railway that have a name.
pub proof fn named_subways_are_rail_routes(routes: Seq<Route>, id: Seq<char>)
    ensures
        rail_lines(routes).contains_key(id) <==> exists|r: int|
            0 <= r < routes.len() && (#[trigger] routes[r]).id@ == id
                && routes[r].route_type is Subway && (routes[r].short_name is Some
                || routes[r].long_name is Some),
    decreases routes.len(),
{
    if routes.len() > 0 {
        let shorter = routes.drop_last();
        named_subways_are_rail_routes(shorter, id);
        if rail_lines(shorter).contains_key(id) {
            let r = choose|r: int|
                0 <= r < shorter.len() && (#[trigger] shorter[r]).id@ == id
                    && shorter[r].route_type is Subway && (shorter[r].short_name is Some
                    || shorter[r].long_name is Some);
            assert(routes[r] == shorter[r]);
        }
        if route_line(routes.last()) is Some && routes.last().id@ == id {
            assert(routes[routes.len() - 1].id@ == id);
        }
        if exists|r: int|
            0 <= r < routes.len() && (#[trigger] routes[r]).id@ == id
                && routes[r].route_type is Subway && (routes[r].short_name is Some
                || routes[r].long_name is Some) {
            let r = choose|r: int|
                0 <= r < routes.len() && (#[trigger] routes[r]).id@ == id
                    && routes[r].route_type is Subway && (routes[r].short_name is Some
                    || routes[r].long_name is Some);
            if r < shorter.len() {
                assert(shorter[r] == routes[r]);
            }
        }
    }
}

/// The line of a rail route is its short name, or its long name where it has no short one,
/// trimmed and in upper case; of several rail routes with one id the last counts.
pub proof fn line_is_route_name(routes: Seq<Route>, r: int)
    requires
        0 <= r < routes.len(),
        routes[r].route_type is Subway,
        forall|s: int|
            r < s < routes.len() ==> (#[trigger] routes[s]).id@ != routes[r].id@
                || !(routes[s].route_type is Subway) || routes[s].short_name is None
                && routes[s].long_name is None,
    ensures
        routes[r].short_name matches Some(name) ==> rail_lines(routes).contains_key(
            routes[r].id@,
        ) && rail_lines(routes)[routes[r].id@] == crate::text::uppercased(
            crate::text::trimmed(name@),
        ),
        routes[r].short_name is None ==> (routes[r].long_name matches Some(name) ==> rail_lines(
            routes,
        ).contains_key(routes[r].id@) && rail_lines(routes)[routes[r].id@]
            == crate::text::uppercased(crate::text::trimmed(name@))),
    decreases routes.len(),
{
    if r < routes.len() - 1 {
        let shorter = routes.drop_last();
        assert(shorter[r] == routes[r]);
        assert forall|s: int| r < s < shorter.len() implies (#[trigger] shorter[s]).id@
            != shorter[r].id@ || !(shorter[s].route_type is Subway) || shorter[s].short_name is None
            && shorter[s].long_name is None by {
            assert(shorter[s] == routes[s]);
        }
        line_is_route_name(shorter, r);
        assert(routes[routes.len() - 1] == routes.last());
    }
}

/// The trips of rail routes with two calls or more are indexed, in their order, and no others.
pub proof fn rail_trips_are_indexed(lines: Map<Seq<char>, Seq<char>>, trips: Seq<Trip>)
    ensures
        rail_trips(lines, trips) == trips.filter(
            |trip: Trip| lines.contains_key(trip.route_id@) && trip.stop_times@.len() >= 2,
        ),
    decreases trips.len(),
{
    reveal(Seq::filter);
    if trips.len() > 0 {
        rail_trips_are_indexed(lines, trips.drop_last());
    } else {
        assert(rail_trips(lines, trips) =~= Seq::<Trip>::empty());
    }
}

/// An indexed trip keeps the ids of its trip, route and service, the common form of its
/// headsign, its direction as 0 for outbound and 1 for inbound, and of each call the stop, its
/// number and the time of the arrival, or of the departure where there is no arrival time.
pub proof fn indexed_trip_keeps_calls(index: MartaScheduleIndex, feed: &StaticFeed, t: int, j: int)
    requires
        index.holds(feed),
        0 <= t < rail_trips(rail_lines(feed.routes@), feed.trips@).len(),
        0 <= j < rail_trips(rail_lines(feed.routes@), feed.trips@)[t].stop_times@.len(),
    ensures
        ({
            let trip = rail_trips(rail_lines(feed.routes@), feed.trips@)[t];
            let kept = index.trips@[t];
            let call = trip.stop_times@[j];
            &&& index.trips@.len() == rail_trips(rail_lines(feed.routes@), feed.trips@).len()
            &&& kept.trip_id@ == trip.id@
            &&& kept.route_id@ == trip.route_id@
            &&& kept.service_id@ == trip.service_id@
            &&& trip.headsign is None ==> kept.headsign is None
            &&& trip.headsign is Some ==> kept.headsign is Some && (kept.headsign->0)@
                == crate::names::station_name((trip.headsign->0)@)
            &&& trip.direction is None ==> kept.direction_id is None
            &&& trip.direction == Some(Direction::Outbound) ==> kept.direction_id == Some(0u32)
            &&& trip.direction == Some(Direction::Inbound) ==> kept.direction_id == Some(1u32)
            &&& kept.stop_ids@.len() == trip.stop_times@.len()
            &&& kept.stop_ids@[j]@ == call.stop.id@
            &&& kept.stop_sequences@.len() == trip.stop_times@.len()
            &&& kept.stop_sequences@[j] == call.stop_sequence
            &&& kept.arrival_seconds@.len() == trip.stop_times@.len()
            &&& call.arrival_time is Some ==> kept.arrival_seconds@[j] == call.arrival_time
            &&& call.arrival_time is None ==> kept.arrival_seconds@[j] == call.departure_time
            &&& index.patterns@[kept.pattern_id as int].line@ == rail_lines(
                feed.routes@,
            )[trip.route_id@]
            &&& index.patterns@[kept.pattern_id as int].stations@.len() == trip.stop_times@.len()
        }),
{
    let trips = rail_trips(rail_lines(feed.routes@), feed.trips@);
    let kept = index.trips@[t];
    assert(keeps_trip(kept, trips[t]));
    let ids = crate::names::texts(kept.stop_ids@);
    assert(ids.len() == trips[t].stop_times@.len());
    assert(ids[j] == kept.stop_ids@[j]@);
    let pattern = index.patterns@[kept.pattern_id as int];
    assert(crate::patterns::pattern_view(pattern) == trip_pattern(
        rail_lines(feed.routes@),
        station_table(trips),
        trips[t],
    ));
}

/// Whether two stops are of one station: platforms of one station, or the same stop.
pub open spec fn one_station(stop: Stop, other: Stop) -> bool {
    match (stop.parent_station, other.parent_station) {
        (Some(parent), Some(other_parent)) => parent@ == other_parent@,
        (Some(parent), None) => parent@ == other.id@,
        (None, Some(other_parent)) => stop.id@ == other_parent@,
        (None, None) => stop.id@ == other.id@,
    }
}

/// The calls of indexed trips are at one station of the index exactly where their stops are of
/// one station.
pub proof fn platforms_share_station(
    index: MartaScheduleIndex,
    feed: &StaticFeed,
    t: int,
    j: int,
    u: int,
    k: int,
)
    requires
        indexable(feed),
        index.holds(feed),
        0 <= t < rail_trips(rail_lines(feed.routes@), feed.trips@).len(),
        0 <= j < rail_trips(rail_lines(feed.routes@), feed.trips@)[t].stop_times@.len(),
        0 <= u < rail_trips(rail_lines(feed.routes@), feed.trips@).len(),
        0 <= k < rail_trips(rail_lines(feed.routes@), feed.trips@)[u].stop_times@.len(),
    ensures
        ({
            let trips = rail_trips(rail_lines(feed.routes@), feed.trips@);
            let stations = index.patterns@[index.trips@[t].pattern_id as int].stations@;
            let others = index.patterns@[index.trips@[u].pattern_id as int].stations@;
            stations[j] == others[k] <==> one_station(
                *trips[t].stop_times@[j].stop,
                *trips[u].stop_times@[k].stop,
            )
        }),
{
    let lines = rail_lines(feed.routes@);
    let trips = rail_trips(lines, feed.trips@);
    let table = station_table(trips);
    stations_told_apart(trips, t, j, u, k);
    let pattern = index.patterns@[index.trips@[t].pattern_id as int];
    let other = index.patterns@[index.trips@[u].pattern_id as int];
    assert(crate::patterns::pattern_view(pattern) == trip_pattern(lines, table, trips[t]));
    assert(crate::patterns::pattern_view(other) == trip_pattern(lines, table, trips[u]));
    assert(pattern.stations@[j] == station_number(table, trip_keys(trips[t])[j]));
    assert(other.stations@[k] == station_number(table, trip_keys(trips[u])[k]));
}

/// The service of an indexed trip runs on the days on which the calendars let it run, and no
/// service runs that no indexed trip is of.
pub proof fn index_runs_services(
    index: MartaScheduleIndex,
    feed: &StaticFeed,
    id: Seq<char>,
    day: i32,
)
    requires
        index.holds(feed),
    ensures
        crate::index::service_runs(index.services@, id, day) <==> {
            &&& crate::service::scheduled_on(feed.calendars@, feed.calendar_dates@, id, day)
            &&& exists|t: int|
                0 <= t < index.trips@.len() && (#[trigger] index.trips@[t]).service_id@ == id
        },
{
    let trips = rail_trips(rail_lines(feed.routes@), feed.trips@);
    let services = index.services@;
    if crate::index::service_runs(services, id, day) {
        let i = choose|i: int|
            0 <= i < services.len() && (#[trigger] services[i]).service_id@ == id
                && services[i].rule.runs(day);
        assert(follows_feed(services[i], feed));
        assert(has_service(services, id));
        let t = choose|t: int| 0 <= t < trips.len() && (#[trigger] trips[t]).service_id@ == id;
        assert(keeps_trip(index.trips@[t], trips[t]));
        assert(index.trips@[t].service_id@ == id);
    }
    if crate::service::scheduled_on(feed.calendars@, feed.calendar_dates@, id, day) && exists|t: int|
        0 <= t < index.trips@.len() && (#[trigger] index.trips@[t]).service_id@ == id {
        let t = choose|t: int|
            0 <= t < index.trips@.len() && (#[trigger] index.trips@[t]).service_id@ == id;
        assert(keeps_trip(index.trips@[t], trips[t]));
        assert(trips[t].service_id@ == id);
        assert(has_trip_of_service(trips, id));
        assert(has_service(services, id));
        let i = choose|i: int| 0 <= i < services.len() && (#[trigger] services[i]).service_id@ == id;
        assert(follows_feed(services[i], feed));
        assert(services[i].rule.runs(day));
    }
}

proof fn lemma_stop_of(stops: Seq<Arc<Stop>>, id: Seq<char>, k: int)
    requires
        0 <= k < stops.len(),
        stops[k].id@ == id,
        forall|i: int| k < i < stops.len() ==> (#[trigger] stops[i]).id@ != id,
    ensures
        stop_of(stops, id) == Some(*stops[k]),
    decreases stops.len(),
{
    if k < stops.len() - 1 {
        let shorter = stops.drop_last();
        assert(stops[stops.len() - 1].id@ != id);
        assert forall|i: int| k < i < shorter.len() implies (#[trigger] shorter[i]).id@ != id by {
            assert(shorter[i] == stops[i]);
        }
        lemma_stop_of(shorter, id, k);
    }
}

/// Riders may know a stop by its own name, and by that of the station that it is part of: the
/// last stop with the id of that station.
pub proof fn stop_is_known_by_station(
    stops: Seq<Arc<Stop>>,
    stop: Stop,
    alias: Seq<char>,
    k: int,
)
    ensures
        stop.parent_station is None ==> (stop_known_as(stops, stop, alias) <==> stop.name is Some
            && crate::aliases::known_as((stop.name->0)@, alias)),
        0 <= k < stops.len() && stop.parent_station is Some && stops[k].id@
            == (stop.parent_station->0)@ && (forall|i: int|
            k < i < stops.len() ==> (#[trigger] stops[i]).id@ != (stop.parent_station->0)@) ==> (
        stop_known_as(stops, stop, alias) <==> stop.name is Some && crate::aliases::known_as(
            (stop.name->0)@,
            alias,
        ) || stops[k].name is Some && crate::aliases::known_as((stops[k].name->0)@, alias)),
{
    if 0 <= k < stops.len() && stop.parent_station is Some && stops[k].id@ == (
    stop.parent_station->0)@ && (forall|i: int|
        k < i < stops.len() ==> (#[trigger] stops[i]).id@ != (stop.parent_station->0)@) {
        lemma_stop_of(stops, (stop.parent_station->0)@, k);
    }
}

/// The table of names lists a station under a name exactly where riders may know so a stop of
/// that station at which an indexed trip calls.
pub proof fn stations_are_listed_by_names(
    index: MartaScheduleIndex,
    feed: &StaticFeed,
    alias: Seq<char>,
    station: StationId,
)
    requires
        index.holds(feed),
    ensures
        crate::aliases::lists(index.station_aliases@, alias, station) <==> exists|t: int, j: int|
            #[trigger] answers(index, feed, t, j, alias, station),
{
    let trips = rail_trips(rail_lines(feed.routes@), feed.trips@);
    let table = station_table(trips);
    assert forall|t: int, j: int| #[trigger] answers(
        index,
        feed,
        t,
        j,
        alias,
        station,
    ) <==> call_lists(feed.stops@, trips, table, t, j, alias, station) by {
        if 0 <= t < trips.len() && 0 <= j < trips[t].stop_times@.len() {
            let pattern = index.patterns@[index.trips@[t].pattern_id as int];
            assert(keeps_trip(index.trips@[t], trips[t]));
            assert(crate::patterns::pattern_view(pattern) == trip_pattern(
                rail_lines(feed.routes@),
                table,
                trips[t],
            ));
            assert(pattern.stations@[j] == station_number(table, trip_keys(trips[t])[j]));
        }
    }
    if crate::aliases::lists(index.station_aliases@, alias, station) {
        let (t, j) = choose|t: int, j: int| #[trigger]
            call_lists(feed.stops@, trips, table, t, j, alias, station);
        assert(answers(index, feed, t, j, alias, station));
    }
    if exists|t: int, j: int| #[trigger] answers(index, feed, t, j, alias, station) {
        let (t, j) = choose|t: int, j: int| #[trigger]
            answers(index, feed, t, j, alias, station);
        assert(call_lists(feed.stops@, trips, table, t, j, alias, station));
    }
}

/// Whether call `j` of trip `t` is at a station of the index, at a stop that riders may know as
/// `alias`.
pub open spec fn answers(
    index: MartaScheduleIndex,
    feed: &StaticFeed,
    t: int,
    j: int,
    alias: Seq<char>,
    station: StationId,
) -> bool {
    let trips = rail_trips(rail_lines(feed.routes@), feed.trips@);
    &&& 0 <= t < trips.len()
    &&& 0 <= j < trips[t].stop_times@.len()
    &&& index.patterns@[index.trips@[t].pattern_id as int].stations@[j] == station
    &&& stop_known_as(feed.stops@, *trips[t].stop_times@[j].stop, alias)
}

/// Two indexed trips share a pattern exactly where they are of one line and have as many calls,
/// each at one station with that of the other.
pub proof fn trips_share_pattern(index: MartaScheduleIndex, feed: &StaticFeed, t: int, u: int)
    requires
        indexable(feed),
        index.holds(feed),
        0 <= t < rail_trips(rail_lines(feed.routes@), feed.trips@).len(),
        0 <= u < rail_trips(rail_lines(feed.routes@), feed.trips@).len(),
    ensures
        ({
            let lines = rail_lines(feed.routes@);
            let one = rail_trips(lines, feed.trips@)[t];
            let other = rail_trips(lines, feed.trips@)[u];
            index.trips@[t].pattern_id == index.trips@[u].pattern_id <==> {
                &&& lines[one.route_id@] == lines[other.route_id@]
                &&& one.stop_times@.len() == other.stop_times@.len()
                &&& forall|j: int|
                    0 <= j < one.stop_times@.len() ==> one_station(
                        *(#[trigger] one.stop_times@[j]).stop,
                        *other.stop_times@[j].stop,
                    )
            }
        }),
{
    let lines = rail_lines(feed.routes@);
    let trips = rail_trips(lines, feed.trips@);
    let table = station_table(trips);
    let one = trips[t];
    let other = trips[u];
    pattern_shared_where_same(index, feed, t, u);
    let stations = trip_stations(table, one);
    let others = trip_stations(table, other);
    assert forall|j: int|
        0 <= j < one.stop_times@.len() && j < other.stop_times@.len() implies (stations[j]
        == others[j] <==> one_station(
        *(#[trigger] one.stop_times@[j]).stop,
        *other.stop_times@[j].stop,
    )) by {
        stations_told_apart(trips, t, j, u, j);
    }
    if one.stop_times@.len() == other.stop_times@.len() && forall|j: int|
        0 <= j < one.stop_times@.len() ==> one_station(
            *(#[trigger] one.stop_times@[j]).stop,
            *other.stop_times@[j].stop,
        ) {
        assert forall|j: int| 0 <= j < stations.len() implies stations[j] == others[j] by {
            assert(one_station(*one.stop_times@[j].stop, *other.stop_times@[j].stop));
        }
        assert(stations =~= others);
    }
    if stations == others {
        assert(stations.len() == one.stop_times@.len());
        assert(others.len() == other.stop_times@.len());
    }
}

/// The rail routes are counted by their ids: those of named routes of the underground railway,
/// each once.
pub proof fn rail_routes_are_counted(index: MartaScheduleIndex, feed: &StaticFeed)
    requires
        index.holds(feed),
    ensures
        index.rail_route_count == Set::new(
            |id: Seq<char>|
                exists|r: int|
                    0 <= r < feed.routes@.len() && (#[trigger] feed.routes@[r]).id@ == id
                        && feed.routes@[r].route_type is Subway && (
                    feed.routes@[r].short_name is Some || feed.routes@[r].long_name is Some),
        ).len(),
{
    let ids = Set::new(
        |id: Seq<char>|
            exists|r: int|
                0 <= r < feed.routes@.len() && (#[trigger] feed.routes@[r]).id@ == id
                    && feed.routes@[r].route_type is Subway && (feed.routes@[r].short_name is Some
                    || feed.routes@[r].long_name is Some),
    );
    let lines = rail_lines(feed.routes@);
    assert forall|id: Seq<char>| lines.dom().contains(id) <==> #[trigger] ids.contains(id) by {
        named_subways_are_rail_routes(feed.routes@, id);
    }
    assert(lines.dom() =~= ids);
}

/// A static schedule can be indexed where the dates of its calendars and exceptions are of the
/// calendar and the numbers of its rail trips and of their stations have 32 bits, and not
/// otherwise.
pub proof fn schedules_with_dates_are_indexable(feed: &StaticFeed)
    ensures
        indexable(feed) <==> {
            let trips = rail_trips(rail_lines(feed.routes@), feed.trips@);
            &&& forall|i: int|
                0 <= i < feed.calendars@.len() ==> crate::time::MIN_DAY <= (
                #[trigger] feed.calendars@[i]).start_date <= crate::time::MAX_DAY
                    && crate::time::MIN_DAY <= feed.calendars@[i].end_date <= crate::time::MAX_DAY
            &&& forall|i: int|
                0 <= i < feed.calendar_dates@.len() ==> crate::time::MIN_DAY <= (
                #[trigger] feed.calendar_dates@[i]).date <= crate::time::MAX_DAY
            &&& trips.len() <= 0x1_0000_0000
            &&& station_table(trips).len() <= 0xffff_ffff
        },
{
}

} // verus!
