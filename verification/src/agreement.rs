//! Indexes of one static schedule match trains alike.
use vstd::prelude::*;

use crate::aliases::{StationAlias, StationId};
use crate::feed::StaticFeed;
use crate::index::{IndexedTrip, MartaScheduleIndex, ScheduledStopRef};
use crate::matcher::{MatcherConfig, Search};
use crate::models::MartaTrainRow;
use crate::observation::ObservedStop;

verus! {

/// Two valid indexes hold one static schedule.
pub open spec fn of_one_schedule(
    one: MartaScheduleIndex,
    other: MartaScheduleIndex,
    feed: &StaticFeed,
) -> bool {
    &&& one.valid()
    &&& other.valid()
    &&& one.holds(feed)
    &&& other.holds(feed)
}

/// Whether two indexed trips say the same, their patterns aside.
pub open spec fn same_trip(one: IndexedTrip, other: IndexedTrip) -> bool {
    &&& one.trip_id@ == other.trip_id@
    &&& one.route_id@ == other.route_id@
    &&& one.service_id@ == other.service_id@
    &&& match (one.headsign, other.headsign) {
        (None, None) => true,
        (Some(name), Some(other_name)) => name@ == other_name@,
        (_, _) => false,
    }
    &&& one.direction_id == other.direction_id
    &&& crate::names::texts(one.stop_ids@) == crate::names::texts(other.stop_ids@)
    &&& one.stop_sequences@ == other.stop_sequences@
    &&& one.arrival_seconds@ == other.arrival_seconds@
}

/// Indexes of one schedule hold the same trips on the same patterns.
pub proof fn trips_are_same(
    one: MartaScheduleIndex,
    other: MartaScheduleIndex,
    feed: &StaticFeed,
    t: int,
)
    requires
        of_one_schedule(one, other, feed),
    ensures
        one.trips@.len() == other.trips@.len(),
        0 <= t < one.trips@.len() ==> same_trip(one.trips@[t], other.trips@[t])
            && crate::patterns::pattern_view(one.patterns@[one.trips@[t].pattern_id as int])
            == crate::patterns::pattern_view(other.patterns@[other.trips@[t].pattern_id as int]),
{
    let trips = crate::builder::rail_trips(
        crate::builder::rail_lines(feed.routes@),
        feed.trips@,
    );
    if 0 <= t < one.trips@.len() {
        assert(crate::builder::keeps_trip(one.trips@[t], trips[t]));
        assert(crate::builder::keeps_trip(other.trips@[t], trips[t]));
    }
}

/// A name is in a table where it lists a station.
proof fn lemma_holds_name(table: Seq<StationAlias>, name: Seq<char>)
    requires
        crate::aliases::alias_table(table),
    ensures
        crate::aliases::holds_name(table, name) <==> exists|station: StationId| #[trigger]
            crate::aliases::lists(table, name, station),
{
    if crate::aliases::holds_name(table, name) {
        let i = choose|i: int| 0 <= i < table.len() && (#[trigger] table[i]).name@ == name;
        assert(table[i].stations@.contains(table[i].stations@[0]));
        assert(crate::aliases::lists(table, name, table[i].stations@[0]));
    }
}

/// Indexes of one schedule take a name for the same stations.
pub proof fn stations_are_same(
    one: MartaScheduleIndex,
    other: MartaScheduleIndex,
    feed: &StaticFeed,
    name: Seq<char>,
)
    requires
        of_one_schedule(one, other, feed),
    ensures
        crate::observation::stations_for(one.station_aliases@, name)
            == crate::observation::stations_for(other.station_aliases@, name),
{
    let left = one.station_aliases@;
    let right = other.station_aliases@;
    let full = crate::names::station_name(name);
    assert forall|alias: Seq<char>, station: StationId|
        #![trigger crate::aliases::lists(left, alias, station)]
        #![trigger crate::aliases::lists(right, alias, station)]
        crate::aliases::lists(left, alias, station) <==> crate::aliases::lists(
            right,
            alias,
            station,
        ) by {}
    lemma_holds_name(left, full);
    lemma_holds_name(right, full);
    let named = crate::aliases::stations_named(left, name);
    let other_named = crate::aliases::stations_named(right, name);
    assert forall|station: StationId| #[trigger]
        named.contains(station) <==> other_named.contains(station) by {
        if named.contains(station) && !crate::aliases::holds_name(left, full) {
            let alias = choose|alias: Seq<char>| #[trigger]
                crate::aliases::lists(left, alias, station) && crate::aliases::similar(
                    full,
                    alias,
                );
            assert(crate::aliases::lists(right, alias, station));
        }
        if other_named.contains(station) && !crate::aliases::holds_name(right, full) {
            let alias = choose|alias: Seq<char>| #[trigger]
                crate::aliases::lists(right, alias, station) && crate::aliases::similar(
                    full,
                    alias,
                );
            assert(crate::aliases::lists(left, alias, station));
        }
    }
    assert(named =~= other_named);
}

proof fn lemma_rows_same(
    one: MartaScheduleIndex,
    other: MartaScheduleIndex,
    feed: &StaticFeed,
    rows: Seq<MartaTrainRow>,
    count: int,
)
    requires
        of_one_schedule(one, other, feed),
        count <= rows.len(),
    ensures
        crate::observation::observed_rows(one.station_aliases@, rows, count)
            == crate::observation::observed_rows(other.station_aliases@, rows, count),
    decreases count,
{
    reveal(crate::observation::observed_row);
    if count > 0 {
        lemma_rows_same(one, other, feed, rows, count - 1);
        stations_are_same(one, other, feed, rows[count - 1].station@);
    }
}

proof fn lemma_services_same(
    one: MartaScheduleIndex,
    other: MartaScheduleIndex,
    feed: &StaticFeed,
    id: Seq<char>,
    day: i32,
)
    requires
        of_one_schedule(one, other, feed),
        crate::index::service_runs(one.services@, id, day),
    ensures
        crate::index::service_runs(other.services@, id, day),
{
    let i = choose|i: int|
        0 <= i < one.services@.len() && (#[trigger] one.services@[i]).service_id@ == id
            && one.services@[i].rule.runs(day);
    assert(crate::builder::follows_feed(one.services@[i], feed));
    assert(one.services@[i].rule.runs(day));
    assert(crate::builder::has_service(one.services@, id));
    assert(crate::builder::has_service(other.services@, id));
    let k = choose|k: int|
        0 <= k < other.services@.len() && (#[trigger] other.services@[k]).service_id@ == id;
    assert(crate::builder::follows_feed(other.services@[k], feed));
    assert(other.services@[k].rule.runs(day));
}

proof fn lemma_errors_same(
    one: IndexedTrip,
    other: IndexedTrip,
    date: i32,
    stops: Seq<ObservedStop>,
    alignment: Seq<(usize, usize)>,
    count: int,
)
    requires
        one.arrival_seconds@ == other.arrival_seconds@,
    ensures
        crate::alignment::errors(one, date, stops, alignment, count) == crate::alignment::errors(
            other,
            date,
            stops,
            alignment,
            count,
        ),
    decreases count,
{
    if count > 0 {
        lemma_errors_same(one, other, date, stops, alignment, count - 1);
    }
}

/// Indexes of one schedule score a trip on a day alike.
pub proof fn scores_are_same(
    one: MartaScheduleIndex,
    other: MartaScheduleIndex,
    feed: &StaticFeed,
    line: Seq<char>,
    destination: Seq<char>,
    stops: Seq<ObservedStop>,
    trip: usize,
    date: i32,
)
    requires
        of_one_schedule(one, other, feed),
    ensures
        crate::matcher::trip_score(one, line, destination, stops, trip, date)
            == crate::matcher::trip_score(other, line, destination, stops, trip, date),
{
    trips_are_same(one, other, feed, trip as int);
    if trip < one.trips@.len() {
        let left = one.trips@[trip as int];
        let right = other.trips@[trip as int];
        if crate::index::service_runs(one.services@, left.service_id@, date) {
            lemma_services_same(one, other, feed, left.service_id@, date);
        }
        if crate::index::service_runs(other.services@, left.service_id@, date) {
            lemma_services_same(other, one, feed, left.service_id@, date);
        }
        let pattern = one.patterns@[left.pattern_id as int];
        let other_pattern = other.patterns@[right.pattern_id as int];
        assert(pattern.line@ == other_pattern.line@);
        assert(pattern.stations@ == other_pattern.stations@);
        let aligned = crate::alignment::aligned(pattern.stations@, stops, stops.len() as int);
        if aligned is Some {
            let pairs = crate::matcher::alignment_pairs(aligned->0);
            lemma_errors_same(left, right, date, stops, pairs, pairs.len() as int);
        }
    }
}

proof fn lemma_trip_arrivals_same(
    one: IndexedTrip,
    other: IndexedTrip,
    pattern: crate::index::Pattern,
    other_pattern: crate::index::Pattern,
    number: int,
    station: StationId,
    stops: int,
)
    requires
        one.arrival_seconds@ == other.arrival_seconds@,
        pattern.stations@ == other_pattern.stations@,
    ensures
        crate::index::trip_arrivals(one, pattern, number, station, stops)
            == crate::index::trip_arrivals(other, other_pattern, number, station, stops),
    decreases stops,
{
    if stops > 0 {
        lemma_trip_arrivals_same(
            one,
            other,
            pattern,
            other_pattern,
            number,
            station,
            stops - 1,
        );
    }
}

proof fn lemma_line_arrivals_same(
    one: MartaScheduleIndex,
    other: MartaScheduleIndex,
    feed: &StaticFeed,
    line: Seq<char>,
    station: StationId,
    count: int,
)
    requires
        of_one_schedule(one, other, feed),
        count <= one.trips@.len(),
    ensures
        crate::index::line_arrivals(one.trips@, one.patterns@, line, station, count)
            == crate::index::line_arrivals(other.trips@, other.patterns@, line, station, count),
    decreases count,
{
    if count > 0 {
        lemma_line_arrivals_same(one, other, feed, line, station, count - 1);
        trips_are_same(one, other, feed, count - 1);
        let left = one.trips@[count - 1];
        let right = other.trips@[count - 1];
        let pattern = one.patterns@[left.pattern_id as int];
        let other_pattern = other.patterns@[right.pattern_id as int];
        lemma_trip_arrivals_same(
            left,
            right,
            pattern,
            other_pattern,
            count - 1,
            station,
            pattern.stations@.len() as int,
        );
    }
}

/// Indexes of one schedule list the same arrivals, though those of one second may come in
/// another order.
pub proof fn arrivals_are_same(
    one: MartaScheduleIndex,
    other: MartaScheduleIndex,
    feed: &StaticFeed,
    line: Seq<char>,
    station: StationId,
)
    requires
        of_one_schedule(one, other, feed),
    ensures
        one.scheduled(line, station).to_multiset() == other.scheduled(line, station).to_multiset(),
        one.scheduled(line, station).len() == other.scheduled(line, station).len(),
        forall|entry: ScheduledStopRef| #[trigger]
            one.scheduled(line, station).contains(entry) <==> other.scheduled(
                line,
                station,
            ).contains(entry),
{
    broadcast use vstd::seq_lib::group_to_multiset_ensures;

    trips_are_same(one, other, feed, 0);
    lemma_line_arrivals_same(one, other, feed, line, station, one.trips@.len() as int);
    let left = one.scheduled(line, station);
    let right = other.scheduled(line, station);
    assert(left.to_multiset() == right.to_multiset());
    assert(left.to_multiset().len() == left.len());
    assert(right.to_multiset().len() == right.len());
    assert forall|entry: ScheduledStopRef| #[trigger] left.contains(entry) <==> right.contains(
        entry,
    ) by {
        assert(left.to_multiset().count(entry) == right.to_multiset().count(entry));
    }
}

/// Two searches for one train in indexes of one schedule.
spec fn same_search(one: Search, other: Search, feed: &StaticFeed) -> bool {
    &&& of_one_schedule(one.index, other.index, feed)
    &&& one.line == other.line
    &&& one.destination == other.destination
    &&& one.stops == other.stops
    &&& one.config == other.config
}

proof fn lemma_arrivals_at_same(
    one: Search,
    other: Search,
    feed: &StaticFeed,
    stations: Seq<StationId>,
    count: int,
)
    requires
        same_search(one, other, feed),
    ensures
        one.arrivals_at(stations, count) == other.arrivals_at(stations, count),
    decreases count,
{
    if count > 0 {
        lemma_arrivals_at_same(one, other, feed, stations, count - 1);
        arrivals_are_same(one.index, other.index, feed, one.line, stations[count - 1]);
    }
}

proof fn lemma_rarest_same(one: Search, other: Search, feed: &StaticFeed, count: int)
    requires
        same_search(one, other, feed),
    ensures
        one.rarest(count) == other.rarest(count),
    decreases count,
{
    if count > 0 {
        lemma_rarest_same(one, other, feed, count - 1);
        let stations = one.stops[count - 1].stations;
        lemma_arrivals_at_same(one, other, feed, stations, stations.len() as int);
        if one.rarest(count - 1) is Some {
            let before = one.stops[one.rarest(count - 1)->0].stations;
            lemma_arrivals_at_same(one, other, feed, before, before.len() as int);
        }
    }
}

proof fn lemma_eligible_same(
    one: Search,
    other: Search,
    feed: &StaticFeed,
    trip: usize,
    date: i32,
)
    requires
        same_search(one, other, feed),
        one.eligible(trip, date),
    ensures
        other.eligible(trip, date),
        one.score(trip, date) == other.score(trip, date),
        trip < one.index.trips@.len(),
{
    lemma_rarest_same(one, other, feed, one.stops.len() as int);
    scores_are_same(
        one.index,
        other.index,
        feed,
        one.line,
        one.destination,
        one.stops,
        trip,
        date,
    );
    let stop = one.stops[one.rarest(one.stops.len() as int)->0];
    let target = crate::matcher::since_midnight(stop.scheduled, date);
    let i = choose|i: int|
        0 <= i < stop.stations.len() && #[trigger] one.calls_near(trip, stop.stations[i], target);
    arrivals_are_same(one.index, other.index, feed, one.line, stop.stations[i]);
    let entry = choose|entry: ScheduledStopRef| #[trigger]
        one.index.scheduled(one.line, stop.stations[i]).contains(entry) && entry.trip_index
            == trip && crate::index::in_window(
            entry.seconds,
            target,
            one.config.max_stop_schedule_error_seconds as int,
        );
    assert(other.index.scheduled(other.line, stop.stations[i]).contains(entry));
    assert(other.calls_near(trip, stop.stations[i], target));
}

proof fn lemma_best_same(one: Search, other: Search, feed: &StaticFeed, trip: usize, date: i32)
    requires
        same_search(one, other, feed),
        one.best(trip, date),
    ensures
        other.best(trip, date),
        one.score(trip, date) == other.score(trip, date),
{
    lemma_eligible_same(one, other, feed, trip, date);
    trips_are_same(one.index, other.index, feed, trip as int);
    let found = one.score(trip, date)->0;
    assert forall|t: usize, d: i32|
        (t != trip || d != date) && #[trigger] other.eligible(t, d) implies found.ranks_before(
        other.score(t, d)->0,
        other.index.trips@,
    ) by {
        lemma_eligible_same(other, one, feed, t, d);
        trips_are_same(one.index, other.index, feed, t as int);
        assert(one.eligible(t, d));
        assert(found.ranks_before(one.score(t, d)->0, one.index.trips@));
    }
}

proof fn lemma_new_match_same(one: Search, other: Search, feed: &StaticFeed)
    requires
        same_search(one, other, feed),
    ensures
        one.new_match() == other.new_match(),
{
    if exists|trip: usize, date: i32| one.best(trip, date) {
        let (trip, date) = choose|trip: usize, date: i32| one.best(trip, date);
        lemma_best_same(one, other, feed, trip, date);
        let (t, d) = choose|t: usize, d: i32| other.best(t, d);
        crate::matcher::best_is_unique(other, trip, date, t, d);
    } else if exists|trip: usize, date: i32| other.best(trip, date) {
        let (trip, date) = choose|trip: usize, date: i32| other.best(trip, date);
        lemma_best_same(other, one, feed, trip, date);
    }
}

/// Two valid indexes that hold one static schedule match a train alike: the same trip, day,
/// positions and errors, or none.
pub proof fn indexes_match_alike(
    one: MartaScheduleIndex,
    other: MartaScheduleIndex,
    feed: &StaticFeed,
    rows: Seq<MartaTrainRow>,
    config: MatcherConfig,
    preferred: Option<(usize, i32)>,
)
    requires
        one.valid(),
        other.valid(),
        one.holds(feed),
        other.holds(feed),
    ensures
        crate::matcher::train_match(one, rows, config, preferred) == crate::matcher::train_match(
            other,
            rows,
            config,
            preferred,
        ),
{
    if rows.len() > 0 {
        lemma_rows_same(one, other, feed, rows, rows.len() as int);
        let left = crate::matcher::train_search(one, rows, config);
        let right = crate::matcher::train_search(other, rows, config);
        assert(same_search(left, right, feed));
        if preferred is Some {
            scores_are_same(
                one,
                other,
                feed,
                left.line,
                left.destination,
                left.stops,
                (preferred->0).0,
                (preferred->0).1,
            );
        }
        lemma_new_match_same(left, right, feed);
    }
}

/// Whether a train no longer fits the trip that it is looked for on first: there is none, the
/// train does not visit its stops in order on that day, or the errors are over the bounds.
pub open spec fn hint_fails(
    index: MartaScheduleIndex,
    rows: Seq<MartaTrainRow>,
    config: MatcherConfig,
    hint: Option<(usize, i32)>,
) -> bool {
    let search = crate::matcher::train_search(index, rows, config);
    hint is Some ==> match search.score((hint->0).0, (hint->0).1) {
        Some(score) => !search.keeps(score),
        None => true,
    }
}

/// A trip that the train no longer fits makes no difference.
pub proof fn failing_hint_is_ignored(
    index: MartaScheduleIndex,
    rows: Seq<MartaTrainRow>,
    config: MatcherConfig,
    hint: Option<(usize, i32)>,
)
    requires
        hint_fails(index, rows, config, hint),
    ensures
        crate::matcher::train_match(index, rows, config, hint) == crate::matcher::train_match(
            index,
            rows,
            config,
            None,
        ),
{
}

} // verus!
