//! What a match guarantees.
use vstd::prelude::*;

use crate::aliases::StationId;
use crate::index::{IndexedTrip, Pattern, ScheduledStopRef};
use crate::matcher::{Search, TripMatch};
use crate::models::MartaTrainRow;
use crate::observation::ObservedStop;

verus! {

proof fn lemma_errors(
    trip: IndexedTrip,
    date: i32,
    stops: Seq<ObservedStop>,
    alignment: Seq<(usize, usize)>,
    count: int,
)
    requires
        crate::alignment::errors(trip, date, stops, alignment, count) is Some,
    ensures
        ({
            let (total, max) = crate::alignment::errors(trip, date, stops, alignment, count)->0;
            &&& 0 <= max
            &&& 0 <= total
            &&& count >= 0 ==> total <= count * max
            &&& forall|k: int|
                0 <= k < count ==> (crate::alignment::pair_error(
                    trip,
                    date,
                    stops,
                    #[trigger] alignment[k],
                ) matches Some(error) && error <= max)
        }),
    decreases count,
{
    let (total, max) = crate::alignment::errors(trip, date, stops, alignment, count)->0;
    if count > 0 {
        lemma_errors(trip, date, stops, alignment, count - 1);
        let (before, old_max) = crate::alignment::errors(
            trip,
            date,
            stops,
            alignment,
            count - 1,
        )->0;
        assert(total <= count * max) by (nonlinear_arith)
            requires
                count > 0,
                before <= (count - 1) * old_max,
                old_max <= max,
                total - before <= max,
        ;
    }
}

/// The mean error of a match is no more than its maximum, and neither is negative.
pub proof fn mean_within_maximum(search: Search, trip: usize, date: i32)
    requires
        search.score(trip, date) is Some,
    ensures
        0 <= (search.score(trip, date)->0).mean <= (search.score(trip, date)->0).max,
{
    let score = search.score(trip, date)->0;
    let scheduled = search.index.trips@[trip as int];
    let pattern = search.index.patterns@[scheduled.pattern_id as int];
    let positions = crate::alignment::aligned(
        pattern.stations@,
        search.stops,
        search.stops.len() as int,
    )->0;
    let pairs = crate::matcher::alignment_pairs(positions);
    lemma_errors(scheduled, date, search.stops, pairs, pairs.len() as int);
    let (total, max) = crate::alignment::errors(
        scheduled,
        date,
        search.stops,
        pairs,
        pairs.len() as int,
    )->0;
    let count = pairs.len() as int;
    assert(0 <= total / count <= max) by (nonlinear_arith)
        requires
            count > 0,
            0 <= total <= count * max,
    ;
}

/// Whether a match is what it should be: the trip is of the line, runs on the day and visits
/// the stops in order, each no further from its scheduled time than the maximum error, and the
/// match names the row and the position of each stop.
pub open spec fn sound(search: Search, found: TripMatch) -> bool {
    let trip = search.index.trips@[found.trip as int];
    let pattern = search.index.patterns@[trip.pattern_id as int];
    let positions = found.positions.map_values(|pair: (usize, usize)| pair.1 as int);
    &&& found.trip < search.index.trips@.len()
    &&& pattern.line@ == search.line
    &&& crate::index::service_runs(search.index.services@, trip.service_id@, found.date)
    &&& found.positions.len() == search.stops.len()
    &&& crate::alignment::stands_at(pattern.stations@, search.stops, positions)
    &&& forall|k: int|
        0 <= k < found.positions.len() ==> {
            let pair = #[trigger] found.positions[k];
            &&& pair.0 == search.stops[k].row
            &&& pair.1 < trip.arrival_seconds@.len()
            &&& trip.arrival_seconds@[pair.1 as int] matches Some(seconds)
                && search.stops[k].scheduled@.distance(
                crate::alignment::schedule_time(found.date, seconds),
            ) <= found.max
        }
}

/// The rows of the stops are numbers of rows.
pub open spec fn rows_are_numbers(stops: Seq<ObservedStop>) -> bool {
    forall|k: int| 0 <= k < stops.len() ==> 0 <= (#[trigger] stops[k]).row <= usize::MAX
}

proof fn lemma_score_sound(search: Search, trip_index: usize, date: i32)
    requires
        search.index.valid(),
        search.score(trip_index, date) is Some,
        rows_are_numbers(search.stops),
    ensures
        sound(search, search.score(trip_index, date)->0),
        (search.score(trip_index, date)->0).trip == trip_index,
        (search.score(trip_index, date)->0).date == date,
{
    let found = search.score(trip_index, date)->0;
    let trip = search.index.trips@[trip_index as int];
    let pattern = search.index.patterns@[trip.pattern_id as int];
    let stops = search.stops;
    let positions = crate::alignment::aligned(pattern.stations@, stops, stops.len() as int)->0;
    let pairs = crate::matcher::alignment_pairs(positions);
    crate::alignment::alignment_fits(pattern.stations@, stops, stops.len() as int);
    lemma_errors(trip, date, stops, pairs, pairs.len() as int);
    let shown = found.positions.map_values(|pair: (usize, usize)| pair.1 as int);
    assert forall|k: int| 0 <= k < positions.len() implies k <= #[trigger] positions[k]
        <= usize::MAX by {
        lemma_position_held(pattern, stops, positions, k);
    }
    assert(shown =~= positions);
    assert forall|k: int| 0 <= k < found.positions.len() implies ({
        let pair = #[trigger] found.positions[k];
        &&& pair.0 == stops[k].row
        &&& pair.1 < trip.arrival_seconds@.len()
        &&& trip.arrival_seconds@[pair.1 as int] matches Some(seconds)
            && stops[k].scheduled@.distance(crate::alignment::schedule_time(date, seconds))
            <= found.max
    }) by {
        assert(0 <= stops[k].row <= usize::MAX);
        let error = crate::alignment::pair_error(trip, date, stops, pairs[k]);
        assert(error is Some);
        assert(positions[k] == found.positions[k].1);
    }
}

/// A train that is matched runs a trip of its line on a day of the service, visits the observed
/// stops in order, and is within the bounds that the configuration sets: those for a trip that it
/// was already assigned to, or those for a new one.
pub proof fn match_is_sound(search: Search, preferred: Option<(usize, i32)>)
    requires
        search.index.valid(),
        search.outcome(preferred) is Some,
        rows_are_numbers(search.stops),
    ensures
        sound(search, search.outcome(preferred)->0),
        search.keeps(search.outcome(preferred)->0) || search.accepts(
            search.outcome(preferred)->0,
        ),
{
    let found = search.outcome(preferred)->0;
    if preferred is Some && search.score((preferred->0).0, (preferred->0).1) is Some
        && search.keeps(search.score((preferred->0).0, (preferred->0).1)->0) {
        lemma_score_sound(search, (preferred->0).0, (preferred->0).1);
    } else {
        let (trip, date) = choose|trip: usize, date: i32| search.best(trip, date);
        lemma_score_sound(search, trip, date);
    }
}

/// The trip of a match is a rail trip of the static schedule, on a day on which its calendars let
/// the service of the trip run.
pub proof fn match_follows_feed(
    search: Search,
    preferred: Option<(usize, i32)>,
    feed: &crate::feed::StaticFeed,
)
    requires
        search.index.valid(),
        search.index.holds(feed),
        search.outcome(preferred) is Some,
        rows_are_numbers(search.stops),
    ensures
        ({
            let found = search.outcome(preferred)->0;
            let trips = crate::builder::rail_trips(
                crate::builder::rail_lines(feed.routes@),
                feed.trips@,
            );
            &&& found.trip < trips.len()
            &&& search.index.trips@[found.trip as int].trip_id@ == trips[found.trip as int].id@
            &&& search.index.trips@[found.trip as int].route_id@
                == trips[found.trip as int].route_id@
            &&& crate::service::scheduled_on(
                feed.calendars@,
                feed.calendar_dates@,
                trips[found.trip as int].service_id@,
                found.date,
            )
        }),
{
    match_is_sound(search, preferred);
    let found = search.outcome(preferred)->0;
    let trips = crate::builder::rail_trips(
        crate::builder::rail_lines(feed.routes@),
        feed.trips@,
    );
    let trip = search.index.trips@[found.trip as int];
    assert(crate::builder::keeps_trip(trip, trips[found.trip as int]));
    let services = search.index.services@;
    let i = choose|i: int|
        0 <= i < services.len() && (#[trigger] services[i]).service_id@ == trip.service_id@
            && services[i].rule.runs(found.date);
    assert(crate::builder::follows_feed(services[i], feed));
    assert(services[i].rule.runs(found.date));
}

/// A train that still fits the trip that it was assigned to stays with it.
pub proof fn fitting_assignment_stays(search: Search, trip: usize, date: i32)
    requires
        search.stops.len() > 0,
        search.score(trip, date) matches Some(score) && search.keeps(score),
    ensures
        search.outcome(Some((trip, date))) == search.score(trip, date),
{
}

proof fn lemma_trip_arrival(
    trip: IndexedTrip,
    pattern: Pattern,
    number: int,
    station: StationId,
    stops: int,
    at: int,
)
    requires
        0 <= at < stops,
        pattern.stations@[at] == station,
        trip.arrival_seconds@[at] is Some,
    ensures
        crate::index::trip_arrivals(trip, pattern, number, station, stops).count(
            ScheduledStopRef {
                seconds: trip.arrival_seconds@[at]->0,
                trip_index: number as u32,
            },
        ) > 0,
    decreases stops,
{
    broadcast use vstd::multiset::group_multiset_axioms;

    if at < stops - 1 {
        lemma_trip_arrival(trip, pattern, number, station, stops - 1, at);
    }
}

proof fn lemma_line_arrival(
    trips: Seq<IndexedTrip>,
    patterns: Seq<Pattern>,
    line: Seq<char>,
    station: StationId,
    count: int,
    number: int,
    at: int,
)
    requires
        0 <= number < count,
        patterns[trips[number].pattern_id as int].line@ == line,
        0 <= at < patterns[trips[number].pattern_id as int].stations@.len(),
        patterns[trips[number].pattern_id as int].stations@[at] == station,
        trips[number].arrival_seconds@[at] is Some,
    ensures
        crate::index::line_arrivals(trips, patterns, line, station, count).count(
            ScheduledStopRef {
                seconds: trips[number].arrival_seconds@[at]->0,
                trip_index: number as u32,
            },
        ) > 0,
    decreases count,
{
    broadcast use vstd::multiset::group_multiset_axioms;

    if number < count - 1 {
        lemma_line_arrival(trips, patterns, line, station, count - 1, number, at);
    } else {
        let pattern = patterns[trips[number].pattern_id as int];
        lemma_trip_arrival(
            trips[number],
            pattern,
            number,
            station,
            pattern.stations@.len() as int,
            at,
        );
    }
}

/// The schedule lists a trip at each station of its pattern where it has an arrival time.
pub proof fn schedule_lists_trip(search: Search, trip: usize, at: int)
    requires
        search.index.valid(),
        trip < search.index.trips@.len(),
        search.index.patterns@[search.index.trips@[trip as int].pattern_id as int].line@
            == search.line,
        0 <= at < search.index.trips@[trip as int].arrival_seconds@.len(),
        search.index.trips@[trip as int].arrival_seconds@[at] is Some,
    ensures
        ({
            let indexed = search.index.trips@[trip as int];
            let station = search.index.patterns@[indexed.pattern_id as int].stations@[at];
            search.index.scheduled(search.line, station).contains(
                ScheduledStopRef {
                    seconds: indexed.arrival_seconds@[at]->0,
                    trip_index: trip as u32,
                },
            )
        }),
{
    broadcast use vstd::seq_lib::group_to_multiset_ensures;

    let indexed = search.index.trips@[trip as int];
    let pattern = search.index.patterns@[indexed.pattern_id as int];
    let station = pattern.stations@[at];
    let list = search.index.scheduled(search.line, station);
    let entry = ScheduledStopRef {
        seconds: indexed.arrival_seconds@[at]->0,
        trip_index: trip as u32,
    };
    lemma_line_arrival(
        search.index.trips@,
        search.index.patterns@,
        search.line,
        station,
        search.index.trips@.len() as int,
        trip as int,
        at,
    );
    assert(list.to_multiset().count(entry) > 0);
    assert(list.contains(entry));
}

proof fn lemma_arrivals_positive(
    search: Search,
    stations: Seq<StationId>,
    count: int,
    at: int,
)
    requires
        0 <= at < count,
        search.index.scheduled(search.line, stations[at]).len() > 0,
    ensures
        search.arrivals_at(stations, count) > 0,
    decreases count,
{
    lemma_arrivals_natural(search, stations, count - 1);
    if at < count - 1 {
        lemma_arrivals_positive(search, stations, count - 1, at);
    }
}

proof fn lemma_arrivals_natural(search: Search, stations: Seq<StationId>, count: int)
    ensures
        search.arrivals_at(stations, count) >= 0,
    decreases count,
{
    if count > 0 {
        lemma_arrivals_natural(search, stations, count - 1);
    }
}

proof fn lemma_rarest(search: Search, count: int)
    ensures
        search.rarest(count) matches Some(stop) ==> 0 <= stop < count,
        forall|k: int|
            0 <= k < count && #[trigger] search.arrivals(k) > 0 ==> (search.rarest(
                count,
            ) matches Some(stop) && 0 < search.arrivals(stop) <= search.arrivals(k)),
    decreases count,
{
    if count > 0 {
        lemma_rarest(search, count - 1);
        lemma_arrivals_natural(
            search,
            search.stops[count - 1].stations,
            search.stops[count - 1].stations.len() as int,
        );
        if search.rarest(count - 1) is Some {
            let stop = search.rarest(count - 1)->0;
            assert(search.rarest(count) is Some);
            if search.arrivals(stop) <= 0 {
                lemma_rarest_positive(search, count - 1);
            }
        }
    }
}

proof fn lemma_rarest_positive(search: Search, count: int)
    ensures
        search.rarest(count) matches Some(stop) ==> search.arrivals(stop) > 0,
    decreases count,
{
    if count > 0 {
        lemma_rarest_positive(search, count - 1);
    }
}

/// The stop that the search starts from has scheduled arrivals, and no stop with any has fewer.
pub proof fn rarest_has_fewest(search: Search)
    ensures
        search.rarest(search.stops.len() as int) matches Some(stop) ==> {
            &&& 0 <= stop < search.stops.len()
            &&& search.arrivals(stop) > 0
            &&& forall|k: int|
                0 <= k < search.stops.len() && #[trigger] search.arrivals(k) > 0
                    ==> search.arrivals(stop) <= search.arrivals(k)
        },
        search.rarest(search.stops.len() as int) is None ==> forall|k: int|
            0 <= k < search.stops.len() ==> #[trigger] search.arrivals(k) <= 0,
{
    lemma_rarest(search, search.stops.len() as int);
    lemma_rarest_positive(search, search.stops.len() as int);
}

/// Looking only at trips that are scheduled close to the rarest stop loses nothing: wherever a
/// train fits a trip well enough on a day that may be its service day, that trip is looked at.
/// The scheduled times that were observed are not leap seconds: such a time counts one second
/// further from the midnight before it than from a time of day after it.
pub proof fn candidates_are_complete(search: Search, trip: usize, date: i32)
    requires
        search.index.valid(),
        search.stops.len() > 0,
        forall|k: int|
            0 <= k < search.stops.len() ==> !(#[trigger] search.stops[k]).scheduled@.leap
                && search.stops[k].scheduled.valid(),
        search.near_day(date),
        search.score(trip, date) matches Some(score) && search.accepts(score),
    ensures
        search.eligible(trip, date),
{
    let indexed = search.index.trips@[trip as int];
    let pattern = search.index.patterns@[indexed.pattern_id as int];
    let stops = search.stops;
    let positions = crate::alignment::aligned(pattern.stations@, stops, stops.len() as int)->0;
    let pairs = crate::matcher::alignment_pairs(positions);
    crate::alignment::alignment_fits(pattern.stations@, stops, stops.len() as int);
    lemma_errors(indexed, date, stops, pairs, pairs.len() as int);
    assert forall|k: int| 0 <= k < stops.len() implies #[trigger] search.arrivals(k) > 0
        && search.calls_near_any(
        trip,
        stops[k].stations,
        stops[k].stations.len() as int,
        crate::matcher::since_midnight(stops[k].scheduled, date),
    ) by {
        let at = positions[k];
        let station = pattern.stations@[at];
        let error = crate::alignment::pair_error(indexed, date, stops, pairs[k]);
        assert(error is Some);
        lemma_position_held(pattern, stops, positions, k);
        let seconds = indexed.arrival_seconds@[at]->0;
        schedule_lists_trip(search, trip, at);
        let entry = ScheduledStopRef { seconds, trip_index: trip as u32 };
        let list = search.index.scheduled(search.line, station);
        assert(list.contains(entry));
        let place = choose|place: int|
            0 <= place < stops[k].stations.len() && stops[k].stations[place] == station;
        assert(list.len() > 0);
        lemma_arrivals_positive(
            search,
            stops[k].stations,
            stops[k].stations.len() as int,
            place,
        );
        assert(stops[k].scheduled.valid() && !stops[k].scheduled@.leap);
        let target = crate::matcher::since_midnight(stops[k].scheduled, date);
        lemma_window(stops[k].scheduled@, date, seconds);
        assert(crate::index::in_window(
            seconds,
            target,
            search.config.max_stop_schedule_error_seconds as int,
        ));
        assert(search.calls_near(trip, stops[k].stations[place], target));
    }
    assert(search.arrivals(0) > 0);
    lemma_rarest(search, stops.len() as int);
    let rarest = search.rarest(stops.len() as int)->0;
    assert(search.arrivals(rarest) > 0);
}

proof fn lemma_position_held(
    pattern: Pattern,
    stops: Seq<ObservedStop>,
    positions: Seq<int>,
    k: int,
)
    requires
        crate::alignment::stands_at(pattern.stations@, stops, positions),
        0 <= k < positions.len(),
    ensures
        k <= positions[k] <= usize::MAX,
    decreases k,
{
    assert(0 <= positions[k] < pattern.stations@.len());
    assert(pattern.stations.len() == pattern.stations@.len());
    if k > 0 {
        lemma_position_held(pattern, stops, positions, k - 1);
        assert(positions[k - 1] < positions[k]);
    }
}

proof fn lemma_window(observed: crate::time::CivilTime, date: i32, seconds: u32)
    requires
        !observed.leap,
    ensures
        observed.since(
            crate::time::CivilTime { day: date as int, second: 0, leap: false },
        ) - seconds == observed.since(crate::alignment::schedule_time(date, seconds)),
{
    let end = date * 86400 + seconds;
    assert(end == (end / 86400) * 86400 + end % 86400);
}

/// Whether a trip on a day is eligible and ranks before every other of the first `count` pairs
/// that is.
spec fn leads(
    search: Search,
    pairs: Seq<(usize, i32)>,
    count: int,
    trip: usize,
    date: i32,
) -> bool {
    &&& search.eligible(trip, date)
    &&& forall|i: int|
        0 <= i < count && #[trigger] pairs[i] != (trip, date) && search.eligible(
            pairs[i].0,
            pairs[i].1,
        ) ==> (search.score(trip, date)->0).ranks_before(
            search.score(pairs[i].0, pairs[i].1)->0,
            search.index.trips@,
        )
}

/// One of the pairs, or the trip and day given, leads the first `count` pairs.
proof fn lemma_leader(
    search: Search,
    pairs: Seq<(usize, i32)>,
    count: int,
    trip: usize,
    date: i32,
) -> (leader: (usize, i32))
    requires
        0 <= count <= pairs.len(),
        search.eligible(trip, date),
    ensures
        leads(search, pairs, count, leader.0, leader.1),
    decreases count,
{
    if count == 0 {
        (trip, date)
    } else {
        let before = lemma_leader(search, pairs, count - 1, trip, date);
        let next = pairs[count - 1];
        if !search.eligible(next.0, next.1) || next == before {
            before
        } else {
            let trips = search.index.trips@;
            let best = search.score(before.0, before.1)->0;
            let other = search.score(next.0, next.1)->0;
            crate::matcher::ranks_one_way(best, other, trips);
            if best.ranks_before(other, trips) {
                before
            } else {
                assert forall|i: int|
                    0 <= i < count && #[trigger] pairs[i] != next && search.eligible(
                        pairs[i].0,
                        pairs[i].1,
                    ) implies other.ranks_before(
                    search.score(pairs[i].0, pairs[i].1)->0,
                    trips,
                ) by {
                    if pairs[i] != before {
                        crate::matcher::ranks_transitive(
                            other,
                            best,
                            search.score(pairs[i].0, pairs[i].1)->0,
                            trips,
                        );
                    }
                }
                next
            }
        }
    }
}

/// The days near the first `count` stops.
spec fn days_near(stops: Seq<ObservedStop>, count: int) -> Seq<i32>
    decreases count,
{
    if count <= 0 {
        Seq::empty()
    } else {
        let stop = stops[count - 1];
        days_near(stops, count - 1) + seq![
            stop.event.local.day,
            (stop.event.local.day - 1) as i32,
            stop.scheduled.day,
            (stop.scheduled.day - 1) as i32,
        ]
    }
}

proof fn lemma_days_near(stops: Seq<ObservedStop>, count: int, k: int, date: i32)
    requires
        0 <= k < count <= stops.len(),
        crate::matcher::near_stop(stops[k], date),
    ensures
        days_near(stops, count).contains(date),
    decreases count,
{
    let before = days_near(stops, count - 1);
    let days = days_near(stops, count);
    let stop = stops[count - 1];
    if k < count - 1 {
        lemma_days_near(stops, count - 1, k, date);
        let i = choose|i: int| 0 <= i < before.len() && before[i] == date;
        assert(days[i] == date);
    } else if date == stop.event.local.day {
        assert(days[before.len() as int] == date);
    } else if date == stop.event.local.day - 1 {
        assert(days[before.len() as int + 1] == date);
    } else if date == stop.scheduled.day {
        assert(days[before.len() as int + 2] == date);
    } else {
        assert(days[before.len() as int + 3] == date);
    }
}

/// Every trip on every one of the days.
spec fn trips_on_days(trips: int, days: Seq<i32>) -> Seq<(usize, i32)> {
    Seq::new((trips * days.len()) as nat, |i: int| ((i % trips) as usize, days[i / trips]))
}

proof fn lemma_trips_on_days(trips: int, days: Seq<i32>, trip: int, day: int)
    requires
        0 <= trip < trips <= usize::MAX,
        0 <= day < days.len(),
    ensures
        trips_on_days(trips, days).contains((trip as usize, days[day])),
{
    let at = day * trips + trip;
    let count = trips * days.len();
    assert(0 <= at < count) by (nonlinear_arith)
        requires
            at == day * trips + trip,
            count == trips * days.len(),
            0 <= trip < trips,
            0 <= day < days.len(),
    ;
    vstd::arithmetic::div_mod::lemma_fundamental_div_mod_converse(at, trips, day, trip);
    assert(trips_on_days(trips, days)[at] == (trip as usize, days[day]));
}

/// A train that fits some trip well enough, on a day that may be its service day, is matched.
/// The scheduled times that were observed are not leap seconds, as for
/// [`candidates_are_complete`].
pub proof fn fitting_train_is_matched(search: Search, trip: usize, date: i32)
    requires
        search.index.valid(),
        search.stops.len() > 0,
        search.stops.len() >= search.config.minimum_resolved_stops,
        forall|k: int|
            0 <= k < search.stops.len() ==> !(#[trigger] search.stops[k]).scheduled@.leap
                && search.stops[k].scheduled.valid(),
        search.near_day(date),
        search.score(trip, date) matches Some(score) && search.accepts(score),
    ensures
        search.outcome(None) is Some,
{
    candidates_are_complete(search, trip, date);
    let count = search.index.trips.len() as int;
    let days = days_near(search.stops, search.stops.len() as int);
    let pairs = trips_on_days(count, days);
    let leader = lemma_leader(search, pairs, pairs.len() as int, trip, date);
    assert forall|t: usize, d: i32|
        (t != leader.0 || d != leader.1) && #[trigger] search.eligible(t, d) implies (search.score(
        leader.0,
        leader.1,
    )->0).ranks_before(search.score(t, d)->0, search.index.trips@) by {
        let k = choose|k: int|
            0 <= k < search.stops.len() && crate::matcher::near_stop(
                #[trigger] search.stops[k],
                d,
            );
        lemma_days_near(search.stops, search.stops.len() as int, k, d);
        let day = choose|day: int| 0 <= day < days.len() && days[day] == d;
        lemma_trips_on_days(count, days, t as int, day);
        let i = choose|i: int| 0 <= i < pairs.len() && pairs[i] == (t, d);
        assert(pairs[i] != leader);
    }
    assert(search.best(leader.0, leader.1));
}

/// A new match ranks before every other trip and day that the train fits well enough, on the
/// days that may be its service day. The scheduled times that were observed are not leap
/// seconds, as for [`candidates_are_complete`].
pub proof fn new_match_is_best(search: Search, trip: usize, date: i32)
    requires
        search.index.valid(),
        search.stops.len() > 0,
        search.stops.len() >= search.config.minimum_resolved_stops,
        forall|k: int|
            0 <= k < search.stops.len() ==> !(#[trigger] search.stops[k]).scheduled@.leap
                && search.stops[k].scheduled.valid(),
        search.near_day(date),
        search.score(trip, date) matches Some(score) && search.accepts(score),
    ensures
        search.outcome(None) is Some,
        ({
            let found = search.outcome(None)->0;
            found == search.score(trip, date)->0 || found.ranks_before(
                search.score(trip, date)->0,
                search.index.trips@,
            )
        }),
{
    candidates_are_complete(search, trip, date);
    fitting_train_is_matched(search, trip, date);
    let (best_trip, best_date) = choose|t: usize, d: i32| search.best(t, d);
    assert(search.best(best_trip, best_date));
}

proof fn lemma_errors_zero(
    trip: IndexedTrip,
    date: i32,
    stops: Seq<ObservedStop>,
    alignment: Seq<(usize, usize)>,
    count: int,
)
    requires
        forall|k: int|
            0 <= k < count ==> crate::alignment::pair_error(
                trip,
                date,
                stops,
                #[trigger] alignment[k],
            ) == Some(0int),
    ensures
        crate::alignment::errors(trip, date, stops, alignment, count) == Some((0int, 0int)),
    decreases count,
{
    if count > 0 {
        lemma_errors_zero(trip, date, stops, alignment, count - 1);
    }
}

/// Whether a stop was observed at the scheduled time of a trip at a position.
pub open spec fn on_schedule(trip: IndexedTrip, date: i32, stop: ObservedStop, at: int) -> bool {
    trip.arrival_seconds@[at] matches Some(seconds) && stop.scheduled@
        == crate::alignment::schedule_time(date, seconds)
}

/// A train that runs a trip of its line on a day of the service, at stops of the trip in order
/// and with delays that lead back to their scheduled times, is matched without any error.
pub proof fn exact_train_is_matched(
    search: Search,
    trip: usize,
    date: i32,
    positions: Seq<int>,
)
    requires
        search.index.valid(),
        search.stops.len() > 0,
        search.stops.len() >= search.config.minimum_resolved_stops,
        search.config.max_mean_schedule_error_seconds >= 0,
        search.config.max_stop_schedule_error_seconds >= 0,
        trip < search.index.trips@.len(),
        ({
            let indexed = search.index.trips@[trip as int];
            let pattern = search.index.patterns@[indexed.pattern_id as int];
            &&& pattern.line@ == search.line
            &&& crate::index::service_runs(search.index.services@, indexed.service_id@, date)
            &&& crate::alignment::aligned(
                pattern.stations@,
                search.stops,
                search.stops.len() as int,
            ) == Some(positions)
            &&& forall|k: int|
                0 <= k < positions.len() ==> on_schedule(
                    indexed,
                    date,
                    search.stops[k],
                    #[trigger] positions[k],
                )
        }),
        forall|k: int|
            0 <= k < search.stops.len() ==> (#[trigger] search.stops[k]).scheduled.valid(),
        search.near_day(date),
    ensures
        search.outcome(None) matches Some(found) && found.mean == 0 && found.max == 0,
{
    let indexed = search.index.trips@[trip as int];
    let pattern = search.index.patterns@[indexed.pattern_id as int];
    let stops = search.stops;
    let pairs = crate::matcher::alignment_pairs(positions);
    crate::alignment::alignment_fits(pattern.stations@, stops, stops.len() as int);
    assert forall|k: int| 0 <= k < pairs.len() implies crate::alignment::pair_error(
        indexed,
        date,
        stops,
        #[trigger] pairs[k],
    ) == Some(0int) by {
        lemma_position_held(pattern, stops, positions, k);
        assert(0 <= positions[k] < pattern.stations@.len());
        assert(on_schedule(indexed, date, stops[k], positions[k]));
    }
    lemma_errors_zero(indexed, date, stops, pairs, pairs.len() as int);
    let count = pairs.len() as int;
    assert(0int / count == 0) by (nonlinear_arith)
        requires
            count > 0,
    ;
    assert forall|k: int| 0 <= k < stops.len() implies !(#[trigger] stops[k]).scheduled@.leap by {
        assert(on_schedule(indexed, date, stops[k], positions[k]));
    }
    new_match_is_best(search, trip, date);
    let (best_trip, best_date) = choose|t: usize, d: i32| search.best(t, d);
    mean_within_maximum(search, best_trip, best_date);
}

/// A train none of whose rows has an event time that can be read is not matched.
pub proof fn no_event_no_match(
    index: crate::index::MartaScheduleIndex,
    rows: Seq<MartaTrainRow>,
    config: crate::matcher::MatcherConfig,
    preferred: Option<(usize, i32)>,
)
    requires
        forall|i: int|
            0 <= i < rows.len() ==> crate::time::event_time(
                (#[trigger] rows[i]).event_time@,
            ) is None,
    ensures
        crate::matcher::train_match(index, rows, config, preferred) is None,
{
    reveal(crate::observation::observed_row);
    let stops = crate::observation::train_stops(index.station_aliases@, rows);
    crate::observation::train_stops_are_rows(index.station_aliases@, rows);
    if stops.len() > 0 {
        assert(crate::observation::is_row(index.station_aliases@, rows, stops[0]));
        assert(crate::time::event_time(rows[stops[0].row].event_time@) is None);
    }
}

/// How far each observed stop is from the arrival time of the trip of a match at its position,
/// in seconds.
pub open spec fn match_errors(search: Search, found: TripMatch) -> Seq<int> {
    Seq::new(
        search.stops.len(),
        |k: int|
            {
                let seconds = search.index.trips@[found.trip as int].arrival_seconds@[
                    found.positions[k].1 as int
                ]->0;
                search.stops[k].scheduled@.distance(
                    crate::alignment::schedule_time(found.date, seconds),
                )
            },
    )
}

/// The mean error of a match is the sum of the errors of all observed stops, divided by their
/// number and rounded down; its maximum is the largest of them. The skipped stops are the
/// positions between the first and the last stop that no stop stands at, and the destination
/// matches where the train names none or the trip has it for its headsign.
pub proof fn match_measures_all_stops(search: Search, trip: usize, date: i32)
    requires
        search.index.valid(),
        rows_are_numbers(search.stops),
        search.score(trip, date) is Some,
    ensures
        ({
            let found = search.score(trip, date)->0;
            let errors = match_errors(search, found);
            let count = search.stops.len() as int;
            let indexed = search.index.trips@[trip as int];
            &&& found.trip == trip && found.date == date
            &&& count > 0 && found.positions.len() == count
            &&& found.mean * count <= errors.fold_left(0, |total: int, error: int| total + error)
                < (found.mean + 1) * count
            &&& forall|k: int| 0 <= k < count ==> #[trigger] errors[k] <= found.max
            &&& exists|k: int| 0 <= k < count && #[trigger] errors[k] == found.max
            &&& found.skipped == found.positions[count - 1].1 - found.positions[0].1 + 1 - count
            &&& search.destination.len() == 0 ==> found.destination_matches
            &&& search.destination.len() > 0 && indexed.headsign is None
                ==> !found.destination_matches
            &&& search.destination.len() > 0 && indexed.headsign is Some
                ==> found.destination_matches == ((indexed.headsign->0)@ == search.destination)
        }),
{
    let found = search.score(trip, date)->0;
    let errors = match_errors(search, found);
    let stops = search.stops;
    let indexed = search.index.trips@[trip as int];
    let pattern = search.index.patterns@[indexed.pattern_id as int];
    let positions = crate::alignment::aligned(pattern.stations@, stops, stops.len() as int)->0;
    let pairs = crate::matcher::alignment_pairs(positions);
    lemma_score_sound(search, trip, date);
    crate::alignment::alignment_fits(pattern.stations@, stops, stops.len() as int);
    crate::alignment::score_counts_every_stop(indexed, date, stops, pairs);
    assert forall|k: int| 0 <= k < positions.len() implies k <= #[trigger] positions[k]
        <= usize::MAX by {
        lemma_position_held(pattern, stops, positions, k);
    }
    let values = crate::alignment::stop_errors(indexed, date, stops, pairs);
    assert forall|k: int| 0 <= k < stops.len() implies #[trigger] errors[k] == values[k] by {
        assert(k <= positions[k] <= usize::MAX);
        assert(pairs[k] == (k as usize, positions[k] as usize));
        assert(found.positions[k].1 == positions[k] as usize);
    }
    assert(errors =~= values);
    let most = choose|k: int| 0 <= k < pairs.len() && #[trigger] values[k] == found.max;
    assert(errors[most] == found.max);
    crate::alignment::skipped_is_span(positions);
    assert(positions[0] <= usize::MAX && positions[stops.len() - 1] <= usize::MAX);
}

/// A train has a score for a trip and a day where the trip is of its line, its service runs, and
/// the stops can be placed in order on positions with arrival times, each on the first position
/// that fits; and not otherwise.
pub proof fn score_is_owed(search: Search, trip: usize, date: i32)
    requires
        search.index.valid(),
    ensures
        search.score(trip, date) is Some <==> {
            let indexed = search.index.trips@[trip as int];
            let pattern = search.index.patterns@[indexed.pattern_id as int];
            &&& trip < search.index.trips@.len()
            &&& pattern.line@ == search.line
            &&& exists|i: int|
                0 <= i < search.index.services@.len() && (
                #[trigger] search.index.services@[i]).service_id@ == indexed.service_id@
                    && search.index.services@[i].rule.runs(date)
            &&& search.stops.len() > 0
            &&& crate::alignment::aligned(
                pattern.stations@,
                search.stops,
                search.stops.len() as int,
            ) matches Some(positions) && forall|k: int|
                0 <= k < positions.len() ==> indexed.arrival_seconds@[
                    #[trigger] positions[k]
                ] is Some
        },
{
    let indexed = search.index.trips@[trip as int];
    let pattern = search.index.patterns@[indexed.pattern_id as int];
    let stops = search.stops;
    if trip < search.index.trips@.len() && crate::alignment::aligned(
        pattern.stations@,
        stops,
        stops.len() as int,
    ) is Some {
        let positions = crate::alignment::aligned(pattern.stations@, stops, stops.len() as int)->0;
        let pairs = crate::matcher::alignment_pairs(positions);
        crate::alignment::alignment_fits(pattern.stations@, stops, stops.len() as int);
        crate::alignment::score_counts_every_stop(indexed, date, stops, pairs);
        assert forall|k: int| 0 <= k < positions.len() implies crate::alignment::has_times(
            indexed,
            stops,
            #[trigger] pairs[k],
        ) <==> indexed.arrival_seconds@[positions[k]] is Some by {
            lemma_position_held(pattern, stops, positions, k);
            assert(0 <= positions[k] < pattern.stations@.len());
        }
        if crate::alignment::schedule_score(indexed, date, stops, pairs) is Some {
            assert forall|k: int| 0 <= k < positions.len() implies indexed.arrival_seconds@[
                #[trigger] positions[k]
            ] is Some by {
                assert(crate::alignment::has_times(indexed, stops, pairs[k]));
            }
        }
    }
}

/// A train without observed stops is not matched. One that fits the trip it is looked for on
/// first, within the mean for trips that were assigned and the bound for each stop, is matched to
/// that trip. Another with too few stops is not matched.
pub proof fn outcome_follows_bounds(search: Search, preferred: Option<(usize, i32)>)
    ensures
        search.stops.len() == 0 ==> search.outcome(preferred) is None,
        search.stops.len() > 0 && preferred is Some ==> {
            let (trip, date) = preferred->0;
            search.score(trip, date) matches Some(score) ==> (score.mean
                <= search.config.cached_assignment_max_mean_error_seconds && score.max
                <= search.config.max_stop_schedule_error_seconds ==> search.outcome(preferred)
                == Some(score))
        },
        search.stops.len() < search.config.minimum_resolved_stops && (preferred is None || {
            let (trip, date) = preferred->0;
            search.score(trip, date) matches Some(score) ==> score.mean
                > search.config.cached_assignment_max_mean_error_seconds || score.max
                > search.config.max_stop_schedule_error_seconds
        }) ==> search.outcome(preferred) is None,
{
}

/// A match is the score of its trip and day. It is the one that the train was looked for on
/// first, within the bounds for such a trip; or it has enough stops and is within the bounds for
/// a new one, on the day of an event or of a scheduled time or on the day before.
pub proof fn match_is_within_bounds(search: Search, preferred: Option<(usize, i32)>)
    requires
        search.index.valid(),
        rows_are_numbers(search.stops),
        search.outcome(preferred) is Some,
    ensures
        ({
            let found = search.outcome(preferred)->0;
            &&& search.score(found.trip, found.date) == Some(found)
            &&& found.max <= search.config.max_stop_schedule_error_seconds
            &&& ({
                ||| preferred == Some((found.trip, found.date)) && found.mean
                    <= search.config.cached_assignment_max_mean_error_seconds
                ||| {
                    &&& search.stops.len() >= search.config.minimum_resolved_stops
                    &&& found.mean <= search.config.max_mean_schedule_error_seconds
                    &&& exists|k: int|
                        0 <= k < search.stops.len() && ({
                            let stop = #[trigger] search.stops[k];
                            ||| found.date == stop.event.local.day
                            ||| found.date == stop.event.local.day - 1
                            ||| found.date == stop.scheduled.day
                            ||| found.date == stop.scheduled.day - 1
                        })
                }
            })
        }),
{
    let found = search.outcome(preferred)->0;
    if preferred is Some && search.score((preferred->0).0, (preferred->0).1) is Some
        && search.keeps(search.score((preferred->0).0, (preferred->0).1)->0) {
        lemma_score_sound(search, (preferred->0).0, (preferred->0).1);
    } else {
        let (trip, date) = choose|trip: usize, date: i32| search.best(trip, date);
        lemma_score_sound(search, trip, date);
        assert(search.eligible(trip, date));
        let k = choose|k: int|
            0 <= k < search.stops.len() && crate::matcher::near_stop(
                #[trigger] search.stops[k],
                date,
            );
        assert(crate::matcher::near_stop(search.stops[k], date));
    }
}

/// A train that is not matched to the trip it is looked for on first is matched to the best of
/// all trips and days within the bounds, the days being those of events and scheduled times and
/// the days before: no other has a smaller mean error, nor with the same mean a smaller maximum.
/// The scheduled times that were observed are not leap seconds.
pub proof fn best_trip_wins(
    search: Search,
    preferred: Option<(usize, i32)>,
    trip: usize,
    date: i32,
    k: int,
)
    requires
        search.index.valid(),
        search.stops.len() >= search.config.minimum_resolved_stops,
        0 <= k < search.stops.len(),
        forall|j: int|
            0 <= j < search.stops.len() ==> (#[trigger] search.stops[j]).scheduled.nanosecond == 0
                && search.stops[j].scheduled.valid(),
        date == search.stops[k].event.local.day || date == search.stops[k].event.local.day - 1
            || date == search.stops[k].scheduled.day || date == search.stops[k].scheduled.day - 1,
        search.score(trip, date) matches Some(score) && score.mean
            <= search.config.max_mean_schedule_error_seconds && score.max
            <= search.config.max_stop_schedule_error_seconds,
        preferred matches Some((hinted, day)) ==> (search.score(hinted, day) matches Some(score)
            ==> score.mean > search.config.cached_assignment_max_mean_error_seconds || score.max
            > search.config.max_stop_schedule_error_seconds),
    ensures
        search.outcome(preferred) matches Some(found) && {
            let score = search.score(trip, date)->0;
            ||| found == score
            ||| found.ranks_before(score, search.index.trips@) && {
                ||| found.mean < score.mean
                ||| found.mean == score.mean && found.max <= score.max
            }
        },
{
    assert(crate::matcher::near_stop(search.stops[k], date));
    new_match_is_best(search, trip, date);
}

/// The better of two matches ranks first: by the smaller mean error, then by the smaller
/// maximum, then by a destination that matches, then by fewer skipped stops; of two that fit as
/// well, by the earlier day, then by the id of the trip and then by its number.
pub proof fn better_match_ranks_first(
    one: TripMatch,
    other: TripMatch,
    trips: Seq<IndexedTrip>,
)
    ensures
        ({
            let first = one.ranks_before(other, trips) && !other.ranks_before(one, trips);
            let id = trips[one.trip as int].trip_id@;
            let other_id = trips[other.trip as int].trip_id@;
            let same_errors = one.mean == other.mean && one.max == other.max;
            let same_fit = same_errors && one.destination_matches == other.destination_matches
                && one.skipped == other.skipped;
            &&& one.mean < other.mean ==> first
            &&& one.mean == other.mean && one.max < other.max ==> first
            &&& same_errors && one.destination_matches && !other.destination_matches ==> first
            &&& same_errors && one.destination_matches == other.destination_matches && one.skipped
                < other.skipped ==> first
            &&& same_fit && one.date < other.date ==> first
            &&& same_fit && one.date == other.date && crate::text::text_before(id, other_id)
                ==> first
            &&& same_fit && one.date == other.date && id == other_id && one.trip < other.trip
                ==> first
        }),
{
    let id = trips[one.trip as int].trip_id@;
    let other_id = trips[other.trip as int].trip_id@;
    crate::text::text_order_irreflexive(id);
    if crate::text::text_before(id, other_id) && crate::text::text_before(other_id, id) {
        crate::text::text_order_transitive(id, other_id, id);
    }
}

/// A train is looked for among the trips of the line of its first row, trimmed and in upper
/// case, with the common form of the destination of that row, at the stops that its rows say.
pub proof fn train_is_looked_for_by_rows(
    index: crate::index::MartaScheduleIndex,
    rows: Seq<MartaTrainRow>,
    config: crate::matcher::MatcherConfig,
    preferred: Option<(usize, i32)>,
)
    ensures
        rows.len() == 0 ==> crate::matcher::train_match(index, rows, config, preferred) is None,
        rows.len() > 0 ==> crate::matcher::train_match(index, rows, config, preferred) == (Search {
            index,
            line: crate::text::uppercased(crate::text::trimmed(rows[0].line@)),
            destination: crate::names::station_name(rows[0].destination@),
            stops: crate::observation::train_stops(index.station_aliases@, rows),
            config,
        }).outcome(preferred),
{
}

proof fn lemma_trip_arrival_is_of_trip(
    trip: IndexedTrip,
    pattern: Pattern,
    number: int,
    station: StationId,
    stops: int,
    entry: ScheduledStopRef,
)
    requires
        stops <= pattern.stations@.len(),
        crate::index::trip_arrivals(trip, pattern, number, station, stops).count(entry) > 0,
    ensures
        entry.trip_index == number as u32,
        exists|at: int|
            0 <= at < stops && #[trigger] pattern.stations@[at] == station
                && trip.arrival_seconds@[at] == Some(entry.seconds),
    decreases stops,
{
    if stops > 0 {
        let before = crate::index::trip_arrivals(trip, pattern, number, station, stops - 1);
        if before.count(entry) > 0 {
            lemma_trip_arrival_is_of_trip(trip, pattern, number, station, stops - 1, entry);
        } else {
            assert(pattern.stations@[stops - 1] == station);
        }
    }
}

proof fn lemma_line_arrival_is_of_trip(
    trips: Seq<IndexedTrip>,
    patterns: Seq<Pattern>,
    line: Seq<char>,
    station: StationId,
    count: int,
    entry: ScheduledStopRef,
)
    requires
        0 <= count <= trips.len() <= 0x1_0000_0000,
        crate::index::line_arrivals(trips, patterns, line, station, count).count(entry) > 0,
    ensures
        entry.trip_index < count,
        ({
            let trip = trips[entry.trip_index as int];
            let pattern = patterns[trip.pattern_id as int];
            &&& pattern.line@ == line
            &&& exists|at: int|
                0 <= at < pattern.stations@.len() && #[trigger] pattern.stations@[at] == station
                    && trip.arrival_seconds@[at] == Some(entry.seconds)
        }),
    decreases count,
{
    if count > 0 {
        let before = crate::index::line_arrivals(trips, patterns, line, station, count - 1);
        if before.count(entry) > 0 {
            lemma_line_arrival_is_of_trip(trips, patterns, line, station, count - 1, entry);
        } else {
            let trip = trips[count - 1];
            let pattern = patterns[trip.pattern_id as int];
            lemma_trip_arrival_is_of_trip(
                trip,
                pattern,
                count - 1,
                station,
                pattern.stations@.len() as int,
                entry,
            );
        }
    }
}

/// The schedule of a line at a station lists nothing but trips of that line that stop there, at
/// their arrival times.
pub proof fn schedule_lists_only_trips(
    index: crate::index::MartaScheduleIndex,
    line: Seq<char>,
    station: StationId,
    i: int,
)
    requires
        index.valid(),
        0 <= i < index.scheduled(line, station).len(),
    ensures
        ({
            let entry = index.scheduled(line, station)[i];
            let trip = index.trips@[entry.trip_index as int];
            let pattern = index.patterns@[trip.pattern_id as int];
            &&& entry.trip_index < index.trips@.len()
            &&& pattern.line@ == line
            &&& exists|at: int|
                0 <= at < pattern.stations@.len() && #[trigger] pattern.stations@[at] == station
                    && trip.arrival_seconds@[at] == Some(entry.seconds)
        }),
{
    broadcast use vstd::seq_lib::group_to_multiset_ensures;

    let list = index.scheduled(line, station);
    assert(list.contains(list[i]));
    assert(list.to_multiset().count(list[i]) > 0);
    lemma_line_arrival_is_of_trip(
        index.trips@,
        index.patterns@,
        line,
        station,
        index.trips@.len() as int,
        list[i],
    );
}

/// A second is in the window where it is at most the tolerance before or after the target; a
/// negative tolerance leaves the target alone.
pub proof fn window_is_tolerance_wide(seconds: u32, target: int, tolerance: int)
    ensures
        tolerance >= 0 ==> (crate::index::in_window(seconds, target, tolerance) <==> seconds
            - target <= tolerance && target - seconds <= tolerance),
        tolerance < 0 ==> (crate::index::in_window(seconds, target, tolerance) <==> seconds
            == target),
{
}

/// A match gives each observed stop, by its row, the first position of the trip that fits it
/// after the position of the stop before: no other way to place the stops in order has an
/// earlier position for any of them.
pub proof fn match_places_stops_early(search: Search, trip: usize, date: i32, positions: Seq<int>)
    requires
        search.index.valid(),
        rows_are_numbers(search.stops),
        search.score(trip, date) is Some,
        positions.len() == search.stops.len(),
        crate::alignment::stands_at(
            search.index.patterns@[search.index.trips@[trip as int].pattern_id as int].stations@,
            search.stops,
            positions,
        ),
    ensures
        forall|k: int|
            0 <= k < search.stops.len() ==> {
                let pair = #[trigger] (search.score(trip, date)->0).positions[k];
                pair.0 == search.stops[k].row && pair.1 <= positions[k]
            },
{
    let found = search.score(trip, date)->0;
    let indexed = search.index.trips@[trip as int];
    let pattern = search.index.patterns@[indexed.pattern_id as int];
    let placed = crate::alignment::aligned(
        pattern.stations@,
        search.stops,
        search.stops.len() as int,
    )->0;
    lemma_score_sound(search, trip, date);
    crate::alignment::alignment_fits(pattern.stations@, search.stops, search.stops.len() as int);
    crate::alignment::alignment_is_complete(pattern.stations@, search.stops, positions);
    assert forall|k: int| 0 <= k < search.stops.len() implies ({
        let pair = #[trigger] found.positions[k];
        pair.0 == search.stops[k].row && pair.1 <= positions[k]
    }) by {
        lemma_position_held(pattern, search.stops, placed, k);
        assert(found.positions[k].1 == placed[k]);
    }
}

} // verus!
