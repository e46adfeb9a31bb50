//! Finding the scheduled trip that a train runs.
use vstd::prelude::*;

use crate::aliases::StationId;
use crate::alignment::{align_pattern, count_skipped_stops, score_schedule};
use crate::index::{
    runs_on_day, IndexedTrip, MartaScheduleIndex, ScheduledStopRef, TripIndex,
};
use crate::models::MartaTrainRow;
use crate::names::{normalize_line, normalize_station_name};
use crate::observation::{build_observations, Observation, ObservedStop};
use crate::ordered::insert_ascending;
use crate::text::is_text_before;
use crate::time::{CivilTime, LocalDateTime};

verus! {

/// How close a train must be to the schedule of a trip.
#[derive(Clone, Debug)]
pub struct MatcherConfig {
    /// The largest mean difference between the scheduled times that the feed implies and those
    /// of a trip.
    pub max_mean_schedule_error_seconds: i64,
    /// The largest difference at a single stop.
    pub max_stop_schedule_error_seconds: i64,
    /// The largest mean difference for a trip that the train was already assigned to.
    pub cached_assignment_max_mean_error_seconds: i64,
    /// How many stops a new assignment needs.
    pub minimum_resolved_stops: usize,
}

impl Default for MatcherConfig {
    fn default() -> (config: Self)
        ensures
            config.max_mean_schedule_error_seconds == 8 * 60,
            config.max_stop_schedule_error_seconds == 15 * 60,
            config.cached_assignment_max_mean_error_seconds == 10 * 60,
            config.minimum_resolved_stops == 2,
    {
        MatcherConfig {
            max_mean_schedule_error_seconds: 8 * 60,
            max_stop_schedule_error_seconds: 15 * 60,
            cached_assignment_max_mean_error_seconds: 10 * 60,
            minimum_resolved_stops: 2,
        }
    }
}

/// A trip on a service day, and how well a train fits it.
#[derive(Clone, Debug)]
pub struct MatchScore {
    pub trip_index: TripIndex,
    pub service_date: i32,
    /// The row of each observed stop, and its position in the trip.
    pub row_stop_positions: Vec<(usize, usize)>,
    pub mean_abs_error_seconds: i64,
    pub max_abs_error_seconds: i64,
    pub destination_matches: bool,
    pub skipped_pattern_stops: usize,
}

/// What a match says.
pub struct TripMatch {
    pub trip: usize,
    pub date: i32,
    pub positions: Seq<(usize, usize)>,
    pub mean: int,
    pub max: int,
    pub destination_matches: bool,
    pub skipped: int,
}

impl View for MatchScore {
    type V = TripMatch;

    open spec fn view(&self) -> TripMatch {
        TripMatch {
            trip: self.trip_index,
            date: self.service_date,
            positions: self.row_stop_positions@,
            mean: self.mean_abs_error_seconds as int,
            max: self.max_abs_error_seconds as int,
            destination_matches: self.destination_matches,
            skipped: self.skipped_pattern_stops as int,
        }
    }
}

impl TripMatch {
    /// Whether this match fits better: by the mean error, then by the maximum error, then by a
    /// fitting destination, then by fewer skipped stops.
    pub open spec fn better_than(self, other: TripMatch) -> bool {
        ||| self.mean < other.mean
        ||| self.mean == other.mean && self.max < other.max
        ||| self.mean == other.mean && self.max == other.max && self.destination_matches
            && !other.destination_matches
        ||| self.mean == other.mean && self.max == other.max && self.destination_matches
            == other.destination_matches && self.skipped < other.skipped
    }

    /// Whether this match comes before another: by its day, then by the id and the number of
    /// its trip.
    pub open spec fn earlier_than(self, other: TripMatch, trips: Seq<IndexedTrip>) -> bool {
        let id = trips[self.trip as int].trip_id@;
        let other_id = trips[other.trip as int].trip_id@;
        ||| self.date < other.date
        ||| self.date == other.date && crate::text::text_before(id, other_id)
        ||| self.date == other.date && id == other_id && self.trip < other.trip
    }

    /// Whether this match is preferred: it fits better, or as well and comes before the other.
    pub open spec fn ranks_before(self, other: TripMatch, trips: Seq<IndexedTrip>) -> bool {
        ||| self.better_than(other)
        ||| !other.better_than(self) && self.earlier_than(other, trips)
    }
}

/// Of two matches for different trips or days, exactly one ranks before the other.
pub proof fn ranks_one_way(a: TripMatch, b: TripMatch, trips: Seq<IndexedTrip>)
    requires
        a.trip != b.trip || a.date != b.date,
    ensures
        a.ranks_before(b, trips) <==> !b.ranks_before(a, trips),
{
    let id = trips[a.trip as int].trip_id@;
    let other = trips[b.trip as int].trip_id@;
    crate::text::text_order_total(id, other);
    crate::text::text_order_irreflexive(id);
    if crate::text::text_before(id, other) && crate::text::text_before(other, id) {
        crate::text::text_order_transitive(id, other, id);
    }
}

/// Ranking is transitive.
pub proof fn ranks_transitive(
    a: TripMatch,
    b: TripMatch,
    c: TripMatch,
    trips: Seq<IndexedTrip>,
)
    requires
        a.ranks_before(b, trips),
        b.ranks_before(c, trips),
    ensures
        a.ranks_before(c, trips),
{
    let first = trips[a.trip as int].trip_id@;
    let second = trips[b.trip as int].trip_id@;
    let third = trips[c.trip as int].trip_id@;
    if crate::text::text_before(first, second) && crate::text::text_before(second, third) {
        crate::text::text_order_transitive(first, second, third);
    }
}

impl MatchScore {
    /// Whether this match fits better.
    pub fn better_than(&self, other: &MatchScore) -> (answer: bool)
        ensures
            answer == self@.better_than(other@),
    {
        self.mean_abs_error_seconds < other.mean_abs_error_seconds || (self.mean_abs_error_seconds
            == other.mean_abs_error_seconds && self.max_abs_error_seconds
            < other.max_abs_error_seconds) || (self.mean_abs_error_seconds
            == other.mean_abs_error_seconds && self.max_abs_error_seconds
            == other.max_abs_error_seconds && self.destination_matches
            && !other.destination_matches) || (self.mean_abs_error_seconds
            == other.mean_abs_error_seconds && self.max_abs_error_seconds
            == other.max_abs_error_seconds && self.destination_matches == other.destination_matches
            && self.skipped_pattern_stops < other.skipped_pattern_stops)
    }

    /// Whether this match is preferred.
    fn is_preferred(&self, other: &MatchScore, trips: &Vec<IndexedTrip>) -> (answer: bool)
        requires
            self.trip_index < trips@.len(),
            other.trip_index < trips@.len(),
        ensures
            answer == self@.ranks_before(other@, trips@),
    {
        if self.better_than(other) {
            return true;
        }
        if other.better_than(self) {
            return false;
        }
        if self.service_date != other.service_date {
            return self.service_date < other.service_date;
        }
        let id = &trips[self.trip_index].trip_id;
        let other_id = &trips[other.trip_index].trip_id;
        if *id == *other_id {
            proof {
                crate::text::text_order_irreflexive(id@);
            }
            return self.trip_index < other.trip_index;
        }
        is_text_before(id.as_str(), other_id.as_str())
    }
}

/// The positions of an alignment as pairs of the number of an observed stop and its position.
pub open spec fn alignment_pairs(positions: Seq<int>) -> Seq<(usize, usize)> {
    Seq::new(positions.len(), |k: int| (k as usize, positions[k] as usize))
}

/// The positions of an alignment as pairs of the row of an observed stop and its position.
pub open spec fn row_positions(stops: Seq<ObservedStop>, positions: Seq<int>) -> Seq<
    (usize, usize),
> {
    Seq::new(positions.len(), |k: int| (stops[k].row as usize, positions[k] as usize))
}

/// Whether a trip goes to a destination; without a destination every trip does.
pub open spec fn goes_to(trip: IndexedTrip, destination: Seq<char>) -> bool {
    destination.len() == 0 || (trip.headsign matches Some(headsign) && headsign@ == destination)
}

/// How well a train fits a trip on a day: not at all where the trip is of another line, does not
/// run that day, does not visit the stops in order or has no arrival times there.
pub open spec fn trip_score(
    index: MartaScheduleIndex,
    line: Seq<char>,
    destination: Seq<char>,
    stops: Seq<ObservedStop>,
    trip_index: usize,
    date: i32,
) -> Option<TripMatch> {
    let trip = index.trips@[trip_index as int];
    let pattern = index.patterns@[trip.pattern_id as int];
    if trip_index >= index.trips@.len() || pattern.line@ != line || !crate::index::service_runs(
        index.services@,
        trip.service_id@,
        date,
    ) {
        None
    } else {
        match crate::alignment::aligned(pattern.stations@, stops, stops.len() as int) {
            None => None,
            Some(positions) => match crate::alignment::schedule_score(
                trip,
                date,
                stops,
                alignment_pairs(positions),
            ) {
                None => None,
                Some((mean, max)) => Some(
                    TripMatch {
                        trip: trip_index,
                        date,
                        positions: row_positions(stops, positions),
                        mean,
                        max,
                        destination_matches: goes_to(trip, destination),
                        skipped: crate::alignment::skipped(positions, positions.len() as int),
                    },
                ),
            },
        }
    }
}

/// A search for the trip of a train: what it is looked up in, and what is known of the train.
pub struct Search {
    pub index: MartaScheduleIndex,
    pub line: Seq<char>,
    pub destination: Seq<char>,
    pub stops: Seq<ObservedStop>,
    pub config: MatcherConfig,
}

impl Search {
    /// How well the train fits a trip on a day.
    pub open spec fn score(self, trip_index: usize, date: i32) -> Option<TripMatch> {
        trip_score(self.index, self.line, self.destination, self.stops, trip_index, date)
    }

    /// Whether a match is close enough for a trip that the train was already assigned to.
    pub open spec fn keeps(self, score: TripMatch) -> bool {
        &&& score.mean <= self.config.cached_assignment_max_mean_error_seconds
        &&& score.max <= self.config.max_stop_schedule_error_seconds
    }

    /// Whether a match is close enough for a new assignment.
    pub open spec fn accepts(self, score: TripMatch) -> bool {
        &&& score.mean <= self.config.max_mean_schedule_error_seconds
        &&& score.max <= self.config.max_stop_schedule_error_seconds
    }

    /// How many scheduled arrivals the first `count` stations of a stop have.
    pub open spec fn arrivals_at(self, stations: Seq<StationId>, count: int) -> int
        decreases count,
    {
        if count <= 0 {
            0
        } else {
            self.arrivals_at(stations, count - 1) + self.index.scheduled(
                self.line,
                stations[count - 1],
            ).len()
        }
    }

    /// How many scheduled arrivals the stations of a stop have.
    pub open spec fn arrivals(self, stop: int) -> int {
        self.arrivals_at(self.stops[stop].stations, self.stops[stop].stations.len() as int)
    }

    /// Among the first `count` stops, the first with the fewest scheduled arrivals, stops
    /// without any left aside.
    pub open spec fn rarest(self, count: int) -> Option<int>
        decreases count,
    {
        if count <= 0 {
            None
        } else {
            match self.rarest(count - 1) {
                None => if self.arrivals(count - 1) > 0 {
                    Some(count - 1)
                } else {
                    None
                },
                Some(stop) => if 0 < self.arrivals(count - 1) < self.arrivals(stop) {
                    Some(count - 1)
                } else {
                    Some(stop)
                },
            }
        }
    }

    /// Whether a trip is scheduled at a station close to a second of the service day.
    pub open spec fn calls_near(self, trip: usize, station: StationId, target: int) -> bool {
        exists|entry: ScheduledStopRef| #[trigger]
            self.index.scheduled(self.line, station).contains(entry) && entry.trip_index == trip
                && crate::index::in_window(
                entry.seconds,
                target,
                self.config.max_stop_schedule_error_seconds as int,
            )
    }

    /// Whether a trip is scheduled at one of the first `count` stations close to a second of
    /// the service day.
    pub open spec fn calls_near_any(
        self,
        trip: usize,
        stations: Seq<StationId>,
        count: int,
        target: int,
    ) -> bool {
        exists|i: int|
            0 <= i < count && #[trigger] self.calls_near(trip, stations[i], target)
    }

    /// Whether a day may be the service day of the train: that of an event or of a scheduled
    /// time, or the day before.
    pub open spec fn near_day(self, date: i32) -> bool {
        near_days(self.stops, self.stops.len() as int, date)
    }

    /// Whether a trip on a day is worth a closer look: the day may be the service day, and the
    /// trip is scheduled at a station of the rarest stop close to the time that was observed
    /// there.
    pub open spec fn candidate(self, trip: usize, date: i32) -> bool {
        &&& self.near_day(date)
        &&& self.rarest(self.stops.len() as int) matches Some(stop) && self.calls_near_any(
            trip,
            self.stops[stop].stations,
            self.stops[stop].stations.len() as int,
            since_midnight(self.stops[stop].scheduled, date),
        )
    }

    /// Whether a trip on a day is a candidate that the train fits well enough.
    pub open spec fn eligible(self, trip: usize, date: i32) -> bool {
        &&& self.candidate(trip, date)
        &&& self.score(trip, date) matches Some(score) && self.accepts(score)
    }

    /// Whether a trip on a day is eligible and ranks before all others that are.
    pub open spec fn best(self, trip: usize, date: i32) -> bool {
        &&& self.eligible(trip, date)
        &&& forall|t: usize, d: i32|
            (t != trip || d != date) && #[trigger] self.eligible(t, d) ==> (self.score(
                trip,
                date,
            )->0).ranks_before(self.score(t, d)->0, self.index.trips@)
    }

    /// The match with the best trip.
    pub open spec fn new_match(self) -> Option<TripMatch> {
        if exists|trip: usize, date: i32| self.best(trip, date) {
            let (trip, date) = choose|trip: usize, date: i32| self.best(trip, date);
            self.score(trip, date)
        } else {
            None
        }
    }

    /// The match of the train: with the preferred trip where it fits that, else with the best
    /// trip where enough stops were observed.
    pub open spec fn outcome(self, preferred: Option<(usize, i32)>) -> Option<TripMatch> {
        if self.stops.len() == 0 {
            None
        } else if preferred is Some && self.score((preferred->0).0, (preferred->0).1) is Some
            && self.keeps(self.score((preferred->0).0, (preferred->0).1)->0) {
            self.score((preferred->0).0, (preferred->0).1)
        } else if self.stops.len() < self.config.minimum_resolved_stops {
            None
        } else {
            self.new_match()
        }
    }
}

/// Whether a day is that of the event or of the scheduled time of one of the first `count`
/// stops, or the day before.
pub open spec fn near_days(stops: Seq<ObservedStop>, count: int, date: i32) -> bool {
    exists|k: int| 0 <= k < count && near_stop(#[trigger] stops[k], date)
}

/// Whether a day is that of the event or of the scheduled time of a stop, or the day before.
pub open spec fn near_stop(stop: ObservedStop, date: i32) -> bool {
    ||| date == stop.event.local.day
    ||| date == stop.event.local.day - 1
    ||| date == stop.scheduled.day
    ||| date == stop.scheduled.day - 1
}

/// The seconds from the midnight of a service day to a local time.
pub open spec fn since_midnight(time: LocalDateTime, date: i32) -> int {
    time@.since(CivilTime { day: date as int, second: 0, leap: false })
}

/// There is at most one best trip and day.
pub proof fn best_is_unique(
    search: Search,
    trip: usize,
    date: i32,
    other_trip: usize,
    other_date: i32,
)
    requires
        search.best(trip, date),
        search.best(other_trip, other_date),
    ensures
        trip == other_trip,
        date == other_date,
{
    if trip != other_trip || date != other_date {
        assert(search.eligible(trip, date) && search.eligible(other_trip, other_date));
        ranks_one_way(
            search.score(trip, date)->0,
            search.score(other_trip, other_date)->0,
            search.index.trips@,
        );
    }
}

/// The days that may be the service day of a train, in ascending order.
pub fn candidate_service_dates(observations: &Vec<Observation>) -> (dates: Vec<i32>)
    requires
        crate::observation::observations_valid(crate::observation::observed_stops(observations@)),
    ensures
        crate::ordered::ascending(dates@),
        forall|date: i32| #[trigger]
            dates@.contains(date) <==> near_days(
                crate::observation::observed_stops(observations@),
                observations@.len() as int,
                date,
            ),
{
    let ghost stops = crate::observation::observed_stops(observations@);
    let mut dates: Vec<i32> = Vec::new();
    for i in 0..observations.len()
        invariant
            stops == crate::observation::observed_stops(observations@),
            crate::observation::observations_valid(stops),
            crate::ordered::ascending(dates@),
            forall|date: i32| #[trigger]
                dates@.contains(date) <==> near_days(stops, i as int, date),
    {
        let ghost before = dates@;
        let observation = &observations[i];
        proof {
            assert(stops[i as int].valid());
            assert(stops[i as int] == observation@);
        }
        insert_ascending(&mut dates, observation.event_time.local.day);
        let ghost first = dates@;
        insert_ascending(&mut dates, observation.event_time.local.day - 1);
        let ghost second = dates@;
        insert_ascending(&mut dates, observation.scheduled_local.day);
        let ghost third = dates@;
        insert_ascending(&mut dates, observation.scheduled_local.day - 1);
        proof {
            assert forall|date: i32| #[trigger]
                dates@.contains(date) <==> near_days(stops, i + 1, date) by {
                assert(dates@.to_set().contains(date) <==> dates@.contains(date));
                assert(third.to_set().contains(date) <==> third.contains(date));
                assert(second.to_set().contains(date) <==> second.contains(date));
                assert(first.to_set().contains(date) <==> first.contains(date));
                assert(before.to_set().contains(date) <==> before.contains(date));
                assert(dates@.contains(date) <==> before.contains(date) || near_stop(
                    stops[i as int],
                    date,
                ));
                if near_days(stops, i as int, date) {
                    let k = choose|k: int| 0 <= k < i && near_stop(#[trigger] stops[k], date);
                    assert(near_stop(stops[k], date));
                }
            }
        }
    }
    dates
}

/// Measures how well a train fits a trip on a day.
pub fn score_specific_trip(
    index: &MartaScheduleIndex,
    trip_index: TripIndex,
    service_date: i32,
    line: &String,
    destination: &String,
    observations: &Vec<Observation>,
) -> (result: Option<MatchScore>)
    requires
        index.valid(),
        crate::observation::observations_valid(crate::observation::observed_stops(observations@)),
    ensures
        ({
            let expected = trip_score(
                *index,
                line@,
                destination@,
                crate::observation::observed_stops(observations@),
                trip_index,
                service_date,
            );
            match result {
                Some(score) => expected == Some(score@) && trip_index < index.trips@.len(),
                None => expected is None,
            }
        }),
{
    let ghost stops = crate::observation::observed_stops(observations@);
    if trip_index >= index.trips.len() {
        return None;
    }
    let trip = &index.trips[trip_index];
    let pattern = &index.patterns[trip.pattern_id];
    if pattern.line != *line {
        return None;
    }
    if !runs_on_day(&index.services, &trip.service_id, service_date) {
        return None;
    }
    let alignment = match align_pattern(&pattern.stations, observations) {
        Some(alignment) => alignment,
        None => return None,
    };
    let ghost positions = crate::alignment::positions_of(alignment@);
    let pattern_length: usize = pattern.stations.len();
    proof {
        crate::alignment::alignment_fits(pattern.stations@, stops, stops.len() as int);
        assert forall|k: int| 0 <= k < alignment@.len() implies (#[trigger] alignment@[k]).1
            < pattern_length by {
            assert(positions[k] == alignment@[k].1);
        }
        if positions.len() > 0 {
            crate::alignment::skipped_is_span(positions);
            assert(positions.last() < pattern_length);
            assert(positions[0] >= 0);
        }
        assert(alignment@ =~= alignment_pairs(positions)) by {
            assert forall|k: int| 0 <= k < alignment@.len() implies #[trigger] alignment@[k]
                == alignment_pairs(positions)[k] by {
                assert(positions[k] == alignment@[k].1);
            }
        }
    }
    let skipped_pattern_stops = count_skipped_stops(&alignment);
    let (mean, max) = match score_schedule(trip, service_date, &alignment, observations) {
        Some(score) => score,
        None => return None,
    };
    let destination_matches = destination.as_str().is_empty() || match &trip.headsign {
        Some(headsign) => *headsign == *destination,
        None => false,
    };
    let mut row_stop_positions: Vec<(usize, usize)> = Vec::new();
    for i in 0..alignment.len()
        invariant
            alignment@.len() == observations@.len(),
            stops == crate::observation::observed_stops(observations@),
            positions == crate::alignment::positions_of(alignment@),
            forall|k: int| 0 <= k < alignment@.len() ==> (#[trigger] alignment@[k]).0 == k,
            row_stop_positions@ == row_positions(stops, positions).take(i as int),
    {
        let (observation_index, stop_index) = alignment[i];
        row_stop_positions.push((observations[observation_index].row_index, stop_index));
        proof {
            assert(positions[i as int] == stop_index);
            assert(stops[i as int].row == observations@[i as int].row_index);
            assert(row_stop_positions@ =~= row_positions(stops, positions).take(i + 1));
        }
    }
    proof {
        assert(row_positions(stops, positions).take(alignment@.len() as int) =~= row_positions(
            stops,
            positions,
        ));
    }
    Some(
        MatchScore {
            trip_index,
            service_date,
            row_stop_positions,
            mean_abs_error_seconds: mean,
            max_abs_error_seconds: max,
            destination_matches,
            skipped_pattern_stops,
        },
    )
}

/// Counts the scheduled arrivals of a line at the stations of a stop.
fn count_arrivals(
    index: &MartaScheduleIndex,
    line: &String,
    stations: &Vec<StationId>,
    Ghost(search): Ghost<Search>,
) -> (result: u128)
    requires
        search.index == *index,
        search.line == line@,
    ensures
        result == search.arrivals_at(stations@, stations@.len() as int),
{
    let mut result: u128 = 0;
    for i in 0..stations.len()
        invariant
            search.index == *index,
            search.line == line@,
            result == search.arrivals_at(stations@, i as int),
            result <= i * 0xffff_ffff_ffff_ffff,
    {
        let count = index.schedule_entry_count(line, stations[i]);
        result += count as u128;
    }
    result
}

/// The first stop with the fewest scheduled arrivals, stops without any left aside.
fn find_rarest(
    index: &MartaScheduleIndex,
    line: &String,
    observations: &Vec<Observation>,
    Ghost(search): Ghost<Search>,
) -> (result: Option<usize>)
    requires
        search.index == *index,
        search.line == line@,
        search.stops == crate::observation::observed_stops(observations@),
    ensures
        match result {
            Some(stop) => stop < observations@.len() && search.rarest(observations@.len() as int)
                == Some(stop as int),
            None => search.rarest(observations@.len() as int) is None,
        },
{
    let mut best: Option<(usize, u128)> = None;
    for i in 0..observations.len()
        invariant
            search.index == *index,
            search.line == line@,
            search.stops == crate::observation::observed_stops(observations@),
            match best {
                Some((stop, arrivals)) => {
                    &&& stop < i
                    &&& arrivals == search.arrivals(stop as int)
                    &&& search.rarest(i as int) == Some(stop as int)
                },
                None => search.rarest(i as int) is None,
            },
    {
        let arrivals = count_arrivals(
            index,
            line,
            &observations[i].station_candidates,
            Ghost(search),
        );
        proof {
            assert(search.stops[i as int].stations == observations@[i as int].station_candidates@);
            assert(arrivals == search.arrivals(i as int));
        }
        if arrivals > 0 {
            best = match best {
                None => Some((i, arrivals)),
                Some((stop, fewest)) => if arrivals < fewest {
                    Some((i, arrivals))
                } else {
                    Some((stop, fewest))
                },
            };
        }
    }
    match best {
        Some((stop, _)) => Some(stop),
        None => None,
    }
}

/// Adds the trips that are scheduled at a station close to a second of a service day.
fn add_station_trips(
    found: &mut Vec<(TripIndex, i32)>,
    index: &MartaScheduleIndex,
    line: &String,
    station: StationId,
    target_seconds: i64,
    date: i32,
    config: &MatcherConfig,
    Ghost(search): Ghost<Search>,
)
    requires
        index.valid(),
        search.index == *index,
        search.line == line@,
        search.config == *config,
    ensures
        forall|t: usize, d: i32| #[trigger]
            final(found)@.contains((t, d)) <==> old(found)@.contains((t, d)) || (d == date
                && search.calls_near(t, station, target_seconds as int)),
{
    let entries = index.trip_candidates_at(
        line,
        station,
        target_seconds,
        config.max_stop_schedule_error_seconds,
    );
    let ghost keep = |entry: ScheduledStopRef|
        crate::index::in_window(
            entry.seconds,
            target_seconds as int,
            config.max_stop_schedule_error_seconds as int,
        );
    let ghost all = search.index.scheduled(search.line, station);
    for i in 0..entries.len()
        invariant
            forall|t: usize, d: i32| #[trigger]
                found@.contains((t, d)) <==> old(found)@.contains((t, d)) || (d == date
                    && entered(entries@, i as int, t)),
    {
        let ghost before = found@;
        let trip = entries[i].trip_index as usize;
        found.push((trip, date));
        proof {
            assert forall|t: usize, d: i32| #[trigger]
                found@.contains((t, d)) <==> old(found)@.contains((t, d)) || (d == date && entered(
                    entries@,
                    i + 1,
                    t,
                )) by {
                assert(before.contains((t, d)) <==> old(found)@.contains((t, d)) || (d == date
                    && entered(entries@, i as int, t)));
                crate::sequences::lemma_push_contains(before, (trip, date), (t, d));
                if entered(entries@, i as int, t) {
                    let k = choose|k: int|
                        0 <= k < i && (#[trigger] entries@[k]).trip_index == t;
                    assert(entries@[k].trip_index == t);
                }
                assert(entries@[i as int].trip_index == trip);
            }
        }
    }
    proof {
        assert forall|t: usize| #[trigger]
            search.calls_near(t, station, target_seconds as int) <==> entered(
                entries@,
                entries@.len() as int,
                t,
            ) by {
            if search.calls_near(t, station, target_seconds as int) {
                let entry = choose|entry: ScheduledStopRef| #[trigger]
                    all.contains(entry) && entry.trip_index == t && crate::index::in_window(
                        entry.seconds,
                        target_seconds as int,
                        search.config.max_stop_schedule_error_seconds as int,
                    );
                crate::sequences::lemma_filter_keeps(all, keep, entry);
                let k = choose|k: int| 0 <= k < entries@.len() && entries@[k] == entry;
                assert(entries@[k].trip_index == t);
            }
            if entered(entries@, entries@.len() as int, t) {
                let k = choose|k: int|
                    0 <= k < entries@.len() && (#[trigger] entries@[k]).trip_index == t;
                crate::sequences::lemma_filter_member(all, keep, k);
                assert(all.contains(entries@[k]));
            }
        }
        assert forall|t: usize, d: i32| #[trigger]
            found@.contains((t, d)) <==> old(found)@.contains((t, d)) || (d == date
                && search.calls_near(t, station, target_seconds as int)) by {
            assert(search.calls_near(t, station, target_seconds as int) <==> entered(
                entries@,
                entries@.len() as int,
                t,
            ));
        }
    }
}

/// Whether one of the first `count` entries is of a trip.
spec fn entered(entries: Seq<ScheduledStopRef>, count: int, trip: usize) -> bool {
    exists|k: int| 0 <= k < count && (#[trigger] entries[k]).trip_index == trip
}

/// Whether one of the first `count` days is `date`, and a trip is scheduled at a station of the
/// stop close to the time that was observed there.
spec fn called_on(
    search: Search,
    stop: ObservedStop,
    dates: Seq<i32>,
    count: int,
    trip: usize,
    date: i32,
) -> bool {
    &&& exists|j: int| 0 <= j < count && #[trigger] dates[j] == date
    &&& search.calls_near_any(
        trip,
        stop.stations,
        stop.stations.len() as int,
        since_midnight(stop.scheduled, date),
    )
}

/// Collects the trips that are scheduled at a station of a stop close to the time that was
/// observed there, on each of the days.
fn collect_trips(
    index: &MartaScheduleIndex,
    line: &String,
    observation: &Observation,
    dates: &Vec<i32>,
    config: &MatcherConfig,
    Ghost(search): Ghost<Search>,
) -> (found: Vec<(TripIndex, i32)>)
    requires
        index.valid(),
        observation@.valid(),
        search.index == *index,
        search.line == line@,
        search.config == *config,
    ensures
        forall|t: usize, d: i32| #[trigger]
            found@.contains((t, d)) <==> called_on(
                search,
                observation@,
                dates@,
                dates@.len() as int,
                t,
                d,
            ),
{
    let ghost stop = observation@;
    let stations = &observation.station_candidates;
    let mut found: Vec<(TripIndex, i32)> = Vec::new();
    for i in 0..dates.len()
        invariant
            index.valid(),
            stop == observation@,
            stop.valid(),
            stations@ == stop.stations,
            search.index == *index,
            search.line == line@,
            search.config == *config,
            forall|t: usize, d: i32| #[trigger]
                found@.contains((t, d)) <==> called_on(search, stop, dates@, i as int, t, d),
    {
        let date = dates[i];
        let ghost before = found@;
        let target = observation.scheduled_local.seconds_since(
            &LocalDateTime { day: date, second: 0, nanosecond: 0 },
        );
        proof {
            assert(target == since_midnight(stop.scheduled, date));
        }
        for k in 0..stations.len()
            invariant
                index.valid(),
                stations@ == stop.stations,
                search.index == *index,
                search.line == line@,
                search.config == *config,
                forall|t: usize, d: i32| #[trigger]
                    found@.contains((t, d)) <==> before.contains((t, d)) || (d == date
                        && search.calls_near_any(t, stop.stations, k as int, target as int)),
        {
            let ghost inner = found@;
            add_station_trips(
                &mut found,
                index,
                line,
                stations[k],
                target,
                date,
                config,
                Ghost(search),
            );
            proof {
                assert forall|t: usize, d: i32| #[trigger]
                    found@.contains((t, d)) <==> before.contains((t, d)) || (d == date
                        && search.calls_near_any(t, stop.stations, k + 1, target as int)) by {
                    assert(inner.contains((t, d)) <==> before.contains((t, d)) || (d == date
                        && search.calls_near_any(t, stop.stations, k as int, target as int)));
                    let near = search.calls_near(t, stop.stations[k as int], target as int);
                    if search.calls_near_any(t, stop.stations, k as int, target as int) {
                        let j = choose|j: int|
                            0 <= j < k && #[trigger] search.calls_near(
                                t,
                                stop.stations[j],
                                target as int,
                            );
                        assert(search.calls_near(t, stop.stations[j], target as int));
                    }
                }
            }
        }
        proof {
            assert forall|t: usize, d: i32| #[trigger]
                found@.contains((t, d)) <==> called_on(search, stop, dates@, i + 1, t, d) by {
                assert(before.contains((t, d)) <==> called_on(
                    search,
                    stop,
                    dates@,
                    i as int,
                    t,
                    d,
                ));
                assert(dates@[i as int] == date);
                if exists|j: int| 0 <= j < i && #[trigger] dates@[j] == d {
                    let j = choose|j: int| 0 <= j < i && #[trigger] dates@[j] == d;
                    assert(dates@[j] == d);
                }
            }
        }
    }
    found
}

/// The best of the first `count` pairs of a trip and a day that the train fits well enough.
spec fn best_of(
    search: Search,
    pairs: Seq<(usize, i32)>,
    count: int,
    trip: usize,
    date: i32,
) -> bool {
    &&& exists|i: int| 0 <= i < count && #[trigger] pairs[i] == (trip, date)
    &&& search.score(trip, date) matches Some(score) && search.accepts(score)
    &&& forall|i: int|
        0 <= i < count && #[trigger] pairs[i] != (trip, date) && fits(search, pairs[i])
            ==> (search.score(trip, date)->0).ranks_before(
            search.score(pairs[i].0, pairs[i].1)->0,
            search.index.trips@,
        )
}

/// Whether the train fits a trip on a day well enough.
spec fn fits(search: Search, pair: (usize, i32)) -> bool {
    search.score(pair.0, pair.1) matches Some(score) && search.accepts(score)
}

/// Picks the best of the trips and days that the train fits well enough.
fn pick_best(
    index: &MartaScheduleIndex,
    pairs: &Vec<(TripIndex, i32)>,
    line: &String,
    destination: &String,
    observations: &Vec<Observation>,
    config: &MatcherConfig,
    Ghost(search): Ghost<Search>,
) -> (result: Option<MatchScore>)
    requires
        index.valid(),
        crate::observation::observations_valid(crate::observation::observed_stops(observations@)),
        search == (Search {
            index: *index,
            line: line@,
            destination: destination@,
            stops: crate::observation::observed_stops(observations@),
            config: *config,
        }),
    ensures
        match result {
            Some(score) => {
                &&& search.score(score@.trip, score@.date) == Some(score@)
                &&& best_of(search, pairs@, pairs@.len() as int, score@.trip, score@.date)
            },
            None => forall|i: int| 0 <= i < pairs@.len() ==> !fits(search, #[trigger] pairs@[i]),
        },
{
    let mut best: Option<MatchScore> = None;
    for i in 0..pairs.len()
        invariant
            index.valid(),
            crate::observation::observations_valid(
                crate::observation::observed_stops(observations@),
            ),
            search == (Search {
                index: *index,
                line: line@,
                destination: destination@,
                stops: crate::observation::observed_stops(observations@),
                config: *config,
            }),
            match best {
                Some(score) => {
                    &&& score.trip_index < index.trips@.len()
                    &&& search.score(score@.trip, score@.date) == Some(score@)
                    &&& best_of(search, pairs@, i as int, score@.trip, score@.date)
                },
                None => none_fits(search, pairs@, i as int),
            },
    {
        let (trip_index, service_date) = pairs[i];
        let ghost old_best = best;
        let scored = score_specific_trip(
            index,
            trip_index,
            service_date,
            line,
            destination,
            observations,
        );
        if let Some(score) = scored {
            if score.mean_abs_error_seconds <= config.max_mean_schedule_error_seconds
                && score.max_abs_error_seconds <= config.max_stop_schedule_error_seconds {
                proof {
                    assert(pairs@[i as int] == (score@.trip, score@.date));
                    assert(fits(search, pairs@[i as int]));
                    if let Some(current) = old_best {
                        lemma_best_grows(search, pairs@, i as int, current@, score@);
                    }
                }
                let replace = match &best {
                    Some(current) => score.is_preferred(current, &index.trips),
                    None => true,
                };
                if replace {
                    best = Some(score);
                }
            } else {
                proof {
                    assert(!fits(search, pairs@[i as int]));
                    if let Some(current) = old_best {
                        lemma_best_stays(search, pairs@, i as int, current@);
                    }
                }
            }
        } else {
            proof {
                assert(!fits(search, pairs@[i as int]));
                if let Some(current) = old_best {
                    lemma_best_stays(search, pairs@, i as int, current@);
                }
            }
        }
    }
    best
}

/// None of the first `count` trips and days fits the train well enough.
spec fn none_fits(search: Search, pairs: Seq<(usize, i32)>, count: int) -> bool {
    forall|i: int| 0 <= i < count ==> !fits(search, #[trigger] pairs[i])
}

proof fn lemma_best_stays(search: Search, pairs: Seq<(usize, i32)>, count: int, best: TripMatch)
    requires
        0 <= count < pairs.len(),
        best_of(search, pairs, count, best.trip, best.date),
        !fits(search, pairs[count]) || pairs[count] == (best.trip, best.date),
    ensures
        best_of(search, pairs, count + 1, best.trip, best.date),
{
    let i = choose|i: int| 0 <= i < count && #[trigger] pairs[i] == (best.trip, best.date);
    assert(pairs[i] == (best.trip, best.date));
}

proof fn lemma_best_grows(
    search: Search,
    pairs: Seq<(usize, i32)>,
    count: int,
    best: TripMatch,
    score: TripMatch,
)
    requires
        0 <= count < pairs.len(),
        best_of(search, pairs, count, best.trip, best.date),
        search.score(best.trip, best.date) == Some(best),
        pairs[count] == (score.trip, score.date),
        search.score(score.trip, score.date) == Some(score),
        search.accepts(score),
    ensures
        score.ranks_before(best, search.index.trips@) ==> best_of(
            search,
            pairs,
            count + 1,
            score.trip,
            score.date,
        ),
        !score.ranks_before(best, search.index.trips@) ==> best_of(
            search,
            pairs,
            count + 1,
            best.trip,
            best.date,
        ),
{
    let trips = search.index.trips@;
    if score.trip == best.trip && score.date == best.date {
        lemma_best_stays(search, pairs, count, best);
    } else {
        ranks_one_way(score, best, trips);
        if score.ranks_before(best, trips) {
            assert forall|i: int|
                0 <= i < count + 1 && #[trigger] pairs[i] != (score.trip, score.date) && fits(
                    search,
                    pairs[i],
                ) implies score.ranks_before(search.score(pairs[i].0, pairs[i].1)->0, trips) by {
                if pairs[i] != (best.trip, best.date) {
                    ranks_transitive(
                        score,
                        best,
                        search.score(pairs[i].0, pairs[i].1)->0,
                        trips,
                    );
                }
            }
        } else {
            let i = choose|i: int| 0 <= i < count && #[trigger] pairs[i] == (best.trip, best.date);
            assert(pairs[i] == (best.trip, best.date));
        }
    }
}

/// Finds the trip of a train from what was observed of it.
pub fn match_observations(
    index: &MartaScheduleIndex,
    line: &String,
    destination: &String,
    observations: &Vec<Observation>,
    config: &MatcherConfig,
    preferred_trip: Option<(TripIndex, i32)>,
) -> (result: Option<MatchScore>)
    requires
        index.valid(),
        crate::observation::observations_valid(crate::observation::observed_stops(observations@)),
    ensures
        ({
            let expected = (Search {
                index: *index,
                line: line@,
                destination: destination@,
                stops: crate::observation::observed_stops(observations@),
                config: *config,
            }).outcome(preferred_trip);
            match result {
                Some(score) => expected == Some(score@),
                None => expected is None,
            }
        }),
{
    let ghost search = Search {
        index: *index,
        line: line@,
        destination: destination@,
        stops: crate::observation::observed_stops(observations@),
        config: *config,
    };
    if observations.len() == 0 {
        return None;
    }
    if let Some((trip_index, service_date)) = preferred_trip {
        let scored = score_specific_trip(
            index,
            trip_index,
            service_date,
            line,
            destination,
            observations,
        );
        if let Some(score) = scored {
            if score.mean_abs_error_seconds <= config.cached_assignment_max_mean_error_seconds
                && score.max_abs_error_seconds <= config.max_stop_schedule_error_seconds {
                return Some(score);
            }
        }
    }
    if observations.len() < config.minimum_resolved_stops {
        return None;
    }
    let dates = candidate_service_dates(observations);
    let rarest = match find_rarest(index, line, observations, Ghost(search)) {
        Some(rarest) => rarest,
        None => {
            proof {
                assert forall|t: usize, d: i32| !search.best(t, d) by {
                    assert(!search.candidate(t, d));
                }
            }
            return None;
        },
    };
    proof {
        assert(search.stops[rarest as int] == observations@[rarest as int]@);
        assert(search.stops[rarest as int].valid());
    }
    let pairs = collect_trips(
        index,
        line,
        &observations[rarest],
        &dates,
        config,
        Ghost(search),
    );
    proof {
        assert forall|t: usize, d: i32| #[trigger]
            search.eligible(t, d) <==> pairs@.contains((t, d)) && fits(search, (t, d)) by {
            assert(pairs@.contains((t, d)) <==> called_on(
                search,
                observations@[rarest as int]@,
                dates@,
                dates@.len() as int,
                t,
                d,
            ));
            assert(dates@.contains(d) <==> search.near_day(d));
            if dates@.contains(d) {
                let j = choose|j: int| 0 <= j < dates@.len() && dates@[j] == d;
                assert(dates@[j] == d);
            }
        }
    }
    let result = pick_best(index, &pairs, line, destination, observations, config, Ghost(search));
    proof {
        match &result {
            Some(score) => {
                let i = choose|i: int|
                    0 <= i < pairs@.len() && #[trigger] pairs@[i] == (score@.trip, score@.date);
                assert(pairs@.contains((score@.trip, score@.date)));
                assert(search.eligible(score@.trip, score@.date));
                assert forall|t: usize, d: i32|
                    (t != score@.trip || d != score@.date) && #[trigger] search.eligible(
                        t,
                        d,
                    ) implies score@.ranks_before(search.score(t, d)->0, index.trips@) by {
                    assert(pairs@.contains((t, d)));
                    let k = choose|k: int| 0 <= k < pairs@.len() && pairs@[k] == (t, d);
                    assert(fits(search, pairs@[k]));
                }
                assert(search.best(score@.trip, score@.date));
                let (trip, date) = choose|trip: usize, date: i32| search.best(trip, date);
                best_is_unique(search, trip, date, score@.trip, score@.date);
            },
            None => {
                assert forall|t: usize, d: i32| !search.best(t, d) by {
                    if search.eligible(t, d) {
                        assert(pairs@.contains((t, d)));
                        let k = choose|k: int| 0 <= k < pairs@.len() && pairs@[k] == (t, d);
                        assert(fits(search, pairs@[k]));
                    }
                }
            },
        }
    }
    result
}

/// The search for the trip of a train whose rows these are.
pub open spec fn train_search(
    index: MartaScheduleIndex,
    rows: Seq<MartaTrainRow>,
    config: MatcherConfig,
) -> Search {
    Search {
        index,
        line: crate::names::line_name(rows[0].line@),
        destination: crate::names::station_name(rows[0].destination@),
        stops: crate::observation::train_stops(index.station_aliases@, rows),
        config,
    }
}

/// The match of a train whose rows these are.
pub open spec fn train_match(
    index: MartaScheduleIndex,
    rows: Seq<MartaTrainRow>,
    config: MatcherConfig,
    preferred: Option<(usize, i32)>,
) -> Option<TripMatch> {
    if rows.len() == 0 {
        None
    } else {
        train_search(index, rows, config).outcome(preferred)
    }
}

/// Finds the trip of a train from its rows.
pub fn match_train(
    index: &MartaScheduleIndex,
    rows: &Vec<MartaTrainRow>,
    config: &MatcherConfig,
    preferred_trip: Option<(TripIndex, i32)>,
) -> (result: Option<MatchScore>)
    requires
        index.valid(),
        forall|i: int|
            0 <= i < rows@.len() ==> crate::observation::row_in_calendar(#[trigger] rows@[i]),
    ensures
        match result {
            Some(score) => train_match(*index, rows@, *config, preferred_trip) == Some(score@),
            None => train_match(*index, rows@, *config, preferred_trip) is None,
        },
{
    if rows.len() == 0 {
        return None;
    }
    let line = normalize_line(rows[0].line.as_str());
    let destination = normalize_station_name(rows[0].destination.as_str());
    let observations = build_observations(index, rows);
    match_observations(index, &line, &destination, &observations, config, preferred_trip)
}

/// A match says its trip and day, the rows and positions of its stops, its mean and maximum
/// error, whether the destination matches, and how many stops were skipped.
pub proof fn match_says_fields(score: MatchScore)
    ensures
        score@.trip == score.trip_index,
        score@.date == score.service_date,
        score@.positions == score.row_stop_positions@,
        score@.mean == score.mean_abs_error_seconds,
        score@.max == score.max_abs_error_seconds,
        score@.destination_matches == score.destination_matches,
        score@.skipped == score.skipped_pattern_stops,
{
}

} // verus!
