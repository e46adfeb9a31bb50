//! The rail schedule, indexed for matching trains to trips.
use vstd::multiset::Multiset;
use vstd::prelude::*;

use crate::aliases::{StationAlias, StationId};
use crate::service::ServiceRule;

verus! {

/// The number of a stop pattern.
pub type PatternId = usize;

/// The number of an indexed trip.
pub type TripIndex = usize;

/// A rail trip, with one stop id, stop sequence and arrival time for each station of its
/// pattern.
#[derive(Clone, Debug)]
pub struct IndexedTrip {
    pub trip_id: String,
    pub route_id: String,
    pub service_id: String,
    pub headsign: Option<String>,
    pub direction_id: Option<u32>,
    pub pattern_id: PatternId,
    pub stop_ids: Vec<String>,
    pub stop_sequences: Vec<u32>,
    pub arrival_seconds: Vec<Option<u32>>,
}

/// A line and the stations that its trains visit, in order.
#[derive(Clone, Debug)]
pub struct Pattern {
    pub line: String,
    pub stations: Vec<StationId>,
}

/// A scheduled arrival of a trip, in seconds since the midnight of the service day.
#[derive(Clone, Copy, Debug, PartialEq, Eq, Structural)]
pub struct ScheduledStopRef {
    pub seconds: u32,
    pub trip_index: u32,
}

/// The scheduled arrivals of a line at each station, by ascending seconds.
#[derive(Clone, Debug)]
pub struct LineSchedule {
    pub line: String,
    pub by_station: Vec<Vec<ScheduledStopRef>>,
}

/// A service and the days on which it runs.
#[derive(Clone, Debug)]
pub struct Service {
    pub service_id: String,
    pub rule: ServiceRule,
}

/// The rail schedule, indexed for matching trains to trips.
#[derive(Clone, Debug)]
pub struct MartaScheduleIndex {
    pub trips: Vec<IndexedTrip>,
    pub patterns: Vec<Pattern>,
    pub station_aliases: Vec<StationAlias>,
    pub schedules_by_line_station: Vec<LineSchedule>,
    pub services: Vec<Service>,
    pub rail_route_count: usize,
}

/// The arrivals are in the order of their seconds.
pub open spec fn by_seconds(entries: Seq<ScheduledStopRef>) -> bool {
    forall|i: int, j: int|
        0 <= i < j < entries.len() ==> (#[trigger] entries[i]).seconds <= (
        #[trigger] entries[j]).seconds
}

/// The trips fit their patterns.
pub open spec fn trips_fit(trips: Seq<IndexedTrip>, patterns: Seq<Pattern>) -> bool {
    &&& trips.len() <= 0x1_0000_0000
    &&& forall|t: int|
        0 <= t < trips.len() ==> {
            let trip = #[trigger] trips[t];
            &&& trip.pattern_id < patterns.len()
            &&& trip.stop_ids@.len() == patterns[trip.pattern_id as int].stations@.len()
            &&& trip.stop_sequences@.len() == patterns[trip.pattern_id as int].stations@.len()
            &&& trip.arrival_seconds@.len() == patterns[trip.pattern_id as int].stations@.len()
        }
}

/// The arrivals of a trip at a station, among the first `stops` stops of its pattern.
pub open spec fn trip_arrivals(
    trip: IndexedTrip,
    pattern: Pattern,
    number: int,
    station: StationId,
    stops: int,
) -> Multiset<ScheduledStopRef>
    decreases stops,
{
    if stops <= 0 {
        Multiset::empty()
    } else {
        let before = trip_arrivals(trip, pattern, number, station, stops - 1);
        if pattern.stations@[stops - 1] == station && trip.arrival_seconds@[stops - 1] is Some {
            before.insert(
                ScheduledStopRef {
                    seconds: trip.arrival_seconds@[stops - 1]->0,
                    trip_index: number as u32,
                },
            )
        } else {
            before
        }
    }
}

/// The arrivals of the first `count` trips at a station of a line.
pub open spec fn line_arrivals(
    trips: Seq<IndexedTrip>,
    patterns: Seq<Pattern>,
    line: Seq<char>,
    station: StationId,
    count: int,
) -> Multiset<ScheduledStopRef>
    decreases count,
{
    if count <= 0 {
        Multiset::empty()
    } else {
        let before = line_arrivals(trips, patterns, line, station, count - 1);
        let trip = trips[count - 1];
        let pattern = patterns[trip.pattern_id as int];
        if pattern.line@ == line {
            before.add(
                trip_arrivals(trip, pattern, count - 1, station, pattern.stations@.len() as int),
            )
        } else {
            before
        }
    }
}

/// The arrivals that the schedules hold for a line and a station, in their order.
pub open spec fn scheduled_at(
    schedules: Seq<LineSchedule>,
    line: Seq<char>,
    station: StationId,
) -> Seq<ScheduledStopRef>
    decreases schedules.len(),
{
    if schedules.len() == 0 {
        Seq::empty()
    } else if schedules[0].line@ == line {
        if station < schedules[0].by_station@.len() {
            schedules[0].by_station@[station as int]@
        } else {
            Seq::empty()
        }
    } else {
        scheduled_at(schedules.drop_first(), line, station)
    }
}

/// The schedules hold the arrivals of the trips, and nothing else, by ascending seconds.
pub open spec fn schedules_agree(
    schedules: Seq<LineSchedule>,
    trips: Seq<IndexedTrip>,
    patterns: Seq<Pattern>,
) -> bool {
    forall|line: Seq<char>, station: StationId|
        #![trigger scheduled_at(schedules, line, station)]
        {
            &&& by_seconds(scheduled_at(schedules, line, station))
            &&& scheduled_at(schedules, line, station).to_multiset() == line_arrivals(
                trips,
                patterns,
                line,
                station,
                trips.len() as int,
            )
        }
}

/// No service stands twice, and the dates of each are of the calendar.
pub open spec fn services_valid(services: Seq<Service>) -> bool {
    &&& forall|i: int, j: int|
        0 <= i < j < services.len() ==> (#[trigger] services[i]).service_id@ != (
        #[trigger] services[j]).service_id@
    &&& forall|i: int| 0 <= i < services.len() ==> (#[trigger] services[i]).rule.in_calendar()
}

/// Whether a service runs on a day.
pub open spec fn service_runs(services: Seq<Service>, service_id: Seq<char>, day: i32) -> bool {
    exists|i: int|
        0 <= i < services.len() && (#[trigger] services[i]).service_id@ == service_id
            && services[i].rule.runs(day)
}

impl MartaScheduleIndex {
    /// The parts of the index agree with each other.
    pub open spec fn valid(&self) -> bool {
        &&& trips_fit(self.trips@, self.patterns@)
        &&& crate::aliases::alias_table(self.station_aliases@)
        &&& schedules_agree(self.schedules_by_line_station@, self.trips@, self.patterns@)
        &&& services_valid(self.services@)
    }

    /// The scheduled arrivals of a line at a station, by ascending seconds.
    pub open spec fn scheduled(&self, line: Seq<char>, station: StationId) -> Seq<
        ScheduledStopRef,
    > {
        scheduled_at(self.schedules_by_line_station@, line, station)
    }

    /// The number of rail routes.
    pub fn rail_route_count(&self) -> (count: usize)
        ensures
            count == self.rail_route_count,
    {
        self.rail_route_count
    }

    /// The number of indexed trips.
    pub fn indexed_trip_count(&self) -> (count: usize)
        ensures
            count == self.trips@.len(),
    {
        self.trips.len()
    }

    /// The number of stop patterns.
    pub fn pattern_count(&self) -> (count: usize)
        ensures
            count == self.patterns@.len(),
    {
        self.patterns.len()
    }

    /// The scheduled arrivals of a line at a station, if the schedules have a place for them.
    fn station_schedule(&self, line: &String, station: StationId) -> (result: Option<
        &Vec<ScheduledStopRef>,
    >)
        ensures
            match result {
                Some(entries) => entries@ == self.scheduled(line@, station),
                None => self.scheduled(line@, station).len() == 0,
            },
    {
        let schedules = &self.schedules_by_line_station;
        proof {
            assert(schedules@.skip(0) =~= schedules@);
        }
        for i in 0..schedules.len()
            invariant
                schedules@ == self.schedules_by_line_station@,
                self.scheduled(line@, station) == scheduled_at(
                    schedules@.skip(i as int),
                    line@,
                    station,
                ),
        {
            proof {
                assert(schedules@.skip(i as int).drop_first() =~= schedules@.skip(i + 1));
                assert(schedules@.skip(i as int)[0] == schedules@[i as int]);
            }
            if schedules[i].line == *line {
                if (station as usize) < schedules[i].by_station.len() {
                    return Some(&schedules[i].by_station[station as usize]);
                }
                return None;
            }
        }
        None
    }

    /// How many scheduled arrivals a line has at a station.
    pub fn schedule_entry_count(&self, line: &String, station: StationId) -> (count: usize)
        ensures
            count == self.scheduled(line@, station).len(),
    {
        match self.station_schedule(line, station) {
            Some(entries) => entries.len(),
            None => 0,
        }
    }

    /// The scheduled arrivals of a line at a station that are no more than `tolerance_seconds`
    /// away from `target_seconds`.
    pub fn trip_candidates_at(
        &self,
        line: &String,
        station: StationId,
        target_seconds: i64,
        tolerance_seconds: i64,
    ) -> (result: &[ScheduledStopRef])
        requires
            self.valid(),
        ensures
            result@ == self.scheduled(line@, station).filter(
                |entry: ScheduledStopRef|
                    in_window(entry.seconds, target_seconds as int, tolerance_seconds as int),
            ),
    {
        let ghost keep = |entry: ScheduledStopRef|
            in_window(entry.seconds, target_seconds as int, tolerance_seconds as int);
        let ghost list = self.scheduled(line@, station);
        let entries: &Vec<ScheduledStopRef> = match self.station_schedule(line, station) {
            Some(entries) => entries,
            None => {
                proof {
                    lemma_filter_range(list, keep, 0, 0);
                }
                return &[];
            },
        };
        let tolerance: i128 = if tolerance_seconds < 0 {
            0
        } else {
            tolerance_seconds as i128
        };
        let lower: i128 = target_seconds as i128 - tolerance;
        let upper: i128 = target_seconds as i128 + tolerance;
        let from = first_not_before(entries, lower);
        let to = first_not_before(entries, upper + 1);
        proof {
            if from > to {
                assert(entries@[to as int].seconds < lower);
                assert(entries@[to as int].seconds >= upper + 1);
            }
            lemma_filter_range(list, keep, from as int, to as int);
        }
        vstd::slice::slice_subrange(entries.as_slice(), from, to)
    }
}

/// Whether a number of seconds is no more than `tolerance` away from `target`; a negative
/// tolerance counts as none.
pub open spec fn in_window(seconds: u32, target: int, tolerance: int) -> bool {
    let reach = if tolerance < 0 {
        0
    } else {
        tolerance
    };
    target - reach <= seconds <= target + reach
}

/// The position of the first arrival that is not before `limit`.
pub fn first_not_before(entries: &Vec<ScheduledStopRef>, limit: i128) -> (at: usize)
    requires
        by_seconds(entries@),
    ensures
        at <= entries@.len(),
        forall|i: int| 0 <= i < at ==> (#[trigger] entries@[i]).seconds < limit,
        forall|i: int| at <= i < entries@.len() ==> (#[trigger] entries@[i]).seconds >= limit,
{
    let mut low: usize = 0;
    let mut high: usize = entries.len();
    while low < high
        invariant
            low <= high <= entries@.len(),
            by_seconds(entries@),
            forall|i: int| 0 <= i < low ==> (#[trigger] entries@[i]).seconds < limit,
            forall|i: int|
                high <= i < entries@.len() ==> (#[trigger] entries@[i]).seconds >= limit,
        decreases high - low,
    {
        let middle: usize = low + (high - low) / 2;
        if (entries[middle].seconds as i128) < limit {
            low = middle + 1;
        } else {
            high = middle;
        }
    }
    low
}

/// Where exactly the entries from `from` up to `to` are kept, a filter cuts them out.
proof fn lemma_filter_range(
    entries: Seq<ScheduledStopRef>,
    keep: spec_fn(ScheduledStopRef) -> bool,
    from: int,
    to: int,
)
    requires
        0 <= from <= to <= entries.len(),
        forall|i: int|
            0 <= i < entries.len() ==> (keep(#[trigger] entries[i]) <==> from <= i < to),
    ensures
        entries.filter(keep) == entries.subrange(from, to),
    decreases entries.len(),
{
    reveal(Seq::filter);
    if entries.len() > 0 {
        let shorter = entries.drop_last();
        let last = entries.len() - 1;
        assert(keep(entries[last]) <==> from <= last < to);
        if to == entries.len() && from < to {
            lemma_filter_range(shorter, keep, from, to - 1);
            assert(entries.subrange(from, to) =~= shorter.subrange(from, to - 1).push(
                entries.last(),
            ));
        } else if from == entries.len() {
            lemma_filter_range(shorter, keep, from - 1, from - 1);
            assert(entries.subrange(from, to) =~= shorter.subrange(from - 1, from - 1));
        } else {
            lemma_filter_range(shorter, keep, from, to);
            assert(entries.subrange(from, to) =~= shorter.subrange(from, to));
        }
    } else {
        assert(entries.filter(keep) =~= entries.subrange(from, to));
    }
}

/// The services of an index: whether the one with this id runs on a day.
pub fn runs_on_day(services: &Vec<Service>, service_id: &String, day: i32) -> (answer: bool)
    requires
        services_valid(services@),
    ensures
        answer == service_runs(services@, service_id@, day),
{
    for i in 0..services.len()
        invariant
            services_valid(services@),
            forall|j: int| 0 <= j < i ==> (#[trigger] services@[j]).service_id@ != service_id@,
    {
        if services[i].service_id == *service_id {
            let answer = services[i].rule.runs_on(day);
            proof {
                if service_runs(services@, service_id@, day) {
                    let j = choose|j: int|
                        0 <= j < services@.len() && (#[trigger] services@[j]).service_id@
                            == service_id@ && services@[j].rule.runs(day);
                    assert(j == i);
                } else if answer {
                    assert(services@[i as int].rule.runs(day));
                }
            }
            return answer;
        }
    }
    false
}

} // verus!
