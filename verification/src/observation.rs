//! What the rows of a train say: at which station, and when by the schedule, it arrives.
use vstd::prelude::*;

use crate::aliases::{resolve_station, StationAlias, StationId};
use crate::delay::{parse_delay_seconds, read_delay, DelayReading};
use crate::index::MartaScheduleIndex;
use crate::models::MartaTrainRow;
use crate::names::normalize_station_name;
use crate::ordered::{sort_by_key, Keyed};
use crate::text::{parse_i64, trim};
use crate::time::{
    arrival_fits, parse_event_time, parse_next_arrival, LocalDateTime, ZonedTime,
};

verus! {

/// A row that can be matched: the stations that it may be about, its arrival, and the scheduled
/// time that follows from the arrival and the delay.
#[derive(Clone, Debug)]
pub struct Observation {
    pub row_index: usize,
    pub station_candidates: Vec<StationId>,
    pub event_time: ZonedTime,
    pub predicted_arrival: ZonedTime,
    pub scheduled_local: LocalDateTime,
}

/// What an observation says.
pub struct ObservedStop {
    pub row: int,
    pub stations: Seq<StationId>,
    pub event: ZonedTime,
    pub predicted: ZonedTime,
    pub scheduled: LocalDateTime,
}

impl View for Observation {
    type V = ObservedStop;

    open spec fn view(&self) -> ObservedStop {
        ObservedStop {
            row: self.row_index as int,
            stations: self.station_candidates@,
            event: self.event_time,
            predicted: self.predicted_arrival,
            scheduled: self.scheduled_local,
        }
    }
}

impl Keyed for Observation {
    open spec fn sort_key(self) -> int {
        self.predicted_arrival.unix as int
    }

    fn key(&self) -> (key: i64) {
        self.predicted_arrival.unix
    }
}

impl ObservedStop {
    /// The times are of the calendar.
    pub open spec fn valid(self) -> bool {
        self.event.local.valid() && self.predicted.local.valid() && self.scheduled.valid()
    }
}

/// What the observations of a train say.
pub open spec fn observed_stops(observations: Seq<Observation>) -> Seq<ObservedStop> {
    observations.map_values(|observation: Observation| observation@)
}

/// The times of every observation are of the calendar.
pub open spec fn observations_valid(stops: Seq<ObservedStop>) -> bool {
    forall|k: int| 0 <= k < stops.len() ==> (#[trigger] stops[k]).valid()
}

/// Whether `stations` lists a set of stations in ascending order.
pub open spec fn lists_stations(stations: Seq<StationId>, named: Set<StationId>) -> bool {
    crate::ordered::ascending(stations) && stations.to_set() == named
}

/// The stations that a rider-facing name may stand for, in ascending order.
pub open spec fn stations_for(table: Seq<StationAlias>, name: Seq<char>) -> Seq<StationId> {
    choose|stations: Seq<StationId>| #[trigger]
        lists_stations(stations, crate::aliases::stations_named(table, name))
}

/// The waiting time of a row, where it is a number.
pub open spec fn waiting_time(row: MartaTrainRow) -> Option<i64> {
    crate::text::i64_text(crate::text::trimmed(row.waiting_seconds@))
}

/// The arrival of a row.
pub open spec fn row_arrival(row: MartaTrainRow) -> Option<ZonedTime> {
    match crate::time::event_time(row.event_time@) {
        None => None,
        Some(event) => crate::time::next_arrival(
            event.local,
            row.next_arr@,
            waiting_time(row),
        ),
    }
}

/// The times of a row stay in the calendar, and its delay in the range of seconds.
pub open spec fn row_in_calendar(row: MartaTrainRow) -> bool {
    crate::time::event_time(row.event_time@) matches Some(event) ==> {
        &&& crate::time::next_arrival_in_calendar(event.local, row.next_arr@, waiting_time(row))
        &&& row_arrival(row) matches Some(arrival) ==> {
            &&& crate::delay::delay_reading(row.delay@) != DelayReading::TooLarge
            &&& crate::delay::delay_seconds(row.delay@) matches Some(delay)
                ==> arrival.local@.moved(-delay).in_calendar()
        }
    }
}

/// What a row says, where its event time, arrival and delay can be read and it names a station.
#[verifier::opaque]
pub open spec fn observed_row(table: Seq<StationAlias>, row: MartaTrainRow, number: int) -> Option<
    ObservedStop,
> {
    match (
        crate::time::event_time(row.event_time@),
        row_arrival(row),
        crate::delay::delay_seconds(row.delay@),
    ) {
        (Some(event), Some(arrival), Some(delay)) => {
            let stations = stations_for(table, row.station@);
            if stations.len() == 0 {
                None
            } else {
                Some(
                    ObservedStop {
                        row: number,
                        stations,
                        event,
                        predicted: arrival,
                        scheduled: LocalDateTime::of(arrival.local@.moved(-delay)),
                    },
                )
            }
        },
        _ => None,
    }
}

/// What the first `count` rows say.
pub open spec fn observed_rows(
    table: Seq<StationAlias>,
    rows: Seq<MartaTrainRow>,
    count: int,
) -> Seq<ObservedStop>
    decreases count,
{
    if count <= 0 {
        Seq::empty()
    } else {
        let before = observed_rows(table, rows, count - 1);
        match observed_row(table, rows[count - 1], count - 1) {
            Some(stop) => before.push(stop),
            None => before,
        }
    }
}

/// The common form of the station name of an observation.
#[verifier::opaque]
pub open spec fn stop_name(stop: ObservedStop, rows: Seq<MartaTrainRow>) -> Seq<char> {
    crate::names::station_name(rows[stop.row].station@)
}

/// Whether one of the stops has a name.
pub open spec fn name_seen(
    stops: Seq<ObservedStop>,
    rows: Seq<MartaTrainRow>,
    name: Seq<char>,
) -> bool {
    exists|k: int| 0 <= k < stops.len() && stop_name(#[trigger] stops[k], rows) == name
}

/// The first of the stops with each name.
pub open spec fn first_of_each_name(
    stops: Seq<ObservedStop>,
    rows: Seq<MartaTrainRow>,
) -> Seq<ObservedStop>
    decreases stops.len(),
{
    if stops.len() == 0 {
        Seq::empty()
    } else {
        let before = first_of_each_name(stops.drop_last(), rows);
        if name_seen(stops.drop_last(), rows, stop_name(stops.last(), rows)) {
            before
        } else {
            before.push(stops.last())
        }
    }
}

/// The moment of an observed arrival.
pub open spec fn arrival_moment() -> spec_fn(ObservedStop) -> int {
    |stop: ObservedStop| stop.predicted.unix as int
}

/// What the rows of a train say, in the order of their arrivals and once for each station name.
pub open spec fn train_stops(table: Seq<StationAlias>, rows: Seq<MartaTrainRow>) -> Seq<
    ObservedStop,
> {
    first_of_each_name(
        crate::ordered::key_sorted(
            observed_rows(table, rows, rows.len() as int),
            arrival_moment(),
        ),
        rows,
    )
}

/// Lists the stations that a rider-facing name may stand for.
fn find_stations(table: &Vec<StationAlias>, name: &str) -> (result: Vec<StationId>)
    requires
        crate::aliases::alias_table(table@),
    ensures
        result@ == stations_for(table@, name@),
{
    let result = resolve_station(table, name);
    proof {
        assert(lists_stations(result@, crate::aliases::stations_named(table@, name@)));
        crate::ordered::ascending_is_unique(result@, stations_for(table@, name@));
    }
    result
}

/// Whether the times of a row stay in the calendar, and its delay in the range of seconds.
pub fn row_fits(row: &MartaTrainRow) -> (answer: bool)
    ensures
        answer == row_in_calendar(*row),
{
    let event = match parse_event_time(row.event_time.as_str()) {
        Some(event) => event,
        None => return true,
    };
    let waiting = parse_i64(trim(row.waiting_seconds.as_str()).as_str());
    if !arrival_fits(&event.local, row.next_arr.as_str(), waiting) {
        return false;
    }
    let arrival = match parse_next_arrival(&event, row.next_arr.as_str(), waiting) {
        Some(arrival) => arrival,
        None => return true,
    };
    match read_delay(row.delay.as_str()) {
        DelayReading::Malformed => true,
        DelayReading::TooLarge => false,
        DelayReading::Seconds(delay) => delay > i64::MIN && arrival.local.can_move(-delay),
    }
}

/// Reads what a row says.
fn observe_row(table: &Vec<StationAlias>, row: &MartaTrainRow, row_index: usize) -> (result: Option<
    Observation,
>)
    requires
        crate::aliases::alias_table(table@),
        row_in_calendar(*row),
    ensures
        match result {
            Some(observation) => observed_row(table@, *row, row_index as int) == Some(
                observation@,
            ) && observation@.valid() && observation.row_index == row_index,
            None => observed_row(table@, *row, row_index as int) is None,
        },
{
    proof {
        reveal(observed_row);
    }
    let event_time = match parse_event_time(row.event_time.as_str()) {
        Some(event_time) => event_time,
        None => return None,
    };
    let waiting = parse_i64(trim(row.waiting_seconds.as_str()).as_str());
    let predicted_arrival = match parse_next_arrival(&event_time, row.next_arr.as_str(), waiting) {
        Some(predicted_arrival) => predicted_arrival,
        None => return None,
    };
    let delay = match parse_delay_seconds(row.delay.as_str()) {
        Some(delay) => delay,
        None => return None,
    };
    let scheduled_local = predicted_arrival.local.plus_seconds(-delay);
    let station_candidates = find_stations(table, row.station.as_str());
    if station_candidates.len() == 0 {
        return None;
    }
    Some(
        Observation {
            row_index,
            station_candidates,
            event_time,
            predicted_arrival,
            scheduled_local,
        },
    )
}

/// Every stop is about one of the rows.
pub open spec fn rows_in_range(stops: Seq<ObservedStop>, count: int) -> bool {
    forall|k: int| 0 <= k < stops.len() ==> 0 <= (#[trigger] stops[k]).row < count
}

/// What the rows of a train say, in the order of their arrivals and once for each station name.
pub fn build_observations(index: &MartaScheduleIndex, rows: &Vec<MartaTrainRow>) -> (result: Vec<
    Observation,
>)
    requires
        index.valid(),
        forall|i: int| 0 <= i < rows@.len() ==> row_in_calendar(#[trigger] rows@[i]),
    ensures
        observed_stops(result@) == train_stops(index.station_aliases@, rows@),
        observations_valid(observed_stops(result@)),
        rows_in_range(observed_stops(result@), rows@.len() as int),
{
    let table = &index.station_aliases;
    let mut found: Vec<Observation> = Vec::new();
    proof {
        assert(observed_stops(found@) =~= observed_rows(table@, rows@, 0));
    }
    for i in 0..rows.len()
        invariant
            table@ == index.station_aliases@,
            crate::aliases::alias_table(table@),
            forall|j: int| 0 <= j < rows@.len() ==> row_in_calendar(#[trigger] rows@[j]),
            observed_stops(found@) == observed_rows(table@, rows@, i as int),
            observations_valid(observed_stops(found@)),
            rows_in_range(observed_stops(found@), i as int),
    {
        if let Some(observation) = observe_row(table, &rows[i], i) {
            let ghost before = observed_stops(found@);
            found.push(observation);
            proof {
                assert(observed_stops(found@) =~= before.push(observation@));
            }
        }
    }
    let ghost all = found@;
    let mut result = sort_by_key(found);
    let ghost sorted = observed_stops(result@);
    proof {
        crate::ordered::sorting_images(
            all,
            crate::ordered::sort_keys::<Observation>(),
            |observation: Observation| observation@,
            arrival_moment(),
        );
        assert(sorted == crate::ordered::key_sorted(observed_stops(all), arrival_moment()));
        lemma_sorted_members(observed_stops(all));
        assert forall|k: int| 0 <= k < sorted.len() implies (#[trigger] sorted[k]).valid()
            && 0 <= sorted[k].row < rows@.len() by {
            assert(observed_stops(all).contains(sorted[k]));
        }
        assert(sorted.take(0) =~= Seq::<ObservedStop>::empty());
        assert(sorted.skip(0) =~= sorted);
    }
    let mut seen: Vec<String> = Vec::new();
    let mut kept: usize = 0;
    let ghost mut count: int = 0;
    while kept < result.len()
        invariant
            0 <= count <= sorted.len(),
            kept <= result@.len(),
            result@.len() - kept == sorted.len() - count,
            observations_valid(sorted),
            rows_in_range(sorted, rows@.len() as int),
            observed_stops(result@).take(kept as int) == first_of_each_name(
                sorted.take(count),
                rows@,
            ),
            observed_stops(result@).skip(kept as int) == sorted.skip(count),
            observations_valid(observed_stops(result@)),
            rows_in_range(observed_stops(result@), rows@.len() as int),
            forall|name: Seq<char>|
                #![trigger name_seen(sorted.take(count), rows@, name)]
                name_seen(sorted.take(count), rows@, name) <==> text_listed(seen@, name),
        decreases result@.len() - kept,
    {
        let ghost before = observed_stops(result@);
        let ghost taken = sorted.take(count);
        let ghost stop = result@[kept as int]@;
        let ghost old_seen = seen@;
        proof {
            assert(before[kept as int] == stop);
            assert(before.skip(kept as int)[0] == stop);
            assert(sorted.skip(count)[0] == sorted[count]);
            assert(stop == sorted[count]);
            assert(sorted.take(count + 1).drop_last() =~= taken);
            assert(sorted.take(count + 1).last() == stop);
            assert(0 <= stop.row < rows@.len());
        }
        let name = normalize_station_name(rows[result[kept].row_index].station.as_str());
        proof {
            reveal(stop_name);
            assert(name@ == stop_name(stop, rows@));
            assert(name_seen(taken, rows@, name@) <==> text_listed(seen@, name@));
        }
        if holds_text(&seen, &name) {
            let _ = result.remove(kept);
            proof {
                assert(observed_stops(result@) =~= before.remove(kept as int));
                assert(observed_stops(result@).take(kept as int) =~= before.take(kept as int));
                assert(observed_stops(result@).skip(kept as int) =~= before.skip(kept + 1));
                assert(before.skip(kept + 1) =~= before.skip(kept as int).drop_first());
                assert(sorted.skip(count + 1) =~= sorted.skip(count).drop_first());
                assert(first_of_each_name(sorted.take(count + 1), rows@) == first_of_each_name(
                    taken,
                    rows@,
                ));
            }
        } else {
            kept += 1;
            proof {
                assert(before.take(kept as int) =~= before.take(kept - 1).push(stop));
                assert(before.skip(kept as int) =~= before.skip(kept - 1).drop_first());
                assert(sorted.skip(count + 1) =~= sorted.skip(count).drop_first());
            }
            seen.push(name);
        }
        proof {
            let grown = sorted.take(count + 1);
            assert forall|n: Seq<char>|
                #![trigger name_seen(grown, rows@, n)]
                name_seen(grown, rows@, n) <==> text_listed(seen@, n) by {
                assert(name_seen(taken, rows@, n) <==> text_listed(old_seen, n));
                if name_seen(taken, rows@, n) {
                    let k = choose|k: int|
                        0 <= k < taken.len() && stop_name(#[trigger] taken[k], rows@) == n;
                    assert(grown[k] == taken[k]);
                }
                if n == stop_name(stop, rows@) {
                    assert(grown[count] == stop);
                    assert(stop_name(grown[count], rows@) == n);
                }
                if name_seen(grown, rows@, n) {
                    let k = choose|k: int|
                        0 <= k < grown.len() && stop_name(#[trigger] grown[k], rows@) == n;
                    if k < count {
                        assert(taken[k] == grown[k]);
                    }
                }
                if seen@.len() > old_seen.len() {
                    assert(seen@[old_seen.len() as int]@ == stop_name(stop, rows@));
                    if text_listed(old_seen, n) {
                        let k = choose|k: int|
                            0 <= k < old_seen.len() && (#[trigger] old_seen[k])@ == n;
                        assert(seen@[k] == old_seen[k]);
                    }
                    if text_listed(seen@, n) {
                        let k = choose|k: int| 0 <= k < seen@.len() && (#[trigger] seen@[k])@ == n;
                        if k < old_seen.len() {
                            assert(old_seen[k] == seen@[k]);
                        }
                    }
                }
            }
            count = count + 1;
        }
    }
    proof {
        assert(sorted.take(count) =~= sorted);
        assert(observed_stops(result@).take(kept as int) =~= observed_stops(result@));
    }
    result
}

/// Whether a text is one of a list.
pub open spec fn text_listed(texts: Seq<String>, text: Seq<char>) -> bool {
    exists|k: int| 0 <= k < texts.len() && (#[trigger] texts[k])@ == text
}

/// Whether a text is one of a list.
fn holds_text(texts: &Vec<String>, text: &String) -> (answer: bool)
    ensures
        answer == text_listed(texts@, text@),
{
    for i in 0..texts.len()
        invariant
            forall|k: int| 0 <= k < i ==> (#[trigger] texts@[k])@ != text@,
    {
        if texts[i] == *text {
            return true;
        }
    }
    false
}

proof fn lemma_sorted_members(stops: Seq<ObservedStop>)
    ensures
        forall|k: int|
            0 <= k < crate::ordered::key_sorted(stops, arrival_moment()).len()
                ==> stops.contains(
                #[trigger] crate::ordered::key_sorted(stops, arrival_moment())[k],
            ),
{
    broadcast use vstd::seq_lib::group_to_multiset_ensures;

    let sorted = crate::ordered::key_sorted(stops, arrival_moment());
    crate::ordered::sorting_orders(stops, arrival_moment());
    assert forall|k: int| 0 <= k < sorted.len() implies stops.contains(#[trigger] sorted[k]) by {
        assert(sorted.contains(sorted[k]));
        assert(sorted.to_multiset().count(sorted[k]) > 0);
        assert(stops.to_multiset().count(sorted[k]) > 0);
    }
}

/// Whether a stop is what its row says.
pub open spec fn is_row(
    table: Seq<StationAlias>,
    rows: Seq<MartaTrainRow>,
    stop: ObservedStop,
) -> bool {
    0 <= stop.row < rows.len() && observed_row(table, rows[stop.row], stop.row) == Some(stop)
}

/// What a row says is said of that row.
proof fn lemma_row_number(table: Seq<StationAlias>, row: MartaTrainRow, number: int)
    ensures
        observed_row(table, row, number) matches Some(stop) ==> stop.row == number,
{
    reveal(observed_row);
}

proof fn lemma_observed_rows(table: Seq<StationAlias>, rows: Seq<MartaTrainRow>, count: int)
    requires
        0 <= count <= rows.len(),
    ensures
        forall|k: int|
            0 <= k < observed_rows(table, rows, count).len() ==> is_row(
                table,
                rows,
                #[trigger] observed_rows(table, rows, count)[k],
            ),
        forall|i: int|
            0 <= i < count && observed_row(table, #[trigger] rows[i], i) is Some ==> observed_rows(
                table,
                rows,
                count,
            ).contains(observed_row(table, rows[i], i)->0),
    decreases count,
{
    if count > 0 {
        lemma_observed_rows(table, rows, count - 1);
        lemma_row_number(table, rows[count - 1], count - 1);
        let before = observed_rows(table, rows, count - 1);
        let stops = observed_rows(table, rows, count);
        assert forall|k: int| 0 <= k < stops.len() implies is_row(
            table,
            rows,
            #[trigger] stops[k],
        ) by {
            if k < before.len() {
                assert(stops[k] == before[k]);
            }
        }
        assert forall|i: int| 0 <= i < count && observed_row(
            table,
            #[trigger] rows[i],
            i,
        ) is Some implies stops.contains(observed_row(table, rows[i], i)->0) by {
            let stop = observed_row(table, rows[i], i)->0;
            if i < count - 1 {
                assert(before.contains(stop));
                let k = choose|k: int| 0 <= k < before.len() && before[k] == stop;
                assert(stops[k] == stop);
            } else {
                assert(stops[stops.len() - 1] == stop);
            }
        }
    }
}

proof fn lemma_first_of_each(stops: Seq<ObservedStop>, rows: Seq<MartaTrainRow>)
    requires
        crate::ordered::keys_ascend(stops, arrival_moment()),
    ensures
        forall|k: int|
            0 <= k < first_of_each_name(stops, rows).len() ==> stops.contains(
                #[trigger] first_of_each_name(stops, rows)[k],
            ),
        crate::ordered::keys_ascend(first_of_each_name(stops, rows), arrival_moment()),
        forall|i: int, j: int|
            0 <= i < j < first_of_each_name(stops, rows).len() ==> stop_name(
                #[trigger] first_of_each_name(stops, rows)[i],
                rows,
            ) != stop_name(#[trigger] first_of_each_name(stops, rows)[j], rows),
        forall|k: int|
            0 <= k < stops.len() ==> represented(
                first_of_each_name(stops, rows),
                rows,
                #[trigger] stops[k],
            ),
    decreases stops.len(),
{
    if stops.len() > 0 {
        let shorter = stops.drop_last();
        let last = stops.last();
        assert forall|i: int, j: int| 0 <= i < j < shorter.len() implies arrival_moment()(
            #[trigger] shorter[i],
        ) <= arrival_moment()(#[trigger] shorter[j]) by {
            assert(arrival_moment()(stops[i]) <= arrival_moment()(stops[j]));
        }
        lemma_first_of_each(shorter, rows);
        let before = first_of_each_name(shorter, rows);
        let result = first_of_each_name(stops, rows);
        assert forall|k: int| 0 <= k < result.len() implies stops.contains(
            #[trigger] result[k],
        ) by {
            if k < before.len() {
                assert(result[k] == before[k]);
                let from = choose|from: int|
                    0 <= from < shorter.len() && shorter[from] == before[k];
                assert(stops[from] == result[k]);
            } else {
                assert(stops[stops.len() - 1] == result[k]);
            }
        }
        assert forall|k: int| 0 <= k < before.len() implies arrival_moment()(
            #[trigger] before[k],
        ) <= arrival_moment()(last) by {
            let from = choose|from: int| 0 <= from < shorter.len() && shorter[from] == before[k];
            assert(arrival_moment()(stops[from]) <= arrival_moment()(stops[stops.len() - 1]));
        }
        if !name_seen(shorter, rows, stop_name(last, rows)) {
            assert forall|k: int| 0 <= k < before.len() implies stop_name(
                #[trigger] before[k],
                rows,
            ) != stop_name(last, rows) by {
                let from = choose|from: int|
                    0 <= from < shorter.len() && shorter[from] == before[k];
                assert(stop_name(shorter[from], rows) != stop_name(last, rows));
            }
        }
        assert forall|k: int| 0 <= k < stops.len() implies represented(
            result,
            rows,
            #[trigger] stops[k],
        ) by {
            if k < shorter.len() {
                assert(represented(before, rows, shorter[k]));
                let at = choose|at: int|
                    0 <= at < before.len() && stands_for(#[trigger] before[at], rows, shorter[k]);
                assert(stands_for(result[at], rows, stops[k]));
            } else if name_seen(shorter, rows, stop_name(last, rows)) {
                let from = choose|from: int|
                    0 <= from < shorter.len() && stop_name(#[trigger] shorter[from], rows)
                        == stop_name(last, rows);
                assert(represented(before, rows, shorter[from]));
                let at = choose|at: int|
                    0 <= at < before.len() && stands_for(
                        #[trigger] before[at],
                        rows,
                        shorter[from],
                    );
                assert(stands_for(result[at], rows, last));
            } else {
                assert(stands_for(result[before.len() as int], rows, last));
            }
        }
    }
}

/// Whether a stop has the name of another and arrives no later.
pub open spec fn stands_for(
    stop: ObservedStop,
    rows: Seq<MartaTrainRow>,
    other: ObservedStop,
) -> bool {
    &&& stop_name(stop, rows) == stop_name(other, rows)
    &&& stop.predicted.unix <= other.predicted.unix
}

/// Whether one of the stops has the name of another and arrives no later.
pub open spec fn represented(
    stops: Seq<ObservedStop>,
    rows: Seq<MartaTrainRow>,
    other: ObservedStop,
) -> bool {
    exists|at: int| 0 <= at < stops.len() && stands_for(#[trigger] stops[at], rows, other)
}

/// The stops of a train are what its rows say, in the order of their arrivals, with no name
/// twice; and every row that can be read is among them or has a stop of its name that arrives
/// no later.
pub proof fn train_stops_are_rows(table: Seq<StationAlias>, rows: Seq<MartaTrainRow>)
    ensures
        forall|k: int|
            0 <= k < train_stops(table, rows).len() ==> is_row(
                table,
                rows,
                #[trigger] train_stops(table, rows)[k],
            ),
        crate::ordered::keys_ascend(train_stops(table, rows), arrival_moment()),
        forall|i: int, j: int|
            0 <= i < j < train_stops(table, rows).len() ==> stop_name(
                #[trigger] train_stops(table, rows)[i],
                rows,
            ) != stop_name(#[trigger] train_stops(table, rows)[j], rows),
        forall|i: int|
            0 <= i < rows.len() && observed_row(table, #[trigger] rows[i], i) is Some
                ==> represented(
                train_stops(table, rows),
                rows,
                observed_row(table, rows[i], i)->0,
            ),
{
    broadcast use vstd::seq_lib::group_to_multiset_ensures;

    let all = observed_rows(table, rows, rows.len() as int);
    let sorted = crate::ordered::key_sorted(all, arrival_moment());
    let stops = train_stops(table, rows);
    lemma_observed_rows(table, rows, rows.len() as int);
    lemma_sorted_members(all);
    crate::ordered::sorting_orders(all, arrival_moment());
    lemma_first_of_each(sorted, rows);
    assert forall|k: int| 0 <= k < stops.len() implies is_row(
        table,
        rows,
        #[trigger] stops[k],
    ) by {
        assert(sorted.contains(stops[k]));
        let j = choose|j: int| 0 <= j < sorted.len() && sorted[j] == stops[k];
        assert(all.contains(sorted[j]));
    }
    assert forall|i: int| 0 <= i < rows.len() && observed_row(
        table,
        #[trigger] rows[i],
        i,
    ) is Some implies represented(stops, rows, observed_row(table, rows[i], i)->0) by {
        let stop = observed_row(table, rows[i], i)->0;
        assert(all.contains(stop));
        assert(all.to_multiset().count(stop) > 0);
        assert(sorted.to_multiset().count(stop) > 0);
        assert(sorted.contains(stop));
        let j = choose|j: int| 0 <= j < sorted.len() && sorted[j] == stop;
        assert(represented(stops, rows, sorted[j]));
    }
}

/// An observed row says when the train was seen and when it arrives, and the arrival is later
/// than the scheduled time by as many seconds as the delay says, or earlier where the train is
/// early: the scheduled time moved by the delay is the arrival. A leap second is counted when
/// a late arrival in it is moved back.
pub proof fn delay_parts_arrival_from_schedule(
    table: Seq<StationAlias>,
    row: MartaTrainRow,
    number: int,
    stop: ObservedStop,
)
    requires
        row_in_calendar(row),
        observed_row(table, row, number) == Some(stop),
        stop.predicted.local.valid(),
    ensures
        stop.row == number,
        crate::time::event_time(row.event_time@) == Some(stop.event),
        crate::time::next_arrival(
            stop.event.local,
            row.next_arr@,
            crate::text::i64_text(crate::text::trimmed(row.waiting_seconds@)),
        ) == Some(stop.predicted),
        crate::delay::delay_seconds(row.delay@) is Some,
        ({
            let delay = crate::delay::delay_seconds(row.delay@)->0;
            let arrival = stop.predicted.local;
            let scheduled = stop.scheduled;
            let apart = (arrival.day - scheduled.day) * 86400 + arrival.second - scheduled.second;
            &&& scheduled.second < 86400
            &&& delay == 0 ==> scheduled@ == arrival@
            &&& arrival.nanosecond == 0 ==> {
                &&& scheduled.nanosecond == 0
                &&& apart == delay
                &&& arrival@.since(scheduled@) == delay
                &&& scheduled@.moved(delay as int) == arrival@
            }
            &&& arrival.nanosecond != 0 && delay > 0 ==> scheduled.nanosecond == 0 && apart + 1
                == delay
            &&& arrival.nanosecond != 0 && delay < 0 ==> scheduled.nanosecond == 0 && apart
                == delay
        }),
{
    reveal(observed_row);
    let delay = crate::delay::delay_seconds(row.delay@)->0;
    stop.predicted.local@.moving_steps_clock(-delay);
    if stop.predicted.local.nanosecond == 0 {
        stop.predicted.local@.moving_is_undone(-delay);
    }
}

/// A row is observed where its event time, its arrival and its delay can be read and its
/// station name stands for some station, and not otherwise.
pub proof fn readable_rows_are_observed(table: Seq<StationAlias>, row: MartaTrainRow, number: int)
    ensures
        observed_row(table, row, number) is Some <==> {
            &&& crate::time::event_time(row.event_time@) is Some
            &&& crate::time::next_arrival(
                (crate::time::event_time(row.event_time@)->0).local,
                row.next_arr@,
                crate::text::i64_text(crate::text::trimmed(row.waiting_seconds@)),
            ) is Some
            &&& crate::delay::delay_seconds(row.delay@) is Some
            &&& exists|station: StationId| #[trigger]
                crate::aliases::stations_named(table, row.station@).contains(station)
        },
        observed_row(table, row, number) matches Some(stop) ==> lists_stations(
            stop.stations,
            crate::aliases::stations_named(table, row.station@),
        ),
{
    reveal(observed_row);
    let named = crate::aliases::stations_named(table, row.station@);
    let stations = stations_for(table, row.station@);
    lemma_listable(named, 0x1_0000_0000);
    assert(lists_stations(stations, named));
    if stations.len() > 0 {
        assert(stations.to_set().contains(stations[0]));
    }
    if exists|station: StationId| #[trigger] named.contains(station) {
        let station = choose|station: StationId| #[trigger] named.contains(station);
        assert(stations.to_set().contains(station));
    }
}

/// Every set of stations can be listed in ascending order.
proof fn lemma_listable(named: Set<StationId>, bound: int)
    requires
        0 <= bound <= 0x1_0000_0000,
        forall|station: StationId| #[trigger] named.contains(station) ==> station < bound,
    ensures
        exists|stations: Seq<StationId>| #[trigger] lists_stations(stations, named),
    decreases bound,
{
    if bound == 0 {
        let none = Seq::<StationId>::empty();
        assert(none.to_set() =~= named);
        assert(lists_stations(none, named));
    } else {
        let last = (bound - 1) as StationId;
        let others = named.remove(last);
        lemma_listable(others, bound - 1);
        let before = choose|before: Seq<StationId>| #[trigger] lists_stations(before, others);
        if named.contains(last) {
            let stations = before.push(last);
            assert forall|i: int, j: int| 0 <= i < j < stations.len() implies crate::ordered::Ordinal::number(
                #[trigger] stations[i],
            ) < crate::ordered::Ordinal::number(#[trigger] stations[j]) by {
                assert(before.to_set().contains(before[i]));
                if j < before.len() {
                    assert(crate::ordered::Ordinal::number(before[i])
                        < crate::ordered::Ordinal::number(before[j]));
                }
            }
            assert forall|station: StationId| stations.to_set().contains(station)
                <==> named.contains(station) by {
                assert(before.to_set().contains(station) <==> others.contains(station));
                if before.contains(station) {
                    let k = choose|k: int| 0 <= k < before.len() && before[k] == station;
                    assert(stations[k] == station);
                }
                if station == last {
                    assert(stations[before.len() as int] == last);
                }
            }
            assert(stations.to_set() =~= named);
            assert(lists_stations(stations, named));
        } else {
            assert(others =~= named);
            assert(lists_stations(before, named));
        }
    }
}

/// The number of the row of a stop.
pub open spec fn row_number() -> spec_fn(ObservedStop) -> int {
    |stop: ObservedStop| stop.row
}

proof fn lemma_rows_in_order(table: Seq<StationAlias>, rows: Seq<MartaTrainRow>, count: int)
    requires
        0 <= count <= rows.len(),
    ensures
        forall|i: int, j: int|
            0 <= i < j < observed_rows(table, rows, count).len() ==> (#[trigger] observed_rows(
                table,
                rows,
                count,
            )[i]).row < (#[trigger] observed_rows(table, rows, count)[j]).row,
        forall|k: int|
            0 <= k < observed_rows(table, rows, count).len() ==> 0 <= (#[trigger] observed_rows(
                table,
                rows,
                count,
            )[k]).row < count,
    decreases count,
{
    if count > 0 {
        lemma_rows_in_order(table, rows, count - 1);
        lemma_row_number(table, rows[count - 1], count - 1);
        let before = observed_rows(table, rows, count - 1);
        let stops = observed_rows(table, rows, count);
        assert forall|k: int| 0 <= k < stops.len() implies 0 <= (#[trigger] stops[k]).row
            < count by {
            if k < before.len() {
                assert(stops[k] == before[k]);
            }
        }
        assert forall|i: int, j: int| 0 <= i < j < stops.len() implies (#[trigger] stops[i]).row
            < (#[trigger] stops[j]).row by {
            assert(stops[i] == before[i]);
            if j < before.len() {
                assert(stops[j] == before[j]);
                assert(before[i].row < before[j].row);
            }
        }
    }
}

/// Whether a stop arrives before another, or at the same moment from an earlier row.
pub open spec fn arrives_before(stop: ObservedStop, other: ObservedStop) -> bool {
    stop.predicted.unix < other.predicted.unix || stop.predicted.unix == other.predicted.unix
        && stop.row < other.row
}

/// Whether each stop arrives before the next.
pub open spec fn in_arrival_order(stops: Seq<ObservedStop>) -> bool {
    forall|i: int, j: int|
        0 <= i < j < stops.len() ==> arrives_before(#[trigger] stops[i], #[trigger] stops[j])
}

/// Whether one of the stops has the name of another and is that one or arrives before it.
spec fn led(stops: Seq<ObservedStop>, rows: Seq<MartaTrainRow>, other: ObservedStop) -> bool {
    exists|at: int|
        0 <= at < stops.len() && stop_name(#[trigger] stops[at], rows) == stop_name(other, rows)
            && (stops[at] == other || arrives_before(stops[at], other))
}

proof fn lemma_first_leads(stops: Seq<ObservedStop>, rows: Seq<MartaTrainRow>)
    requires
        in_arrival_order(stops),
    ensures
        in_arrival_order(first_of_each_name(stops, rows)),
        forall|k: int|
            0 <= k < first_of_each_name(stops, rows).len() ==> stops.contains(
                #[trigger] first_of_each_name(stops, rows)[k],
            ),
        forall|k: int|
            0 <= k < stops.len() ==> led(first_of_each_name(stops, rows), rows, #[trigger] stops[k]),
    decreases stops.len(),
{
    if stops.len() > 0 {
        let shorter = stops.drop_last();
        let last = stops.last();
        assert forall|i: int, j: int| 0 <= i < j < shorter.len() implies arrives_before(
            #[trigger] shorter[i],
            #[trigger] shorter[j],
        ) by {
            assert(arrives_before(stops[i], stops[j]));
        }
        lemma_first_leads(shorter, rows);
        let before = first_of_each_name(shorter, rows);
        let result = first_of_each_name(stops, rows);
        assert forall|k: int| 0 <= k < before.len() implies stops.contains(#[trigger] before[k])
            && arrives_before(before[k], last) by {
            let from = choose|from: int| 0 <= from < shorter.len() && shorter[from] == before[k];
            assert(stops[from] == before[k]);
            assert(arrives_before(stops[from], stops[stops.len() - 1]));
        }
        assert forall|k: int| 0 <= k < result.len() implies stops.contains(
            #[trigger] result[k],
        ) by {
            if k < before.len() {
                assert(result[k] == before[k]);
            } else {
                assert(stops[stops.len() - 1] == result[k]);
            }
        }
        assert forall|i: int, j: int| 0 <= i < j < result.len() implies arrives_before(
            #[trigger] result[i],
            #[trigger] result[j],
        ) by {
            assert(result[i] == before[i]);
            if j < before.len() {
                assert(arrives_before(before[i], before[j]));
            }
        }
        assert forall|k: int| 0 <= k < stops.len() implies led(result, rows, #[trigger] stops[k]) by {
            if k < shorter.len() {
                assert(led(before, rows, shorter[k]));
                let at = choose|at: int|
                    0 <= at < before.len() && stop_name(#[trigger] before[at], rows) == stop_name(
                        shorter[k],
                        rows,
                    ) && (before[at] == shorter[k] || arrives_before(before[at], shorter[k]));
                assert(result[at] == before[at]);
            } else if name_seen(shorter, rows, stop_name(last, rows)) {
                let from = choose|from: int|
                    0 <= from < shorter.len() && stop_name(#[trigger] shorter[from], rows)
                        == stop_name(last, rows);
                assert(led(before, rows, shorter[from]));
                let at = choose|at: int|
                    0 <= at < before.len() && stop_name(#[trigger] before[at], rows) == stop_name(
                        shorter[from],
                        rows,
                    ) && (before[at] == shorter[from] || arrives_before(before[at], shorter[from]));
                assert(result[at] == before[at]);
                assert(arrives_before(before[at], last));
            } else {
                assert(result[before.len() as int] == last);
            }
        }
    }
}

/// The stops of a train are observed rows in the order of their arrivals, rows with one arrival
/// in the order of the feed; no two have the same station name. An observed row that is not
/// among them has the station name of one that arrives earlier, or at the same moment from an
/// earlier row.
pub proof fn first_arrival_counts(table: Seq<StationAlias>, rows: Seq<MartaTrainRow>)
    ensures
        forall|k: int|
            0 <= k < train_stops(table, rows).len() ==> {
                let stop = #[trigger] train_stops(table, rows)[k];
                0 <= stop.row < rows.len() && observed_row(table, rows[stop.row], stop.row)
                    == Some(stop)
            },
        forall|i: int, j: int|
            #![trigger train_stops(table, rows)[i], train_stops(table, rows)[j]]
            0 <= i < j < train_stops(table, rows).len() ==> {
                let one = train_stops(table, rows)[i];
                let other = train_stops(table, rows)[j];
                &&& one.predicted.unix < other.predicted.unix || one.predicted.unix
                    == other.predicted.unix && one.row < other.row
                &&& crate::names::station_name(rows[one.row].station@)
                    != crate::names::station_name(rows[other.row].station@)
            },
        forall|i: int|
            0 <= i < rows.len() && observed_row(table, #[trigger] rows[i], i) is Some ==> exists|
                at: int,
            |
                0 <= at < train_stops(table, rows).len() && ({
                    let stop = #[trigger] train_stops(table, rows)[at];
                    let other = observed_row(table, rows[i], i)->0;
                    &&& crate::names::station_name(rows[stop.row].station@)
                        == crate::names::station_name(rows[i].station@)
                    &&& stop.row == i || stop.predicted.unix < other.predicted.unix
                        || stop.predicted.unix == other.predicted.unix && stop.row < i
                }),
{
    broadcast use vstd::seq_lib::group_to_multiset_ensures;

    let all = observed_rows(table, rows, rows.len() as int);
    let sorted = crate::ordered::key_sorted(all, arrival_moment());
    let stops = train_stops(table, rows);
    train_stops_are_rows(table, rows);
    lemma_observed_rows(table, rows, rows.len() as int);
    lemma_rows_in_order(table, rows, rows.len() as int);
    crate::ordered::sorting_orders(all, arrival_moment());
    assert forall|i: int, j: int| 0 <= i < j < all.len() implies row_number()(#[trigger] all[i])
        < row_number()(#[trigger] all[j]) by {}
    crate::ordered::sorting_keeps_ranks(all, arrival_moment(), row_number());
    assert forall|i: int, j: int| 0 <= i < j < sorted.len() implies arrives_before(
        #[trigger] sorted[i],
        #[trigger] sorted[j],
    ) by {
        assert(arrival_moment()(sorted[i]) == sorted[i].predicted.unix);
        assert(row_number()(sorted[i]) == sorted[i].row);
    }
    lemma_first_leads(sorted, rows);
    assert forall|i: int, j: int|
        #![trigger stops[i], stops[j]]
        0 <= i < j < stops.len() implies arrives_before(stops[i], stops[j])
        && crate::names::station_name(rows[stops[i].row].station@) != crate::names::station_name(
        rows[stops[j].row].station@,
    ) by {
        reveal(stop_name);
        assert(stop_name(stops[i], rows) != stop_name(stops[j], rows));
    }
    assert forall|i: int| 0 <= i < rows.len() && observed_row(
        table,
        #[trigger] rows[i],
        i,
    ) is Some implies exists|at: int|
        0 <= at < stops.len() && ({
            let stop = #[trigger] stops[at];
            let other = observed_row(table, rows[i], i)->0;
            &&& crate::names::station_name(rows[stop.row].station@) == crate::names::station_name(
                rows[i].station@,
            )
            &&& stop.row == i || stop.predicted.unix < other.predicted.unix || stop.predicted.unix
                == other.predicted.unix && stop.row < i
        }) by {
        let other = observed_row(table, rows[i], i)->0;
        lemma_row_number(table, rows[i], i);
        assert(all.contains(other));
        assert(all.to_multiset().count(other) > 0);
        assert(sorted.to_multiset().count(other) > 0);
        let j = choose|j: int| 0 <= j < sorted.len() && sorted[j] == other;
        assert(led(stops, rows, sorted[j]));
        let at = choose|at: int|
            0 <= at < stops.len() && stop_name(#[trigger] stops[at], rows) == stop_name(other, rows)
                && (stops[at] == other || arrives_before(stops[at], other));
        reveal(stop_name);
        assert(stops[at].row == stops[at].row);
    }
}

/// A row without an event time fits. So does one with a delay that can be read or none, where
/// the event is more than a year from the ends of the calendar and the waiting time and the
/// delay are no longer than a hundred days.
pub proof fn ordinary_rows_fit(row: MartaTrainRow)
    ensures
        crate::time::event_time(row.event_time@) is None ==> row_in_calendar(row),
        crate::time::event_time(row.event_time@) matches Some(event) ==> ({
            &&& event.local.valid()
            &&& crate::time::MIN_DAY + 366 <= event.local.day <= crate::time::MAX_DAY - 366
            &&& crate::time::parsed_time(
                crate::text::trimmed(row.next_arr@),
                crate::time::NEXT_ARRIVAL_FORMAT@,
            ) matches Some((second, nanosecond)) ==> second < 86400
            &&& crate::text::i64_text(crate::text::trimmed(row.waiting_seconds@)) matches Some(
                wait,
            ) ==> -8_640_000 <= wait <= 8_640_000
            &&& !(crate::delay::delay_reading(row.delay@) is TooLarge)
            &&& crate::delay::delay_seconds(row.delay@) matches Some(delay) ==> -8_640_000 <= delay
                <= 8_640_000
        } ==> row_in_calendar(row)),
{
    if let Some(event) = crate::time::event_time(row.event_time@) {
        if event.local.valid() && crate::time::MIN_DAY + 366 <= event.local.day
            <= crate::time::MAX_DAY - 366 {
            let wait = waiting_time(row);
            match crate::time::parsed_time(
                crate::text::trimmed(row.next_arr@),
                crate::time::NEXT_ARRIVAL_FORMAT@,
            ) {
                Some((second, nanosecond)) => {
                    if second < 86400 {
                        lemma_arrival_near(event.local@, second, nanosecond, wait);
                    }
                },
                None => {},
            }
        }
    }
}

/// An arrival is at most two days from its event.
proof fn lemma_arrival_near(
    event: crate::time::CivilTime,
    second: u32,
    nanosecond: u32,
    wait: Option<i64>,
)
    requires
        0 <= event.second < 86400,
        second < 86400,
    ensures
        crate::time::arrival_choice(event, second, nanosecond, wait) matches Some(time) ==> event.day
            - 2 <= time.day <= event.day + 2 && 0 <= time.second < 86400,
{
    let times = crate::time::arrival_times(event, second, nanosecond);
    assert(times.len() == 3);
    assert forall|i: int| 0 <= i < 3 implies event.day - 2 <= (#[trigger] times[i]).day <= event.day
        + 2 && 0 <= times[i].second < 86400 by {
        times[1].moving_steps_clock(-86400);
        times[1].moving_steps_clock(86400);
    }
    match wait {
        Some(seconds) => {
            crate::time::closest_is_closest(times, event.moved(seconds as int));
        },
        None => {
            let limit = event.moved(-120);
            let keep = |time: crate::time::CivilTime| !time.before(limit);
            let kept = times.filter(keep);
            crate::time::closest_is_closest(kept, event);
            if crate::time::closest(kept, event) is Some {
                let best = crate::time::closest(kept, event)->0;
                assert(kept.contains(best));
                times.lemma_filter_contains_rev(keep, best);
            }
        },
    }
}

/// An observation says its row, its stations, its event and arrival, and its scheduled time.
pub proof fn observation_says_fields(observation: Observation)
    ensures
        observation@.row == observation.row_index,
        observation@.stations == observation.station_candidates@,
        observation@.event == observation.event_time,
        observation@.predicted == observation.predicted_arrival,
        observation@.scheduled == observation.scheduled_local,
{
}

} // verus!
