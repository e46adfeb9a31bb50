//! Placing the observed stops of a train on the stop pattern of a trip, and measuring how far
//! they are from its schedule.
use vstd::prelude::*;

use crate::aliases::StationId;
use crate::index::IndexedTrip;
use crate::observation::{Observation, ObservedStop};
use crate::time::{CivilTime, LocalDateTime, LEAP_NANOSECOND};

verus! {

/// The first position of the pattern, from `from` on, at one of the stations, or its length.
pub open spec fn next_call(pattern: Seq<StationId>, stations: Seq<StationId>, from: int) -> int
    decreases pattern.len() - from,
{
    if from >= pattern.len() || stations.contains(pattern[from]) {
        from
    } else {
        next_call(pattern, stations, from + 1)
    }
}

/// Where a search for the next stop starts.
pub open spec fn after_last(positions: Seq<int>) -> int {
    if positions.len() == 0 {
        0
    } else {
        positions.last() + 1
    }
}

/// The positions of the first `count` observed stops on the pattern, each at the first fitting
/// position after that of the stop before it.
pub open spec fn aligned(pattern: Seq<StationId>, stops: Seq<ObservedStop>, count: int) -> Option<
    Seq<int>,
>
    decreases count,
{
    if count <= 0 {
        Some(Seq::empty())
    } else {
        match aligned(pattern, stops, count - 1) {
            None => None,
            Some(positions) => {
                let at = next_call(pattern, stops[count - 1].stations, after_last(positions));
                if at < pattern.len() {
                    Some(positions.push(at))
                } else {
                    None
                }
            },
        }
    }
}

/// The positions grow.
pub open spec fn increasing(positions: Seq<int>) -> bool {
    forall|i: int, j: int|
        0 <= i < j < positions.len() ==> #[trigger] positions[i] < #[trigger] positions[j]
}

/// Whether the first stops stand on the pattern at these positions, in order, each at one of
/// its stations.
pub open spec fn stands_at(
    pattern: Seq<StationId>,
    stops: Seq<ObservedStop>,
    positions: Seq<int>,
) -> bool {
    &&& positions.len() <= stops.len()
    &&& increasing(positions)
    &&& forall|k: int|
        0 <= k < positions.len() ==> 0 <= #[trigger] positions[k] < pattern.len()
            && stops[k].stations.contains(pattern[positions[k]])
}

proof fn lemma_next_call(pattern: Seq<StationId>, stations: Seq<StationId>, from: int)
    requires
        0 <= from <= pattern.len(),
    ensures
        from <= next_call(pattern, stations, from) <= pattern.len(),
        next_call(pattern, stations, from) < pattern.len() ==> stations.contains(
            pattern[next_call(pattern, stations, from)],
        ),
        forall|p: int|
            from <= p < next_call(pattern, stations, from) ==> !stations.contains(
                #[trigger] pattern[p],
            ),
    decreases pattern.len() - from,
{
    if from < pattern.len() && !stations.contains(pattern[from]) {
        lemma_next_call(pattern, stations, from + 1);
    }
}

proof fn lemma_aligned_prefix(
    pattern: Seq<StationId>,
    stops: Seq<ObservedStop>,
    short: int,
    long: int,
)
    requires
        0 <= short <= long,
        aligned(pattern, stops, short) is None,
    ensures
        aligned(pattern, stops, long) is None,
    decreases long,
{
    if short < long {
        lemma_aligned_prefix(pattern, stops, short, long - 1);
    }
}

/// An alignment places each stop at one of its stations, in the order of the pattern.
pub proof fn alignment_fits(pattern: Seq<StationId>, stops: Seq<ObservedStop>, count: int)
    requires
        0 <= count <= stops.len(),
        aligned(pattern, stops, count) is Some,
    ensures
        stands_at(pattern, stops, aligned(pattern, stops, count)->0),
        aligned(pattern, stops, count)->0.len() == count,
    decreases count,
{
    if count > 0 {
        alignment_fits(pattern, stops, count - 1);
        let before = aligned(pattern, stops, count - 1)->0;
        lemma_next_call(pattern, stops[count - 1].stations, after_last(before));
        let at = next_call(pattern, stops[count - 1].stations, after_last(before));
        let positions = before.push(at);
        assert forall|i: int, j: int| 0 <= i < j < positions.len() implies #[trigger] positions[i]
            < #[trigger] positions[j] by {
            if j == count - 1 && i < count - 2 {
                assert(before[i] < before[count - 2]);
            }
        }
    }
}

/// Wherever the stops can be placed on the pattern in order, there is an alignment, and it
/// places each stop no later.
pub proof fn alignment_is_complete(
    pattern: Seq<StationId>,
    stops: Seq<ObservedStop>,
    positions: Seq<int>,
)
    requires
        stands_at(pattern, stops, positions),
    ensures
        aligned(pattern, stops, positions.len() as int) is Some,
        forall|k: int|
            0 <= k < positions.len() ==> #[trigger] (aligned(
                pattern,
                stops,
                positions.len() as int,
            )->0)[k] <= positions[k],
    decreases positions.len(),
{
    if positions.len() > 0 {
        let last = positions.len() - 1;
        let shorter = positions.drop_last();
        assert forall|k: int| 0 <= k < shorter.len() implies 0 <= #[trigger] shorter[k]
            < pattern.len() && stops[k].stations.contains(pattern[shorter[k]]) by {
            assert(shorter[k] == positions[k]);
        }
        assert forall|i: int, j: int| 0 <= i < j < shorter.len() implies #[trigger] shorter[i]
            < #[trigger] shorter[j] by {
            assert(positions[i] < positions[j]);
        }
        alignment_is_complete(pattern, stops, shorter);
        let before = aligned(pattern, stops, last)->0;
        alignment_fits(pattern, stops, last);
        if last > 0 {
            assert(before[last - 1] <= shorter[last - 1]);
            assert(positions[last - 1] < positions[last]);
        }
        assert(0 <= positions[last] < pattern.len());
        lemma_next_call(pattern, stops[last].stations, after_last(before));
    }
}

/// The positions of an alignment.
pub open spec fn positions_of(alignment: Seq<(usize, usize)>) -> Seq<int> {
    alignment.map_values(|pair: (usize, usize)| pair.1 as int)
}

/// Whether a station is one of a list.
fn is_listed(stations: &Vec<StationId>, station: StationId) -> (answer: bool)
    ensures
        answer == stations@.contains(station),
{
    for i in 0..stations.len()
        invariant
            forall|k: int| 0 <= k < i ==> #[trigger] stations@[k] != station,
    {
        if stations[i] == station {
            return true;
        }
    }
    false
}

/// Places the observed stops on a pattern: pairs the number of each observation with its
/// position.
pub fn align_pattern(pattern_stations: &Vec<StationId>, observations: &Vec<Observation>) -> (result:
    Option<Vec<(usize, usize)>>)
    ensures
        match result {
            Some(alignment) => {
                &&& aligned(
                    pattern_stations@,
                    crate::observation::observed_stops(observations@),
                    observations@.len() as int,
                ) == Some(positions_of(alignment@))
                &&& alignment@.len() == observations@.len()
                &&& forall|k: int| 0 <= k < alignment@.len() ==> (#[trigger] alignment@[k]).0 == k
            },
            None => aligned(
                pattern_stations@,
                crate::observation::observed_stops(observations@),
                observations@.len() as int,
            ) is None,
        },
{
    let ghost stops = crate::observation::observed_stops(observations@);
    let ghost pattern = pattern_stations@;
    let mut result: Vec<(usize, usize)> = Vec::new();
    let mut cursor: usize = 0;
    proof {
        assert(positions_of(result@) =~= Seq::<int>::empty());
    }
    for i in 0..observations.len()
        invariant
            stops == crate::observation::observed_stops(observations@),
            pattern == pattern_stations@,
            result@.len() == i,
            forall|k: int| 0 <= k < result@.len() ==> (#[trigger] result@[k]).0 == k,
            aligned(pattern, stops, i as int) == Some(positions_of(result@)),
            cursor == after_last(positions_of(result@)),
            cursor <= pattern_stations.len(),
    {
        let ghost before = positions_of(result@);
        let ghost start = cursor as int;
        let stations = &observations[i].station_candidates;
        proof {
            assert(stops[i as int].stations == stations@);
        }
        while cursor < pattern_stations.len() && !is_listed(stations, pattern_stations[cursor])
            invariant
                pattern == pattern_stations@,
                cursor <= pattern_stations.len(),
                next_call(pattern, stations@, start) == next_call(
                    pattern,
                    stations@,
                    cursor as int,
                ),
            decreases pattern_stations@.len() - cursor,
        {
            cursor += 1;
        }
        proof {
            assert(next_call(pattern, stations@, start) == cursor);
        }
        if cursor == pattern_stations.len() {
            proof {
                assert(aligned(pattern, stops, i + 1) is None);
                lemma_aligned_prefix(pattern, stops, i + 1, observations@.len() as int);
            }
            return None;
        }
        result.push((i, cursor));
        proof {
            assert(positions_of(result@) =~= before.push(cursor as int));
        }
        cursor += 1;
    }
    Some(result)
}

/// How many positions the first `count` positions leave out between neighbours.
pub open spec fn skipped(positions: Seq<int>, count: int) -> int
    decreases count,
{
    if count <= 1 {
        0
    } else {
        let gap = positions[count - 1] - (positions[count - 2] + 1);
        skipped(positions, count - 1) + if gap > 0 {
            gap
        } else {
            0
        }
    }
}

proof fn lemma_skipped_grows(positions: Seq<int>, short: int, long: int)
    requires
        short <= long,
    ensures
        0 <= skipped(positions, short) <= skipped(positions, long),
    decreases long - short, long,
{
    if short < long {
        lemma_skipped_grows(positions, short, long - 1);
    } else if short > 1 {
        lemma_skipped_grows(positions, short - 1, short - 1);
    }
}

/// The positions that an alignment leaves out are those between its first and its last that it
/// does not use.
pub proof fn skipped_is_span(positions: Seq<int>)
    requires
        positions.len() > 0,
        increasing(positions),
    ensures
        skipped(positions, positions.len() as int) == positions.last() - positions[0] + 1
            - positions.len(),
{
    lemma_skipped_span(positions, positions.len() as int);
}

proof fn lemma_skipped_span(positions: Seq<int>, count: int)
    requires
        0 < count <= positions.len(),
        increasing(positions),
    ensures
        skipped(positions, count) == positions[count - 1] - positions[0] + 1 - count,
    decreases count,
{
    if count > 1 {
        lemma_skipped_span(positions, count - 1);
        assert(positions[count - 2] < positions[count - 1]);
    }
}

/// Counts the positions that an alignment leaves out between neighbours.
pub fn count_skipped_stops(alignment: &Vec<(usize, usize)>) -> (result: usize)
    requires
        forall|k: int|
            0 <= k < alignment@.len() - 1 ==> (#[trigger] alignment@[k]).1 < usize::MAX,
        skipped(positions_of(alignment@), alignment@.len() as int) <= usize::MAX,
    ensures
        result == skipped(positions_of(alignment@), alignment@.len() as int),
{
    let ghost positions = positions_of(alignment@);
    let mut result: usize = 0;
    if alignment.len() < 2 {
        return result;
    }
    for i in 1..alignment.len()
        invariant
            positions == positions_of(alignment@),
            alignment@.len() >= 2,
            forall|k: int|
                0 <= k < alignment@.len() - 1 ==> (#[trigger] alignment@[k]).1 < usize::MAX,
            skipped(positions, alignment@.len() as int) <= usize::MAX,
            result == skipped(positions, i as int),
    {
        proof {
            lemma_skipped_grows(positions, i + 1, alignment@.len() as int);
            assert(positions[i as int] == alignment@[i as int].1);
            assert(positions[i - 1] == alignment@[i - 1].1);
        }
        let next: usize = alignment[i - 1].1 + 1;
        if alignment[i].1 > next {
            result += alignment[i].1 - next;
        }
    }
    result
}

/// The local time of a second of a service day.
pub open spec fn schedule_time(service_date: i32, seconds: u32) -> CivilTime {
    (CivilTime { day: service_date as int, second: 0, leap: false }).moved(seconds as int)
}

/// How far a local time is from a second of a service day, in seconds.
fn schedule_error(observed: &LocalDateTime, service_date: i32, seconds: u32) -> (result: i64)
    requires
        observed.second < 86400,
    ensures
        result == observed@.distance(schedule_time(service_date, seconds)),
        0 <= result <= 0x2_0000_0000_0000,
{
    let day: i64 = service_date as i64 + (seconds / 86400) as i64;
    let second: u32 = seconds % 86400;
    proof {
        let end = service_date * 86400 + seconds;
        assert(end / 86400 == day && end % 86400 == second);
        assert(schedule_time(service_date, seconds) == (CivilTime {
            day: day as int,
            second: second as int,
            leap: false,
        }));
    }
    let mut result: i64 = (observed.day as i64 - day) * 86400 + observed.second as i64
        - second as i64;
    if observed.nanosecond >= LEAP_NANOSECOND && observed.second >= second {
        result += 1;
    }
    if result < 0 {
        -result
    } else {
        result
    }
}

/// How far an observed stop is from the schedule of the trip at the position of its pair, where
/// both exist.
pub open spec fn pair_error(
    trip: IndexedTrip,
    service_date: i32,
    stops: Seq<ObservedStop>,
    pair: (usize, usize),
) -> Option<int> {
    if pair.0 < stops.len() && pair.1 < trip.arrival_seconds@.len()
        && trip.arrival_seconds@[pair.1 as int] is Some {
        Some(
            stops[pair.0 as int].scheduled@.distance(
                schedule_time(service_date, trip.arrival_seconds@[pair.1 as int]->0),
            ),
        )
    } else {
        None
    }
}

/// The sum and the maximum of the errors of the first `count` pairs, where all have one.
pub open spec fn errors(
    trip: IndexedTrip,
    service_date: i32,
    stops: Seq<ObservedStop>,
    alignment: Seq<(usize, usize)>,
    count: int,
) -> Option<(int, int)>
    decreases count,
{
    if count <= 0 {
        Some((0, 0))
    } else {
        match (
            errors(trip, service_date, stops, alignment, count - 1),
            pair_error(trip, service_date, stops, alignment[count - 1]),
        ) {
            (Some((total, max)), Some(error)) => Some(
                (
                    total + error,
                    if error > max {
                        error
                    } else {
                        max
                    },
                ),
            ),
            _ => None,
        }
    }
}

/// The mean and the maximum of the errors of an alignment, where it has pairs and all have an
/// error.
pub open spec fn schedule_score(
    trip: IndexedTrip,
    service_date: i32,
    stops: Seq<ObservedStop>,
    alignment: Seq<(usize, usize)>,
) -> Option<(int, int)> {
    match errors(trip, service_date, stops, alignment, alignment.len() as int) {
        Some((total, max)) => if alignment.len() == 0 {
            None
        } else {
            Some((total / (alignment.len() as int), max))
        },
        None => None,
    }
}

proof fn lemma_errors_prefix(
    trip: IndexedTrip,
    service_date: i32,
    stops: Seq<ObservedStop>,
    alignment: Seq<(usize, usize)>,
    short: int,
    long: int,
)
    requires
        0 <= short <= long,
        errors(trip, service_date, stops, alignment, short) is None,
    ensures
        errors(trip, service_date, stops, alignment, long) is None,
    decreases long,
{
    if short < long {
        lemma_errors_prefix(trip, service_date, stops, alignment, short, long - 1);
    }
}

/// Measures how far the observed stops are from the schedule of a trip: the mean, rounded
/// down, and the maximum.
pub fn score_schedule(
    trip: &IndexedTrip,
    service_date: i32,
    alignment: &Vec<(usize, usize)>,
    observations: &Vec<Observation>,
) -> (result: Option<(i64, i64)>)
    requires
        crate::observation::observations_valid(crate::observation::observed_stops(observations@)),
    ensures
        match result {
            Some((mean, max)) => schedule_score(
                *trip,
                service_date,
                crate::observation::observed_stops(observations@),
                alignment@,
            ) == Some((mean as int, max as int)),
            None => schedule_score(
                *trip,
                service_date,
                crate::observation::observed_stops(observations@),
                alignment@,
            ) is None,
        },
{
    let ghost stops = crate::observation::observed_stops(observations@);
    let mut total: i128 = 0;
    let mut max: i64 = 0;
    for i in 0..alignment.len()
        invariant
            stops == crate::observation::observed_stops(observations@),
            crate::observation::observations_valid(stops),
            errors(*trip, service_date, stops, alignment@, i as int) == Some(
                (total as int, max as int),
            ),
            0 <= total <= i * 0x2_0000_0000_0000,
            0 <= max <= 0x2_0000_0000_0000,
    {
        let (observation_index, stop_index) = alignment[i];
        if observation_index >= observations.len() || stop_index >= trip.arrival_seconds.len() {
            proof {
                assert(errors(*trip, service_date, stops, alignment@, i + 1) is None);
                lemma_errors_prefix(
                    *trip,
                    service_date,
                    stops,
                    alignment@,
                    i + 1,
                    alignment@.len() as int,
                );
            }
            return None;
        }
        match trip.arrival_seconds[stop_index] {
            Some(seconds) => {
                proof {
                    assert(stops[observation_index as int].valid());
                }
                let error = schedule_error(
                    &observations[observation_index].scheduled_local,
                    service_date,
                    seconds,
                );
                total += error as i128;
                if error > max {
                    max = error;
                }
            },
            None => {
                proof {
                    assert(errors(*trip, service_date, stops, alignment@, i + 1) is None);
                    lemma_errors_prefix(
                        *trip,
                        service_date,
                        stops,
                        alignment@,
                        i + 1,
                        alignment@.len() as int,
                    );
                }
                return None;
            },
        }
    }
    if alignment.len() == 0 {
        return None;
    }
    let count: i128 = alignment.len() as i128;
    proof {
        lemma_mean(total as int, count as int, 0x2_0000_0000_0000);
    }
    Some(((total / count) as i64, max))
}

proof fn lemma_mean(total: int, count: int, bound: int)
    by (nonlinear_arith)
    requires
        count > 0,
        0 <= total <= count * bound,
    ensures
        0 <= total / count <= bound,
{
}

/// The time at a second of a service day is as many seconds after the midnight of that day, on
/// a later day where they are more than a day has.
pub proof fn schedule_counts_from_midnight(service_date: i32, seconds: u32)
    ensures
        schedule_time(service_date, seconds).clock() == service_date * 86400 + seconds,
        0 <= schedule_time(service_date, seconds).second < 86400,
        !schedule_time(service_date, seconds).leap,
{
}

/// Whether a pair is of an observed stop and of a position at which the trip has an arrival
/// time.
pub open spec fn has_times(trip: IndexedTrip, stops: Seq<ObservedStop>, pair: (usize, usize)) -> bool {
    &&& pair.0 < stops.len()
    &&& pair.1 < trip.arrival_seconds@.len()
    &&& trip.arrival_seconds@[pair.1 as int] is Some
}

/// How far the stop of each pair is from the arrival time of the trip at its position.
pub open spec fn stop_errors(
    trip: IndexedTrip,
    service_date: i32,
    stops: Seq<ObservedStop>,
    alignment: Seq<(usize, usize)>,
) -> Seq<int> {
    Seq::new(
        alignment.len(),
        |k: int|
            stops[alignment[k].0 as int].scheduled@.distance(
                schedule_time(service_date, trip.arrival_seconds@[alignment[k].1 as int]->0),
            ),
    )
}

/// The sum of numbers.
pub open spec fn sum_of(values: Seq<int>) -> int {
    values.fold_left(0, |total: int, value: int| total + value)
}

proof fn lemma_errors_add_up(
    trip: IndexedTrip,
    service_date: i32,
    stops: Seq<ObservedStop>,
    alignment: Seq<(usize, usize)>,
    count: int,
)
    requires
        0 <= count <= alignment.len(),
    ensures
        match errors(trip, service_date, stops, alignment, count) {
            Some((total, max)) => {
                let values = stop_errors(trip, service_date, stops, alignment);
                &&& forall|k: int|
                    0 <= k < count ==> has_times(trip, stops, #[trigger] alignment[k])
                &&& total == sum_of(values.take(count))
                &&& forall|k: int| 0 <= k < count ==> 0 <= #[trigger] values[k] <= max
                &&& count > 0 ==> exists|k: int| 0 <= k < count && #[trigger] values[k] == max
                &&& count == 0 ==> max == 0
            },
            None => exists|k: int|
                0 <= k < count && !has_times(trip, stops, #[trigger] alignment[k]),
        },
    decreases count,
{
    let values = stop_errors(trip, service_date, stops, alignment);
    if count > 0 {
        lemma_errors_add_up(trip, service_date, stops, alignment, count - 1);
        let pair = alignment[count - 1];
        assert(pair_error(trip, service_date, stops, pair) is Some <==> has_times(
            trip,
            stops,
            pair,
        ));
        if errors(trip, service_date, stops, alignment, count) is Some {
            let (total, max) = errors(trip, service_date, stops, alignment, count)->0;
            let (before, old_max) = errors(trip, service_date, stops, alignment, count - 1)->0;
            assert(values.take(count).drop_last() =~= values.take(count - 1));
            assert(values.take(count).last() == values[count - 1]);
            assert(values[count - 1] == pair_error(trip, service_date, stops, pair)->0);
            if max == old_max && count > 1 {
                let k = choose|k: int| 0 <= k < count - 1 && #[trigger] values[k] == old_max;
                assert(values[k] == max);
            } else {
                assert(values[count - 1] == max);
            }
        } else if errors(trip, service_date, stops, alignment, count - 1) is Some {
            assert(!has_times(trip, stops, alignment[count - 1]));
        }
    } else {
        assert(values.take(0) =~= Seq::<int>::empty());
    }
}

proof fn lemma_uniform_sum(values: Seq<int>, value: int)
    requires
        forall|k: int| 0 <= k < values.len() ==> #[trigger] values[k] == value,
    ensures
        sum_of(values) == values.len() * value,
    decreases values.len(),
{
    if values.len() > 0 {
        let shorter = values.drop_last();
        assert forall|k: int| 0 <= k < shorter.len() implies #[trigger] shorter[k] == value by {
            assert(shorter[k] == values[k]);
        }
        lemma_uniform_sum(shorter, value);
        assert(values[values.len() - 1] == value);
        assert((values.len() - 1) * value + value == values.len() * value) by (nonlinear_arith);
    }
}

/// An alignment is scored where it has pairs and each is of an observed stop and an arrival time
/// of the trip. The mean is the sum of the errors of all its stops divided by their number and
/// rounded down, and the maximum is the largest of them.
pub proof fn score_counts_every_stop(
    trip: IndexedTrip,
    service_date: i32,
    stops: Seq<ObservedStop>,
    alignment: Seq<(usize, usize)>,
)
    ensures
        schedule_score(trip, service_date, stops, alignment) is Some <==> {
            &&& alignment.len() > 0
            &&& forall|k: int|
                0 <= k < alignment.len() ==> has_times(trip, stops, #[trigger] alignment[k])
        },
        schedule_score(trip, service_date, stops, alignment) matches Some((mean, max)) ==> {
            let values = stop_errors(trip, service_date, stops, alignment);
            let count = alignment.len() as int;
            &&& mean * count <= sum_of(values) < (mean + 1) * count
            &&& forall|k: int| 0 <= k < count ==> #[trigger] values[k] <= max
            &&& exists|k: int| 0 <= k < count && #[trigger] values[k] == max
        },
{
    let values = stop_errors(trip, service_date, stops, alignment);
    let count = alignment.len() as int;
    lemma_errors_add_up(trip, service_date, stops, alignment, count);
    assert(values.take(count) =~= values);
    if schedule_score(trip, service_date, stops, alignment) is Some {
        let (mean, max) = schedule_score(trip, service_date, stops, alignment)->0;
        let total = sum_of(values);
        assert(mean * count <= total < (mean + 1) * count) by (nonlinear_arith)
            requires
                count > 0,
                mean == total / count,
        ;
    }
}

/// Where every stop of an alignment is off by the same number of seconds, that number is both
/// the mean and the maximum.
pub proof fn same_error_is_mean(
    trip: IndexedTrip,
    service_date: i32,
    stops: Seq<ObservedStop>,
    alignment: Seq<(usize, usize)>,
    error: int,
)
    requires
        alignment.len() > 0,
        forall|k: int|
            0 <= k < alignment.len() ==> {
                &&& has_times(trip, stops, #[trigger] alignment[k])
                &&& stops[alignment[k].0 as int].scheduled@.distance(
                    schedule_time(service_date, trip.arrival_seconds@[alignment[k].1 as int]->0),
                ) == error
            },
    ensures
        schedule_score(trip, service_date, stops, alignment) == Some((error, error)),
{
    let values = stop_errors(trip, service_date, stops, alignment);
    let count = alignment.len() as int;
    score_counts_every_stop(trip, service_date, stops, alignment);
    let (mean, max) = schedule_score(trip, service_date, stops, alignment)->0;
    assert forall|k: int| 0 <= k < count implies #[trigger] values[k] == error by {
        assert(has_times(trip, stops, alignment[k]));
    }
    lemma_uniform_sum(values, error);
    assert(mean == error) by (nonlinear_arith)
        requires
            count > 0,
            mean * count <= count * error < (mean + 1) * count,
    ;
}

/// Of any positions, each neighbour adds the positions that lie between it and the one before
/// it, and none where it does not come after that one.
pub proof fn neighbours_add_skipped(positions: Seq<int>, position: int)
    ensures
        skipped(Seq::<int>::empty(), 0) == 0,
        skipped(seq![position], 1) == 0,
        positions.len() > 0 ==> {
            let longer = positions.push(position);
            let more = skipped(longer, longer.len() as int) - skipped(
                positions,
                positions.len() as int,
            );
            &&& position > positions.last() ==> more == position - positions.last() - 1
            &&& position <= positions.last() ==> more == 0
        },
{
    lemma_skipped_same(positions, positions.push(position), positions.len() as int);
}

proof fn lemma_skipped_same(positions: Seq<int>, longer: Seq<int>, count: int)
    requires
        count <= positions.len() <= longer.len(),
        forall|i: int| 0 <= i < positions.len() ==> #[trigger] positions[i] == longer[i],
    ensures
        skipped(positions, count) == skipped(longer, count),
    decreases count,
{
    if count > 1 {
        lemma_skipped_same(positions, longer, count - 1);
        assert(positions[count - 1] == longer[count - 1]);
        assert(positions[count - 2] == longer[count - 2]);
    }
}

} // verus!
