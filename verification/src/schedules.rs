//! Building the scheduled arrivals of each line and station.
use vstd::multiset::Multiset;
use vstd::prelude::*;

use crate::aliases::StationId;
use crate::index::{IndexedTrip, LineSchedule, Pattern, ScheduledStopRef};
use crate::ordered::{sort_by_key, Keyed};

verus! {

impl Keyed for ScheduledStopRef {
    open spec fn sort_key(self) -> int {
        self.seconds as int
    }

    fn key(&self) -> (key: i64) {
        self.seconds as i64
    }
}

/// The arrivals of the first `t` trips at a station of a line, and those of the next trip at
/// its first `stops` stops.
spec fn arrivals_so_far(
    trips: Seq<IndexedTrip>,
    patterns: Seq<Pattern>,
    line: Seq<char>,
    station: StationId,
    t: int,
    stops: int,
) -> Multiset<ScheduledStopRef> {
    let before = crate::index::line_arrivals(trips, patterns, line, station, t);
    if 0 <= t < trips.len() && patterns[trips[t].pattern_id as int].line@ == line {
        before.add(
            crate::index::trip_arrivals(
                trips[t],
                patterns[trips[t].pattern_id as int],
                t,
                station,
                stops,
            ),
        )
    } else {
        before
    }
}

/// Whether the schedules have a line.
spec fn has_line(schedules: Seq<LineSchedule>, line: Seq<char>) -> bool {
    exists|i: int| 0 <= i < schedules.len() && (#[trigger] schedules[i]).line@ == line
}

/// No line stands twice, and each has a place for every station.
spec fn well_shaped(schedules: Seq<LineSchedule>, stations: int) -> bool {
    &&& forall|i: int, j: int|
        0 <= i < j < schedules.len() ==> (#[trigger] schedules[i]).line@ != (
        #[trigger] schedules[j]).line@
    &&& forall|i: int|
        0 <= i < schedules.len() ==> (#[trigger] schedules[i]).by_station@.len() == stations
}

/// Each list of arrivals holds what it should.
spec fn lists_agree(
    schedules: Seq<LineSchedule>,
    trips: Seq<IndexedTrip>,
    patterns: Seq<Pattern>,
    stations: int,
    t: int,
    stops: int,
) -> bool {
    forall|i: int, station: StationId|
        #![trigger schedules[i].by_station@[station as int]]
        0 <= i < schedules.len() && station < stations
            ==> schedules[i].by_station@[station as int]@.to_multiset() == arrivals_so_far(
            trips,
            patterns,
            schedules[i].line@,
            station,
            t,
            stops,
        )
}

/// A line or station that the schedules have no place for has no arrivals.
spec fn nothing_else(
    schedules: Seq<LineSchedule>,
    trips: Seq<IndexedTrip>,
    patterns: Seq<Pattern>,
    stations: int,
    t: int,
    stops: int,
) -> bool {
    forall|line: Seq<char>, station: StationId|
        #![trigger arrivals_so_far(trips, patterns, line, station, t, stops)]
        !has_line(schedules, line) || station >= stations ==> arrivals_so_far(
            trips,
            patterns,
            line,
            station,
            t,
            stops,
        ) == Multiset::<ScheduledStopRef>::empty()
}

spec fn agree_so_far(
    schedules: Seq<LineSchedule>,
    trips: Seq<IndexedTrip>,
    patterns: Seq<Pattern>,
    stations: int,
    t: int,
    stops: int,
) -> bool {
    &&& well_shaped(schedules, stations)
    &&& lists_agree(schedules, trips, patterns, stations, t, stops)
    &&& nothing_else(schedules, trips, patterns, stations, t, stops)
}

/// The position of a line in the schedules; one that is not there is added.
fn line_position(schedules: &mut Vec<LineSchedule>, line: &String, stations: usize) -> (at: usize)
    requires
        well_shaped(old(schedules)@, stations as int),
    ensures
        well_shaped(final(schedules)@, stations as int),
        at < final(schedules)@.len(),
        final(schedules)@[at as int].line@ == line@,
        final(schedules)@.len() >= old(schedules)@.len(),
        forall|i: int|
            0 <= i < old(schedules)@.len() ==> final(schedules)@[i] == #[trigger] old(
                schedules,
            )@[i],
        has_line(old(schedules)@, line@) ==> final(schedules)@.len() == old(schedules)@.len(),
        !has_line(old(schedules)@, line@) ==> {
            &&& final(schedules)@.len() == old(schedules)@.len() + 1
            &&& at == old(schedules)@.len()
            &&& forall|station: int|
                0 <= station < stations ==> (
                #[trigger] final(schedules)@[at as int].by_station@[station])@.len() == 0
        },
{
    for i in 0..schedules.len()
        invariant
            schedules@ == old(schedules)@,
            well_shaped(schedules@, stations as int),
            forall|j: int| 0 <= j < i ==> (#[trigger] schedules@[j]).line@ != line@,
    {
        if schedules[i].line == *line {
            return i;
        }
    }
    let mut by_station: Vec<Vec<ScheduledStopRef>> = Vec::new();
    for station in 0..stations
        invariant
            by_station@.len() == station,
            forall|s: int| 0 <= s < station ==> (#[trigger] by_station@[s])@.len() == 0,
    {
        by_station.push(Vec::new());
    }
    let at = schedules.len();
    schedules.push(LineSchedule { line: line.clone(), by_station });
    at
}

proof fn lemma_line_added(
    before: Seq<LineSchedule>,
    after: Seq<LineSchedule>,
    at: int,
    trips: Seq<IndexedTrip>,
    patterns: Seq<Pattern>,
    stations: int,
    t: int,
)
    requires
        0 <= t < trips.len(),
        agree_so_far(before, trips, patterns, stations, t, 0),
        well_shaped(after, stations),
        0 <= at < after.len(),
        after[at].line@ == patterns[trips[t].pattern_id as int].line@,
        after.len() >= before.len(),
        forall|i: int| 0 <= i < before.len() ==> after[i] == #[trigger] before[i],
        has_line(before, after[at].line@) ==> after.len() == before.len(),
        !has_line(before, after[at].line@) ==> {
            &&& after.len() == before.len() + 1
            &&& at == before.len()
            &&& forall|station: int|
                0 <= station < stations ==> (#[trigger] after[at].by_station@[station])@.len() == 0
        },
    ensures
        agree_so_far(after, trips, patterns, stations, t, 0),
{
    broadcast use vstd::seq_lib::group_to_multiset_ensures;

    assert forall|i: int, station: StationId|
        #![trigger after[i].by_station@[station as int]]
        0 <= i < after.len() && station
            < stations implies after[i].by_station@[station as int]@.to_multiset()
        == arrivals_so_far(
        trips,
        patterns,
        after[i].line@,
        station,
        t,
        0,
    ) by {
        if i < before.len() {
            assert(after[i] == before[i]);
            assert(before[i].by_station@[station as int]@.to_multiset() == arrivals_so_far(
                trips,
                patterns,
                before[i].line@,
                station,
                t,
                0,
            ));
        } else {
            assert(!has_line(before, after[at].line@));
            let list = after[at].by_station@[station as int]@;
            assert(list =~= Seq::<ScheduledStopRef>::empty());
            assert(list.to_multiset() =~= Multiset::<ScheduledStopRef>::empty());
            assert(arrivals_so_far(trips, patterns, after[at].line@, station, t, 0)
                == Multiset::<ScheduledStopRef>::empty());
        }
    }
    assert forall|line: Seq<char>, station: StationId|
        #![trigger arrivals_so_far(trips, patterns, line, station, t, 0)]
        !has_line(after, line) || station >= stations implies arrivals_so_far(
        trips,
        patterns,
        line,
        station,
        t,
        0,
    ) == Multiset::<ScheduledStopRef>::empty() by {
        if has_line(before, line) && !has_line(after, line) {
            let i = choose|i: int| 0 <= i < before.len() && (#[trigger] before[i]).line@ == line;
            assert(after[i].line@ == line);
        }
    }
}

/// One more stop of a trip changes one list only.
proof fn lemma_stop_added(
    before: Seq<LineSchedule>,
    after: Seq<LineSchedule>,
    at: int,
    trips: Seq<IndexedTrip>,
    patterns: Seq<Pattern>,
    stations: int,
    t: int,
    stop: int,
)
    requires
        0 <= t < trips.len() <= 0x1_0000_0000,
        agree_so_far(before, trips, patterns, stations, t, stop),
        0 <= at < before.len(),
        before[at].line@ == patterns[trips[t].pattern_id as int].line@,
        0 <= stop < patterns[trips[t].pattern_id as int].stations@.len(),
        patterns[trips[t].pattern_id as int].stations@[stop] < stations,
        after.len() == before.len(),
        forall|i: int|
            0 <= i < before.len() ==> (#[trigger] after[i]).line@ == before[i].line@
                && after[i].by_station@.len() == before[i].by_station@.len(),
        forall|i: int, s: int|
            #![trigger after[i].by_station@[s]]
            0 <= i < before.len() && 0 <= s < stations && !(i == at && s
                == patterns[trips[t].pattern_id as int].stations@[stop]) ==> after[i].by_station@[s]
                == before[i].by_station@[s],
        ({
            let station = patterns[trips[t].pattern_id as int].stations@[stop] as int;
            let old_list = before[at].by_station@[station]@;
            let new_list = after[at].by_station@[station]@;
            match trips[t].arrival_seconds@[stop] {
                None => new_list == old_list,
                Some(seconds) => new_list.to_multiset() == old_list.to_multiset().insert(
                    ScheduledStopRef { seconds, trip_index: t as u32 },
                ),
            }
        }),
    ensures
        agree_so_far(after, trips, patterns, stations, t, stop + 1),
{
    let pattern = patterns[trips[t].pattern_id as int];
    let here = pattern.stations@[stop];
    assert forall|line: Seq<char>, station: StationId|
        line != pattern.line@ || station != here || trips[t].arrival_seconds@[stop]
            is None implies #[trigger] arrivals_so_far(
        trips,
        patterns,
        line,
        station,
        t,
        stop + 1,
    ) == arrivals_so_far(trips, patterns, line, station, t, stop) by {
    }
    if let Some(seconds) = trips[t].arrival_seconds@[stop] {
        let arrival = ScheduledStopRef { seconds, trip_index: t as u32 };
        let base = crate::index::line_arrivals(trips, patterns, pattern.line@, here, t);
        let some = crate::index::trip_arrivals(trips[t], pattern, t, here, stop);
        assert(base.add(some.insert(arrival)) =~= base.add(some).insert(arrival));
        assert(arrivals_so_far(trips, patterns, pattern.line@, here, t, stop + 1)
            == arrivals_so_far(trips, patterns, pattern.line@, here, t, stop).insert(arrival));
    }
    assert forall|i: int, j: int| 0 <= i < j < after.len() implies (#[trigger] after[i]).line@ != (
    #[trigger] after[j]).line@ by {
        assert(before[i].line@ != before[j].line@);
    }
    assert forall|i: int, station: StationId|
        #![trigger after[i].by_station@[station as int]]
        0 <= i < after.len() && station
            < stations implies after[i].by_station@[station as int]@.to_multiset()
        == arrivals_so_far(
        trips,
        patterns,
        after[i].line@,
        station,
        t,
        stop + 1,
    ) by {
        let old_list = before[i].by_station@[station as int];
        assert(after[i].line@ == before[i].line@);
        assert(old_list@.to_multiset() == arrivals_so_far(
            trips,
            patterns,
            before[i].line@,
            station,
            t,
            stop,
        ));
        if !(i == at && station == here) {
            assert(after[i].by_station@[station as int] == old_list);
            if i != at {
                if i < at {
                    assert(before[i].line@ != before[at].line@);
                } else {
                    assert(before[at].line@ != before[i].line@);
                }
            }
        }
    }
    assert forall|line: Seq<char>, station: StationId|
        #![trigger arrivals_so_far(trips, patterns, line, station, t, stop + 1)]
        !has_line(after, line) || station >= stations implies arrivals_so_far(
        trips,
        patterns,
        line,
        station,
        t,
        stop + 1,
    ) == Multiset::<ScheduledStopRef>::empty() by {
        if has_line(before, line) && !has_line(after, line) {
            let i = choose|i: int| 0 <= i < before.len() && (#[trigger] before[i]).line@ == line;
            assert(after[i].line@ == line);
        }
        if line == pattern.line@ {
            assert(after[at].line@ == line);
        }
        assert(arrivals_so_far(trips, patterns, line, station, t, stop)
            == Multiset::<ScheduledStopRef>::empty());
    }
}

/// A finished trip counts among the first ones.
proof fn lemma_trip_added(
    schedules: Seq<LineSchedule>,
    trips: Seq<IndexedTrip>,
    patterns: Seq<Pattern>,
    stations: int,
    t: int,
)
    requires
        0 <= t < trips.len(),
        agree_so_far(
            schedules,
            trips,
            patterns,
            stations,
            t,
            patterns[trips[t].pattern_id as int].stations@.len() as int,
        ),
    ensures
        agree_so_far(schedules, trips, patterns, stations, t + 1, 0),
{
    let stops = patterns[trips[t].pattern_id as int].stations@.len() as int;
    assert forall|line: Seq<char>, station: StationId| #[trigger]
        arrivals_so_far(trips, patterns, line, station, t + 1, 0) == arrivals_so_far(
        trips,
        patterns,
        line,
        station,
        t,
        stops,
    ) by {
        let all = crate::index::line_arrivals(trips, patterns, line, station, t + 1);
        assert(all.add(Multiset::<ScheduledStopRef>::empty()) =~= all);
    }
    assert forall|i: int, station: StationId|
        #![trigger schedules[i].by_station@[station as int]]
        0 <= i < schedules.len() && station
            < stations implies schedules[i].by_station@[station as int]@.to_multiset()
        == arrivals_so_far(
        trips,
        patterns,
        schedules[i].line@,
        station,
        t + 1,
        0,
    ) by {
        assert(schedules[i].by_station@[station as int]@.to_multiset() == arrivals_so_far(
            trips,
            patterns,
            schedules[i].line@,
            station,
            t,
            stops,
        ));
    }
    assert forall|line: Seq<char>, station: StationId|
        #![trigger arrivals_so_far(trips, patterns, line, station, t + 1, 0)]
        !has_line(schedules, line) || station >= stations implies arrivals_so_far(
        trips,
        patterns,
        line,
        station,
        t + 1,
        0,
    ) == Multiset::<ScheduledStopRef>::empty() by {
        assert(arrivals_so_far(trips, patterns, line, station, t, stops)
            == Multiset::<ScheduledStopRef>::empty());
    }
}

/// What a list of the schedules holds is found there.
proof fn lemma_found(schedules: Seq<LineSchedule>, stations: int, i: int, station: StationId)
    requires
        well_shaped(schedules, stations),
        0 <= i < schedules.len(),
    ensures
        crate::index::scheduled_at(schedules, schedules[i].line@, station) == if station
            < stations {
            schedules[i].by_station@[station as int]@
        } else {
            Seq::empty()
        },
    decreases schedules.len(),
{
    if i > 0 {
        let rest = schedules.drop_first();
        assert(schedules[0].line@ != schedules[i].line@);
        assert forall|a: int, b: int| 0 <= a < b < rest.len() implies (#[trigger] rest[a]).line@
            != (#[trigger] rest[b]).line@ by {
            assert(schedules[a + 1].line@ != schedules[b + 1].line@);
        }
        assert forall|a: int| 0 <= a < rest.len() implies (#[trigger] rest[a]).by_station@.len()
            == stations by {
            assert(schedules[a + 1].by_station@.len() == stations);
        }
        lemma_found(rest, stations, i - 1, station);
        assert(rest[i - 1] == schedules[i]);
    }
}

proof fn lemma_not_found(schedules: Seq<LineSchedule>, line: Seq<char>, station: StationId)
    requires
        !has_line(schedules, line),
    ensures
        crate::index::scheduled_at(schedules, line, station).len() == 0,
    decreases schedules.len(),
{
    if schedules.len() > 0 {
        let rest = schedules.drop_first();
        assert(schedules[0].line@ != line);
        if has_line(rest, line) {
            let i = choose|i: int| 0 <= i < rest.len() && (#[trigger] rest[i]).line@ == line;
            assert(schedules[i + 1].line@ == line);
        }
        lemma_not_found(rest, line, station);
    }
}

proof fn lemma_finished(
    schedules: Seq<LineSchedule>,
    trips: Seq<IndexedTrip>,
    patterns: Seq<Pattern>,
    stations: int,
)
    requires
        agree_so_far(schedules, trips, patterns, stations, trips.len() as int, 0),
        lists_sorted(schedules),
    ensures
        crate::index::schedules_agree(schedules, trips, patterns),
{
    broadcast use vstd::seq_lib::group_to_multiset_ensures;

    assert forall|line: Seq<char>, station: StationId|
        #![trigger crate::index::scheduled_at(schedules, line, station)]
        {
            &&& crate::index::by_seconds(crate::index::scheduled_at(schedules, line, station))
            &&& crate::index::scheduled_at(schedules, line, station).to_multiset()
                == crate::index::line_arrivals(trips, patterns, line, station, trips.len() as int)
        } by {
        let list = crate::index::scheduled_at(schedules, line, station);
        let all = arrivals_so_far(trips, patterns, line, station, trips.len() as int, 0);
        if has_line(schedules, line) {
            let i = choose|i: int|
                0 <= i < schedules.len() && (#[trigger] schedules[i]).line@ == line;
            lemma_found(schedules, stations, i, station);
            if station < stations {
                assert(schedules[i].by_station@[station as int]@.to_multiset() == all);
                assert(crate::index::by_seconds(schedules[i].by_station@[station as int]@));
            }
        } else {
            lemma_not_found(schedules, line, station);
        }
        if !(has_line(schedules, line) && station < stations) {
            assert(list =~= Seq::<ScheduledStopRef>::empty());
            assert(list.to_multiset() =~= Multiset::<ScheduledStopRef>::empty());
        }
    }
}

/// Each list of arrivals is in order.
spec fn lists_sorted(schedules: Seq<LineSchedule>) -> bool {
    forall|i: int, station: int|
        #![trigger schedules[i].by_station@[station]]
        0 <= i < schedules.len() && 0 <= station < schedules[i].by_station@.len()
            ==> crate::index::by_seconds(schedules[i].by_station@[station]@)
}

/// Whether schedules have the same lines, with the same arrivals in each list.
spec fn same_lists(before: Seq<LineSchedule>, after: Seq<LineSchedule>) -> bool {
    &&& after.len() == before.len()
    &&& forall|i: int|
        0 <= i < before.len() ==> (#[trigger] after[i]).line@ == before[i].line@
            && after[i].by_station@.len() == before[i].by_station@.len()
    &&& forall|i: int, station: int|
        #![trigger after[i].by_station@[station]]
        0 <= i < before.len() && 0 <= station < before[i].by_station@.len()
            ==> after[i].by_station@[station]@.to_multiset()
            == before[i].by_station@[station]@.to_multiset()
}

proof fn lemma_same_lists(
    before: Seq<LineSchedule>,
    after: Seq<LineSchedule>,
    trips: Seq<IndexedTrip>,
    patterns: Seq<Pattern>,
    stations: int,
)
    requires
        agree_so_far(before, trips, patterns, stations, trips.len() as int, 0),
        same_lists(before, after),
    ensures
        agree_so_far(after, trips, patterns, stations, trips.len() as int, 0),
{
    let t = trips.len() as int;
    assert forall|i: int, j: int| 0 <= i < j < after.len() implies (#[trigger] after[i]).line@ != (
    #[trigger] after[j]).line@ by {
        assert(before[i].line@ != before[j].line@);
    }
    assert forall|i: int, station: StationId|
        #![trigger after[i].by_station@[station as int]]
        0 <= i < after.len() && station
            < stations implies after[i].by_station@[station as int]@.to_multiset()
        == arrivals_so_far(trips, patterns, after[i].line@, station, t, 0) by {
        assert(after[i].line@ == before[i].line@);
        assert(before[i].by_station@.len() == stations);
        assert(before[i].by_station@[station as int]@.to_multiset() == arrivals_so_far(
            trips,
            patterns,
            before[i].line@,
            station,
            t,
            0,
        ));
    }
    assert forall|line: Seq<char>, station: StationId|
        #![trigger arrivals_so_far(trips, patterns, line, station, t, 0)]
        !has_line(after, line) || station >= stations implies arrivals_so_far(
        trips,
        patterns,
        line,
        station,
        t,
        0,
    ) == Multiset::<ScheduledStopRef>::empty() by {
        if has_line(before, line) && !has_line(after, line) {
            let i = choose|i: int| 0 <= i < before.len() && (#[trigger] before[i]).line@ == line;
            assert(after[i].line@ == line);
        }
    }
}

/// Sorts the lists of a line.
fn sort_lists(lists: Vec<Vec<ScheduledStopRef>>) -> (result: Vec<Vec<ScheduledStopRef>>)
    ensures
        result@.len() == lists@.len(),
        forall|i: int|
            0 <= i < lists@.len() ==> crate::index::by_seconds((#[trigger] result@[i])@)
                && result@[i]@.to_multiset() == lists@[i]@.to_multiset(),
{
    let ghost all = lists@;
    let ghost key = crate::ordered::sort_keys::<ScheduledStopRef>();
    let mut result: Vec<Vec<ScheduledStopRef>> = Vec::new();
    for list in it: lists
        invariant
            it.seq() == all,
            key == crate::ordered::sort_keys::<ScheduledStopRef>(),
            result@.len() == it.index(),
            forall|i: int|
                0 <= i < result@.len() ==> crate::index::by_seconds((#[trigger] result@[i])@)
                    && result@[i]@.to_multiset() == all[i]@.to_multiset(),
    {
        let ghost entries = list@;
        let sorted = sort_by_key(list);
        proof {
            crate::ordered::sorting_orders(entries, key);
            assert forall|a: int, b: int| 0 <= a < b < sorted@.len() implies (
            #[trigger] sorted@[a]).seconds <= (#[trigger] sorted@[b]).seconds by {
                assert(key(sorted@[a]) <= key(sorted@[b]));
            }
        }
        result.push(sorted);
    }
    result
}

/// Sorts the lists of every line.
fn sort_schedules(schedules: Vec<LineSchedule>) -> (result: Vec<LineSchedule>)
    ensures
        same_lists(schedules@, result@),
        lists_sorted(result@),
{
    let ghost all = schedules@;
    let mut result: Vec<LineSchedule> = Vec::new();
    proof {
        assert(all.take(0) =~= Seq::<LineSchedule>::empty());
    }
    for schedule in it: schedules
        invariant
            it.seq() == all,
            same_lists(all.take(it.index() as int), result@),
            lists_sorted(result@),
    {
        let ghost i = it.index() as int;
        let ghost before = result@;
        let line = schedule.line;
        let by_station = sort_lists(schedule.by_station);
        result.push(LineSchedule { line, by_station });
        proof {
            assert(schedule == all[i]);
            assert forall|k: int| 0 <= k < i implies (#[trigger] result@[k]) == before[k]
                && all.take(i + 1)[k] == all.take(i)[k] by {}
            assert forall|k: int, station: int|
                #![trigger result@[k].by_station@[station]]
                0 <= k < result@.len() && 0 <= station
                    < result@[k].by_station@.len() implies crate::index::by_seconds(
                result@[k].by_station@[station]@,
            ) by {
                if k < i {
                    assert(before[k].by_station@[station] == result@[k].by_station@[station]);
                }
            }
            assert forall|k: int, station: int|
                #![trigger result@[k].by_station@[station]]
                0 <= k < i + 1 && 0 <= station
                    < all.take(i + 1)[k].by_station@.len() implies result@[k].by_station@[
                    station
                ]@.to_multiset() == all.take(i + 1)[k].by_station@[station]@.to_multiset() by {
                if k < i {
                    assert(before[k].by_station@[station] == result@[k].by_station@[station]);
                }
            }
        }
    }
    proof {
        assert(all.take(all.len() as int) =~= all);
    }
    result
}

/// Builds the scheduled arrivals of the trips, for `stations` stations.
pub fn build_schedules(trips: &Vec<IndexedTrip>, patterns: &Vec<Pattern>, stations: usize) -> (
    schedules: Vec<LineSchedule>)
    requires
        crate::index::trips_fit(trips@, patterns@),
        forall|p: int, s: int|
            #![trigger patterns@[p].stations@[s]]
            0 <= p < patterns@.len() && 0 <= s < patterns@[p].stations@.len()
                ==> patterns@[p].stations@[s] < stations,
    ensures
        crate::index::schedules_agree(schedules@, trips@, patterns@),
{
    let mut schedules: Vec<LineSchedule> = Vec::new();
    proof {
        let none = Multiset::<ScheduledStopRef>::empty();
        assert(none.add(none) =~= none);
    }
    for t in 0..trips.len()
        invariant
            crate::index::trips_fit(trips@, patterns@),
            forall|p: int, s: int|
                #![trigger patterns@[p].stations@[s]]
                0 <= p < patterns@.len() && 0 <= s < patterns@[p].stations@.len()
                    ==> patterns@[p].stations@[s] < stations,
            agree_so_far(schedules@, trips@, patterns@, stations as int, t as int, 0),
    {
        let trip = &trips[t];
        let pattern = &patterns[trip.pattern_id];
        let ghost before = schedules@;
        let at = line_position(&mut schedules, &pattern.line, stations);
        proof {
            lemma_line_added(
                before,
                schedules@,
                at as int,
                trips@,
                patterns@,
                stations as int,
                t as int,
            );
        }
        for stop in 0..pattern.stations.len()
            invariant
                0 <= t < trips@.len() <= 0x1_0000_0000,
                *trip == trips@[t as int],
                *pattern == patterns@[trip.pattern_id as int],
                trip.pattern_id < patterns@.len(),
                trip.arrival_seconds@.len() == pattern.stations@.len(),
                forall|p: int, s: int|
                    #![trigger patterns@[p].stations@[s]]
                    0 <= p < patterns@.len() && 0 <= s < patterns@[p].stations@.len()
                        ==> patterns@[p].stations@[s] < stations,
                at < schedules@.len(),
                schedules@[at as int].line@ == pattern.line@,
                agree_so_far(
                    schedules@,
                    trips@,
                    patterns@,
                    stations as int,
                    t as int,
                    stop as int,
                ),
        {
            let station = pattern.stations[stop] as usize;
            let ghost so_far = schedules@;
            proof {
                assert(patterns@[trip.pattern_id as int].stations@[stop as int] < stations);
                assert(so_far[at as int].by_station@[pattern.stations@[stop as int] as int]@.len()
                    >= 0);
            }
            if let Some(seconds) = trip.arrival_seconds[stop] {
                let arrival = ScheduledStopRef { seconds, trip_index: t as u32 };
                let entry = &mut schedules[at];
                entry.by_station[station].push(arrival);
                proof {
                    broadcast use vstd::seq_lib::group_to_multiset_ensures;

                    let list = so_far[at as int].by_station@[station as int]@;
                    assert(list.push(arrival).to_multiset() == list.to_multiset().insert(arrival));
                }
            }
            proof {
                lemma_stop_added(
                    so_far,
                    schedules@,
                    at as int,
                    trips@,
                    patterns@,
                    stations as int,
                    t as int,
                    stop as int,
                );
            }
        }
        proof {
            lemma_trip_added(schedules@, trips@, patterns@, stations as int, t as int);
        }
    }
    let ghost collected = schedules@;
    let sorted = sort_schedules(schedules);
    proof {
        lemma_same_lists(collected, sorted@, trips@, patterns@, stations as int);
        lemma_finished(sorted@, trips@, patterns@, stations as int);
    }
    sorted
}

} // verus!
